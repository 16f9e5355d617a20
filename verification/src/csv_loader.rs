//! Reading delimited text into a table.
//!
//! The text is cut where the lines to skip end, the rest is split into
//! records, and the records become the labels and the rows of a table.

use crate::dataset::{DataSet, Table};
use crate::quotes::{has_open_quote, quote_left_open};
use crate::text::string_texts;
use vstd::prelude::*;
use vstd::slice::slice_subrange;
use vstd::string::*;

verus! {

/// What ends a record.
#[derive(Clone, Copy, Debug)]
pub enum Terminator {
    /// A carriage return, a line feed, or the two in this order.
    CRLF,
    /// The given byte.
    Any(u8),
}

/// The settings of a reading, as plain values.
pub struct Settings {
    /// How many lines at the front of the text are left out.
    pub skip_lines: nat,
    /// The byte that quotes a field.
    pub quote: u8,
    /// The byte that parts the fields of a record.
    pub delimiter: u8,
    /// What ends a record.
    pub terminator: Terminator,
    /// Whether the first record holds the labels of the columns.
    pub headers: bool,
}

/// How a text is read: see `Settings`. The setters each change one setting
/// and keep the others.
#[derive(Debug)]
pub struct Options {
    skip_lines: usize,
    quote: u8,
    delimiter: u8,
    terminator: Terminator,
    headers: bool,
}

impl View for Options {
    type V = Settings;

    closed spec fn view(&self) -> Settings {
        Settings {
            skip_lines: self.skip_lines as nat,
            quote: self.quote,
            delimiter: self.delimiter,
            terminator: self.terminator,
            headers: self.headers,
        }
    }
}

impl Clone for Options {
    fn clone(&self) -> (o: Self)
        ensures
            o@ == self@,
    {
        Options {
            skip_lines: self.skip_lines,
            quote: self.quote,
            delimiter: self.delimiter,
            terminator: self.terminator,
            headers: self.headers,
        }
    }
}

impl Options {
    /// No line skipped, fields quoted by `"` and parted by `,`, records
    /// ended by a line break, labels in the first record.
    pub fn new() -> (o: Self)
        ensures
            o@ == (Settings {
                skip_lines: 0,
                quote: 34,
                delimiter: 44,
                terminator: Terminator::CRLF,
                headers: true,
            }),
    {
        Options {
            skip_lines: 0,
            quote: 34,
            delimiter: 44,
            terminator: Terminator::CRLF,
            headers: true,
        }
    }

    /// Sets the number of lines to leave out at the front of the text.
    pub fn skip_lines(self, skip_lines: usize) -> (o: Self)
        ensures
            o@ == (Settings { skip_lines: skip_lines as nat, ..self@ }),
    {
        let mut o = self;
        o.skip_lines = skip_lines;
        o
    }

    /// Sets the byte that quotes a field.
    pub fn quote(self, quote: u8) -> (o: Self)
        ensures
            o@ == (Settings { quote, ..self@ }),
    {
        let mut o = self;
        o.quote = quote;
        o
    }

    /// Sets the byte that parts the fields of a record.
    pub fn delimiter(self, delimiter: u8) -> (o: Self)
        ensures
            o@ == (Settings { delimiter, ..self@ }),
    {
        let mut o = self;
        o.delimiter = delimiter;
        o
    }

    /// Sets the byte that ends a record.
    pub fn terminator(self, terminator: u8) -> (o: Self)
        ensures
            o@ == (Settings { terminator: Terminator::Any(terminator), ..self@ }),
    {
        let mut o = self;
        o.terminator = Terminator::Any(terminator);
        o
    }

    /// Sets whether the first record holds the labels of the columns.
    pub fn headers(self, headers: bool) -> (o: Self)
        ensures
            o@ == (Settings { headers, ..self@ }),
    {
        let mut o = self;
        o.headers = headers;
        o
    }
}

/// Why a text was not read. No table is made of a part of a text.
#[derive(Debug)]
pub enum LoadError {
    /// The text could not be split into records: a quoted field is never
    /// closed, or the reader reports an error. With the reason in words.
    Malformed(String),
    /// The record `record`, counted from 0, has `found` fields, and the
    /// first record has `expected`.
    UnequalLengths { record: usize, expected: usize, found: usize },
}

/// The length of the first line of `s` with the line feed that ends it: of
/// all of `s` where it holds no line feed.
pub open spec fn first_line_len(s: Seq<u8>) -> nat
    decreases s.len(),
{
    if s.len() == 0 {
        0
    } else if s[0] == 10 {
        1
    } else {
        1 + first_line_len(s.drop_first())
    }
}

/// `s` without its first `n` lines.
pub open spec fn without_lines(s: Seq<u8>, n: nat) -> Seq<u8>
    decreases n,
{
    if n == 0 {
        s
    } else {
        without_lines(s.skip(first_line_len(s) as int), (n - 1) as nat)
    }
}

proof fn lemma_first_line_len(s: Seq<u8>, k: int)
    requires
        0 <= k <= s.len(),
        forall|j: int| 0 <= j < k ==> s[j] != 10,
        k < s.len() ==> s[k] == 10,
    ensures
        first_line_len(s) == if k < s.len() {
            k + 1
        } else {
            k
        },
    decreases k,
{
    if k > 0 {
        lemma_first_line_len(s.drop_first(), k - 1);
    }
}

proof fn lemma_without_lines_empty(s: Seq<u8>, n: nat)
    requires
        s.len() == 0,
    ensures
        without_lines(s, n) == s,
    decreases n,
{
    if n > 0 {
        assert(s.skip(0) =~= s);
        lemma_without_lines_empty(s, (n - 1) as nat);
    }
}

/// Whether `line` holds no line feed.
pub open spec fn no_line_feed(line: Seq<u8>) -> bool {
    forall|i: int| 0 <= i < line.len() ==> line[i] != 10
}

/// A line put before a text and skipped leaves what is skipped of that
/// text: with `n` lines to skip after it, a text that begins with `line`
/// and a line feed is read as `rest` is with `n` lines to skip.
pub proof fn lemma_skipped_line(line: Seq<u8>, rest: Seq<u8>, n: nat)
    requires
        no_line_feed(line),
    ensures
        without_lines(line + seq![10u8] + rest, n + 1) == without_lines(rest, n),
{
    let whole = line + seq![10u8] + rest;
    lemma_first_line_len(whole, line.len() as int);
    assert(whole.skip(line.len() as int + 1) =~= rest);
}

/// `lines`, each with a line feed after it, one after the other.
pub open spec fn joined_lines(lines: Seq<Seq<u8>>) -> Seq<u8>
    decreases lines.len(),
{
    if lines.len() == 0 {
        Seq::empty()
    } else {
        lines[0] + seq![10u8] + joined_lines(lines.drop_first())
    }
}

/// Lines put before a text and skipped leave that text: a text that
/// begins with `lines`, read with as many lines to skip, is read as `rest`
/// is with none.
pub proof fn lemma_skipped_lines(lines: Seq<Seq<u8>>, rest: Seq<u8>)
    requires
        forall|k: int| 0 <= k < lines.len() ==> no_line_feed(#[trigger] lines[k]),
    ensures
        without_lines(joined_lines(lines) + rest, lines.len()) == rest,
    decreases lines.len(),
{
    if lines.len() == 0 {
        assert(joined_lines(lines) + rest =~= rest);
    } else {
        let tail = lines.drop_first();
        assert forall|k: int| 0 <= k < tail.len() implies no_line_feed(#[trigger] tail[k]) by {
            assert(tail[k] == lines[k + 1]);
        }
        lemma_skipped_lines(tail, rest);
        assert(joined_lines(lines) + rest =~= lines[0] + seq![10u8] + (joined_lines(tail)
            + rest));
        lemma_skipped_line(lines[0], joined_lines(tail) + rest, tail.len());
    }
}

/// Where `data` begins once its first `count` lines are left out.
pub fn after_lines(data: &[u8], count: usize) -> (offset: usize)
    ensures
        offset <= data@.len(),
        data@.skip(offset as int) == without_lines(data@, count as nat),
{
    let mut offset: usize = 0;
    let mut skipped: usize = 0;
    assert(data@.skip(0) =~= data@);
    while skipped < count && offset < data.len()
        invariant
            offset <= data@.len(),
            skipped <= count,
            without_lines(data@, count as nat) == without_lines(
                data@.skip(offset as int),
                (count - skipped) as nat,
            ),
        decreases data@.len() - offset,
    {
        let ghost rest = data@.skip(offset as int);
        let mut end: usize = offset;
        while end < data.len() && data[end] != 10
            invariant
                offset <= end <= data@.len(),
                rest == data@.skip(offset as int),
                forall|j: int| 0 <= j < end - offset ==> rest[j] != 10,
            decreases data@.len() - end,
        {
            end += 1;
        }
        proof {
            lemma_first_line_len(rest, end - offset);
        }
        if end < data.len() {
            end += 1;
        }
        proof {
            assert(rest.skip(end - offset) =~= data@.skip(end as int));
        }
        offset = end;
        skipped += 1;
    }
    proof {
        if skipped < count {
            lemma_without_lines_empty(data@.skip(offset as int), (count - skipped) as nat);
        }
    }
    offset
}

/// The texts of the fields of each record.
pub open spec fn record_texts(records: Seq<Vec<String>>) -> Seq<Seq<Seq<char>>> {
    Seq::new(records.len(), |i: int| string_texts(records[i]@))
}

/// Whether each record has as many fields as the first.
pub open spec fn uniform(records: Seq<Seq<Seq<char>>>) -> bool {
    forall|i: int| 0 <= i < records.len() ==> (#[trigger] records[i]).len() == records[0].len()
}

/// The table that `records` make. Where there is no record, it has no
/// column. Else it has as many columns as the first record has fields. With
/// `headers` the first record gives the labels and the others are the rows;
/// without, each label is empty and all records are rows.
pub open spec fn table_of(records: Seq<Seq<Seq<char>>>, headers: bool) -> Table {
    if records.len() == 0 {
        Table { labels: Seq::empty(), columns: Seq::empty() }
    } else {
        let rows = if headers {
            records.skip(1)
        } else {
            records
        };
        Table {
            labels: if headers {
                records[0]
            } else {
                Seq::new(records[0].len(), |c: int| Seq::<char>::empty())
            },
            columns: Seq::new(
                records[0].len(),
                |c: int| Seq::new(rows.len(), |r: int| rows[r][c]),
            ),
        }
    }
}

/// The error of the csv crate.
#[verifier::external_type_specification]
#[verifier::external_body]
pub struct ExCsvError(csv::Error);

/// The records that the csv crate reads from `data`, a text held in
/// memory, with the given quote, delimiter and terminator, every record
/// bound to the length of the first one, and the first record taken for a
/// header or not as `has_headers` says; `None` where it reports an error.
pub uninterp spec fn csv_records(
    data: Seq<u8>,
    quote: u8,
    delimiter: u8,
    terminator: Terminator,
    has_headers: bool,
) -> Option<Seq<Seq<Seq<char>>>>;

/// Reads `data` with a reader of the csv crate: `ReaderBuilder::new`, its
/// setters `quote`, `terminator`, `delimiter` and `has_headers`, then
/// `from_reader` and `Reader::records`, up to the first error. The contract
/// gives the outcome its name and claims nothing more of it.
#[verifier::external_body]
fn read_records(
    data: &[u8],
    quote: u8,
    delimiter: u8,
    terminator: Terminator,
    has_headers: bool,
) -> (r: Result<Vec<Vec<String>>, csv::Error>)
    ensures
        match r {
            Ok(records) => csv_records(data@, quote, delimiter, terminator, has_headers) == Some(
                record_texts(records@),
            ),
            Err(_) => csv_records(data@, quote, delimiter, terminator, has_headers) is None,
        },
{
    let terminator = match terminator {
        Terminator::CRLF => csv::Terminator::CRLF,
        Terminator::Any(byte) => csv::Terminator::Any(byte),
    };
    let mut reader = csv::ReaderBuilder::new().quote(quote).terminator(terminator).delimiter(
        delimiter,
    ).has_headers(has_headers).from_reader(data);
    let mut records: Vec<Vec<String>> = Vec::new();
    for record in reader.records() {
        records.push(record?.iter().map(String::from).collect());
    }
    Ok(records)
}

/// What the csv crate says of its error `error`, by its `Display`. Nothing
/// is claimed of the words.
#[verifier::external_body]
fn error_message(error: &csv::Error) -> String {
    error.to_string()
}

/// The labels that the first record gives, or as many empty ones.
fn labels_of(first: &Vec<String>, headers: bool) -> (labels: Vec<&str>)
    ensures
        crate::text::str_texts(labels@) == if headers {
            string_texts(first@)
        } else {
            Seq::new(first@.len(), |c: int| Seq::<char>::empty())
        },
{
    let mut labels: Vec<&str> = Vec::new();
    let mut c: usize = 0;
    proof {
        reveal_strlit("");
    }
    while c < first.len()
        invariant
            c <= first@.len(),
            labels@.len() == c,
            ""@.len() == 0,
            forall|j: int|
                0 <= j < c ==> (#[trigger] labels@[j])@ == if headers {
                    first@[j]@
                } else {
                    Seq::<char>::empty()
                },
        decreases first@.len() - c,
    {
        if headers {
            labels.push(first[c].as_str());
        } else {
            assert(""@ =~= Seq::<char>::empty());
            labels.push("");
        }
        c += 1;
    }
    assert(crate::text::str_texts(labels@) =~= if headers {
        string_texts(first@)
    } else {
        Seq::new(first@.len(), |c: int| Seq::<char>::empty())
    });
    labels
}

/// Whether `r` is what is made of `records`: the table of `table_of` where
/// each record has as many fields as the first, and else the error that
/// names the first record that has not.
pub open spec fn made_of(
    r: Result<DataSet, LoadError>,
    records: Seq<Seq<Seq<char>>>,
    headers: bool,
) -> bool {
    match r {
        Ok(ds) => uniform(records) && ds@ == table_of(records, headers) && ds@.wf(),
        Err(LoadError::UnequalLengths { record, expected, found }) => {
            &&& 0 < record < records.len()
            &&& expected == records[0].len()
            &&& found == records[record as int].len()
            &&& found != expected
            &&& forall|i: int| 0 <= i < record ==> (#[trigger] records[i]).len() == expected
        },
        Err(LoadError::Malformed(_)) => false,
    }
}

/// The records decide the outcome: two results made of the same records
/// hold the same table, or fail alike.
pub proof fn lemma_outcome_determined(
    a: Result<DataSet, LoadError>,
    b: Result<DataSet, LoadError>,
    records: Seq<Seq<Seq<char>>>,
    headers: bool,
)
    requires
        made_of(a, records, headers),
        made_of(b, records, headers),
    ensures
        a is Ok <==> b is Ok,
        a is Ok ==> a->Ok_0@ == b->Ok_0@,
        a is Err ==> a->Err_0 == b->Err_0,
{
    if let Err(LoadError::UnequalLengths { record, expected, found }) = a {
        if let Err(LoadError::UnequalLengths { record: other, expected: e, found: f }) = b {
            if record < other {
                assert(records[record as int].len() == e);
            } else if other < record {
                assert(records[other as int].len() == expected);
            }
        } else {
            assert(records[record as int].len() == records[0].len());
        }
    } else if let Err(LoadError::UnequalLengths { record, expected, found }) = b {
        assert(records[record as int].len() == records[0].len());
    }
}

/// The table that `records` make: see `table_of`. It fails where a record
/// has not as many fields as the first, and names the first such record.
pub fn records_to_dataset(records: Vec<Vec<String>>, headers: bool) -> (r: Result<
    DataSet,
    LoadError,
>)
    ensures
        made_of(r, record_texts(records@), headers),
{
    let ghost texts = record_texts(records@);
    if records.len() == 0 {
        let ds = DataSet::new(Vec::new(), 0);
        assert(ds@.labels =~= table_of(texts, headers).labels);
        assert(ds@.columns =~= table_of(texts, headers).columns);
        return Ok(ds);
    }
    let width: usize = records[0].len();
    let mut i: usize = 1;
    while i < records.len()
        invariant
            1 <= i <= records@.len(),
            width == records@[0]@.len(),
            texts == record_texts(records@),
            forall|j: int| 0 <= j < i ==> (#[trigger] records@[j])@.len() == width,
        decreases records@.len() - i,
    {
        let found: usize = records[i].len();
        if found != width {
            proof {
                assert forall|j: int| 0 <= j < i implies (#[trigger] texts[j]).len()
                    == width by {
                    assert(records@[j]@.len() == width);
                }
            }
            return Err(LoadError::UnequalLengths { record: i, expected: width, found });
        }
        i += 1;
    }
    assert(uniform(texts)) by {
        assert forall|j: int| 0 <= j < texts.len() implies (#[trigger] texts[j]).len()
            == texts[0].len() by {
            assert(records@[j]@.len() == width);
        }
    }
    let labels = labels_of(&records[0], headers);
    let mut ds = DataSet::new(labels, 0);
    let ghost rows = if headers {
        texts.skip(1)
    } else {
        texts
    };
    let ghost want = table_of(texts, headers);
    let mut index: usize = 0;
    let ghost mut added: int = 0;
    let count: usize = records.len();
    proof {
        assert(crate::text::str_texts(labels@).len() == width);
        assert forall|c: int| 0 <= c < width implies #[trigger] ds@.columns[c] =~= Seq::new(
            0,
            |r: int| rows[r][c],
        ) by {}
        assert(ds@.columns =~= Seq::new(width as nat, |c: int| Seq::new(0, |r: int| rows[r][c])));
    }
    for row in it: records.into_iter()
        invariant
            it.seq() == records@,
            index == it.index(),
            count == records@.len(),
            texts == record_texts(records@),
            uniform(texts),
            records@.len() > 0,
            width == texts[0].len(),
            rows == if headers {
                texts.skip(1)
            } else {
                texts
            },
            added == if headers && index > 0 {
                index - 1
            } else {
                index as int
            },
            ds@.wf(),
            ds@.labels == want.labels,
            want == table_of(texts, headers),
            ds@.columns == Seq::new(width as nat, |c: int| Seq::new(added as nat, |r: int| rows[r][c])),
    {
        if !(headers && index == 0) {
            proof {
                assert(texts[index as int].len() == texts[0].len());
                assert(string_texts(row@) == rows[added]);
            }
            let ghost before = ds@;
            ds.add_row(row);
            proof {
                assert(ds@.columns =~= Seq::new(
                    width as nat,
                    |c: int| Seq::new((added + 1) as nat, |r: int| rows[r][c]),
                )) by {
                    assert forall|c: int| 0 <= c < width implies #[trigger] ds@.columns[c]
                        =~= Seq::new((added + 1) as nat, |r: int| rows[r][c]) by {
                        assert(ds@.columns[c] == before.columns[c].push(rows[added][c]));
                    }
                }
                added = added + 1;
            }
        }
        index += 1;
    }
    assert(added == rows.len());
    assert(ds@.columns =~= want.columns);
    Ok(ds)
}

/// The table that `text` holds. What is read is `text` without the lines
/// that `options` skip. It fails where that holds a quoted field that is
/// never closed. Else the csv crate reads the records, the first one with
/// the others, and `records_to_dataset` makes the table: it fails where the
/// csv crate reports an error, or where a record has not as many fields as
/// the first.
pub fn text_to_dataset(text: &str, options: &Options) -> (r: Result<DataSet, LoadError>)
    ensures
        ({
            let data = without_lines(text.spec_bytes(), options@.skip_lines);
            if quote_left_open(data, options@.quote, options@.delimiter, options@.terminator) {
                r matches Err(LoadError::Malformed(_))
            } else {
                match csv_records(
                    data,
                    options@.quote,
                    options@.delimiter,
                    options@.terminator,
                    false,
                ) {
                    Some(records) => made_of(r, records, options@.headers),
                    None => r matches Err(LoadError::Malformed(_)),
                }
            }
        }),
{
    let bytes = text.as_bytes();
    let offset = after_lines(bytes, options.skip_lines);
    let data = slice_subrange(bytes, offset, bytes.len());
    assert(data@ =~= bytes@.skip(offset as int));
    if has_open_quote(data, options.quote, options.delimiter, options.terminator) {
        return Err(LoadError::Malformed("a quoted field is not closed".to_owned()));
    }
    match read_records(data, options.quote, options.delimiter, options.terminator, false) {
        Err(error) => Err(LoadError::Malformed(error_message(&error))),
        Ok(records) => records_to_dataset(records, options.headers),
    }
}

} // verus!
