use qqt_dataset::csv_loader::{text_to_dataset, LoadError, Options, Terminator};
use qqt_dataset::dataset::DataSet;
use qqt_dataset::quotes::has_open_quote;

fn open(text: &str) -> bool {
    has_open_quote(text.as_bytes(), b'"', b',', Terminator::CRLF)
}

fn malformed(result: Result<DataSet, LoadError>) -> bool {
    matches!(result, Err(LoadError::Malformed(_)))
}

#[test]
fn open_quote_fails_the_conversion() {
    let result = text_to_dataset("A\n\"1", &Options::new());

    assert!(result.is_err());
    match result {
        Err(LoadError::Malformed(message)) => assert!(!message.is_empty()),
        Err(other) => panic!("{:?}", other),
        Ok(_) => panic!("a table was made"),
    }
}

#[test]
fn open_quote_fails_wherever_it_stands() {
    for text in [
        "\"", "\"A", "A,\"B", "A,B\n1,\"2\n3,4\n", "A,B\n\"1,2\n3,4", "A\n\"1\"\"", "A\n\"\"\"",
        "A\n\"1\",\"", "\u{feff}\"A", "A\r\n\"", "A\n1\n\n\"2",
    ] {
        assert!(open(text), "{:?}", text);
        assert!(malformed(text_to_dataset(text, &Options::new())), "{:?}", text);
        let without = Options::new().headers(false);
        assert!(malformed(text_to_dataset(text, &without)), "{:?}", text);
    }
}

#[test]
fn closed_quotes_are_read() {
    for text in [
        "", "A", "\"A\"", "A\n\"1\"", "A\n\"1\"\n", "A\n\"\"", "A\n\"\"\"\"", "A\n\"1\"\"2\"",
        "A\n\"1\n2\"", "A\n\"1\"x", "A\nx\"1", "A\nx\"", "A\n1\"\"", "\u{feff}\"A\"",
        "\u{feff}A\n1", "A\n\u{feff}\"", "A\n\"a\"\"\"",
    ] {
        assert!(!open(text), "{:?}", text);
        assert!(text_to_dataset(text, &Options::new()).is_ok(), "{:?}", text);
    }
}

#[test]
fn closed_quote_keeps_what_it_holds() {
    let ds = text_to_dataset("A,B\n\"1,\"\"x\"\"\",\"\n2\"\n", &Options::new()).expect("closed");

    assert_eq!(ds.col_count(), 2);
    assert_eq!(ds.row_count(), 1);
    assert_eq!(ds.at(0, 0).raw(), "1,\"x\"");
    assert_eq!(ds.at(0, 1).raw(), "\n2");
}

#[test]
fn open_quote_in_skipped_lines_does_not_count() {
    let options = Options::new().skip_lines(1);

    assert!(text_to_dataset("\"note\nA\n1", &options).is_ok());
    assert!(malformed(text_to_dataset("\"note\nA\n1", &Options::new())));
    assert!(malformed(text_to_dataset("note\nA\n\"1", &options)));
}

#[test]
fn open_quote_goes_by_the_settings() {
    let stroke = Options::new().quote(b'\'');

    assert!(malformed(text_to_dataset("A\n'1", &stroke)));
    assert!(text_to_dataset("A\n\"1", &stroke).is_ok());
    assert!(text_to_dataset("A\n'1'", &stroke).is_ok());

    assert!(has_open_quote(b"a;'b", b'\'', b';', Terminator::Any(b'|')));
    assert!(!has_open_quote(b"a;'b'", b'\'', b';', Terminator::Any(b'|')));
    assert!(has_open_quote(b"a|'b\n", b'\'', b';', Terminator::Any(b'|')));
    assert!(!has_open_quote(b"a\n'b", b'\'', b';', Terminator::Any(b'|')));
    assert!(has_open_quote(b"a\r'b", b'\'', b';', Terminator::CRLF));
    assert!(has_open_quote(b"\n\n'b", b'\'', b';', Terminator::CRLF));
}

#[test]
fn quote_that_is_the_terminator_opens_nothing_at_a_record_start() {
    assert!(!has_open_quote(b"a;;b", b';', b',', Terminator::Any(b';')));
    assert!(!has_open_quote(b";;;", b';', b',', Terminator::Any(b';')));
    assert!(has_open_quote(b"a,;b", b';', b',', Terminator::Any(b';')));

    let options = Options::new().quote(b';').terminator(b';').headers(false);
    let ds = text_to_dataset("a;;b", &options).expect("two records");
    assert_eq!(ds.col_count(), 1);
    assert_eq!(ds.row_count(), 2);
    assert_eq!(ds.at(0, 0).raw(), "a");
    assert_eq!(ds.at(1, 0).raw(), "b");
}

/// The next number of a fixed sequence that looks random.
fn next(state: &mut u64) -> u64 {
    *state = state.wrapping_mul(6364136223846793005).wrapping_add(1442695040888963407);
    *state >> 33
}

/// Whether the reader of the csv crate stands inside a quoted field after
/// `data`: a delimiter and a `Z` put after `data` then do not make a field
/// of their own.
fn reader_stands_in_quotes(data: &[u8], quote: u8, delimiter: u8, terminator: Terminator) -> bool {
    let mut longer = data.to_vec();
    longer.push(delimiter);
    longer.push(b'Z');
    let mut builder = csv::ReaderBuilder::new();
    builder.quote(quote).delimiter(delimiter).has_headers(false).flexible(true);
    if let Terminator::Any(byte) = terminator {
        builder.terminator(csv::Terminator::Any(byte));
    }
    let mut reader = builder.from_reader(&longer[..]);
    let mut last: Vec<u8> = Vec::new();
    for record in reader.byte_records() {
        let record = record.expect("a flexible reader of bytes reports no error");
        last = record.get(record.len() - 1).expect("a record has a field").to_vec();
    }
    last != b"Z"
}

#[test]
fn open_quote_agrees_with_the_reader() {
    let settings: [(u8, u8, Terminator); 6] = [
        (b'"', b',', Terminator::CRLF),
        (b'\'', b';', Terminator::CRLF),
        (b'"', b',', Terminator::Any(b';')),
        (b'"', b'\n', Terminator::Any(b'\r')),
        (b'\n', b',', Terminator::Any(b'"')),
        (0xBB, 0xEF, Terminator::Any(0xBF)),
    ];
    let mut state: u64 = 3;
    let mut opened = 0;
    let mut closed = 0;
    for (quote, delimiter, terminator) in settings {
        let end = match terminator {
            Terminator::Any(byte) => byte,
            Terminator::CRLF => b'\n',
        };
        let alphabet = [quote, quote, delimiter, end, b'\r', b'\n', b'a', 0xEF, 0xBB, 0xBF];
        for _ in 0..1_000 {
            let length = next(&mut state) % 10;
            let mut data: Vec<u8> = Vec::new();
            if next(&mut state) % 4 == 0 {
                data.extend_from_slice(&[0xEF, 0xBB, 0xBF]);
            }
            for _ in 0..length {
                data.push(alphabet[(next(&mut state) % alphabet.len() as u64) as usize]);
            }
            let expected = reader_stands_in_quotes(&data, quote, delimiter, terminator);
            if expected {
                opened += 1;
            } else {
                closed += 1;
            }
            assert_eq!(
                has_open_quote(&data, quote, delimiter, terminator),
                expected,
                "{:?} {:?}",
                data,
                (quote, delimiter, terminator)
            );
        }
    }
    assert!(opened > 500);
    assert!(closed > 500);
}

#[test]
fn column_of_a_table() {
    let ds = text_to_dataset("A,B\n1,x\n2,\n", &Options::new()).expect("Could not parse CSV");

    let column = ds.column(1);
    assert_eq!(column.label(), "B");
    assert_eq!(column.data().len(), 2);
    assert_eq!(column.data()[0].raw(), "x");
    assert_eq!(column.data()[1].raw(), "");
    assert_eq!(column.data().count_not_null(), 1);

    let column = ds.column(0);
    assert_eq!(column.label(), "A");
    assert_eq!(column.data().count_val(), 2);
    assert_eq!(column.data.len(), ds.row_count());
}
