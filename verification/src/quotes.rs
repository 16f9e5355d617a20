//! Quoted fields that are never closed.
//!
//! A reader of delimited text goes through the bytes one by one. A quote
//! byte at the start of a field opens a quoted field, in which delimiters
//! and terminators are plain bytes; the next quote byte closes it, unless
//! one more follows at once, which stands for a quote byte in the field. A
//! text that ends inside a quoted field is malformed.

use crate::csv_loader::Terminator;
use vstd::prelude::*;

verus! {

/// Where a reader stands between two bytes.
#[derive(Clone, Copy, Debug)]
pub enum Place {
    /// At the start of a record. The text begins here.
    RecordStart,
    /// At the start of a field that is not the first of its record.
    FieldStart,
    /// Inside a field that is not quoted.
    Unquoted,
    /// Inside a quoted field.
    Quoted,
    /// After a quote byte inside a quoted field: the field is closed, unless
    /// the next byte is a quote byte.
    AfterQuote,
}

/// Whether `byte` ends a record.
pub open spec fn ends_record(terminator: Terminator, byte: u8) -> bool {
    match terminator {
        Terminator::CRLF => byte == 13 || byte == 10,
        Terminator::Any(end) => byte == end,
    }
}

/// Where the reader stands after `byte`. At the start of a record a
/// terminator is passed over before anything else is looked for. Elsewhere
/// the byte is held against the quote first, where a quote counts, then
/// against the delimiter, then against the terminator.
pub open spec fn place_after_byte(
    place: Place,
    byte: u8,
    quote: u8,
    delimiter: u8,
    terminator: Terminator,
) -> Place {
    match place {
        Place::RecordStart => if ends_record(terminator, byte) {
            Place::RecordStart
        } else if byte == quote {
            Place::Quoted
        } else if byte == delimiter {
            Place::FieldStart
        } else {
            Place::Unquoted
        },
        Place::FieldStart | Place::AfterQuote => if byte == quote {
            Place::Quoted
        } else if byte == delimiter {
            Place::FieldStart
        } else if ends_record(terminator, byte) {
            Place::RecordStart
        } else {
            Place::Unquoted
        },
        Place::Unquoted => if byte == delimiter {
            Place::FieldStart
        } else if ends_record(terminator, byte) {
            Place::RecordStart
        } else {
            Place::Unquoted
        },
        Place::Quoted => if byte == quote {
            Place::AfterQuote
        } else {
            Place::Quoted
        },
    }
}

/// Where the reader stands after all of `data`.
pub open spec fn place_after(data: Seq<u8>, quote: u8, delimiter: u8, terminator: Terminator) -> Place
    decreases data.len(),
{
    if data.len() == 0 {
        Place::RecordStart
    } else {
        place_after_byte(
            place_after(data.drop_last(), quote, delimiter, terminator),
            data.last(),
            quote,
            delimiter,
            terminator,
        )
    }
}

/// How many bytes at the front of `data` are a byte order mark: 3 or 0.
pub open spec fn mark_len(data: Seq<u8>) -> nat {
    if data.len() >= 3 && data[0] == 0xEF && data[1] == 0xBB && data[2] == 0xBF {
        3
    } else {
        0
    }
}

/// Whether a quoted field of `data` is still open where `data` ends. A byte
/// order mark at the front of `data` is no part of the first field.
pub open spec fn quote_left_open(
    data: Seq<u8>,
    quote: u8,
    delimiter: u8,
    terminator: Terminator,
) -> bool {
    place_after(data.skip(mark_len(data) as int), quote, delimiter, terminator) is Quoted
}

fn record_end(terminator: Terminator, byte: u8) -> (r: bool)
    ensures
        r == ends_record(terminator, byte),
{
    match terminator {
        Terminator::CRLF => byte == 13 || byte == 10,
        Terminator::Any(end) => byte == end,
    }
}

fn next_place(place: Place, byte: u8, quote: u8, delimiter: u8, terminator: Terminator) -> (r:
    Place)
    ensures
        r == place_after_byte(place, byte, quote, delimiter, terminator),
{
    match place {
        Place::RecordStart => {
            if record_end(terminator, byte) {
                Place::RecordStart
            } else if byte == quote {
                Place::Quoted
            } else if byte == delimiter {
                Place::FieldStart
            } else {
                Place::Unquoted
            }
        },
        Place::FieldStart | Place::AfterQuote => {
            if byte == quote {
                Place::Quoted
            } else if byte == delimiter {
                Place::FieldStart
            } else if record_end(terminator, byte) {
                Place::RecordStart
            } else {
                Place::Unquoted
            }
        },
        Place::Unquoted => {
            if byte == delimiter {
                Place::FieldStart
            } else if record_end(terminator, byte) {
                Place::RecordStart
            } else {
                Place::Unquoted
            }
        },
        Place::Quoted => {
            if byte == quote {
                Place::AfterQuote
            } else {
                Place::Quoted
            }
        },
    }
}

/// Whether a quoted field of `data` is still open where `data` ends.
pub fn has_open_quote(data: &[u8], quote: u8, delimiter: u8, terminator: Terminator) -> (r: bool)
    ensures
        r == quote_left_open(data@, quote, delimiter, terminator),
{
    let start: usize = if data.len() >= 3 && data[0] == 0xEF && data[1] == 0xBB && data[2]
        == 0xBF {
        3
    } else {
        0
    };
    let mut place = Place::RecordStart;
    let mut i: usize = start;
    assert(data@.subrange(start as int, start as int) =~= Seq::<u8>::empty());
    while i < data.len()
        invariant
            start <= i <= data@.len(),
            place == place_after(data@.subrange(start as int, i as int), quote, delimiter, terminator),
        decreases data@.len() - i,
    {
        assert(data@.subrange(start as int, i + 1).drop_last() =~= data@.subrange(
            start as int,
            i as int,
        ));
        place = next_place(place, data[i], quote, delimiter, terminator);
        i += 1;
    }
    assert(data@.subrange(start as int, i as int) =~= data@.skip(start as int));
    match place {
        Place::Quoted => true,
        _ => false,
    }
}

/// A text without a quote byte leaves no quote open.
pub proof fn lemma_no_quote_none_open(data: Seq<u8>, quote: u8, delimiter: u8, terminator: Terminator)
    requires
        forall|i: int| 0 <= i < data.len() ==> data[i] != quote,
    ensures
        !quote_left_open(data, quote, delimiter, terminator),
{
    lemma_no_quote_outside(data.skip(mark_len(data) as int), quote, delimiter, terminator);
}

proof fn lemma_no_quote_outside(data: Seq<u8>, quote: u8, delimiter: u8, terminator: Terminator)
    requires
        forall|i: int| 0 <= i < data.len() ==> data[i] != quote,
    ensures
        !(place_after(data, quote, delimiter, terminator) is Quoted),
        !(place_after(data, quote, delimiter, terminator) is AfterQuote),
    decreases data.len(),
{
    if data.len() > 0 {
        lemma_no_quote_outside(data.drop_last(), quote, delimiter, terminator);
    }
}

} // verus!
