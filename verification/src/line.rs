//! One decoded key/value field, and the text line decoder.

use vstd::prelude::*;
use crate::ParseError;
use crate::SEPARATOR;
use crate::scan::copy_range;
use crate::scan::find_first_before;
use crate::scan::first_occurrence;
use crate::scan::has_first;
use crate::scan::is_first_occurrence;
use crate::scan::lemma_first_occurrence_unique;
use crate::text::lossy;
use crate::text::lossy_string;

verus! {

/// The split of one text line's bytes at the first separator byte: the key
/// before it, the value after it. `None` when the line holds no separator.
pub open spec fn line_split(b: Seq<u8>) -> Option<(Seq<u8>, Seq<u8>)> {
    if has_first(b, SEPARATOR) {
        let i = first_occurrence(b, SEPARATOR);
        Some((b.subrange(0, i), b.subrange(i + 1, b.len() as int)))
    } else {
        None
    }
}

/// One key/value field of a record. The key never holds the separator byte:
/// splitting is first-occurrence, so separator bytes after the first belong
/// to the value.
#[derive(Clone, Debug, PartialEq, Eq)]
pub struct Line {
    pub key: String,
    pub value: String,
}

impl View for Line {
    type V = (Seq<char>, Seq<char>);

    /// A field is the pair of its key text and its value text.
    open spec fn view(&self) -> (Seq<char>, Seq<char>) {
        (self.key@, self.value@)
    }
}

impl Line {
    /// Builds a field from its two texts.
    pub fn new(key: String, value: String) -> (r: Line)
        ensures
            r@ == (key@, value@),
    {
        Line { key, value }
    }

    /// The key text of the field.
    pub fn get_key(&self) -> (r: &String)
        ensures
            r@ == self@.0,
    {
        &self.key
    }

    /// The value text of the field.
    pub fn get_value(&self) -> (r: &String)
        ensures
            r@ == self@.1,
    {
        &self.value
    }

    /// The line decoder: splits one line's raw bytes (without the line
    /// terminator) at the first separator byte and converts both halves to
    /// text. A line with no separator byte is malformed and is returned as
    /// the error, bytes unchanged.
    pub fn from_bytes(bytes: &Vec<u8>) -> (r: Result<Line, ParseError>)
        ensures
            match r {
                Ok(line) => {
                    &&& line_split(bytes@) is Some
                    &&& line@.0 == lossy(line_split(bytes@).unwrap().0)
                    &&& line@.1 == lossy(line_split(bytes@).unwrap().1)
                },
                Err(e) => {
                    &&& line_split(bytes@) is None
                    &&& e@ == bytes@
                },
            },
    {
        let n = bytes.len();
        proof {
            assert(bytes@.take(n as int) =~= bytes@);
        }
        match find_first_before(bytes, SEPARATOR, n) {
            Some(i) => {
                proof {
                    let c = first_occurrence(bytes@, SEPARATOR);
                    lemma_first_occurrence_unique(bytes@, SEPARATOR, c, i as int);
                }
                let key_bytes = copy_range(bytes, 0, i);
                let value_bytes = copy_range(bytes, i + 1, n);
                let key = lossy_string(&key_bytes);
                let value = lossy_string(&value_bytes);
                Ok(Line { key, value })
            },
            None => {
                proof {
                    assert(bytes@.subrange(0, n as int) =~= bytes@);
                }
                Err(ParseError::MalformedLine { line: copy_range(bytes, 0, n) })
            },
        }
    }
}

} // verus!
