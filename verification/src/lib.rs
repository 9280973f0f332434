//! Decoder for the journal export stream: a hybrid text/binary log format.
//!
//! An input is a raw byte sequence holding a sequence of records, each an
//! ordered list of key/value fields. A field is either one text line
//! (`key=value`) or a binary-safe block (a key-only line, a nominal 8-byte
//! length, then arbitrary value bytes up to a blank line). The stream parser
//! in [`parser`] walks the input once, byte by byte; its behaviour is stated
//! against the specification state machine in the same module.

use vstd::prelude::*;

pub mod batch;
pub mod entry;
pub mod laws;
pub mod line;
pub mod parser;
pub mod scan;
mod text;

verus! {

/// The key/value separator byte of a text field line (`=`).
pub const SEPARATOR: u8 = 61;

/// The line terminator byte (`\n`).
pub const NEW_LINE: u8 = 10;

/// The only parse failure: a line meant to be a plain `key=value` line
/// holds no separator byte. It carries the offending raw bytes.
#[derive(Debug, PartialEq, Eq)]
pub enum ParseError {
    MalformedLine { line: Vec<u8> },
}

impl View for ParseError {
    type V = Seq<u8>;

    /// The raw bytes of the line that could not be decoded.
    open spec fn view(&self) -> Seq<u8> {
        match self {
            ParseError::MalformedLine { line } => line@,
        }
    }
}

} // verus!
