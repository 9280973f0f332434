//! The stream parser: a single forward pass over the raw bytes that
//! classifies each line's shape, decodes text lines and binary field blocks,
//! and assembles fields into records and records into the result.
//!
//! The behaviour is stated against a byte-level specification machine:
//! [`step`] is one byte's transition, [`run`] folds it over the input,
//! [`finish`] settles the leftover bytes, and [`parse_spec`] is the meaning
//! of a whole input. The executable [`parse`] is proved to return exactly
//! the records of `parse_spec`, each byte field converted to text.

use vstd::prelude::*;
use crate::NEW_LINE;
use crate::ParseError;
use crate::SEPARATOR;
use crate::batch::Batch;
use crate::entry::Entry;
use crate::line::Line;
use crate::line::line_split;
use crate::scan::copy_range;
use crate::scan::find_first_before;
use crate::scan::first_occurrence;
use crate::scan::has_first;
use crate::scan::is_first_occurrence;
use crate::scan::lemma_first_occurrence_unique;
use crate::text::lossy;
use crate::text::lossy_string;
use vstd::pervasive::unreached;

verus! {

/// The shape of the line currently being read.
pub enum Mode {
    /// The line's shape is not yet known.
    Unknown,
    /// The line holds a separator byte: a plain text field line.
    SingleLine,
    /// The line started as a key-only line: a binary field block.
    Multiline,
    /// A field was just completed; a blank line here closes the record.
    LineEnd,
}

/// The split of one complete binary field block. `b` is the accumulated
/// block: the key, its terminating newline, the nominal 8-byte length, the
/// value bytes, and the first newline of the terminating blank line (the
/// second one is never accumulated). The key is everything before the first
/// newline; the following 8 bytes are skipped (7 are buffered as the nominal
/// length, the 8th is dropped, and the length is never used); the value is
/// everything after them.
///
/// Open question for format compatibility: the export format declares here
/// an authoritative 8-byte little-endian length of the value, but this
/// decoder keeps the long-observed behaviour of never enforcing it — the
/// value ends only at the blank line the stream parser detects.
pub open spec fn multiline_split(b: Seq<u8>) -> (Seq<u8>, Seq<u8>) {
    let body = b.take(b.len() - 1);
    if has_first(body, NEW_LINE) {
        let i = first_occurrence(body, NEW_LINE);
        let value = if i + 9 <= body.len() {
            body.subrange(i + 9, body.len() as int)
        } else {
            Seq::empty()
        };
        (body.subrange(0, i), value)
    } else {
        (body, Seq::empty())
    }
}

/// One field of a record, still at byte level: key bytes and value bytes.
pub type FieldBytes = (Seq<u8>, Seq<u8>);

/// The state of the stream parser after some prefix of the input: the mode
/// of the current line, the accumulated bytes of that line, the previous
/// byte (to detect a blank line inside a binary block), the fields of the
/// record in progress, the completed records, and whether a text line
/// without a separator byte was hit.
pub ghost struct PState {
    pub mode: Mode,
    pub acc: Seq<u8>,
    pub last: u8,
    pub entry: Seq<FieldBytes>,
    pub batch: Seq<Seq<FieldBytes>>,
    pub failed: bool,
}

/// The state before any byte is read.
pub open spec fn init_state() -> PState {
    PState {
        mode: Mode::Unknown,
        acc: Seq::empty(),
        last: 0,
        entry: Seq::empty(),
        batch: Seq::empty(),
        failed: false,
    }
}

/// One byte's transition of the stream parser.
pub open spec fn step(s: PState, byte: u8) -> PState {
    if s.failed {
        s
    } else if byte == SEPARATOR {
        match s.mode {
            Mode::Unknown => PState { mode: Mode::SingleLine, acc: s.acc.push(byte), last: byte, ..s },
            Mode::SingleLine => PState { acc: s.acc.push(byte), last: byte, ..s },
            Mode::Multiline => PState { acc: s.acc.push(byte), last: byte, ..s },
            Mode::LineEnd => PState { mode: Mode::SingleLine, acc: s.acc.push(byte), last: byte, ..s },
        }
    } else if byte == NEW_LINE {
        match s.mode {
            Mode::Unknown => PState { mode: Mode::Multiline, acc: s.acc.push(byte), last: byte, ..s },
            Mode::SingleLine => match line_split(s.acc) {
                Some(f) => PState {
                    mode: Mode::LineEnd,
                    acc: Seq::empty(),
                    entry: s.entry.push(f),
                    last: byte,
                    ..s
                },
                None => PState { failed: true, ..s },
            },
            Mode::Multiline => if s.last == NEW_LINE {
                PState {
                    mode: Mode::LineEnd,
                    acc: Seq::empty(),
                    entry: s.entry.push(multiline_split(s.acc)),
                    last: byte,
                    ..s
                }
            } else {
                PState { acc: s.acc.push(byte), last: byte, ..s }
            },
            Mode::LineEnd => PState {
                batch: s.batch.push(s.entry),
                entry: Seq::empty(),
                last: byte,
                ..s
            },
        }
    } else {
        match s.mode {
            Mode::Unknown => PState { acc: s.acc.push(byte), last: byte, ..s },
            Mode::SingleLine => PState { acc: s.acc.push(byte), last: byte, ..s },
            Mode::Multiline => PState { acc: s.acc.push(byte), last: byte, ..s },
            Mode::LineEnd => PState { mode: Mode::Unknown, acc: s.acc.push(byte), last: byte, ..s },
        }
    }
}

/// The state after reading all of `bytes`, starting from `s`.
pub open spec fn run(s: PState, bytes: Seq<u8>) -> PState
    decreases bytes.len(),
{
    if bytes.len() == 0 {
        s
    } else {
        step(run(s, bytes.drop_last()), bytes.last())
    }
}

/// End of input: leftover accumulated bytes are decoded as one text field
/// line and the record in progress is committed; without leftover bytes the
/// record in progress is discarded. A leftover line with no separator byte
/// makes the whole parse fail.
pub open spec fn finish(s: PState) -> Option<Seq<Seq<FieldBytes>>> {
    if s.failed {
        None
    } else if s.acc.len() > 0 {
        match line_split(s.acc) {
            Some(f) => Some(s.batch.push(s.entry.push(f))),
            None => None,
        }
    } else {
        Some(s.batch)
    }
}

/// The records of a whole input, at byte level, or `None` when the input is
/// malformed.
pub open spec fn parse_spec(bytes: Seq<u8>) -> Option<Seq<Seq<FieldBytes>>> {
    finish(run(init_state(), bytes))
}

/// The text of one byte-level field.
pub open spec fn field_decoded(f: FieldBytes) -> (Seq<char>, Seq<char>) {
    (lossy(f.0), lossy(f.1))
}

/// The texts of one byte-level record.
pub open spec fn record_decoded(r: Seq<FieldBytes>) -> Seq<(Seq<char>, Seq<char>)> {
    r.map_values(|f: FieldBytes| field_decoded(f))
}

/// The texts of a byte-level batch.
pub open spec fn batch_decoded(b: Seq<Seq<FieldBytes>>) -> Seq<Seq<(Seq<char>, Seq<char>)>> {
    b.map_values(|r: Seq<FieldBytes>| record_decoded(r))
}

/// What holds of every state the machine reaches from the start: it has not
/// failed; a single-line accumulator holds a separator byte; a multiline
/// accumulator is never empty; in the other modes the accumulator holds no
/// separator and no newline, and is empty right after a field.
pub open spec fn reachable_inv(s: PState) -> bool {
    &&& !s.failed
    &&& (s.mode is SingleLine ==> has_first(s.acc, SEPARATOR))
    &&& (s.mode is Multiline ==> s.acc.len() >= 1)
    &&& (s.mode is Unknown ==> forall|j: int|
        0 <= j < s.acc.len() ==> s.acc[j] != SEPARATOR && s.acc[j] != NEW_LINE)
    &&& (s.mode is LineEnd ==> s.acc.len() == 0)
}

/// One step keeps the machine in reachable states; in particular it never
/// fails mid-stream.
pub proof fn lemma_step_preserves_inv(s: PState, byte: u8)
    requires
        reachable_inv(s),
    ensures
        reachable_inv(step(s, byte)),
{
    let t = step(s, byte);
    if byte == SEPARATOR {
        match s.mode {
            Mode::Unknown => {
                assert(is_first_occurrence(t.acc, SEPARATOR, s.acc.len() as int));
            },
            Mode::SingleLine => {
                let i = first_occurrence(s.acc, SEPARATOR);
                assert(is_first_occurrence(t.acc, SEPARATOR, i));
            },
            Mode::Multiline => {},
            Mode::LineEnd => {
                assert(is_first_occurrence(t.acc, SEPARATOR, 0));
            },
        }
    } else if byte == NEW_LINE {
        match s.mode {
            Mode::SingleLine => {
                assert(line_split(s.acc) is Some);
            },
            _ => {},
        }
    } else {
        match s.mode {
            Mode::SingleLine => {
                let i = first_occurrence(s.acc, SEPARATOR);
                assert(is_first_occurrence(t.acc, SEPARATOR, i));
            },
            _ => {},
        }
    }
}

/// The binary field decoder: turns one accumulated binary field block into
/// a field, exactly as [`multiline_split`] splits it. The nominal 8-byte
/// length is skipped and never bounds the value.
pub fn parse_multiline_line(bytes: Vec<u8>) -> (r: Line)
    requires
        bytes@.len() >= 1,
    ensures
        r@.0 == lossy(multiline_split(bytes@).0),
        r@.1 == lossy(multiline_split(bytes@).1),
{
    let n = bytes.len() - 1;
    let ghost body = bytes@.take(bytes@.len() - 1);
    proof {
        assert(bytes@.take(n as int) == body);
    }
    let (key_bytes, value_bytes) = match find_first_before(&bytes, NEW_LINE, n) {
        Some(i) => {
            proof {
                let c = first_occurrence(body, NEW_LINE);
                lemma_first_occurrence_unique(body, NEW_LINE, c, i as int);
                assert(bytes@.subrange(0, i as int) =~= body.subrange(0, i as int));
            }
            let key_bytes = copy_range(&bytes, 0, i);
            let value_bytes = if n - i >= 9 {
                proof {
                    assert(bytes@.subrange(i + 9, n as int) =~= body.subrange(i + 9, n as int));
                }
                copy_range(&bytes, i + 9, n)
            } else {
                Vec::new()
            };
            (key_bytes, value_bytes)
        },
        None => {
            proof {
                assert(bytes@.subrange(0, n as int) =~= body);
            }
            (copy_range(&bytes, 0, n), Vec::new())
        },
    };
    let key = lossy_string(&key_bytes);
    let value = lossy_string(&value_bytes);
    Line { key, value }
}

/// The single entry point: parses a whole input into its records.
///
/// It succeeds exactly when the specification machine accepts the input,
/// and then returns precisely the machine's records, every byte-level field
/// converted to text. It fails exactly when a leftover text line holds no
/// separator byte, and the error carries those bytes.
pub fn parse(bytes: Vec<u8>) -> (res: Result<Batch, ParseError>)
    ensures
        res is Ok <==> parse_spec(bytes@) is Some,
        res matches Ok(b) ==> b@ == batch_decoded(parse_spec(bytes@).unwrap()),
        res matches Err(e) ==> e@ == run(init_state(), bytes@).acc && line_split(e@) is None,
{
    let mut batch = Batch::new();
    let mut curr: Vec<u8> = Vec::new();
    let mut entry = Entry::new();
    let mut mode = Mode::Unknown;
    let mut last: u8 = 0;
    let n = bytes.len();
    let mut idx: usize = 0;

    proof {
        assert(bytes@.take(0) =~= Seq::<u8>::empty());
        assert(record_decoded(Seq::empty()) =~= Seq::<(Seq<char>, Seq<char>)>::empty());
        assert(batch_decoded(Seq::empty()) =~= Seq::<Seq<(Seq<char>, Seq<char>)>>::empty());
    }

    while idx < n
        invariant
            n == bytes@.len(),
            0 <= idx <= n,
            ({
                let g = run(init_state(), bytes@.take(idx as int));
                &&& reachable_inv(g)
                &&& g.mode == mode
                &&& g.acc == curr@
                &&& g.last == last
                &&& entry@ == record_decoded(g.entry)
                &&& batch@ == batch_decoded(g.batch)
            }),
        decreases n - idx,
    {
        let ghost g = run(init_state(), bytes@.take(idx as int));
        let byte = bytes[idx];
        proof {
            assert(bytes@.take(idx as int + 1).drop_last() =~= bytes@.take(idx as int));
            assert(bytes@.take(idx as int + 1).last() == byte);
            assert(run(init_state(), bytes@.take(idx as int + 1)) == step(g, byte));
            lemma_step_preserves_inv(g, byte);
        }
        if byte == SEPARATOR {
            match mode {
                Mode::Unknown => {
                    mode = Mode::SingleLine;
                },
                Mode::LineEnd => {
                    mode = Mode::SingleLine;
                },
                _ => {},
            }
            curr.push(byte);
        } else if byte == NEW_LINE {
            match mode {
                Mode::Unknown => {
                    mode = Mode::Multiline;
                    curr.push(byte);
                },
                Mode::SingleLine => {
                    let ghost f = line_split(g.acc).unwrap();
                    let line = match Line::from_bytes(&curr) {
                        Ok(l) => l,
                        Err(_) => unreached(),
                    };
                    entry.add_line(line);
                    curr = Vec::new();
                    mode = Mode::LineEnd;
                    proof {
                        assert(record_decoded(g.entry.push(f)) =~= record_decoded(g.entry).push(
                            field_decoded(f),
                        ));
                    }
                },
                Mode::Multiline => {
                    if last == NEW_LINE {
                        let ghost f = multiline_split(g.acc);
                        let line = parse_multiline_line(curr);
                        entry.add_line(line);
                        curr = Vec::new();
                        mode = Mode::LineEnd;
                        proof {
                            assert(record_decoded(g.entry.push(f)) =~= record_decoded(
                                g.entry,
                            ).push(field_decoded(f)));
                        }
                    } else {
                        curr.push(byte);
                    }
                },
                Mode::LineEnd => {
                    batch.add_entry(entry);
                    entry = Entry::new();
                    proof {
                        assert(batch_decoded(g.batch.push(g.entry)) =~= batch_decoded(
                            g.batch,
                        ).push(record_decoded(g.entry)));
                    }
                },
            }
        } else {
            match mode {
                Mode::LineEnd => {
                    mode = Mode::Unknown;
                },
                _ => {},
            }
            curr.push(byte);
        }
        last = byte;
        idx += 1;
    }

    proof {
        assert(bytes@.take(n as int) =~= bytes@);
    }
    let ghost g = run(init_state(), bytes@);

    if curr.len() > 0 {
        match Line::from_bytes(&curr) {
            Ok(line) => {
                let ghost f = line_split(g.acc).unwrap();
                entry.add_line(line);
                batch.add_entry(entry);
                proof {
                    assert(record_decoded(g.entry.push(f)) =~= record_decoded(g.entry).push(
                        field_decoded(f),
                    ));
                    assert(batch_decoded(g.batch.push(g.entry.push(f))) =~= batch_decoded(
                        g.batch,
                    ).push(record_decoded(g.entry.push(f))));
                }
                Ok(batch)
            },
            Err(e) => Err(e),
        }
    } else {
        Ok(batch)
    }
}

} // verus!
