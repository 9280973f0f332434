//! The laws of the parser, proved against the specification machine of
//! [`crate::parser`]: how the machine runs over composed inputs, what one
//! field line or one binary field block decodes to, when a parse fails, and
//! how parses of independently closed inputs concatenate.

use vstd::prelude::*;
use crate::NEW_LINE;
use crate::SEPARATOR;
use crate::line::line_split;
use crate::parser::FieldBytes;
use crate::parser::PState;
use crate::parser::finish;
use crate::parser::init_state;
use crate::parser::multiline_split;
use crate::parser::parse_spec;
use crate::parser::run;
use crate::parser::step;
use crate::scan::first_occurrence;
use crate::scan::has_first;
use crate::scan::is_first_occurrence;
use crate::scan::lemma_first_occurrence_unique;

verus! {

/// After `bytes`, every field line is complete and the last record was
/// closed by a blank line: nothing is accumulated and nothing is pending.
pub open spec fn closed_after(bytes: Seq<u8>) -> bool {
    let s = run(init_state(), bytes);
    &&& !s.failed
    &&& s.mode is LineEnd
    &&& s.acc.len() == 0
    &&& s.entry.len() == 0
}

/// Running over `a + b` is running over `a`, then over `b`.
pub proof fn lemma_run_app(s: PState, a: Seq<u8>, b: Seq<u8>)
    ensures
        run(s, a + b) == run(run(s, a), b),
    decreases b.len(),
{
    if b.len() == 0 {
        assert(a + b =~= a);
    } else {
        lemma_run_app(s, a, b.drop_last());
        assert((a + b).drop_last() =~= a + b.drop_last());
        assert((a + b).last() == b.last());
    }
}

/// Running over one byte is one step.
pub proof fn lemma_run_one(s: PState, x: u8)
    ensures
        run(s, seq![x]) == step(s, x),
{
    let b = seq![x];
    assert(run(s, Seq::<u8>::empty()) == s);
    assert(b.drop_last() =~= Seq::<u8>::empty());
    assert(b.last() == x);
}

/// Running over two bytes is two steps.
pub proof fn lemma_run_two(s: PState, x: u8, y: u8)
    ensures
        run(s, seq![x, y]) == step(step(s, x), y),
{
    let b = seq![x, y];
    assert(b.drop_last() =~= seq![x]);
    lemma_run_one(s, x);
    assert(b.last() == y);
}

/// Running over a non-empty `b` is one step on its first byte, then running
/// over the rest.
pub proof fn lemma_run_head(s: PState, b: Seq<u8>)
    requires
        b.len() > 0,
    ensures
        run(s, b) == run(step(s, b[0]), b.drop_first()),
{
    assert(b =~= seq![b[0]] + b.drop_first());
    lemma_run_app(s, seq![b[0]], b.drop_first());
    lemma_run_one(s, b[0]);
}

/// Bytes that are neither separator nor newline only accumulate while the
/// line's shape is unknown.
pub proof fn lemma_run_plain(s: PState, b: Seq<u8>)
    requires
        !s.failed,
        s.mode is Unknown,
        forall|j: int| 0 <= j < b.len() ==> b[j] != SEPARATOR && b[j] != NEW_LINE,
    ensures
        ({
            let t = run(s, b);
            &&& t.mode is Unknown
            &&& t.acc == s.acc + b
            &&& t.last == (if b.len() > 0 {
                b.last()
            } else {
                s.last
            })
            &&& t.entry == s.entry
            &&& t.batch == s.batch
            &&& !t.failed
        }),
    decreases b.len(),
{
    if b.len() == 0 {
        assert(s.acc + b =~= s.acc);
    } else {
        lemma_run_plain(s, b.drop_last());
        assert((s.acc + b.drop_last()).push(b.last()) =~= s.acc + b);
    }
}

/// On a single-line text field, every byte but the newline accumulates.
pub proof fn lemma_run_single(s: PState, b: Seq<u8>)
    requires
        !s.failed,
        s.mode is SingleLine,
        forall|j: int| 0 <= j < b.len() ==> b[j] != NEW_LINE,
    ensures
        ({
            let t = run(s, b);
            &&& t.mode is SingleLine
            &&& t.acc == s.acc + b
            &&& t.last == (if b.len() > 0 {
                b.last()
            } else {
                s.last
            })
            &&& t.entry == s.entry
            &&& t.batch == s.batch
            &&& !t.failed
        }),
    decreases b.len(),
{
    if b.len() == 0 {
        assert(s.acc + b =~= s.acc);
    } else {
        lemma_run_single(s, b.drop_last());
        assert((s.acc + b.drop_last()).push(b.last()) =~= s.acc + b);
    }
}

/// Inside a binary field block, every byte accumulates as long as no two
/// consecutive newlines occur (the previous byte counting as the first
/// candidate).
pub proof fn lemma_run_multi(s: PState, b: Seq<u8>)
    requires
        !s.failed,
        s.mode is Multiline,
        s.last == NEW_LINE && b.len() > 0 ==> b[0] != NEW_LINE,
        forall|j: int| 1 <= j < b.len() ==> !(#[trigger] b[j] == NEW_LINE && b[j - 1] == NEW_LINE),
    ensures
        ({
            let t = run(s, b);
            &&& t.mode is Multiline
            &&& t.acc == s.acc + b
            &&& t.last == (if b.len() > 0 {
                b.last()
            } else {
                s.last
            })
            &&& t.entry == s.entry
            &&& t.batch == s.batch
            &&& !t.failed
        }),
    decreases b.len(),
{
    if b.len() == 0 {
        assert(s.acc + b =~= s.acc);
    } else {
        lemma_run_multi(s, b.drop_last());
        assert((s.acc + b.drop_last()).push(b.last()) =~= s.acc + b);
    }
}

/// Two machine states that differ only by records already completed in one
/// of them.
pub open spec fn batch_offset(s1: PState, s2: PState, p: Seq<Seq<FieldBytes>>) -> bool {
    &&& s1.mode == s2.mode
    &&& s1.acc == s2.acc
    &&& s1.last == s2.last
    &&& s1.entry == s2.entry
    &&& s1.failed == s2.failed
    &&& s1.batch == p + s2.batch
}

/// One step keeps the completed-records offset between two states.
pub proof fn lemma_step_offset(s1: PState, s2: PState, p: Seq<Seq<FieldBytes>>, byte: u8)
    requires
        batch_offset(s1, s2, p),
    ensures
        batch_offset(step(s1, byte), step(s2, byte), p),
{
    assert((p + s2.batch).push(s2.entry) =~= p + s2.batch.push(s2.entry));
}

/// Running over any bytes keeps the completed-records offset.
pub proof fn lemma_run_offset(s1: PState, s2: PState, p: Seq<Seq<FieldBytes>>, b: Seq<u8>)
    requires
        batch_offset(s1, s2, p),
    ensures
        batch_offset(run(s1, b), run(s2, b), p),
    decreases b.len(),
{
    if b.len() > 0 {
        lemma_run_offset(s1, s2, p, b.drop_last());
        lemma_step_offset(run(s1, b.drop_last()), run(s2, b.drop_last()), p, b.last());
    }
}

/// Settling two offset states fails together, and succeeds with the same
/// records after the offset.
pub proof fn lemma_finish_offset(s1: PState, s2: PState, p: Seq<Seq<FieldBytes>>)
    requires
        batch_offset(s1, s2, p),
    ensures
        finish(s1) is Some <==> finish(s2) is Some,
        finish(s1) is Some ==> finish(s1).unwrap() == p + finish(s2).unwrap(),
{
    if !s1.failed && s1.acc.len() > 0 {
        if line_split(s1.acc) is Some {
            let f = line_split(s1.acc).unwrap();
            assert((p + s2.batch).push(s2.entry.push(f)) =~= p + s2.batch.push(s2.entry.push(f)));
        }
    }
}

/// Splitting a text line happens at the first separator byte: everything
/// after it, further separator bytes included, belongs to the value.
pub proof fn lemma_split_at_first_separator(k: Seq<u8>, v: Seq<u8>)
    requires
        !k.contains(SEPARATOR),
    ensures
        line_split(k + seq![SEPARATOR] + v) == Some((k, v)),
{
    let b = k + seq![SEPARATOR] + v;
    assert forall|j: int| 0 <= j < k.len() implies b[j] != SEPARATOR by {
        if b[j] == SEPARATOR {
            assert(k[j] == SEPARATOR);
            assert(k.contains(SEPARATOR));
        }
    }
    assert(b[k.len() as int] == SEPARATOR);
    assert(is_first_occurrence(b, SEPARATOR, k.len() as int));
    lemma_first_occurrence_unique(b, SEPARATOR, first_occurrence(b, SEPARATOR), k.len() as int);
    assert(b.subrange(0, k.len() as int) =~= k);
    assert(b.subrange(k.len() as int + 1, b.len() as int) =~= v);
}

/// The state after one text field line `k=v` with nothing before it: still
/// inside the line, everything accumulated, nothing committed.
proof fn lemma_run_field_line(k: Seq<u8>, v: Seq<u8>)
    requires
        !k.contains(SEPARATOR),
        !k.contains(NEW_LINE),
        !v.contains(NEW_LINE),
    ensures
        ({
            let t = run(init_state(), k + seq![SEPARATOR] + v);
            &&& t.mode is SingleLine
            &&& t.acc == k + seq![SEPARATOR] + v
            &&& t.entry == Seq::<FieldBytes>::empty()
            &&& t.batch == Seq::<Seq<FieldBytes>>::empty()
            &&& !t.failed
        }),
{
    let b = k + seq![SEPARATOR] + v;
    assert forall|j: int| 0 <= j < k.len() implies k[j] != SEPARATOR && k[j] != NEW_LINE by {
        if k[j] == SEPARATOR {
            assert(k.contains(SEPARATOR));
        }
        if k[j] == NEW_LINE {
            assert(k.contains(NEW_LINE));
        }
    }
    assert forall|j: int| 0 <= j < v.len() implies v[j] != NEW_LINE by {
        if v[j] == NEW_LINE {
            assert(v.contains(NEW_LINE));
        }
    }
    lemma_run_plain(init_state(), k);
    let s1 = run(init_state(), k);
    assert(s1.acc =~= k);
    lemma_run_app(init_state(), k, seq![SEPARATOR]);
    assert(b =~= (k + seq![SEPARATOR]) + v);
    assert(run(init_state(), k + seq![SEPARATOR]) == run(s1, seq![SEPARATOR]));
    lemma_run_one(s1, SEPARATOR);
    let s2 = step(s1, SEPARATOR);
    assert(s2.acc =~= k + seq![SEPARATOR]);
    lemma_run_app(init_state(), k + seq![SEPARATOR], v);
    lemma_run_single(s2, v);
    let t = run(s2, v);
    assert(t.acc =~= b);
}

/// One text field line alone is one record with one field: parsing exactly
/// `k=v` (no newline in `k` or `v`, no separator in `k`) yields one record
/// holding the one field `(k, v)`.
pub proof fn lemma_single_field_record(k: Seq<u8>, v: Seq<u8>)
    requires
        !k.contains(SEPARATOR),
        !k.contains(NEW_LINE),
        !v.contains(NEW_LINE),
    ensures
        parse_spec(k + seq![SEPARATOR] + v) == Some(seq![seq![(k, v)]]),
{
    let b = k + seq![SEPARATOR] + v;
    lemma_run_field_line(k, v);
    let t = run(init_state(), b);
    lemma_split_at_first_separator(k, v);
    assert(t.batch.push(t.entry.push((k, v))) =~~= seq![seq![(k, v)]]);
}

/// A line with no separator byte makes the whole parse fail.
pub proof fn lemma_malformed_line_fails(b: Seq<u8>)
    requires
        b.len() > 0,
        !b.contains(SEPARATOR),
        !b.contains(NEW_LINE),
    ensures
        parse_spec(b) is None,
{
    assert forall|j: int| 0 <= j < b.len() implies b[j] != SEPARATOR && b[j] != NEW_LINE by {
        if b[j] == SEPARATOR {
            assert(b.contains(SEPARATOR));
        }
        if b[j] == NEW_LINE {
            assert(b.contains(NEW_LINE));
        }
    }
    lemma_run_plain(init_state(), b);
    let t = run(init_state(), b);
    assert(t.acc =~= b);
    if has_first(b, SEPARATOR) {
        let i = first_occurrence(b, SEPARATOR);
        assert(b[i] == SEPARATOR);
    }
}

/// One text field line closed by a blank line is one completed record, and
/// leaves the machine closed: ready for an independent input to follow.
pub proof fn lemma_closed_single_record(k: Seq<u8>, v: Seq<u8>)
    requires
        !k.contains(SEPARATOR),
        !k.contains(NEW_LINE),
        !v.contains(NEW_LINE),
    ensures
        parse_spec(k + seq![SEPARATOR] + v + seq![NEW_LINE, NEW_LINE]) == Some(seq![seq![(k, v)]]),
        closed_after(k + seq![SEPARATOR] + v + seq![NEW_LINE, NEW_LINE]),
{
    let b = k + seq![SEPARATOR] + v;
    let w = k + seq![SEPARATOR] + v + seq![NEW_LINE, NEW_LINE];
    lemma_run_field_line(k, v);
    let t = run(init_state(), b);
    lemma_run_app(init_state(), b, seq![NEW_LINE, NEW_LINE]);
    assert(w =~= b + seq![NEW_LINE, NEW_LINE]);
    lemma_run_two(t, NEW_LINE, NEW_LINE);
    lemma_split_at_first_separator(k, v);
    let u = step(step(t, NEW_LINE), NEW_LINE);
    assert(u.batch =~~= seq![seq![(k, v)]]);
}

/// Parses compose: after an input that closed its last record, a further
/// input (not beginning with a newline byte) parses exactly as it would
/// alone, and the records concatenate in order.
pub proof fn lemma_concat_of_closed(a: Seq<u8>, b: Seq<u8>)
    requires
        closed_after(a),
        b.len() > 0 ==> b[0] != NEW_LINE,
    ensures
        parse_spec(a + b) is Some <==> parse_spec(b) is Some,
        parse_spec(a + b) is Some ==> parse_spec(a + b).unwrap() == parse_spec(a).unwrap()
            + parse_spec(b).unwrap(),
{
    let sa = run(init_state(), a);
    lemma_run_app(init_state(), a, b);
    if b.len() == 0 {
        assert(a + b =~= a);
        assert(parse_spec(b) == Some(Seq::<Seq<FieldBytes>>::empty()));
        assert(sa.batch + Seq::<Seq<FieldBytes>>::empty() =~= sa.batch);
    } else {
        let c = b[0];
        let s1 = step(sa, c);
        let s2 = step(init_state(), c);
        assert(sa.acc =~= Seq::<u8>::empty());
        assert(sa.entry =~= Seq::<FieldBytes>::empty());
        assert(sa.batch + Seq::<Seq<FieldBytes>>::empty() =~= sa.batch);
        assert(batch_offset(s1, s2, sa.batch));
        lemma_run_head(sa, b);
        lemma_run_head(init_state(), b);
        lemma_run_offset(s1, s2, sa.batch, b.drop_first());
        lemma_finish_offset(run(sa, b), run(init_state(), b), sa.batch);
    }
}

/// The binary field block round trip: whatever the 8 nominal length bytes
/// hold, the block built from a key, those 8 bytes and a value splits back
/// into exactly that key and that value.
pub proof fn lemma_binary_block_round_trip(k: Seq<u8>, m: Seq<u8>, v: Seq<u8>)
    requires
        !k.contains(NEW_LINE),
        m.len() == 8,
    ensures
        multiline_split(k + seq![NEW_LINE] + m + v + seq![NEW_LINE]) == (k, v),
{
    let b = k + seq![NEW_LINE] + m + v + seq![NEW_LINE];
    let body = b.take(b.len() - 1);
    assert(body =~= k + seq![NEW_LINE] + m + v);
    assert forall|j: int| 0 <= j < k.len() implies body[j] != NEW_LINE by {
        if body[j] == NEW_LINE {
            assert(k[j] == NEW_LINE);
            assert(k.contains(NEW_LINE));
        }
    }
    assert(body[k.len() as int] == NEW_LINE);
    assert(is_first_occurrence(body, NEW_LINE, k.len() as int));
    lemma_first_occurrence_unique(
        body,
        NEW_LINE,
        first_occurrence(body, NEW_LINE),
        k.len() as int,
    );
    assert(body.subrange(0, k.len() as int) =~= k);
    assert(body.subrange(k.len() as int + 9, body.len() as int) =~= v);
}

/// A record of one binary field, closed by a blank line: the 8 nominal
/// length bytes never reach the decoded field. The block's inner bytes must
/// not themselves form a blank line, which would end the block early.
pub proof fn lemma_binary_field_record(k: Seq<u8>, m: Seq<u8>, v: Seq<u8>)
    requires
        !k.contains(SEPARATOR),
        !k.contains(NEW_LINE),
        m.len() == 8,
        (m + v)[0] != NEW_LINE,
        (m + v).last() != NEW_LINE,
        forall|j: int| 1 <= j < (m + v).len() ==> !(#[trigger] (m + v)[j] == NEW_LINE && (m
            + v)[j - 1] == NEW_LINE),
    ensures
        parse_spec(k + seq![NEW_LINE] + m + v + seq![NEW_LINE, NEW_LINE, NEW_LINE]) == Some(
            seq![seq![(k, v)]],
        ),
        closed_after(k + seq![NEW_LINE] + m + v + seq![NEW_LINE, NEW_LINE, NEW_LINE]),
{
    let w = k + seq![NEW_LINE] + m + v + seq![NEW_LINE, NEW_LINE, NEW_LINE];
    let inner = m + v + seq![NEW_LINE];
    assert forall|j: int| 0 <= j < k.len() implies k[j] != SEPARATOR && k[j] != NEW_LINE by {
        if k[j] == SEPARATOR {
            assert(k.contains(SEPARATOR));
        }
        if k[j] == NEW_LINE {
            assert(k.contains(NEW_LINE));
        }
    }
    lemma_run_plain(init_state(), k);
    let s1 = run(init_state(), k);
    assert(s1.acc =~= k);
    lemma_run_app(init_state(), k, seq![NEW_LINE]);
    lemma_run_one(s1, NEW_LINE);
    assert(run(init_state(), k + seq![NEW_LINE]) == step(s1, NEW_LINE));
    let s2 = step(s1, NEW_LINE);
    assert(s2.acc =~= k + seq![NEW_LINE]);
    assert forall|j: int| 1 <= j < inner.len() implies !(#[trigger] inner[j] == NEW_LINE && inner[j
        - 1] == NEW_LINE) by {
        if j < (m + v).len() {
            assert(inner[j] == (m + v)[j] && inner[j - 1] == (m + v)[j - 1]);
        } else {
            assert(inner[j - 1] == (m + v).last());
        }
    }
    assert(inner[0] == (m + v)[0]);
    lemma_run_multi(s2, inner);
    lemma_run_app(init_state(), k + seq![NEW_LINE], inner);
    assert((k + seq![NEW_LINE]) + inner =~= k + seq![NEW_LINE] + m + v + seq![NEW_LINE]);
    let s3 = run(s2, inner);
    assert(s3.acc =~= k + seq![NEW_LINE] + m + v + seq![NEW_LINE]);
    assert(s3.last == NEW_LINE);
    lemma_run_app(init_state(), (k + seq![NEW_LINE]) + inner, seq![NEW_LINE, NEW_LINE]);
    assert(w =~= ((k + seq![NEW_LINE]) + inner) + seq![NEW_LINE, NEW_LINE]);
    lemma_run_two(s3, NEW_LINE, NEW_LINE);
    lemma_binary_block_round_trip(k, m, v);
    let u = step(step(s3, NEW_LINE), NEW_LINE);
    assert(u.batch =~~= seq![seq![(k, v)]]);
}

/// Two text field records separated by a blank line are two records, in
/// order.
pub proof fn lemma_two_records(k: Seq<u8>, v: Seq<u8>)
    requires
        !k.contains(SEPARATOR),
        !k.contains(NEW_LINE),
        !v.contains(NEW_LINE),
    ensures
        parse_spec(
            k + seq![SEPARATOR] + v + seq![NEW_LINE, NEW_LINE] + (k + seq![SEPARATOR] + v),
        ) == Some(seq![seq![(k, v)], seq![(k, v)]]),
{
    let a = k + seq![SEPARATOR] + v + seq![NEW_LINE, NEW_LINE];
    let b = k + seq![SEPARATOR] + v;
    lemma_closed_single_record(k, v);
    if k.len() > 0 {
        if b[0] == NEW_LINE {
            assert(k[0] == NEW_LINE);
            assert(k.contains(NEW_LINE));
        }
    } else {
        assert(b[0] == SEPARATOR);
    }
    lemma_concat_of_closed(a, b);
    lemma_single_field_record(k, v);
    assert(seq![seq![(k, v)]] + seq![seq![(k, v)]] =~~= seq![seq![(k, v)], seq![(k, v)]]);
}

/// An input ending in a text field line with no newline after it still
/// commits that field: the leftover line becomes the last record.
pub proof fn lemma_trailing_field_committed(a: Seq<u8>, k: Seq<u8>, v: Seq<u8>)
    requires
        closed_after(a),
        !k.contains(SEPARATOR),
        !k.contains(NEW_LINE),
        !v.contains(NEW_LINE),
    ensures
        parse_spec(a + (k + seq![SEPARATOR] + v)) == Some(
            parse_spec(a).unwrap().push(seq![(k, v)]),
        ),
{
    let b = k + seq![SEPARATOR] + v;
    if k.len() > 0 {
        if b[0] == NEW_LINE {
            assert(k[0] == NEW_LINE);
            assert(k.contains(NEW_LINE));
        }
    } else {
        assert(b[0] == SEPARATOR);
    }
    lemma_concat_of_closed(a, b);
    lemma_single_field_record(k, v);
    assert(parse_spec(a).unwrap() + seq![seq![(k, v)]] =~~= parse_spec(a).unwrap().push(
        seq![(k, v)],
    ));
}

} // verus!
