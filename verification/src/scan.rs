//! Byte scanning primitives: the first occurrence of a byte in a sequence,
//! and copying a range of a byte vector.

use vstd::prelude::*;

verus! {

/// `i` is the position of the first occurrence of `x` in `b`.
pub open spec fn is_first_occurrence(b: Seq<u8>, x: u8, i: int) -> bool {
    &&& 0 <= i < b.len()
    &&& b[i] == x
    &&& forall|j: int| 0 <= j < i ==> b[j] != x
}

/// `b` holds `x` somewhere, stated through a first occurrence.
pub open spec fn has_first(b: Seq<u8>, x: u8) -> bool {
    exists|i: int| is_first_occurrence(b, x, i)
}

/// The position of the first occurrence of `x` in `b`; meaningful only
/// when `has_first(b, x)`.
pub open spec fn first_occurrence(b: Seq<u8>, x: u8) -> int {
    choose|i: int| is_first_occurrence(b, x, i)
}

/// A first occurrence is unique.
pub proof fn lemma_first_occurrence_unique(b: Seq<u8>, x: u8, i: int, j: int)
    requires
        is_first_occurrence(b, x, i),
        is_first_occurrence(b, x, j),
    ensures
        i == j,
{
    if i < j {
        assert(b[i] != x);
    }
    if j < i {
        assert(b[j] != x);
    }
}

/// Finds the first occurrence of `x` among the first `end` bytes of `bytes`.
pub fn find_first_before(bytes: &Vec<u8>, x: u8, end: usize) -> (r: Option<usize>)
    requires
        end <= bytes@.len(),
    ensures
        match r {
            Some(i) => i < end && is_first_occurrence(bytes@.take(end as int), x, i as int),
            None => !has_first(bytes@.take(end as int), x),
        },
{
    let ghost pre = bytes@.take(end as int);
    let mut i: usize = 0;
    while i < end
        invariant
            end <= bytes@.len(),
            0 <= i <= end,
            pre == bytes@.take(end as int),
            forall|j: int| 0 <= j < i ==> pre[j] != x,
        decreases end - i,
    {
        if bytes[i] == x {
            assert(is_first_occurrence(pre, x, i as int));
            return Some(i);
        }
        i += 1;
    }
    proof {
        if has_first(pre, x) {
            let k = choose|k: int| is_first_occurrence(pre, x, k);
            assert(pre[k] != x);
        }
    }
    None
}

/// Copies `bytes[from..to]` into a fresh vector.
pub fn copy_range(bytes: &Vec<u8>, from: usize, to: usize) -> (r: Vec<u8>)
    requires
        from <= to <= bytes@.len(),
    ensures
        r@ == bytes@.subrange(from as int, to as int),
{
    let mut r: Vec<u8> = Vec::new();
    let mut i: usize = from;
    while i < to
        invariant
            from <= i <= to <= bytes@.len(),
            r@ == bytes@.subrange(from as int, i as int),
        decreases to - i,
    {
        r.push(bytes[i]);
        proof {
            assert(bytes@.subrange(from as int, i as int).push(bytes@[i as int]) =~= bytes@
                .subrange(from as int, i + 1 as int));
        }
        i += 1;
    }
    r
}

} // verus!
