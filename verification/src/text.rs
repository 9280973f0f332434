//! Conversion of raw bytes to text, replacing invalid sequences instead of
//! rejecting them.

use vstd::prelude::*;

verus! {

/// The text that tolerant conversion of the bytes `b` yields: invalid
/// sequences come out as the replacement character, valid text is kept.
/// The result depends on the bytes alone.
pub uninterp spec fn lossy(b: Seq<u8>) -> Seq<char>;

/// Relies on `String::from_utf8_lossy`: converts bytes to text, replacing
/// invalid sequences with the replacement character; the result depends on
/// the bytes alone, which is what `lossy` names.
#[verifier::external_body]
pub(crate) fn lossy_string(bytes: &Vec<u8>) -> (r: String)
    ensures
        r@ == lossy(bytes@),
{
    String::from_utf8_lossy(bytes).into_owned()
}

} // verus!
