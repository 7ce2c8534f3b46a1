//! Text helpers over the standard library.

use vstd::prelude::*;

verus! {

/// Whether two texts hold the same characters.
pub(crate) fn text_eq(a: &str, b: &str) -> (r: bool)
    ensures
        r == (a@ == b@),
{
    let left = a.to_owned();
    let right = b.to_owned();
    left == right
}

/// `String`'s `+` from the standard library: the characters of `a`, then
/// those of `b`.
#[verifier::external_body]
pub(crate) fn text_concat(a: String, b: &str) -> (r: String)
    ensures
        r@ == a@ + b@,
{
    a + b
}

} // verus!
