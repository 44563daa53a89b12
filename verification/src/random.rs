//! The random draws that mock a consumer's topic changes.
use vstd::prelude::*;

verus! {

/// Calls `rand::random_ratio(numerator, denominator)`: `true` with chance
/// `numerator / denominator`. Claimed, as rand documents: it panics unless
/// `0 < denominator` and `numerator <= denominator` (left out here), returns
/// `false` when `numerator == 0` and `true` when `numerator == denominator`.
/// Otherwise the outcome is left free.
#[verifier::external_body]
pub(crate) fn random_ratio(numerator: u32, denominator: u32) -> (r: bool)
    requires
        0 < denominator,
        numerator <= denominator,
    ensures
        numerator == 0 ==> !r,
        numerator == denominator ==> r,
{
    rand::random_ratio(numerator, denominator)
}

/// Calls `rand::random_range(0..len)`. Claimed, as rand documents: it
/// panics on an empty range (left out here) and returns a value of the
/// range; which one is left free.
#[verifier::external_body]
pub(crate) fn random_index(len: usize) -> (r: usize)
    requires
        len > 0,
    ensures
        r < len,
{
    rand::random_range(0..len)
}

} // verus!
