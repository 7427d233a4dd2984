//! The core's only source of randomness, behind trusted wrappers.
//!
//! Nothing can be promised about which value comes back, so callers state
//! what holds of every outcome.

use vstd::prelude::*;

verus! {

/// Relies on `rand::random_range` over `lo..hi`: the sampled value lies in
/// the half-open range. The function panics on an empty range, so the range
/// is required to be non-empty.
#[verifier::external_body]
pub(crate) fn rand_range_i32(lo: i32, hi: i32) -> (r: i32)
    requires
        lo < hi,
    ensures
        lo <= r < hi,
{
    rand::random_range(lo..hi)
}

/// Relies on `rand::random_ratio`: true with probability `num/den`, always
/// true when `num == den` and never when `num == 0`. The function panics
/// when `den == 0` or `num > den`, so those inputs are required away.
#[verifier::external_body]
pub(crate) fn rand_ratio(num: u32, den: u32) -> (r: bool)
    requires
        0 < den,
        num <= den,
    ensures
        num == den ==> r,
        num == 0 ==> !r,
{
    rand::random_ratio(num, den)
}

} // verus!
