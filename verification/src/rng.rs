//! The engines' source of randomness.
use vstd::prelude::*;

verus! {

/// Relies on rand::random_range over `lo..hi`: a draw from the
/// thread-local generator, which for a nonempty range always lies within
/// the range.  Nothing more is assumed of the value.
#[verifier::external_body]
pub(crate) fn sample_range(lo: u64, hi: u64) -> (r: u64)
    requires
        lo < hi,
    ensures
        lo <= r < hi,
{
    rand::random_range(lo..hi)
}

} // verus!
