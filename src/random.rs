//! The process-wide random source.
use vstd::prelude::*;

verus! {

/// Relies on `fastrand::u32` (fastrand 2.5) with the range `..bound`: a
/// number drawn from `0..bound`; the call panics on an empty range.
#[verifier::external_body]
pub(crate) fn random_below(bound: u32) -> (r: u32)
    requires
        bound > 0,
    ensures
        r < bound,
{
    fastrand::u32(..bound)
}

} // verus!
