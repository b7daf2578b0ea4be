//! The single entry point for randomness: everything downstream states
//! what holds of every outcome, never which outcome is drawn.

use vstd::prelude::*;

verus! {

/// Relies on rand::random_range over an inclusive range: the sample lies
/// within the range; the range must be non-empty or the call panics.
#[verifier::external_body]
pub(crate) fn random_in_range(lo: u64, hi: u64) -> (r: u64)
    requires
        lo <= hi,
    ensures
        lo <= r <= hi,
{
    rand::random_range(lo..=hi)
}

} // verus!
