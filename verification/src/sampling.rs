//! The randomness source behind fingerprint target sampling.
//!
//! Target selection is intentionally randomized (it decorrelates fan-out from
//! target proximity), so nothing more than the range of the drawn index can
//! be promised about it.
use vstd::prelude::*;

verus! {

/// fastrand's pseudo-random generator, passed explicitly through the
/// pipeline so that callers control seeding.
#[verifier::external_type_specification]
#[verifier::external_body]
pub struct ExRng(fastrand::Rng);

/// Relies on fastrand::Rng::usize: returns a number of the given range and
/// panics only when the range is empty, which `lo < hi` rules out.
#[verifier::external_body]
pub(crate) fn rand_index(rng: &mut fastrand::Rng, lo: usize, hi: usize) -> (r: usize)
    requires
        lo < hi,
    ensures
        lo <= r < hi,
{
    rng.usize(lo..hi)
}

} // verus!
