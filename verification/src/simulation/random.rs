//! The one source of chance in the simulation.
use vstd::prelude::*;
use rand::Rng;

verus! {

/// A number drawn by `rand::Rng::gen_range` on the thread's generator
/// (`rand::thread_rng`) from the inclusive range `lo..=hi`. The range must not be
/// empty (`gen_range` panics on an empty range); what is promised is only that
/// the number lies in the range, since it is drawn at random.
#[verifier::external_body]
pub fn random_in(lo: usize, hi: usize) -> (r: usize)
    requires
        lo <= hi,
    ensures
        lo <= r <= hi,
{
    rand::thread_rng().gen_range(lo..=hi)
}

} // verus!
