//! Chance: the random numbers that the choice of moves draws on.

use vstd::prelude::*;
use rand::distributions::{IndependentSample, Range};

verus! {

/// The generator that `rand::weak_rng` hands out.
#[verifier::external_type_specification]
#[verifier::external_body]
pub struct ExXorShiftRng(rand::XorShiftRng);

/// The generator that `rand::thread_rng` hands out.
#[verifier::external_type_specification]
#[verifier::external_body]
pub struct ExThreadRng(rand::ThreadRng);

/// `rand::weak_rng`: a fast generator, seeded from the thread's own. Nothing
/// is claimed of it.
#[verifier::external_body]
pub(crate) fn weak_rng() -> (rng: rand::XorShiftRng) {
    rand::weak_rng()
}

/// `rand::thread_rng`: the generator of the thread. Nothing is claimed of
/// it.
#[verifier::external_body]
pub(crate) fn thread_rng() -> (rng: rand::ThreadRng) {
    rand::thread_rng()
}

/// `rand::distributions::Range::new(low, high)` sampled once with
/// `ind_sample`: by the crate's source a number from `low` up to, but not
/// including, `high`. `Range::new` panics unless `low < high`, which the
/// precondition asks for. Which number comes is left open.
#[verifier::external_body]
pub(crate) fn sample_u64(rng: &mut rand::XorShiftRng, low: u64, high: u64) -> (r: u64)
    requires
        low < high,
    ensures
        low <= r < high,
{
    Range::new(low, high).ind_sample(rng)
}

/// `rand::distributions::Range::new(low, high)` sampled once with
/// `ind_sample` from the thread's generator: by the crate's source a number
/// from `low` up to, but not including, `high`. `Range::new` panics unless
/// `low < high`, which the precondition asks for. Which number comes is
/// left open.
#[verifier::external_body]
pub(crate) fn sample_usize(rng: &mut rand::ThreadRng, low: usize, high: usize) -> (r: usize)
    requires
        low < high,
    ensures
        low <= r < high,
{
    Range::new(low, high).ind_sample(rng)
}

/// `rand::random::<bool>()`: one bit from the thread's generator. Nothing
/// is claimed of it.
#[verifier::external_body]
pub(crate) fn coin() -> (r: bool) {
    rand::random()
}

} // verus!
