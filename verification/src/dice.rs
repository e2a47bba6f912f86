//! The random source of the generators: the `rand` crate behind contracts.
//!
//! Nothing here is proved. Each item states what the `rand` function it
//! stands for promises of every outcome; which outcome comes is left open.

use vstd::prelude::*;
use rand::rngs::StdRng;
use rand::seq::SliceRandom;
use rand::Rng;
use rand::SeedableRng;

verus! {

/// `rand::rngs::StdRng`, the generator every draw is made from. Its state is
/// opaque to the proofs.
#[verifier::external_type_specification]
#[verifier::external_body]
pub struct ExStdRng(rand::rngs::StdRng);

/// `StdRng::seed_from_u64`: a generator started from `seed`.
/// Nothing is claimed of the generator that comes back.
#[verifier::external_body]
pub(crate) fn seeded_rng(seed: u64) -> StdRng {
    StdRng::seed_from_u64(seed)
}

/// `Rng::gen_range` on the half-open range `low..high`: the value drawn lies
/// in the range. The range must not be empty, on which `gen_range` panics.
#[verifier::external_body]
pub(crate) fn roll(rng: &mut StdRng, low: usize, high: usize) -> (r: usize)
    requires
        low < high,
    ensures
        low <= r < high,
{
    rng.gen_range(low..high)
}

/// `SliceRandom::shuffle`: the items are rearranged in place, so that
/// afterwards the vector holds each item as often as it did before.
#[verifier::external_body]
pub(crate) fn shuffle<T>(rng: &mut StdRng, items: &mut Vec<T>)
    ensures
        final(items)@.to_multiset() == old(items)@.to_multiset(),
{
    items.shuffle(rng)
}

} // verus!
