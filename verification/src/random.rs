//! The random choices the optimizers make, drawn from `rand`'s `StdRng`.
use vstd::prelude::*;

use rand::rngs::StdRng;
use rand::seq::SliceRandom;
use rand::Rng;
use rand::RngExt;
use rand::SeedableRng;

verus! {

/// The seeded standard generator of `rand`.
#[verifier::external_type_specification]
#[verifier::external_body]
pub struct ExStdRng(StdRng);

/// Calls `SeedableRng::seed_from_u64`: a generator seeded from `seed`. The
/// generator's state is opaque here, so nothing is said of it.
#[verifier::external_body]
pub(crate) fn seeded_rng(seed: u64) -> (r: StdRng) {
    StdRng::seed_from_u64(seed)
}

/// Calls `Rng::next_u64`: the next 64 random bits of the generator. Which
/// value comes out is left unsaid.
#[verifier::external_body]
pub(crate) fn random_u64(rng: &mut StdRng) -> (r: u64) {
    rng.next_u64()
}

/// Calls `RngExt::random_range` with the range `0..bound`, which `rand`
/// documents to return a value in the range and to panic on an empty one:
/// the result is below `bound`. Which value comes out is left unsaid.
#[verifier::external_body]
pub(crate) fn random_below(rng: &mut StdRng, bound: usize) -> (r: usize)
    requires
        bound > 0,
    ensures
        r < bound,
{
    rng.random_range(0..bound)
}

/// Calls `SliceRandom::shuffle` on the vector: `rand`'s source only swaps
/// elements, so the result holds the same elements, each as often. Their new
/// order is left unsaid.
#[verifier::external_body]
pub(crate) fn shuffle<T>(v: &mut Vec<T>, rng: &mut StdRng)
    ensures
        final(v)@.len() == old(v)@.len(),
        final(v)@.to_multiset() == old(v)@.to_multiset(),
{
    v.as_mut_slice().shuffle(rng)
}

/// Calls `SliceRandom::partial_shuffle` on the vector with `amount`: `rand`'s
/// source only swaps elements, so the result holds the same elements, each as
/// often. Which elements end where is left unsaid.
#[verifier::external_body]
pub(crate) fn partial_shuffle<T>(v: &mut Vec<T>, rng: &mut StdRng, amount: usize)
    ensures
        final(v)@.len() == old(v)@.len(),
        final(v)@.to_multiset() == old(v)@.to_multiset(),
{
    let _ = v.as_mut_slice().partial_shuffle(rng, amount);
}

} // verus!
