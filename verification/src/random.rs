use rand::rngs::StdRng;
use rand::seq::SliceRandom;
use rand::{Rng, SeedableRng};
use vstd::prelude::*;

verus! {

#[verifier::external_type_specification]
#[verifier::external_body]
pub struct ExStdRng(StdRng);

/// `StdRng::seed_from_u64`: a generator seeded with `seed`.
#[verifier::external_body]
pub(crate) fn seeded_rng(seed: u64) -> StdRng {
    StdRng::seed_from_u64(seed)
}

/// `Rng::random::<u64>`: the next 64 random bits of `rng`; any value may come back.
#[verifier::external_body]
pub(crate) fn random_u64(rng: &mut StdRng) -> u64 {
    rng.random::<u64>()
}

/// `Rng::random_range(0..=k)`: a number between `0` and `k`, both included.
#[verifier::external_body]
pub(crate) fn random_index(rng: &mut StdRng, k: usize) -> (r: usize)
    ensures
        r <= k,
{
    rng.random_range(0..=k)
}

/// `SliceRandom::shuffle`: puts the items of `v` in a random order, keeping each item.
#[verifier::external_body]
pub(crate) fn shuffle(v: &mut Vec<usize>, rng: &mut StdRng)
    ensures
        final(v)@.to_multiset() == old(v)@.to_multiset(),
{
    v.shuffle(rng)
}

} // verus!
