//! Random choices.
use rand::rngs::StdRng;
use rand::seq::SliceRandom;
use rand::{Rng, SeedableRng};
use vstd::prelude::*;

verus! {

/// rand's `StdRng`, a generator of random numbers.
#[verifier::external_type_specification]
#[verifier::external_body]
pub struct ExStdRng(rand::rngs::StdRng);

/// `StdRng::seed_from_u64`: a generator. Nothing is claimed of the numbers that it gives, nor
/// that generators with one seed give the same ones everywhere: rand leaves open which algorithm
/// stands behind `StdRng`, and draws a `usize` otherwise where it has another width.
#[verifier::external_body]
pub fn seeded(seed: u64) -> StdRng {
    StdRng::seed_from_u64(seed)
}

/// `Rng::gen_range` on the range from 0 to `n`: some number below `n`.
#[verifier::external_body]
pub fn below(rng: &mut StdRng, n: usize) -> (r: usize)
    requires
        n > 0,
    ensures
        r < n,
{
    rng.gen_range(0..n)
}

/// `Rng::gen_range` on the closed range from `low` to `high`: some number in it.
#[verifier::external_body]
pub fn between(rng: &mut StdRng, low: i32, high: i32) -> (r: i32)
    requires
        low <= high,
    ensures
        low <= r <= high,
{
    rng.gen_range(low..=high)
}

/// `Rng::gen` for 32 bits: any word.
#[verifier::external_body]
pub fn word(rng: &mut StdRng) -> u32 {
    rng.gen()
}

/// `SliceRandom::shuffle`: the same elements in some order.
#[verifier::external_body]
pub fn shuffle(v: &mut Vec<usize>, rng: &mut StdRng)
    ensures
        final(v)@.to_multiset() == old(v)@.to_multiset(),
{
    v.shuffle(rng);
}

} // verus!
