//! The pseudo-random generator that a state draws its moves from.

use vstd::prelude::*;
use rand::{Rng, SeedableRng};
use rand::rngs::StdRng;

verus! {

/// `StdRng` of the `rand` crate, as a type whose inside is not looked at.
#[verifier::external_type_specification]
#[verifier::external_body]
pub struct ExStdRng(rand::rngs::StdRng);

/// `SeedableRng::seed_from_u64` of the `rand` crate for `StdRng`: a generator
/// made from `seed`. Nothing is claimed of the numbers it will give.
#[verifier::external_body]
pub(crate) fn seeded(seed: u64) -> StdRng {
    StdRng::seed_from_u64(seed)
}

/// `Rng::gen_range` of the `rand` crate on `usize`: some number from `low`
/// up to but not including `high`. The crate panics unless `low < high`.
/// Which number comes is left open.
#[verifier::external_body]
pub(crate) fn draw_between(rng: &mut StdRng, low: usize, high: usize) -> (r: usize)
    requires
        low < high,
    ensures
        low <= r < high,
{
    rng.gen_range(low, high)
}

/// `Rng::gen_range` of the `rand` crate on `u32`: some number from `low` up
/// to but not including `high`. The crate panics unless `low < high`. Which
/// number comes is left open.
#[verifier::external_body]
pub(crate) fn draw_number(rng: &mut StdRng, low: u32, high: u32) -> (r: u32)
    requires
        low < high,
    ensures
        low <= r < high,
{
    rng.gen_range(low, high)
}

/// `Clone::clone` of `StdRng`: a generator in the state of `rng`. Nothing is
/// claimed of it.
#[verifier::external_body]
pub(crate) fn fork(rng: &StdRng) -> StdRng {
    rng.clone()
}

} // verus!
