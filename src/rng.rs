//! The seeded random source that every stochastic decision goes through.
//!
//! The generator is rand's `StdRng`; these are the only places where it is
//! called. Nothing is promised of the values drawn but their range.
use rand::rngs::StdRng;
use rand::{Rng, SeedableRng};
use vstd::prelude::*;

verus! {

#[verifier::external_type_specification]
#[verifier::external_body]
pub struct ExStdRng(StdRng);

/// Relies on rand's `SeedableRng::seed_from_u64`: a generator whose whole
/// stream is fixed by `seed`.
#[verifier::external_body]
pub(crate) fn seeded_rng(seed: u64) -> StdRng {
    StdRng::seed_from_u64(seed)
}

/// Relies on rand's `rand::rng()` and `Rng::random::<u64>`: a seed drawn from
/// the thread-local, entropy-seeded generator. Anything may come back.
#[verifier::external_body]
pub(crate) fn entropy_seed() -> u64 {
    let mut tr = rand::rng();
    tr.random()
}

/// Relies on rand's `Rng::random_range` over `lo..=hi`, which panics only on an
/// empty range and otherwise returns a value of the range.
#[verifier::external_body]
pub(crate) fn random_i32_inclusive(rng: &mut StdRng, lo: i32, hi: i32) -> (r: i32)
    requires
        lo <= hi,
    ensures
        lo <= r <= hi,
{
    rng.random_range(lo..=hi)
}

/// Relies on rand's `Rng::random_range` over `lo..hi`, which panics only on an
/// empty range and otherwise returns a value of the range.
#[verifier::external_body]
pub(crate) fn random_i32_below(rng: &mut StdRng, lo: i32, hi: i32) -> (r: i32)
    requires
        lo < hi,
    ensures
        lo <= r < hi,
{
    rng.random_range(lo..hi)
}

/// Relies on rand's `Rng::random_range` over `0..n`, which panics only on an
/// empty range and otherwise returns a value of the range.
#[verifier::external_body]
pub(crate) fn random_index(rng: &mut StdRng, n: usize) -> (r: usize)
    requires
        n > 0,
    ensures
        r < n,
{
    rng.random_range(0..n)
}

/// Relies on rand's `Rng::random_ratio(1, 2)`: a fair coin (the same
/// Bernoulli threshold as `random_bool(0.5)`).
#[verifier::external_body]
pub(crate) fn coin_flip(rng: &mut StdRng) -> bool {
    rng.random_ratio(1, 2)
}

} // verus!
