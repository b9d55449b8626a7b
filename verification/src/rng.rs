//! Trusted boundary around the `rand` crate: the deterministic seeded
//! generator that drives a trial, and the source of fresh seeds.

use vstd::prelude::*;

verus! {

#[verifier::external_type_specification]
#[verifier::external_body]
pub struct ExStdRng(rand::rngs::StdRng);

/// Relies on rand's `StdRng::from_seed` (via `SeedableRng`): builds the
/// deterministic generator whose whole stream is a function of the seed.
#[verifier::external_body]
pub(crate) fn rng_from_seed(seed: [u8; 32]) -> rand::rngs::StdRng {
    <rand::rngs::StdRng as rand::SeedableRng>::from_seed(seed)
}

/// Relies on rand's `Rng::gen_range` over `0..bound`: a uniform draw below
/// `bound`. It panics only on an empty range, which the bound rules out.
#[verifier::external_body]
pub(crate) fn rng_draw(rng: &mut rand::rngs::StdRng, bound: u128) -> (x: u128)
    requires
        bound > 0,
    ensures
        x < bound,
{
    rand::Rng::gen_range(rng, 0..bound)
}

/// Relies on rand's `random`: a fresh 32-byte seed from the thread-local
/// generator. Nothing holds of the value; every caller copes with any seed.
#[verifier::external_body]
pub(crate) fn random_seed() -> [u8; 32] {
    rand::random()
}

/// Relies on `StdRng`'s derived `Clone`: a copy of the generator state.
#[verifier::external_body]
pub(crate) fn rng_clone(rng: &rand::rngs::StdRng) -> rand::rngs::StdRng {
    rng.clone()
}

} // verus!
