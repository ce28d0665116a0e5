use vstd::prelude::*;

verus! {

/// rand's small, fast generator, declared so that verified code can hold
/// one and thread it through every call that consumes randomness.
#[verifier::external_type_specification]
#[verifier::external_body]
pub struct ExSmallRng(rand::rngs::SmallRng);

/// Relies on rand::SeedableRng::seed_from_u64: builds a generator
/// deterministically from a seed. Nothing is promised of the values the
/// generator will yield.
#[verifier::external_body]
pub fn rng_from_seed(seed: u64) -> rand::rngs::SmallRng {
    <rand::rngs::SmallRng as rand::SeedableRng>::seed_from_u64(seed)
}

/// Relies on rand::Rng::gen_range: a value drawn from the half-open range
/// `[0, n)`. Only the bounds are promised; which value comes back may
/// differ from call to call.
#[verifier::external_body]
pub fn rand_below(rng: &mut rand::rngs::SmallRng, n: i64) -> (r: i64)
    requires
        n > 0,
    ensures
        0 <= r < n,
{
    rand::Rng::gen_range(rng, 0..n)
}

} // verus!
