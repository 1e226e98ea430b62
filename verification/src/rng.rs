use vstd::prelude::*;

verus! {

/// Declares rand's standard pseudo-random generator type, so that a value
/// of it can be held in a field and passed to the wrappers below. The
/// generator's state stays opaque.
#[verifier::external_type_specification]
#[verifier::external_body]
pub struct ExStdRng(rand::rngs::StdRng);

/// Relies on rand::SeedableRng::from_entropy: builds a generator seeded
/// from the operating system's entropy source. Nothing is promised of the
/// generator's state; the call aborts only if that source itself fails.
#[verifier::external_body]
pub(crate) fn rng_from_entropy() -> rand::rngs::StdRng {
    <rand::rngs::StdRng as rand::SeedableRng>::from_entropy()
}

/// Relies on rand::SeedableRng::seed_from_u64: builds a generator from the
/// given seed. Nothing is promised of the generator's state.
#[verifier::external_body]
pub(crate) fn rng_from_seed(seed: u64) -> rand::rngs::StdRng {
    <rand::rngs::StdRng as rand::SeedableRng>::seed_from_u64(seed)
}

/// Relies on rand::Rng::gen_range: for a non-empty range `0..n` it returns
/// a value of the range and panics only on an empty range, which the
/// precondition rules out.
#[verifier::external_body]
pub(crate) fn rng_below(rng: &mut rand::rngs::StdRng, n: u64) -> (r: u64)
    requires
        n >= 1,
    ensures
        r < n,
{
    rand::Rng::gen_range(rng, 0..n)
}

} // verus!
