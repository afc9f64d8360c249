//! The injected random-number source: a seeded pseudo-random generator,
//! used by map generation and by random exploration steps.

use vstd::prelude::*;

verus! {

#[verifier::external_type_specification]
#[verifier::external_body]
pub struct ExStdRng(rand::rngs::StdRng);

/// A seedable random-number source. The same seed always yields the same
/// draw sequence, which is what makes a whole simulation run reproducible.
pub struct SimRng {
    pub inner: rand::rngs::StdRng,
}

/// Relies on rand::SeedableRng::seed_from_u64 for StdRng: builds a
/// deterministic generator from the seed.
#[verifier::external_body]
pub(crate) fn rng_from_seed(seed: u64) -> (r: SimRng) {
    SimRng { inner: <rand::rngs::StdRng as rand::SeedableRng>::seed_from_u64(seed) }
}

/// Relies on rand::Rng::gen_range over the half-open range `0..bound`:
/// returns a value below the bound (it panics only on an empty range,
/// which the precondition rules out).
#[verifier::external_body]
pub(crate) fn draw_below(rng: &mut SimRng, bound: usize) -> (r: usize)
    requires
        bound >= 1,
    ensures
        r < bound,
{
    rand::Rng::gen_range(&mut rng.inner, 0..bound)
}

} // verus!
