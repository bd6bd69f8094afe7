//! The random source that places new obstacles.

use rand::Rng;
use rand::SeedableRng;
use vstd::prelude::*;

verus! {

#[verifier::external_type_specification]
#[verifier::external_body]
pub struct ExStdRng(rand::rngs::StdRng);

/// Relies on rand's `SeedableRng::seed_from_u64`: a generator determined by the seed.
#[verifier::external_body]
pub(crate) fn seeded(seed: u64) -> (r: rand::rngs::StdRng) {
    rand::rngs::StdRng::seed_from_u64(seed)
}

/// Relies on rand's `Rng::gen_range`: a value in `[0, high)`; it panics when the
/// range is empty, which `requires` rules out.
#[verifier::external_body]
pub(crate) fn draw_below(rng: &mut rand::rngs::StdRng, high: u64) -> (r: u64)
    requires
        0 < high,
    ensures
        r < high,
{
    rng.gen_range(0u64, high)
}

} // verus!
