use vstd::prelude::*;
use rand::{Rng, SeedableRng};

verus! {

#[verifier::external_type_specification]
#[verifier::external_body]
pub struct ExSmallRng(rand::rngs::SmallRng);

/// Random engine of the texture effects: simple and fast.
pub type RandEngine = rand::rngs::SmallRng;

/// Seed of the texture effects' random engine: good, but deterministic.
pub const RAND_ENGINE_SEED: u64 = 0b1001100000111010100101010101010111000111010110100101111001010101;

/// `SeedableRng::seed_from_u64` of `SmallRng`: a generator started from `seed`. Its state is
/// left unsaid: the generator is opaque here, and its algorithm depends on the platform and the
/// crate's version, so the state is no function of the seed alone.
#[verifier::external_body]
fn small_rng_seed_from_u64(seed: u64) -> RandEngine {
    rand::rngs::SmallRng::seed_from_u64(seed)
}

/// The random engine of a texture effect, always started from the same seed (the engine's state
/// is opaque and is left unsaid).
pub fn create_rand_engine() -> RandEngine {
    small_rng_seed_from_u64(RAND_ENGINE_SEED)
}

/// `Rng::gen_range` over `low..=high` for `i32`: some value within the range, which must not be
/// empty.
#[verifier::external_body]
pub(crate) fn rand_i32_in_range(rng: &mut RandEngine, low: i32, high: i32) -> (r: i32)
    requires
        low <= high,
    ensures
        low <= r <= high,
{
    rng.gen_range(low..=high)
}

} // verus!
