//! The noise source: a xoshiro256+ generator, seeded once.

use rand_xoshiro::rand_core::{RngCore, SeedableRng};
use rand_xoshiro::Xoshiro256Plus;
use vstd::prelude::*;

verus! {

/// The seed of every engine's generator.
pub const NOISE_SEED: u64 = 69_420;

/// The generator of `rand_xoshiro`; nothing is known of its state.
#[verifier::external_type_specification]
#[verifier::external_body]
pub struct ExXoshiro256Plus(Xoshiro256Plus);

/// Calls `Xoshiro256Plus::seed_from_u64`, which expands the seed with
/// SplitMix64 into the generator's state and cannot fail. Nothing is
/// claimed of the generator that comes back.
#[verifier::external_body]
pub(crate) fn seeded(seed: u64) -> (noise: Xoshiro256Plus) {
    Xoshiro256Plus::seed_from_u64(seed)
}

/// Calls `RngCore::next_u64` on the generator, which steps its state and
/// hands out 64 bits. Nothing is claimed of the bits: to the proofs any
/// value may come back.
#[verifier::external_body]
pub(crate) fn draw(noise: &mut Xoshiro256Plus) -> (bits: u64) {
    noise.next_u64()
}

} // verus!
