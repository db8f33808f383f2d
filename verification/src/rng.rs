//! Trusted boundary to the pseudo-random number generator. All
//! stochastic decisions of the engine draw through the few wrappers
//! here; everything done with the drawn values is verified.
use vstd::prelude::*;

use rand::Rng;
use rand::SeedableRng;
use rand_xoshiro::Xoshiro256PlusPlus;

verus! {

#[verifier::external_type_specification]
#[verifier::external_body]
pub struct ExXoshiro(Xoshiro256PlusPlus);

/// Relies on rand::random: one machine-entropy 64-bit draw.
#[verifier::external_body]
pub(crate) fn entropy_u64() -> u64 {
    rand::random::<u64>()
}

/// Relies on rand_core's SeedableRng::seed_from_u64: builds a
/// deterministic generator from a 64-bit seed.
#[verifier::external_body]
pub(crate) fn rng_from_seed(seed: u64) -> Xoshiro256PlusPlus {
    Xoshiro256PlusPlus::seed_from_u64(seed)
}

/// Relies on Xoshiro256PlusPlus::jump: advances the stream by 2^128
/// steps, yielding an independent stream.
#[verifier::external_body]
pub(crate) fn rng_jump(rng: &mut Xoshiro256PlusPlus) {
    rng.jump();
}

/// Relies on Xoshiro256PlusPlus's Clone: duplicates the generator
/// state.
#[verifier::external_body]
pub(crate) fn rng_clone(rng: &Xoshiro256PlusPlus) -> Xoshiro256PlusPlus {
    rng.clone()
}

/// Relies on rand's Rng::gen_range over `0..n`: a draw below `n`; the
/// range is non-empty, so the call cannot panic.
#[verifier::external_body]
pub(crate) fn rng_below(rng: &mut Xoshiro256PlusPlus, n: u32) -> (r: u32)
    requires
        n >= 1,
    ensures
        r < n,
{
    rng.gen_range(0..n)
}

/// Relies on rand's Rng::gen_ratio: true with probability
/// `num / den`; never true when `num` is zero, always true when
/// `num == den`. The bounds keep the underlying
/// `Bernoulli::from_ratio` from returning an error, so the call cannot
/// panic.
#[verifier::external_body]
pub(crate) fn rng_chance(rng: &mut Xoshiro256PlusPlus, num: u32, den: u32) -> (r: bool)
    requires
        0 < den,
        num <= den,
    ensures
        num == 0 ==> !r,
        num == den ==> r,
{
    rng.gen_ratio(num, den)
}

} // verus!
