//! Pseudo-random number generation, behind trusted wrappers around the
//! `rand` crate. Nothing is claimed about which values come back beyond
//! the documented range bounds; every use of randomness in the library
//! states what holds of every possible outcome.

use vstd::prelude::*;

verus! {

/// The xorshift generator that drives sampling and the acceptance gate.
#[verifier::external_type_specification]
#[verifier::external_body]
pub struct ExXorShiftRng(rand::XorShiftRng);

/// The operating system's thread-local generator, used only to seed.
#[verifier::external_type_specification]
#[verifier::external_body]
pub struct ExThreadRng(rand::ThreadRng);

/// Relies on `rand::thread_rng`: returns the thread-local generator.
#[verifier::external_body]
pub fn os_rng() -> rand::ThreadRng {
    rand::thread_rng()
}

/// Relies on `Rng::next_u32` of `rand::ThreadRng`: returns a random 32-bit
/// value. Nothing can be promised of which one.
#[verifier::external_body]
pub fn thread_next_u32(rng: &mut rand::ThreadRng) -> u32 {
    rand::Rng::next_u32(rng)
}

/// Relies on `XorShiftRng::from_seed` of rand: builds the generator from
/// four seed words, and panics on an all-zero seed, which is excluded here.
#[verifier::external_body]
pub fn seeded_rng(s0: u32, s1: u32, s2: u32, s3: u32) -> rand::XorShiftRng
    requires
        s0 != 0 || s1 != 0 || s2 != 0 || s3 != 0,
{
    <rand::XorShiftRng as rand::SeedableRng<[u32; 4]>>::from_seed([s0, s1, s2, s3])
}

/// Relies on `Rng::gen_range` of rand: returns a value uniformly
/// distributed in `[0, bound)`; it panics when the range is empty, which
/// is excluded here.
#[verifier::external_body]
pub fn rand_below(rng: &mut rand::XorShiftRng, bound: u64) -> (n: u64)
    requires
        bound > 0,
    ensures
        n < bound,
{
    rand::Rng::gen_range(rng, 0, bound)
}

/// A generator seeded from the operating system's entropy. The all-zero
/// seed, which the xorshift generator refuses, is replaced.
pub fn unseeded_rng() -> rand::XorShiftRng {
    let mut tr = os_rng();
    let s0 = thread_next_u32(&mut tr);
    let s1 = thread_next_u32(&mut tr);
    let s2 = thread_next_u32(&mut tr);
    let s3 = thread_next_u32(&mut tr);
    if s0 == 0 && s1 == 0 && s2 == 0 && s3 == 0 {
        seeded_rng(1, 2, 3, 4)
    } else {
        seeded_rng(s0, s1, s2, s3)
    }
}

} // verus!
