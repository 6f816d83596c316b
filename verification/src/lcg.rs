//! The linear congruential generator that seeds every procedural scene.
use vstd::prelude::*;

verus! {

/// The generator's multiplier.
pub const MULTIPLIER: u32 = 1664525;

/// The generator's increment.
pub const INCREMENT: u32 = 1013904223;

/// The next state of the generator: `seed * 1664525 + 1013904223` modulo 2^32.
pub open spec fn next_state(seed: u32) -> u32 {
    ((seed as int * MULTIPLIER as int + INCREMENT as int) % 0x1_0000_0000) as u32
}

/// Advances the seed and returns the new state, which callers divide by 2^32 for a
/// sample in [0, 1).
pub fn random_step(seed: &mut u32) -> (sample: u32)
    ensures
        *final(seed) == next_state(*old(seed)),
        sample == *final(seed),
{
    let s = seed.wrapping_mul(MULTIPLIER).wrapping_add(INCREMENT);
    *seed = s;
    s
}

} // verus!
