//! The linear congruential generator that is the only source of randomness.

use vstd::prelude::*;

verus! {

/// The multiplier of the generator.
pub const LCG_MULTIPLIER: u64 = 6364136223846793005;

/// The state that follows `state`: multiplied by the multiplier, plus one,
/// modulo 2^64.
pub open spec fn lcg_next(state: u64) -> u64 {
    vstd::wrapping::u64_specs::wrapping_add(
        vstd::wrapping::u64_specs::wrapping_mul(state, LCG_MULTIPLIER),
        1,
    )
}

/// A generator of 64-bit numbers that is determined by its seed.
#[derive(Debug, Clone, Copy)]
pub struct LcgRng {
    state: u64,
}

impl LcgRng {
    /// The current state.
    pub closed spec fn spec_state(&self) -> u64 {
        self.state
    }

    /// A generator seeded with `seed`; a seed of zero counts as one.
    pub fn new(seed: u64) -> (r: Self)
        ensures
            r.spec_state() == (if seed >= 1 {
                seed
            } else {
                1
            }),
    {
        Self { state: if seed >= 1 {
            seed
        } else {
            1
        } }
    }

    /// Advances the generator and hands out its new state.
    pub fn next_u64(&mut self) -> (r: u64)
        ensures
            r == lcg_next(old(self).spec_state()),
            final(self).spec_state() == r,
    {
        self.state = self.state.wrapping_mul(LCG_MULTIPLIER).wrapping_add(1);
        self.state
    }

    /// An index below `bound` from the upper half of the next number; for a
    /// bound of at most one the generator is not advanced and the index is 0.
    pub fn next_index(&mut self, bound: usize) -> (r: usize)
        ensures
            bound <= 1 ==> r == 0 && final(self).spec_state() == old(self).spec_state(),
            bound > 1 ==> final(self).spec_state() == lcg_next(old(self).spec_state()) && r == (
            lcg_next(old(self).spec_state()) / 0x1_0000_0000) % (bound as u64),
    {
        if bound <= 1 {
            return 0;
        }
        let x = self.next_u64();
        ((x / 0x1_0000_0000) % (bound as u64)) as usize
    }
}

} // verus!
