//! Seedable pseudorandom source.
//!
//! The generator is an explicit value handed into the sampling core, so a run
//! is reproducible from its seed alone; seeding from the clock is the caller's
//! business. The step function is pinned exactly by the contracts, so every
//! draw is a mathematical function of the seed.

use vstd::prelude::*;

verus! {

/// State that replaces an all-zero seed, which the xorshift step would keep
/// at zero forever.
pub const SEED_FALLBACK: u64 = 0x9E3779B97F4A7C15;

/// One xorshift step over the 64-bit state.
pub open spec fn next_of(s: u64) -> u64 {
    let a = s ^ (s << 13);
    let b = a ^ (a >> 7);
    b ^ (b << 17)
}

/// The state a generator starts from for a given seed.
pub open spec fn state_of_seed(seed: u64) -> u64 {
    if seed == 0 {
        SEED_FALLBACK
    } else {
        seed
    }
}

/// A 64-bit xorshift pseudorandom generator.
pub struct XorShiftRng {
    pub state: u64,
}

impl XorShiftRng {
    /// Builds a generator whose whole future output is fixed by `seed`.
    pub fn new_from_seed(seed: u64) -> (rng: XorShiftRng)
        ensures
            rng.state == state_of_seed(seed),
    {
        XorShiftRng { state: if seed == 0 { SEED_FALLBACK } else { seed } }
    }

    /// Advances the state once and returns it.
    pub fn next_u64(&mut self) -> (r: u64)
        ensures
            final(self).state == next_of(old(self).state),
            r == next_of(old(self).state),
    {
        let mut x = self.state;
        x = x ^ (x << 13u64);
        x = x ^ (x >> 7u64);
        x = x ^ (x << 17u64);
        self.state = x;
        x
    }

    /// Draws a value below `bound`.
    pub fn next_below(&mut self, bound: usize) -> (r: usize)
        requires
            bound >= 1,
        ensures
            final(self).state == next_of(old(self).state),
            r < bound,
            r as int == next_of(old(self).state) as int % bound as int,
    {
        let x = self.next_u64();
        (x % (bound as u64)) as usize
    }
}

} // verus!
