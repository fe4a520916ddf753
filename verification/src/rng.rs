//! A small deterministic pseudo-random number generator.
//!
//! Random permutations, parent selection, crossover cuts and mutation
//! draws all take their randomness from a caller-supplied generator, so
//! a run is reproducible exactly when the caller fixes the seed.  The
//! generator is the splitmix construction on a 64-bit state: one
//! additive step per draw followed by a mixing function.

use vstd::prelude::*;

verus! {

/// The generator: a 64-bit state advanced on every draw.
pub struct Rng {
    state: u64,
}

impl Rng {
    /// A generator starting from the given seed.
    pub fn new(seed: u64) -> Rng {
        Rng { state: seed }
    }

    /// The next raw 64-bit draw.
    fn next_u64(&mut self) -> u64 {
        self.state = self.state.wrapping_add(0x9E3779B97F4A7C15);
        let mut z: u64 = self.state;
        z = (z ^ (z >> 30)).wrapping_mul(0xBF58476D1CE4E5B9);
        z = (z ^ (z >> 27)).wrapping_mul(0x94D049BB133111EB);
        z ^ (z >> 31)
    }

    /// A draw strictly below `bound`.
    pub fn below(&mut self, bound: usize) -> (r: usize)
        requires
            bound > 0,
        ensures
            r < bound,
    {
        let raw = self.next_u64();
        (raw % (bound as u64)) as usize
    }
}

} // verus!
