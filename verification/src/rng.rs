//! The random source that drives derivations.
//!
//! The engine depends only on a source of uniform integers in a range,
//! injected as a parameter. The source is a small deterministic generator
//! seeded by the caller: equal seeds give equal streams, which makes every
//! derivation a function of the grammar, the start symbol, the seed and
//! the step ceiling.

use vstd::prelude::*;

verus! {

/// State-update step of the generator: add the golden-ratio increment.
pub open spec fn rng_step(s: u64) -> u64 {
    s.wrapping_add(0x9E3779B97F4A7C15)
}

/// Output mix: xor-shift and multiply rounds over the updated state.
pub open spec fn rng_mix(s: u64) -> u64 {
    let z0 = (s ^ (s >> 30)).wrapping_mul(0xBF58476D1CE4E5B9);
    let z1 = (z0 ^ (z0 >> 27)).wrapping_mul(0x94D049BB133111EB);
    z1 ^ (z1 >> 31)
}

/// The value drawn from state `s` (before the draw advances the state).
pub open spec fn rng_out(s: u64) -> u64 {
    rng_mix(rng_step(s))
}

/// The index drawn below `bound` from state `s`.
pub open spec fn rng_out_below(s: u64, bound: u64) -> u64 {
    rng_out(s) % bound
}

/// A deterministic pseudo-random generator with 64 bits of state.
///
/// Two generators built from the same seed yield the same stream of
/// values; every contract of the engine is stated over `rng_step` and
/// `rng_out`, so callers can conclude that seeded generation is
/// reproducible.
#[derive(Debug, Clone, Copy, PartialEq, Eq, Structural)]
pub struct Rng {
    pub state: u64,
}

impl Rng {
    /// Builds a generator from a seed; equal seeds give equal generators.
    pub fn seeded(seed: u64) -> (r: Rng)
        ensures
            r.state == seed,
    {
        Rng { state: seed }
    }

    /// Draws the next 64-bit value and advances the state.
    pub fn next_u64(&mut self) -> (r: u64)
        ensures
            final(self).state == rng_step(old(self).state),
            r == rng_out(old(self).state),
    {
        self.state = self.state.wrapping_add(0x9E3779B97F4A7C15);
        let s = self.state;
        let z0 = (s ^ (s >> 30)).wrapping_mul(0xBF58476D1CE4E5B9);
        let z1 = (z0 ^ (z0 >> 27)).wrapping_mul(0x94D049BB133111EB);
        z1 ^ (z1 >> 31)
    }

    /// Draws a value uniformly below `bound`.
    pub fn below(&mut self, bound: u64) -> (r: u64)
        requires
            bound >= 1,
        ensures
            final(self).state == rng_step(old(self).state),
            r == rng_out_below(old(self).state, bound),
            r < bound,
    {
        self.next_u64() % bound
    }

    /// Draws an index uniformly below `bound`.
    pub fn below_idx(&mut self, bound: usize) -> (r: usize)
        requires
            bound >= 1,
        ensures
            final(self).state == rng_step(old(self).state),
            r == rng_out_below(old(self).state, bound as u64) as usize,
            r < bound,
    {
        let b: u64 = bound as u64;
        let x = self.below(b);
        x as usize
    }
}

} // verus!
