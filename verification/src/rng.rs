//! A small seeded linear-congruential pseudo-random source. Initial node
//! placement draws from it, so a layout is reproducible from its seed: the
//! next state is a pure function of the current one, and both are pinned
//! exactly in the contracts.

use vstd::prelude::*;

verus! {

/// The state after one step: a linear-congruential update modulo 2^64.
pub open spec fn spec_next(s: u64) -> u64 {
    ((s * 6364136223846793005 + 1442695040888963407) % 0x1_0000_0000_0000_0000) as u64
}

/// The draw taken from state `s` for a half-extent `half`: uniform over the
/// odd-sized range `[-half, half]`.
pub open spec fn spec_draw(s: u64, half: int) -> int {
    spec_next(s) as int % (2 * half + 1) - half
}

/// Deterministic pseudo-random source, seeded once per layout.
pub struct SeededRng {
    pub state: u64,
}

impl SeededRng {
    /// A source whose whole future is fixed by `seed`.
    pub fn new(seed: u64) -> (r: SeededRng)
        ensures
            r.state == seed,
    {
        SeededRng { state: seed }
    }

    /// Advance once and return the new state.
    pub fn next_u64(&mut self) -> (r: u64)
        ensures
            final(self).state == spec_next(old(self).state),
            r == final(self).state,
    {
        let s = self.state as u128;
        let v = (s * 6364136223846793005u128 + 1442695040888963407u128)
            % 0x1_0000_0000_0000_0000u128;
        let r = v as u64;
        self.state = r;
        r
    }

    /// One draw, uniform over `[-half, half]`, exactly `spec_draw` of the
    /// state before the call; the state advances once.
    pub fn next_in_range(&mut self, half: i64) -> (r: i64)
        requires
            0 <= half <= 1_000_000_000_000,
        ensures
            final(self).state == spec_next(old(self).state),
            r as int == spec_draw(old(self).state, half as int),
            -half <= r <= half,
    {
        let v = self.next_u64();
        let span = (2 * (half as u64)) + 1;
        let m = (v % span) as i64;
        m - half
    }
}

} // verus!
