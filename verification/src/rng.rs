//! Seedable random source injected into the simulation context, so a
//! session replays deterministically from its seed.

use vstd::prelude::*;

verus! {

/// One step of a 64-bit linear-congruential generator
/// (Knuth's MMIX multiplier and increment).
pub open spec fn lcg_next(s: u64) -> u64 {
    ((6364136223846793005 * (s as int) + 1442695040888963407) % 0x1_0000_0000_0000_0000) as u64
}

/// Relies on rand::random: draws a value of the standard distribution;
/// nothing is promised of the result.
pub assume_specification<T>[ rand::random::<T> ]() -> (r: T)
    where
        rand::distributions::Standard: rand::distributions::Distribution<T>,
;

#[derive(Clone, Copy, PartialEq, Eq, Debug)]
pub struct RandomSource {
    pub state: u64,
}

impl RandomSource {
    pub fn from_seed(seed: u64) -> (r: RandomSource)
        ensures
            r.state == seed,
    {
        RandomSource { state: seed }
    }

    /// A source seeded from the process's entropy, through rand.
    pub fn from_entropy() -> (r: RandomSource) {
        RandomSource { state: rand::random::<u64>() }
    }

    pub fn next_u64(&mut self) -> (r: u64)
        ensures
            final(self).state == lcg_next(old(self).state),
            r == lcg_next(old(self).state),
    {
        let wide: u128 = 6364136223846793005u128 * (self.state as u128) + 1442695040888963407u128;
        let next: u64 = (wide % 0x1_0000_0000_0000_0000u128) as u64;
        self.state = next;
        next
    }

    /// Uniform-ish draw below `n`.
    pub fn below(&mut self, n: u64) -> (r: u64)
        requires
            1 <= n,
        ensures
            r < n,
            r == lcg_next(old(self).state) % n,
            final(self).state == lcg_next(old(self).state),
    {
        let v = self.next_u64();
        v % n
    }

    /// Draw from the inclusive range `lo ..= hi`.
    pub fn between(&mut self, lo: i64, hi: i64) -> (r: i64)
        requires
            lo <= hi,
            hi - lo < 0xFFFF_FFFF,
        ensures
            lo <= r <= hi,
            r == lo + (lcg_next(old(self).state) % ((hi - lo + 1) as u64)) as i64,
            final(self).state == lcg_next(old(self).state),
    {
        let span = (hi - lo + 1) as u64;
        let d = self.below(span);
        lo + (d as i64)
    }
}

} // verus!
