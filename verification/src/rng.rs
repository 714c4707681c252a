//! A deterministic pseudo-random source for the genetic operators.
//!
//! Randomized initialization, crossover and mutation all draw from this
//! injectable generator, so a run is reproducible from its seed and tests can
//! assert exact outcomes.

use vstd::prelude::*;

verus! {

/// Denominator for all probability genes: chances are parts per million.
pub const CHANCE_DENOM: u32 = 1_000_000;

pub const MUL: u64 = 6364136223846793005;
pub const INC: u64 = 1442695040888963407;

/// A 64-bit linear congruential generator.
pub struct Rng {
    pub state: u64,
}

/// The generator's state after one step.
pub open spec fn next_state(s: u64) -> u64 {
    ((s * MUL + INC) % 0x1_0000_0000_0000_0000) as u64
}

impl Rng {
    /// Start a generator from a seed.
    pub fn new(seed: u64) -> (r: Rng)
        ensures
            r.state == seed,
    {
        Rng { state: seed }
    }

    /// Draw the next 64-bit value.
    pub fn next_u64(&mut self) -> (r: u64)
        ensures
            final(self).state == next_state(old(self).state),
            r == next_state(old(self).state),
    {
        proof {
            vstd::arithmetic::mul::lemma_mul_inequality(
                old(self).state as int,
                u64::MAX as int,
                MUL as int,
            );
        }
        let wide: u128 = (self.state as u128) * (MUL as u128) + (INC as u128);
        let next: u64 = (wide % 0x1_0000_0000_0000_0000u128) as u64;
        self.state = next;
        next
    }

    /// Draw a biased coin: true with probability `c` parts per million.
    pub fn chance(&mut self, c: u32) -> (b: bool)
        requires
            c <= CHANCE_DENOM,
        ensures
            final(self).state == next_state(old(self).state),
            b == (next_state(old(self).state) % (CHANCE_DENOM as u64) < c as u64),
    {
        let r = self.next_u64();
        r % (CHANCE_DENOM as u64) < c as u64
    }

    /// Draw a value in the inclusive range `lo ..= hi`.
    pub fn gen_range_i64(&mut self, lo: i64, hi: i64) -> (r: i64)
        requires
            lo <= hi,
            -0x2000_0000_0000_0000 <= lo,
            hi <= 0x2000_0000_0000_0000,
        ensures
            lo <= r <= hi,
            final(self).state == next_state(old(self).state),
            r as int == lo as int + (next_state(old(self).state) as int) % (hi as int - lo as int + 1),
    {
        let x = self.next_u64();
        let width: u64 = ((hi - lo) as u64) + 1;
        let off: u64 = x % width;
        lo + (off as i64)
    }
}

} // verus!
