//! A linear congruential pseudo-random number generator.

use vstd::prelude::*;

verus! {

/// Multiplier of the recurrence.
pub const LCG_MULTIPLIER: u64 = 0x5deece66d;

/// Constant subtracted at each step of the recurrence.
pub const LCG_INCREMENT: u64 = 0x5deece66d;

/// One step of the recurrence: `s * a - c`, modulo `2^128`.
pub open spec fn lcg_step(s: u128, a: u64, c: u64) -> u128 {
    s.wrapping_mul(a as u128).wrapping_sub(c as u128)
}

/// A pseudo-random generator over a 128-bit state.
pub struct LCG {
    pub state: u128,
    pub a: u64,
    pub c: u64,
}

/// Relies on std::time::SystemTime: the nanoseconds elapsed since the Unix
/// epoch, or `None` when the clock reads an earlier time. Nothing is known of
/// the value.
#[verifier::external_body]
fn nanos_since_epoch() -> (r: Option<u128>) {
    std::time::SystemTime::now().duration_since(std::time::UNIX_EPOCH).ok().map(|d| d.as_nanos())
}

impl LCG {
    /// Seeds the generator from the system clock (with `0` when the clock
    /// reads a time before the Unix epoch).
    pub fn new() -> (r: Self)
        ensures
            r.a == LCG_MULTIPLIER,
            r.c == LCG_INCREMENT,
    {
        let state: u128 = match nanos_since_epoch() {
            Some(n) => n,
            None => 0,
        };
        LCG { state, a: LCG_MULTIPLIER, c: LCG_INCREMENT }
    }

    /// Seeds the generator with `seed`.
    pub fn new_seed(seed: u128) -> (r: Self)
        ensures
            r.state == seed,
            r.a == LCG_MULTIPLIER,
            r.c == LCG_INCREMENT,
    {
        LCG { state: seed, a: LCG_MULTIPLIER, c: LCG_INCREMENT }
    }

    /// Advances the state one step and returns the new state.
    pub fn next(&mut self) -> (r: u128)
        ensures
            r == lcg_step(old(self).state, old(self).a, old(self).c),
            final(self).state == r,
            final(self).a == old(self).a,
            final(self).c == old(self).c,
    {
        self.state = self.state.wrapping_mul(self.a as u128).wrapping_sub(self.c as u128);
        self.state
    }

    /// Draws a number below `range` from the upper 64 bits of the next state.
    pub fn generate_range(&mut self, range: usize) -> (r: usize)
        requires
            range > 0,
        ensures
            final(self).state == lcg_step(old(self).state, old(self).a, old(self).c),
            final(self).a == old(self).a,
            final(self).c == old(self).c,
            r as int == (final(self).state >> 64u128) as int % range as int,
            r < range,
    {
        let s = self.next();
        ((s >> 64u128) % (range as u128)) as usize
    }
}

} // verus!
