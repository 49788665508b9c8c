//! The random source: a linear congruential generator over 32-bit words whose
//! low 23 bits are read as the fraction field of a single-precision number.

use crate::ieee::unit_bits;
use crate::ieee::unit_pattern;
use crate::ieee::ONE_BITS;
use crate::probability::Probability;
use crate::single::scale;
use crate::single::scaled;
use core::ops::Range;
use vstd::prelude::*;

verus! {

/// Number of fraction steps in the unit interval: a draw is `fraction / 2^23`.
pub const FRACTION_STEPS: u32 = 0x80_0000;

/// The state that follows `seed`: `5 * seed + 1` modulo 2^32.
pub open spec fn next_seed(seed: u32) -> u32 {
    ((5 * seed + 1) % 0x1_0000_0000) as u32
}

/// The state reached from `seed` after `n` steps of the recurrence.
pub open spec fn seed_after(seed: u32, n: nat) -> u32
    decreases n,
{
    if n == 0 {
        seed
    } else {
        next_seed(seed_after(seed, (n - 1) as nat))
    }
}

/// The numerator, over 2^23, of the uniform value that a state stands for:
/// its low 23 bits.
pub open spec fn fraction(seed: u32) -> nat {
    (seed % 0x80_0000) as nat
}

/// A generator whose whole state is one 32-bit word.
#[derive(Clone, Debug)]
pub struct SimpleRng {
    seed: u32,
}

impl View for SimpleRng {
    type V = u32;

    closed spec fn view(&self) -> u32 {
        self.seed
    }
}

impl SimpleRng {
    /// A generator that starts from `seed`.
    #[inline]
    pub fn new(seed: u32) -> (rng: Self)
        ensures
            rng@ == seed,
    {
        SimpleRng { seed }
    }

    /// The current state word.
    #[inline]
    pub fn seed(&self) -> (seed: u32)
        ensures
            seed == self@,
    {
        self.seed
    }

    /// Advances the state by one step of the recurrence.
    #[inline]
    pub fn update_seed(&mut self)
        ensures
            final(self)@ == next_seed(old(self)@),
    {
        let fivefold: u32 = self.seed.wrapping_mul(5);
        assert(fivefold as int == (5 * self.seed) % 0x1_0000_0000);
        self.seed = fivefold.wrapping_add(1);
    }

    /// Advances the state and returns the numerator, over 2^23, of the uniform
    /// value that the new state stands for.
    #[inline]
    pub fn next_fraction(&mut self) -> (numerator: u32)
        ensures
            final(self)@ == next_seed(old(self)@),
            numerator == fraction(final(self)@),
            numerator < FRACTION_STEPS,
    {
        self.update_seed();
        let seed: u32 = self.seed;
        assert(seed & 0x7f_ffff == seed % 0x80_0000) by (bit_vector);
        seed & 0x7f_ffff
    }

    /// Advances the state and returns the uniform value of the new state, a
    /// number in `[0, 1)`, as its single-precision bit pattern.
    #[inline]
    pub fn random_float_from_0_to_1(&mut self) -> (bits: u32)
        ensures
            final(self)@ == next_seed(old(self)@),
            bits == unit_pattern(fraction(final(self)@)),
            bits < ONE_BITS,
    {
        let numerator: u32 = self.next_fraction();
        unit_bits(numerator)
    }

    /// One Bernoulli trial: whether the next uniform value lies below `p`.
    #[inline]
    pub fn gen_bool(&mut self, p: Probability) -> (success: bool)
        ensures
            final(self)@ == next_seed(old(self)@),
            success == (fraction(final(self)@) < p.threshold()),
    {
        let numerator: u32 = self.next_fraction();
        numerator < p.get_threshold()
    }

    /// A draw from `range`: its start plus the width scaled by the next uniform
    /// value, with the rounding of single-precision arithmetic.
    #[inline]
    pub fn gen_range_u32(&mut self, range: Range<u32>) -> (drawn: u32)
        requires
            range.start <= range.end,
        ensures
            final(self)@ == next_seed(old(self)@),
            drawn == range.start + scaled(
                (range.end - range.start) as nat,
                fraction(final(self)@),
            ),
            range.start <= drawn <= range.end,
            range.start < range.end ==> drawn < range.end,
    {
        let width: u32 = range.end - range.start;
        let numerator: u32 = self.next_fraction();
        let part: u64 = scale(width as u64, numerator);
        range.start + (part as u32)
    }

    /// A draw from `range`, as `gen_range_u32` makes it, over `usize`.
    #[inline]
    pub fn gen_range_usize(&mut self, range: Range<usize>) -> (drawn: usize)
        requires
            range.start <= range.end,
        ensures
            final(self)@ == next_seed(old(self)@),
            drawn == range.start + scaled(
                (range.end - range.start) as nat,
                fraction(final(self)@),
            ),
            range.start <= drawn <= range.end,
            range.start < range.end ==> drawn < range.end,
    {
        let width: usize = range.end - range.start;
        let numerator: u32 = self.next_fraction();
        let part: u64 = scale(width as u64, numerator);
        range.start + (part as usize)
    }
}

/// Calls `rand::random::<u32>()`, which draws one word from the thread-local
/// generator of `rand`. The word differs from call to call, so nothing is
/// claimed of it.
#[verifier::external_body]
fn entropy_word() -> u32 {
    rand::random::<u32>()
}

impl SimpleRng {
    /// A generator that starts from a word of outside entropy: any state may
    /// come back.
    pub fn from_entropy() -> Self {
        SimpleRng::new(entropy_word())
    }
}

} // verus!
