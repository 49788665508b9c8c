//! The acceptance probability of one traversal attempt, held as a threshold
//! that a 23-bit fraction is compared with.

use crate::ieee::exponent_field;
use crate::ieee::fraction_field;
use crate::ieee::lemma_unit_pattern_value;
use crate::ieee::unit_pattern;
use crate::ieee::value_in_ulps;
use crate::ieee::ONE_BITS;
use vstd::arithmetic::div_mod::lemma_fundamental_div_mod;
use vstd::arithmetic::div_mod::lemma_fundamental_div_mod_converse;
use vstd::arithmetic::power2::lemma2_to64;
use vstd::arithmetic::power2::lemma_pow2_adds;
use vstd::arithmetic::power2::lemma_pow2_pos;
use vstd::arithmetic::power2::lemma_pow2_strictly_increases;
use vstd::arithmetic::power2::pow2;
use vstd::bits::lemma_u64_pow2_no_overflow;
use vstd::bits::lemma_u64_shl_is_mul;
use vstd::bits::lemma_u64_shr_is_div;
use vstd::prelude::*;

verus! {

/// A probability `p` in `[0, 1]`, kept as the least threshold `t` with
/// `p <= t / 2^23`: a uniform fraction `m / 2^23` is below `p` exactly when
/// `m < t`.
#[derive(Clone, Copy, Debug)]
pub struct Probability {
    threshold: u32,
}

impl Probability {
    #[verifier::type_invariant]
    spec fn bounded(self) -> bool {
        self.threshold <= 0x80_0000
    }

    /// The threshold, between 0 and 2^23.
    pub closed spec fn threshold(self) -> nat {
        self.threshold as nat
    }

    /// The probability with the given threshold, if it is at most 2^23.
    pub fn from_threshold(threshold: u32) -> (made: Option<Self>)
        ensures
            threshold <= 0x80_0000 <==> made is Some,
            made is Some ==> made->0.threshold() == threshold,
    {
        if threshold <= 0x80_0000 {
            Some(Probability { threshold })
        } else {
            None
        }
    }

    /// Probability 0: no attempt succeeds.
    pub fn never() -> (made: Self)
        ensures
            made.threshold() == 0,
    {
        Probability { threshold: 0 }
    }

    /// Probability 1: every attempt succeeds.
    pub fn always() -> (made: Self)
        ensures
            made.threshold() == 0x80_0000,
    {
        Probability { threshold: 0x80_0000 }
    }

    /// Probability one half.
    pub fn half() -> (made: Self)
        ensures
            made.threshold() == 0x40_0000,
    {
        Probability { threshold: 0x40_0000 }
    }

    /// The threshold as a machine word.
    #[inline]
    pub fn get_threshold(&self) -> (threshold: u32)
        ensures
            threshold == self.threshold(),
            threshold <= 0x80_0000,
    {
        proof {
            use_type_invariant(self);
        }
        self.threshold
    }
}

/// Whether a single-precision pattern stands for a number in `[0, 1]`: a
/// non-negative pattern up to that of 1.0, or negative zero.
pub open spec fn in_unit_interval(bits: u32) -> bool {
    bits <= 0x3f80_0000 || bits == 0x8000_0000
}

/// The least threshold `t` with `p <= t / 2^23` for the number `p` of a
/// pattern in the unit interval: `p * 2^23` rounded up.
pub open spec fn threshold_of(bits: u32) -> nat {
    if bits == 0x8000_0000 {
        0
    } else {
        ((value_in_ulps(bits as nat) + pow2(126) - 1) / (pow2(126) as int)) as nat
    }
}

/// What the threshold means: a fraction `m / 2^23` lies below the number of
/// the pattern exactly when `m` lies below the threshold.
pub proof fn lemma_threshold_decides(bits: u32, m: nat)
    requires
        bits <= 0x3f80_0000,
    ensures
        m < threshold_of(bits) <==> m * pow2(126) < value_in_ulps(bits as nat),
{
    lemma_pow2_pos(126);
    let unit: int = pow2(126) as int;
    let value: int = value_in_ulps(bits as nat) as int;
    let raised: int = value + unit - 1;
    lemma_fundamental_div_mod(raised, unit);
    let t: int = raised / unit;
    let r: int = raised % unit;
    assert(t >= 0) by (nonlinear_arith)
        requires
            raised == unit * t + r,
            0 <= r < unit,
            raised >= 0,
    ;
    if m < t {
        assert(m * unit <= (t - 1) * unit) by (nonlinear_arith)
            requires
                m <= t - 1,
                unit > 0,
        ;
        assert((t - 1) * unit == unit * t - unit) by (nonlinear_arith);
    } else {
        assert(m * unit >= t * unit) by (nonlinear_arith)
            requires
                m >= t,
                unit > 0,
        ;
        assert(t * unit == unit * t) by (nonlinear_arith);
    }
}

/// A Bernoulli trial compares numbers: the fraction `m / 2^23` passes the
/// threshold of a pattern exactly when the number of `unit_pattern(m)` is
/// less than the number of the pattern.
pub proof fn lemma_trial_compares_values(bits: u32, m: nat)
    requires
        bits <= 0x3f80_0000,
        m < 0x80_0000,
    ensures
        m < threshold_of(bits) <==> value_in_ulps(unit_pattern(m)) < value_in_ulps(bits as nat),
{
    lemma_threshold_decides(bits, m);
    lemma_unit_pattern_value(m);
}

/// Rounding a quotient up is unchanged when dividend and divisor are scaled alike.
pub proof fn lemma_round_up_scales(x: nat, d: nat, c: nat)
    requires
        d > 0,
        c > 0,
    ensures
        (x * c + d * c - 1) / ((d * c) as int) == (x + d - 1) / (d as int),
{
    let raised: int = x + d - 1;
    lemma_fundamental_div_mod(raised, d as int);
    let q: int = raised / (d as int);
    let r: int = raised % (d as int);
    let rest: int = r * c + c - 1;
    assert(x * c + d * c - 1 == q * (d * c) + rest) by (nonlinear_arith)
        requires
            x + d - 1 == d * q + r,
            rest == r * c + c - 1,
    ;
    assert(0 <= rest < d * c) by (nonlinear_arith)
        requires
            0 <= r <= d - 1,
            c > 0,
            rest == r * c + c - 1,
    ;
    lemma_fundamental_div_mod_converse(x * c + d * c - 1, (d * c) as int, q, rest);
}

impl Probability {
    /// The probability that a single-precision pattern stands for, if it
    /// stands for a number in `[0, 1]`.
    pub fn from_single_bits(bits: u32) -> (made: Option<Self>)
        ensures
            made is Some <==> in_unit_interval(bits),
            made is Some ==> made->0.threshold() == threshold_of(bits),
    {
        proof {
            lemma2_to64();
            lemma_pow2_pos(126);
        }
        if bits == 0x8000_0000 {
            return Some(Probability { threshold: 0 });
        }
        if bits > ONE_BITS {
            return None;
        }
        let field: u32 = bits >> 23;
        let fraction: u32 = bits & 0x7f_ffff;
        assert(bits >> 23 == bits / 0x80_0000) by (bit_vector);
        assert(bits & 0x7f_ffff == bits % 0x80_0000) by (bit_vector);
        assert(exponent_field(bits as nat) == field);
        assert(fraction_field(bits as nat) == fraction);
        let ghost value: nat = value_in_ulps(bits as nat);
        let ghost unit: nat = pow2(126);
        if bits == 0 {
            assert((0 + unit - 1) / (unit as int) == 0) by (nonlinear_arith)
                requires
                    unit > 0,
            ;
            Some(Probability { threshold: 0 })
        } else if field < 104 {
            proof {
                if field == 0 {
                    lemma_pow2_strictly_increases(23, 126);
                } else {
                    let low: nat = (field - 1) as nat;
                    lemma_pow2_adds(24, 102);
                    lemma_pow2_pos(low);
                    if low < 102 {
                        lemma_pow2_strictly_increases(low, 102);
                    }
                    assert(0 < value <= 0x100_0000 * pow2(102)) by (nonlinear_arith)
                        requires
                            value == (0x80_0000 + fraction) * pow2(low),
                            fraction < 0x80_0000,
                            0 < pow2(low) <= pow2(102),
                    ;
                }
                assert((value + unit - 1) / (unit as int) == 1) by (nonlinear_arith)
                    requires
                        0 < value <= unit,
                ;
            }
            Some(Probability { threshold: 1 })
        } else {
            let significand: u64 = 0x80_0000 + (fraction as u64);
            let drop: u64 = (127 - field) as u64;
            proof {
                lemma_u64_pow2_no_overflow(drop as nat);
                lemma_u64_shl_is_mul(1, drop);
                lemma_pow2_strictly_increases(drop as nat, 24);
            }
            let step: u64 = 1u64 << drop;
            let raised: u64 = significand + step - 1;
            proof {
                let low: nat = (field - 1) as nat;
                lemma_pow2_adds(drop as nat, low);
                lemma_pow2_pos(low);
                lemma_round_up_scales(significand as nat, step as nat, pow2(low));
                assert(value + unit - 1 == significand * pow2(low) + step * pow2(low) - 1);
                lemma_u64_shr_is_div(raised, drop);
                if field == 127 {
                    assert(fraction == 0);
                } else {
                    lemma_pow2_strictly_increases(0, drop as nat);
                }
                assert(raised / step <= 0x80_0000) by (nonlinear_arith)
                    requires
                        raised == significand + step - 1,
                        significand <= 0x80_0000 * step || (significand < 0x100_0000 && step
                            >= 2),
                        step >= 1,
                ;
            }
            Some(Probability { threshold: (raised >> drop) as u32 })
        }
    }
}

} // verus!
