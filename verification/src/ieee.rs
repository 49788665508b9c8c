//! Single-precision bit patterns of the numbers that the generator draws,
//! read and written as integers.

use crate::single::bit_length;
use crate::single::lemma_bit_length_bounds;
use crate::single::lemma_leading_zeros_bit_length;
use vstd::arithmetic::power2::lemma2_to64;
use vstd::arithmetic::power2::lemma_pow2_adds;
use vstd::arithmetic::power2::lemma_pow2_pos;
use vstd::arithmetic::power2::lemma_pow2_strictly_increases;
use vstd::arithmetic::power2::pow2;
use vstd::bits::lemma_u64_shl_is_mul;
use vstd::prelude::*;
use vstd::std_specs::bits::axiom_u64_leading_zeros;

verus! {

/// The bit pattern of 1.0.
pub const ONE_BITS: u32 = 0x3f80_0000;

/// The exponent field of a pattern: bits 23 to 30.
pub open spec fn exponent_field(bits: nat) -> nat {
    (bits / 0x80_0000) % 0x100
}

/// The fraction field of a pattern: its low 23 bits.
pub open spec fn fraction_field(bits: nat) -> nat {
    bits % 0x80_0000
}

/// The value of a non-negative finite pattern, in units of 2^-149: a
/// subnormal pattern stands for its fraction field, a normal one for
/// `(2^23 + fraction) * 2^(exponent - 1)`.
pub open spec fn value_in_ulps(bits: nat) -> nat {
    if exponent_field(bits) == 0 {
        fraction_field(bits)
    } else {
        (0x80_0000 + fraction_field(bits)) * pow2((exponent_field(bits) - 1) as nat)
    }
}

/// The pattern of `numerator / 2^23` for a numerator below 2^23: zero for
/// zero, otherwise the numerator shifted up until its leading bit is the
/// implicit one, with the exponent lowered by the shift.
pub open spec fn unit_pattern(numerator: nat) -> nat {
    if numerator == 0 {
        0
    } else {
        let shift = (24 - bit_length(numerator)) as nat;
        ((127 - shift) * 0x80_0000 + (numerator * pow2(shift) - 0x80_0000)) as nat
    }
}

/// The fields of `unit_pattern`: the shift lies in 1..=23 and the shifted
/// numerator in `[2^23, 2^24)`.
pub proof fn lemma_unit_pattern_fields(numerator: nat)
    requires
        0 < numerator < 0x80_0000,
    ensures
        1 <= 24 - bit_length(numerator) <= 23,
        0x80_0000 <= numerator * pow2((24 - bit_length(numerator)) as nat) < 0x100_0000,
        exponent_field(unit_pattern(numerator)) == 127 - (24 - bit_length(numerator)),
        fraction_field(unit_pattern(numerator)) == numerator * pow2(
            (24 - bit_length(numerator)) as nat,
        ) - 0x80_0000,
        unit_pattern(numerator) < 0x3f80_0000,
{
    lemma2_to64();
    lemma_bit_length_bounds(numerator);
    let length: nat = bit_length(numerator);
    if length > 23 {
        if length > 24 {
            lemma_pow2_strictly_increases(23, (length - 1) as nat);
        }
    }
    let shift: nat = (24 - length) as nat;
    lemma_pow2_adds((length - 1) as nat, shift);
    lemma_pow2_adds(length, shift);
    lemma_pow2_pos(shift);
    let lifted: nat = numerator * pow2(shift);
    assert(lifted >= 0x80_0000) by (nonlinear_arith)
        requires
            lifted == numerator * pow2(shift),
            pow2((length - 1) as nat) <= numerator,
            pow2((length - 1) as nat) * pow2(shift) == 0x80_0000,
    ;
    assert(lifted < 0x100_0000) by (nonlinear_arith)
        requires
            lifted == numerator * pow2(shift),
            numerator < pow2(length),
            pow2(length) * pow2(shift) == 0x100_0000,
            pow2(shift) > 0,
    ;
    let field: nat = (127 - shift) as nat;
    let rest: nat = (lifted - 0x80_0000) as nat;
    assert(unit_pattern(numerator) == field * 0x80_0000 + rest);
    assert((field * 0x80_0000 + rest) / 0x80_0000 == field) by (nonlinear_arith)
        requires
            0 <= rest < 0x80_0000,
    ;
    assert((field * 0x80_0000 + rest) % 0x80_0000 == rest) by (nonlinear_arith)
        requires
            0 <= rest < 0x80_0000,
    ;
}

/// `unit_pattern(numerator)` stands for `numerator / 2^23`: in units of
/// 2^-149 that is `numerator * 2^126`.
pub proof fn lemma_unit_pattern_value(numerator: nat)
    requires
        numerator < 0x80_0000,
    ensures
        value_in_ulps(unit_pattern(numerator)) == numerator * pow2(126),
        value_in_ulps(unit_pattern(numerator)) < value_in_ulps(0x3f80_0000),
{
    lemma2_to64();
    lemma_pow2_pos(126);
    lemma_pow2_adds(23, 126);
    assert(exponent_field(0x3f80_0000) == 127);
    assert(fraction_field(0x3f80_0000) == 0);
    assert(value_in_ulps(0x3f80_0000) == 0x80_0000 * pow2(126));
    if numerator == 0 {
        assert(0 * pow2(126) == 0) by (nonlinear_arith);
    } else {
        lemma_unit_pattern_fields(numerator);
        let shift: nat = (24 - bit_length(numerator)) as nat;
        lemma_pow2_adds(shift, (126 - shift) as nat);
        assert((numerator * pow2(shift)) * pow2((126 - shift) as nat) == numerator * pow2(126))
            by (nonlinear_arith)
            requires
                pow2(shift) * pow2((126 - shift) as nat) == pow2(126),
        ;
    }
    assert(numerator * pow2(126) < 0x80_0000 * pow2(126)) by (nonlinear_arith)
        requires
            numerator < 0x80_0000,
            pow2(126) > 0,
    ;
}

/// Computes the pattern of `numerator / 2^23`.
#[inline]
pub fn unit_bits(numerator: u32) -> (bits: u32)
    requires
        numerator < 0x80_0000,
    ensures
        bits == unit_pattern(numerator as nat),
        bits < ONE_BITS,
{
    if numerator == 0 {
        0
    } else {
        let wide: u64 = numerator as u64;
        let length: u64 = 64 - (wide.leading_zeros() as u64);
        proof {
            axiom_u64_leading_zeros(wide);
            lemma_leading_zeros_bit_length(wide);
            lemma_unit_pattern_fields(numerator as nat);
        }
        let shift: u64 = 24 - length;
        proof {
            lemma_u64_shl_is_mul(wide, shift);
        }
        let lifted: u64 = wide << shift;
        let field: u64 = 127 - shift;
        proof {
            lemma2_to64();
            lemma_u64_shl_is_mul(field, 23);
        }
        ((field << 23) + (lifted - 0x80_0000)) as u32
    }
}

} // verus!
