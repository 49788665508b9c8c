//! Round-to-nearest-even onto 24 significant bits, the precision of a
//! single-precision significand, stated and computed over integers.

use vstd::arithmetic::div_mod::lemma_div_multiples_vanish_quotient;
use vstd::arithmetic::div_mod::lemma_fundamental_div_mod;
use vstd::arithmetic::div_mod::lemma_fundamental_div_mod_converse;
use vstd::arithmetic::div_mod::lemma_mod_multiples_basic;
use vstd::arithmetic::mul::lemma_mul_inequality;
use vstd::arithmetic::mul::lemma_mul_is_commutative;
use vstd::arithmetic::mul::lemma_mul_is_associative;
use vstd::arithmetic::mul::lemma_mul_strict_inequality;
use vstd::arithmetic::power2::lemma2_to64;
use vstd::arithmetic::power2::lemma2_to64_rest;
use vstd::arithmetic::power2::lemma_pow2_adds;
use vstd::arithmetic::power2::lemma_pow2_pos;
use vstd::arithmetic::power2::lemma_pow2_strictly_increases;
use vstd::arithmetic::power2::lemma_pow2_unfold;
use vstd::arithmetic::power2::pow2;
use vstd::bits::lemma_u64_low_bits_mask_is_mod;
use vstd::bits::lemma_u64_pow2_no_overflow;
use vstd::bits::lemma_u64_shl_is_mul;
use vstd::bits::lemma_u64_shr_is_div;
use vstd::prelude::*;
use vstd::std_specs::bits::axiom_u64_leading_zeros;
use vstd::std_specs::bits::u64_leading_zeros;

verus! {

/// Number of binary digits of `n`: 0 for 0, otherwise the `b` with
/// `2^(b-1) <= n < 2^b`.
pub open spec fn bit_length(n: nat) -> nat
    decreases n,
{
    if n == 0 {
        0
    } else {
        1 + bit_length(n / 2)
    }
}

/// How many low bits of `n` do not fit in a 24-bit significand.
pub open spec fn dropped_bits(n: nat) -> nat {
    if bit_length(n) <= 24 {
        0
    } else {
        (bit_length(n) - 24) as nat
    }
}

/// Distance between neighbouring representable numbers at the magnitude of `n`.
pub open spec fn spacing(n: nat) -> nat {
    pow2(dropped_bits(n))
}

/// Whether `n` has at most 24 significant bits.
pub open spec fn is_single(n: nat) -> bool {
    n % spacing(n) == 0
}

/// `n` rounded to the nearest number with at most 24 significant bits; a tie
/// goes to the neighbour whose significand is even.
pub open spec fn round_to_single(n: nat) -> nat {
    let unit = spacing(n);
    let kept = n / unit;
    let dropped = n % unit;
    if 2 * dropped > unit || (2 * dropped == unit && kept % 2 == 1) {
        (kept + 1) * unit
    } else {
        kept * unit
    }
}

/// A positive number lies between the two powers of two that its bit length names.
pub proof fn lemma_bit_length_bounds(n: nat)
    requires
        n > 0,
    ensures
        bit_length(n) >= 1,
        pow2((bit_length(n) - 1) as nat) <= n < pow2(bit_length(n)),
    decreases n,
{
    lemma2_to64();
    if n == 1 {
        assert(bit_length(1) == 1 + bit_length(0));
    } else {
        let half: nat = n / 2;
        lemma_bit_length_bounds(half);
        lemma_pow2_unfold(bit_length(half));
        lemma_pow2_unfold(bit_length(n));
    }
}

/// The bit length is the only exponent whose powers of two enclose `n`.
pub proof fn lemma_bit_length_unique(n: nat, b: nat)
    requires
        b >= 1,
        pow2((b - 1) as nat) <= n < pow2(b),
    ensures
        bit_length(n) == b,
{
    lemma_pow2_pos((b - 1) as nat);
    lemma_bit_length_bounds(n);
    let found: nat = bit_length(n);
    if found < b {
        if found < b - 1 {
            lemma_pow2_strictly_increases(found, (b - 1) as nat);
        }
    } else if found > b {
        if b < found - 1 {
            lemma_pow2_strictly_increases(b, (found - 1) as nat);
        }
    }
}

/// Multiplying a positive number by `2^shift` adds `shift` to its bit length.
pub proof fn lemma_bit_length_shift(n: nat, shift: nat)
    requires
        n > 0,
    ensures
        bit_length(n * pow2(shift)) == bit_length(n) + shift,
{
    lemma_bit_length_bounds(n);
    let b: nat = bit_length(n);
    lemma_pow2_pos(shift);
    lemma_pow2_adds((b - 1) as nat, shift);
    lemma_pow2_adds(b, shift);
    lemma_mul_inequality(pow2((b - 1) as nat) as int, n as int, pow2(shift) as int);
    lemma_mul_strict_inequality(n as int, pow2(b) as int, pow2(shift) as int);
    lemma_bit_length_unique(n * pow2(shift), b + shift);
}

/// The spacing is positive, and a number that fits in 24 bits has spacing 1.
pub proof fn lemma_spacing_basics(n: nat)
    ensures
        spacing(n) > 0,
        n < 0x100_0000 ==> bit_length(n) <= 24 && spacing(n) == 1,
        n >= 0x100_0000 ==> bit_length(n) > 24,
{
    lemma2_to64();
    lemma_pow2_pos(dropped_bits(n));
    if n > 0 {
        lemma_bit_length_bounds(n);
        let b: nat = bit_length(n);
        if n < 0x100_0000 {
            if b > 24 {
                if b - 1 > 24 {
                    lemma_pow2_strictly_increases(24, (b - 1) as nat);
                }
            }
        } else {
            if b < 24 {
                lemma_pow2_strictly_increases(b, 24);
            }
        }
    }
}

/// A number that fits in 24 bits rounds to itself.
pub proof fn lemma_round_small(n: nat)
    requires
        n < 0x100_0000,
    ensures
        round_to_single(n) == n,
        is_single(n),
{
    lemma_spacing_basics(n);
}

/// The bit length does not shrink as the number grows.
pub proof fn lemma_bit_length_monotone(n: nat, x: nat)
    requires
        n <= x,
    ensures
        bit_length(n) <= bit_length(x),
{
    if n > 0 {
        lemma_bit_length_bounds(n);
        lemma_bit_length_bounds(x);
        if bit_length(x) < bit_length(n) {
            if bit_length(x) < bit_length(n) - 1 {
                lemma_pow2_strictly_increases(bit_length(x), (bit_length(n) - 1) as nat);
            }
        }
    }
}

/// A number with at most 24 significant bits rounds to itself.
pub proof fn lemma_single_is_fixed(n: nat)
    requires
        is_single(n),
    ensures
        round_to_single(n) == n,
{
    lemma_spacing_basics(n);
    lemma_fundamental_div_mod(n as int, spacing(n) as int);
    lemma_mul_is_commutative(spacing(n) as int, (n / spacing(n)) as int);
}

/// What rounding keeps: the result is a multiple of the spacing, within half
/// a spacing of `n`, and for `n >= 2^24` its significand lies in `[2^23, 2^24]`.
pub proof fn lemma_round_parts(n: nat) -> (significand: nat)
    ensures
        round_to_single(n) == significand * spacing(n),
        2 * round_to_single(n) <= 2 * n + spacing(n),
        2 * n <= 2 * round_to_single(n) + spacing(n),
        significand <= 0x100_0000,
        n >= 0x100_0000 ==> significand >= 0x80_0000,
{
    lemma2_to64();
    lemma_spacing_basics(n);
    let unit: nat = spacing(n);
    let kept: nat = n / unit;
    let dropped: nat = n % unit;
    lemma_fundamental_div_mod(n as int, unit as int);
    lemma_mul_is_commutative(unit as int, kept as int);
    assert(n == kept * unit + dropped);
    assert((kept + 1) * unit == kept * unit + unit) by (nonlinear_arith);
    if n < 0x100_0000 {
        assert(kept == n);
    } else {
        lemma_bit_length_bounds(n);
        let b: nat = bit_length(n);
        lemma_pow2_adds(23, (b - 24) as nat);
        lemma_pow2_adds(24, (b - 24) as nat);
        assert(0x80_0000 * unit <= n < 0x100_0000 * unit);
        assert(kept < 0x100_0000) by (nonlinear_arith)
            requires
                kept * unit <= n,
                n < 0x100_0000 * unit,
                unit > 0,
        ;
        assert(kept >= 0x80_0000) by (nonlinear_arith)
            requires
                n == kept * unit + dropped,
                dropped < unit,
                0x80_0000 * unit <= n,
                unit > 0,
        ;
    }
    if 2 * dropped > unit || (2 * dropped == unit && kept % 2 == 1) {
        kept + 1
    } else {
        kept
    }
}

/// A significand of at most 24 bits times a power of two is representable.
pub proof fn lemma_multiple_is_single(significand: nat, shift: nat)
    requires
        significand <= 0x100_0000,
    ensures
        is_single(significand * pow2(shift)),
        round_to_single(significand * pow2(shift)) == significand * pow2(shift),
{
    lemma2_to64();
    let n: nat = significand * pow2(shift);
    lemma_pow2_pos(shift);
    if significand == 0 {
        assert(n == 0) by (nonlinear_arith)
            requires
                n == significand * pow2(shift),
                significand == 0,
        ;
        lemma_round_small(n);
    } else {
        lemma_bit_length_shift(significand, shift);
        lemma_spacing_basics(significand);
        let gone: nat = dropped_bits(n);
        if significand == 0x100_0000 {
            lemma_bit_length_unique(significand, 25);
            assert(gone == shift + 1);
            lemma_pow2_unfold(gone);
            assert(n == 0x80_0000 * pow2(gone)) by (nonlinear_arith)
                requires
                    n == significand * pow2(shift),
                    significand == 0x100_0000,
                    pow2(gone) == 2 * pow2(shift),
            ;
            lemma_mod_multiples_basic(0x80_0000, pow2(gone) as int);
        } else {
            lemma_bit_length_bounds(significand);
            assert(bit_length(significand) <= 24);
            assert(gone <= shift);
            lemma_pow2_adds((shift - gone) as nat, gone);
            let rest: nat = pow2((shift - gone) as nat);
            assert(n == (significand * rest) * pow2(gone)) by (nonlinear_arith)
                requires
                    n == significand * pow2(shift),
                    pow2(shift) == rest * pow2(gone),
            ;
            lemma_mod_multiples_basic((significand * rest) as int, pow2(gone) as int);
        }
        lemma_single_is_fixed(n);
    }
}

/// Rounding never passes a representable number: what lies at or below one
/// rounds to at most that number.
pub proof fn lemma_round_at_most(n: nat, bound: nat)
    requires
        n <= bound,
        is_single(bound),
    ensures
        round_to_single(n) <= bound,
{
    lemma_spacing_basics(n);
    lemma_spacing_basics(bound);
    let unit: nat = spacing(n);
    let kept: nat = n / unit;
    let dropped: nat = n % unit;
    lemma_fundamental_div_mod(n as int, unit as int);
    lemma_mul_is_commutative(unit as int, kept as int);
    if dropped == 0 {
        assert(round_to_single(n) == n);
    } else {
        lemma_bit_length_monotone(n, bound);
        let extra: nat = (dropped_bits(bound) - dropped_bits(n)) as nat;
        lemma_pow2_adds(extra, dropped_bits(n));
        lemma_pow2_pos(extra);
        let coarse: nat = bound / spacing(bound);
        lemma_fundamental_div_mod(bound as int, spacing(bound) as int);
        let count: nat = coarse * pow2(extra);
        assert(bound == count * unit) by (nonlinear_arith)
            requires
                bound == spacing(bound) * coarse,
                spacing(bound) == pow2(extra) * unit,
                count == coarse * pow2(extra),
        ;
        assert(count >= kept + 1) by (nonlinear_arith)
            requires
                count * unit >= kept * unit + dropped,
                dropped > 0,
                unit > 0,
        ;
        assert(count * unit >= (kept + 1) * unit) by (nonlinear_arith)
            requires
                count >= kept + 1,
                unit > 0,
        ;
        assert(kept * unit <= (kept + 1) * unit) by (nonlinear_arith);
    }
}

/// Rounding commutes with multiplication by a power of two.
pub proof fn lemma_round_scales(n: nat, shift: nat)
    ensures
        round_to_single(n * pow2(shift)) == round_to_single(n) * pow2(shift),
{
    lemma_spacing_basics(n);
    lemma_pow2_pos(shift);
    let scale: nat = pow2(shift);
    if n < 0x100_0000 {
        lemma_round_small(n);
        lemma_multiple_is_single(n, shift);
    } else {
        lemma_bit_length_shift(n, shift);
        let unit: nat = spacing(n);
        let kept: nat = n / unit;
        let dropped: nat = n % unit;
        lemma_fundamental_div_mod(n as int, unit as int);
        lemma_pow2_adds(dropped_bits(n), shift);
        let wide: nat = n * scale;
        assert(dropped_bits(wide) == dropped_bits(n) + shift);
        assert(spacing(wide) == unit * scale);
        assert(wide == kept * (unit * scale) + dropped * scale) by (nonlinear_arith)
            requires
                n == unit * kept + dropped,
                wide == n * scale,
        ;
        assert(dropped * scale < unit * scale) by (nonlinear_arith)
            requires
                dropped < unit,
                scale > 0,
        ;
        lemma_fundamental_div_mod_converse(
            wide as int,
            (unit * scale) as int,
            kept as int,
            (dropped * scale) as int,
        );
        assert(2 * (dropped * scale) > unit * scale <==> 2 * dropped > unit) by (nonlinear_arith)
            requires
                scale > 0,
        ;
        assert(2 * (dropped * scale) == unit * scale <==> 2 * dropped == unit)
            by (nonlinear_arith)
            requires
                scale > 0,
        ;
        lemma_mul_is_associative((kept + 1) as int, unit as int, scale as int);
        lemma_mul_is_associative(kept as int, unit as int, scale as int);
    }
}

/// `width * fraction / 2^23` as single-precision arithmetic gives it: the
/// width is rounded to a single, the product with `fraction / 2^23` is rounded
/// again, and what is left of the binary point is kept.
#[verifier::opaque]
pub open spec fn scaled(width: nat, fraction: nat) -> nat {
    round_to_single(round_to_single(width) * fraction) / 0x80_0000
}

/// Scaling by a fraction below one stays below the width.
pub proof fn lemma_scaled_below_width(width: nat, fraction: nat)
    requires
        width > 0,
        fraction < 0x80_0000,
    ensures
        scaled(width, fraction) < width,
{
    reveal(scaled);
    lemma2_to64();
    lemma_spacing_basics(width);
    let rounded: nat = round_to_single(width);
    let product: nat = rounded * fraction;
    if width < 0x100_0000 {
        lemma_round_small(width);
        lemma_bit_length_bounds(width);
        let top: nat = (bit_length(width) - 1) as nat;
        let lift: nat = pow2((23 - top) as nat);
        lemma_pow2_adds((23 - top) as nat, top);
        lemma_pow2_adds((23 - top) as nat, top + 1);
        lemma_pow2_pos((23 - top) as nat);
        lemma_pow2_pos(top);
        assert(width * lift < 0x100_0000) by (nonlinear_arith)
            requires
                width < pow2(top + 1),
                lift * pow2(top + 1) == 0x100_0000,
                lift > 0,
        ;
        assert(width * lift >= 1) by (nonlinear_arith)
            requires
                width > 0,
                lift > 0,
        ;
        let below: nat = (width * lift - 1) as nat;
        lemma_multiple_is_single(below, top);
        let bound: nat = below * pow2(top);
        assert(bound == width * 0x80_0000 - pow2(top)) by (nonlinear_arith)
            requires
                bound == below * pow2(top),
                below == width * lift - 1,
                lift * pow2(top) == 0x80_0000,
        ;
        assert(product <= width * 0x80_0000 - width) by (nonlinear_arith)
            requires
                product == width * fraction,
                fraction < 0x80_0000,
        ;
        lemma_round_at_most(product, bound);
    } else {
        let significand: nat = lemma_round_parts(width);
        let unit: nat = spacing(width);
        let gone: nat = dropped_bits(width);
        lemma_pow2_unfold(gone);
        lemma_pow2_pos((gone - 1) as nat);
        lemma_pow2_adds(gone, 23);
        let below: nat = (significand - 1) as nat;
        lemma_multiple_is_single(below, gone + 23);
        let bound: nat = below * pow2(gone + 23);
        assert(bound == (rounded - unit) * 0x80_0000) by (nonlinear_arith)
            requires
                bound == below * pow2(gone + 23),
                below == significand - 1,
                pow2(gone + 23) == unit * 0x80_0000,
                rounded == significand * unit,
        ;
        assert(product <= (rounded - unit) * 0x80_0000) by (nonlinear_arith)
            requires
                product == rounded * fraction,
                fraction < 0x80_0000,
                rounded == significand * unit,
                significand >= 0x80_0000,
                unit > 0,
        ;
        lemma_round_at_most(product, bound);
    }
}

/// The bit length of a 64-bit word is 64 less its count of leading zeros.
pub proof fn lemma_leading_zeros_bit_length(n: u64)
    ensures
        64 - u64_leading_zeros(n) == bit_length(n as nat),
{
    axiom_u64_leading_zeros(n);
    lemma2_to64();
    lemma2_to64_rest();
    let zeros: int = u64_leading_zeros(n);
    if n != 0 {
        let top: u64 = (63 - zeros) as u64;
        assert((n >> top) & 1 != 0);
        assert(n >> top >= 1) by (bit_vector)
            requires
                (n >> top) & 1 != 0,
        ;
        lemma_u64_shr_is_div(n, top);
        lemma_pow2_pos(top as nat);
        assert(n >= pow2(top as nat)) by (nonlinear_arith)
            requires
                n as nat / pow2(top as nat) >= 1,
                pow2(top as nat) > 0,
        ;
        if zeros > 0 {
            let width: u64 = (64 - zeros) as u64;
            assert(n >> width == 0);
            lemma_u64_shr_is_div(n, width);
            lemma_pow2_pos(width as nat);
            assert(n < pow2(width as nat)) by (nonlinear_arith)
                requires
                    n as nat / pow2(width as nat) == 0,
                    pow2(width as nat) > 0,
            ;
        }
        lemma_bit_length_unique(n as nat, (64 - zeros) as nat);
    }
}

/// Rounds `n` to 24 significant bits and returns the result in two parts: a
/// significand and the number of low bits that were dropped, so that the
/// rounded number is the significand times two to that count.
#[inline]
pub fn round_significand(n: u64) -> (parts: (u64, u64))
    ensures
        parts.0 * pow2(parts.1 as nat) == round_to_single(n as nat),
        parts.0 <= 0x100_0000,
        parts.1 == dropped_bits(n as nat),
        parts.1 <= 40,
{
    let bits: u64 = 64 - (n.leading_zeros() as u64);
    proof {
        axiom_u64_leading_zeros(n);
        lemma_leading_zeros_bit_length(n);
        lemma2_to64();
        lemma_spacing_basics(n as nat);
    }
    if bits <= 24 {
        (n, 0)
    } else {
        let gone: u64 = bits - 24;
        proof {
            lemma_u64_pow2_no_overflow(gone as nat);
            lemma_u64_shl_is_mul(1, gone);
            lemma_pow2_unfold(gone as nat);
            lemma_pow2_pos((gone - 1) as nat);
        }
        let kept: u64 = n >> gone;
        let unit: u64 = 1u64 << gone;
        let dropped: u64 = n & (unit - 1);
        let half: u64 = unit >> 1;
        proof {
            lemma_u64_shr_is_div(n, gone);
            lemma_u64_low_bits_mask_is_mod(n, gone as nat);
            assert(unit >> 1 == unit / 2) by (bit_vector);
            assert(kept & 1 == kept % 2) by (bit_vector);
            lemma_bit_length_bounds(n as nat);
            lemma_pow2_adds(24, gone as nat);
            assert(kept < 0x100_0000) by (nonlinear_arith)
                requires
                    kept == n as nat / pow2(gone as nat),
                    n < pow2(bits as nat),
                    pow2(bits as nat) == 0x100_0000 * pow2(gone as nat),
                    pow2(gone as nat) > 0,
            ;
        }
        if dropped > half || (dropped == half && kept & 1 == 1) {
            (kept + 1, gone)
        } else {
            (kept, gone)
        }
    }
}

/// Where the width fits in 24 bits and the exact product lies more than half
/// a width below the next multiple of 2^23, rounding does not change the
/// whole part.
pub proof fn lemma_scaled_without_rounding(width: nat, fraction: nat)
    requires
        width < 0x100_0000,
        fraction < 0x80_0000,
        2 * ((width * fraction) % 0x80_0000) + width < 0x100_0000,
    ensures
        scaled(width, fraction) == (width * fraction) / 0x80_0000,
{
    reveal(scaled);
    lemma2_to64();
    lemma_round_small(width);
    let product: nat = width * fraction;
    lemma_spacing_basics(product);
    if product >= 0x100_0000 {
        let unit: nat = spacing(product);
        let gone: nat = dropped_bits(product);
        let kept: nat = product / unit;
        let dropped: nat = product % unit;
        let whole: nat = product / 0x80_0000;
        lemma_fundamental_div_mod(product as int, unit as int);
        // the spacing is at most the width
        assert(width > 0) by (nonlinear_arith)
            requires
                product == width * fraction,
                product > 0,
        ;
        assert(product <= width * 0x80_0000) by (nonlinear_arith)
            requires
                product == width * fraction,
                fraction < 0x80_0000,
        ;
        lemma_bit_length_monotone(product, width * pow2(23));
        lemma_bit_length_shift(width, 23);
        lemma_bit_length_bounds(width);
        let top: nat = (bit_length(width) - 1) as nat;
        assert(gone <= top);
        if gone < top {
            lemma_pow2_strictly_increases(gone, top);
        }
        assert(unit <= width);
        // multiples of 2^23 are multiples of the spacing
        lemma_spacing_basics(width);
        assert(gone <= 23);
        lemma_pow2_adds((23 - gone) as nat, gone);
        let step: nat = pow2((23 - gone) as nat);
        assert(whole * step <= kept) by (nonlinear_arith)
            requires
                product == unit * kept + dropped,
                dropped < unit,
                whole * 0x80_0000 <= product,
                step * unit == 0x80_0000,
                unit > 0,
        ;
        assert(kept * unit >= whole * 0x80_0000) by (nonlinear_arith)
            requires
                whole * step <= kept,
                step * unit == 0x80_0000,
                unit > 0,
        ;
        assert((kept + 1) * unit == kept * unit + unit) by (nonlinear_arith);
        let significand: nat = lemma_round_parts(product);
    } else {
        lemma_round_small(product);
    }
}

/// Computes `scaled(width, fraction)`: the whole part of `width * fraction /
/// 2^23` under single-precision rounding of the width and of the product.
#[inline]
pub fn scale(width: u64, fraction: u32) -> (part: u64)
    requires
        fraction < 0x80_0000,
    ensures
        part == scaled(width as nat, fraction as nat),
        width > 0 ==> part < width,
        width == 0 ==> part == 0,
{
    if width < 0x100_0000 {
        assert(width * (fraction as u64) <= 0x100_0000 * 0x80_0000) by (nonlinear_arith)
            requires
                width < 0x100_0000,
                fraction < 0x80_0000,
        ;
        let product: u64 = width * (fraction as u64);
        let low: u64 = product & 0x7f_ffff;
        assert(product & 0x7f_ffff == product % 0x80_0000) by (bit_vector);
        if 2 * low + width < 0x100_0000 {
            proof {
                lemma_scaled_without_rounding(width as nat, fraction as nat);
                if width > 0 {
                    lemma_scaled_below_width(width as nat, fraction as nat);
                }
                assert(product >> 23 == product / 0x80_0000) by (bit_vector);
            }
            return product >> 23;
        }
    }
    scale_rounding(width, fraction)
}

/// `scale` with every rounding step carried out.
pub fn scale_rounding(width: u64, fraction: u32) -> (part: u64)
    requires
        fraction < 0x80_0000,
    ensures
        part == scaled(width as nat, fraction as nat),
        width > 0 ==> part < width,
        width == 0 ==> part == 0,
{
    let (significand, lifted) = round_significand(width);
    assert(significand * (fraction as u64) <= 0x100_0000 * 0x80_0000) by (nonlinear_arith)
        requires
            significand <= 0x100_0000,
            fraction < 0x80_0000,
    ;
    let product: u64 = significand * (fraction as u64);
    let (kept, gone) = round_significand(product);
    let total: u64 = lifted + gone;
    proof {
        reveal(scaled);
        lemma2_to64();
        let rounded: nat = round_to_single(width as nat);
        let up: nat = pow2(lifted as nat);
        let exact: nat = rounded * (fraction as nat);
        lemma_pow2_pos(lifted as nat);
        lemma_pow2_pos(gone as nat);
        lemma_pow2_adds(gone as nat, lifted as nat);
        assert(exact == product * up) by (nonlinear_arith)
            requires
                exact == rounded * (fraction as nat),
                rounded == significand * up,
                product == significand * (fraction as u64),
        ;
        lemma_round_scales(product as nat, lifted as nat);
        let value: nat = round_to_single(exact);
        assert(value == kept * pow2(total as nat)) by (nonlinear_arith)
            requires
                value == round_to_single(product as nat) * up,
                round_to_single(product as nat) == kept * pow2(gone as nat),
                pow2(total as nat) == pow2(gone as nat) * up,
        ;
        if width > 0 {
            lemma_scaled_below_width(width as nat, fraction as nat);
        } else {
            lemma_round_small(0);
            assert(exact == 0) by (nonlinear_arith)
                requires
                    exact == rounded * (fraction as nat),
                    rounded == 0,
            ;
        }
        if total >= 23 {
            let rest: nat = pow2((total - 23) as nat);
            lemma_pow2_adds((total - 23) as nat, 23);
            assert(value == (kept * rest) * 0x80_0000) by (nonlinear_arith)
                requires
                    value == kept * pow2(total as nat),
                    pow2(total as nat) == rest * 0x80_0000,
            ;
            assert(kept * rest == value / 0x80_0000);
            lemma_u64_shl_is_mul(kept, (total - 23) as u64);
        } else {
            let rest: nat = pow2((23 - total) as nat);
            lemma_pow2_adds(total as nat, (23 - total) as nat);
            lemma_pow2_pos(total as nat);
            lemma_pow2_pos((23 - total) as nat);
            lemma_div_multiples_vanish_quotient(
                pow2(total as nat) as int,
                kept as int,
                rest as int,
            );
            lemma_mul_is_commutative(pow2(total as nat) as int, kept as int);
            lemma_u64_shr_is_div(kept, (23 - total) as u64);
        }
    }
    if total >= 23 {
        kept << (total - 23)
    } else {
        kept >> (23 - total)
    }
}

} // verus!
