//! The recurrence `x -> 5x + 1` modulo 2^32 runs through every 32-bit word
//! before it returns to its start.

use crate::rng::next_seed;
use crate::rng::seed_after;
use vstd::arithmetic::div_mod::lemma_fundamental_div_mod;
use vstd::arithmetic::div_mod::lemma_mod_multiples_basic;
use vstd::arithmetic::power2::lemma2_to64;
use vstd::arithmetic::power2::lemma_pow2_pos;
use vstd::arithmetic::power2::lemma_pow2_unfold;
use vstd::arithmetic::power2::pow2;
use vstd::prelude::*;

verus! {

/// `1 + 5 + ... + 5^(n-1)`, the constant term of the recurrence applied `n` times.
pub open spec fn series(n: nat) -> nat
    decreases n,
{
    if n == 0 {
        0
    } else {
        5 * series((n - 1) as nat) + 1
    }
}

/// `n` steps from `seed` lead to `seed + series(n) * (4 * seed + 1)` modulo 2^32.
pub proof fn lemma_seed_after_closed_form(seed: u32, n: nat)
    ensures
        seed_after(seed, n) == (seed + series(n) * (4 * seed + 1)) % 0x1_0000_0000,
    decreases n,
{
    if n == 0 {
        assert(series(0) * (4 * seed + 1) == 0) by (nonlinear_arith)
            requires
                series(0) == 0,
        ;
    } else {
        let before: nat = (n - 1) as nat;
        lemma_seed_after_closed_form(seed, before);
        let reached: int = seed + series(before) * (4 * seed + 1);
        let next: int = seed + series(n) * (4 * seed + 1);
        assert(next == 5 * reached + 1) by (nonlinear_arith)
            requires
                reached == seed + series(before) * (4 * seed + 1),
                next == seed + series(n) * (4 * seed + 1),
                series(n) == 5 * series(before) + 1,
        ;
        assert(reached >= 0) by (nonlinear_arith)
            requires
                reached == seed + series(before) * (4 * seed + 1),
        ;
        assert((5 * (reached % 0x1_0000_0000) + 1) % 0x1_0000_0000 == (5 * reached + 1)
            % 0x1_0000_0000);
    }
}

/// `series(m + n) == series(m) + 5^m * series(n)`, with `5^m` written as
/// `4 * series(m) + 1`.
pub proof fn lemma_series_adds(m: nat, n: nat)
    ensures
        series(m + n) == series(m) + (4 * series(m) + 1) * series(n),
    decreases n,
{
    if n == 0 {
        assert((4 * series(m) + 1) * series(0) == 0) by (nonlinear_arith)
            requires
                series(0) == 0,
        ;
    } else {
        let before: nat = (n - 1) as nat;
        lemma_series_adds(m, before);
        assert(series(m + n) == 5 * series(m + before) + 1);
        assert(series(m) + (4 * series(m) + 1) * series(n) == 5 * (series(m) + (4 * series(m)
            + 1) * series(before)) + 1) by (nonlinear_arith)
            requires
                series(n) == 5 * series(before) + 1,
        ;
    }
}

/// Doubling the number of steps doubles the series once, times an odd number.
pub proof fn lemma_series_double(n: nat)
    ensures
        series(2 * n) == 2 * (series(n) * (2 * series(n) + 1)),
{
    lemma_series_adds(n, n);
    assert(series(n) + (4 * series(n) + 1) * series(n) == 2 * (series(n) * (2 * series(n)
        + 1))) by (nonlinear_arith);
}

/// The series is odd exactly when the number of steps is.
pub proof fn lemma_series_parity(n: nat)
    ensures
        series(n) % 2 == n % 2,
    decreases n,
{
    if n > 0 {
        lemma_series_parity((n - 1) as nat);
    }
}

/// Divisibility by `2^(k+1)` is evenness together with divisibility of the
/// half by `2^k`.
pub proof fn lemma_halving(x: nat, k: nat)
    ensures
        x % pow2(k + 1) == 0 <==> (x % 2 == 0 && (x / 2) % pow2(k) == 0),
{
    lemma_pow2_unfold(k + 1);
    lemma_pow2_pos(k);
    let unit: nat = pow2(k);
    if x % (2 * unit) == 0 {
        lemma_fundamental_div_mod(x as int, (2 * unit) as int);
        let count: int = x as int / ((2 * unit) as int);
        assert(x == 2 * (count * unit)) by (nonlinear_arith)
            requires
                x == (2 * unit) * count,
        ;
        lemma_mod_multiples_basic(count, unit as int);
    }
    if x % 2 == 0 && (x / 2) % unit == 0 {
        lemma_fundamental_div_mod((x / 2) as int, unit as int);
        let count: int = (x / 2) as int / (unit as int);
        assert(x == count * (2 * unit)) by (nonlinear_arith)
            requires
                x == 2 * (x / 2),
                (x / 2) == unit * count,
        ;
        lemma_mod_multiples_basic(count, (2 * unit) as int);
    }
}

/// A power of two that divides a product with an odd factor divides the
/// other factor.
pub proof fn lemma_odd_factor_cancels(a: nat, odd: nat, k: nat)
    requires
        odd % 2 == 1,
        (a * odd) % pow2(k) == 0,
    ensures
        a % pow2(k) == 0,
    decreases k,
{
    lemma2_to64();
    if k > 0 {
        let low: nat = (k - 1) as nat;
        lemma_halving(a * odd, low);
        if a % 2 == 1 {
            let x: nat = a / 2;
            let y: nat = odd / 2;
            assert(a * odd == 2 * (2 * x * y + x + y) + 1) by (nonlinear_arith)
                requires
                    a == 2 * x + 1,
                    odd == 2 * y + 1,
            ;
        }
        let half: nat = a / 2;
        assert((a * odd) / 2 == half * odd) by (nonlinear_arith)
            requires
                a == 2 * half,
        ;
        lemma_odd_factor_cancels(half, odd, low);
        lemma_halving(a, low);
    }
}

/// A multiple of a number that `2^k` divides is divided by `2^k` too.
pub proof fn lemma_multiple_stays_divisible(a: nat, b: nat, k: nat)
    requires
        a % pow2(k) == 0,
    ensures
        (a * b) % pow2(k) == 0,
{
    lemma_pow2_pos(k);
    lemma_fundamental_div_mod(a as int, pow2(k) as int);
    let count: int = a as int / (pow2(k) as int);
    assert(a * b == (count * b) * pow2(k)) by (nonlinear_arith)
        requires
            a == pow2(k) * count,
    ;
    lemma_mod_multiples_basic(count * b, pow2(k) as int);
}

/// A power of two divides the series exactly when it divides the number of steps.
pub proof fn lemma_series_divisibility(n: nat, k: nat)
    ensures
        series(n) % pow2(k) == 0 <==> n % pow2(k) == 0,
    decreases k,
{
    lemma2_to64();
    if k > 0 {
        let low: nat = (k - 1) as nat;
        let half: nat = n / 2;
        lemma_series_parity(n);
        lemma_halving(n, low);
        lemma_halving(series(n), low);
        if n % 2 == 0 {
            assert(n == 2 * half);
            lemma_series_double(half);
            let inner: nat = series(half);
            let odd: nat = 2 * inner + 1;
            assert(series(n) / 2 == inner * odd);
            lemma_series_divisibility(half, low);
            if half % pow2(low) == 0 {
                lemma_multiple_stays_divisible(inner, odd, low);
            }
            if (inner * odd) % pow2(low) == 0 {
                lemma_odd_factor_cancels(inner, odd, low);
            }
        }
    }
}

/// Steps compose: `i + j` steps are `i` steps followed by `j` steps.
pub proof fn lemma_seed_after_adds(seed: u32, i: nat, j: nat)
    ensures
        seed_after(seed, i + j) == seed_after(seed_after(seed, i), j),
    decreases j,
{
    if j > 0 {
        lemma_seed_after_adds(seed, i, (j - 1) as nat);
        assert(seed_after(seed, i + j) == next_seed(seed_after(seed, (i + j - 1) as nat)));
    }
}

/// The state returns to itself after `n` steps exactly when 2^32 divides `n`.
pub proof fn lemma_returns_exactly_at_multiples(seed: u32, n: nat)
    ensures
        seed_after(seed, n) == seed <==> n % 0x1_0000_0000 == 0,
{
    lemma2_to64();
    lemma_seed_after_closed_form(seed, n);
    lemma_series_divisibility(n, 32);
    let odd: nat = (4 * seed + 1) as nat;
    let shift: nat = series(n) * odd;
    if series(n) % 0x1_0000_0000 == 0 {
        lemma_multiple_stays_divisible(series(n), odd, 32);
    }
    if shift % 0x1_0000_0000 == 0 {
        lemma_odd_factor_cancels(series(n), odd, 32);
    }
    assert((seed + shift) % 0x1_0000_0000 == seed <==> shift % 0x1_0000_0000 == 0);
}

/// Full period, first half: 2^32 steps from any state lead back to it.
pub proof fn lemma_full_period(seed: u32)
    ensures
        seed_after(seed, 0x1_0000_0000) == seed,
{
    lemma_returns_exactly_at_multiples(seed, 0x1_0000_0000);
}

/// Full period, second half: within 2^32 steps no state comes twice.
pub proof fn lemma_no_state_repeats(seed: u32, i: nat, j: nat)
    requires
        i < j < 0x1_0000_0000,
    ensures
        seed_after(seed, i) != seed_after(seed, j),
{
    lemma_seed_after_adds(seed, i, (j - i) as nat);
    lemma_returns_exactly_at_multiples(seed_after(seed, i), (j - i) as nat);
}

} // verus!
