//! Over one full period the draws fall evenly into 2^18 buckets of equal width.

use crate::period::lemma_full_period;
use crate::period::lemma_no_state_repeats;
use crate::rng::fraction;
use crate::rng::seed_after;
use vstd::prelude::*;
use vstd::relations::injective_on;
use vstd::set_lib::lemma_int_range;
use vstd::set_lib::lemma_map_size;
use vstd::set_lib::lemma_set_subset_finite;
use vstd::set_lib::lemma_subset_equality;
use vstd::set_lib::set_int_range;

verus! {

/// The bucket, out of 2^18 of equal width, that the uniform value of a state
/// falls into: the whole part of `fraction / 2^23 * 2^18`.
pub open spec fn bucket(seed: u32) -> nat {
    fraction(seed) / 32
}

/// The state after `n` steps, as an integer.
pub open spec fn state_at(start: u32, n: int) -> int {
    seed_after(start, n as nat) as int
}

/// The draws of one full period, numbered from 1 to 2^32.
pub open spec fn period_steps() -> Set<int> {
    set_int_range(1, 0x1_0000_0001)
}

/// The draws of one full period from `start` that fall into bucket `b`.
pub open spec fn steps_in_bucket(start: u32, b: nat) -> Set<int> {
    Set::new(|n: int| 1 <= n <= 0x1_0000_0000 && bucket(seed_after(start, n as nat)) == b)
}

/// The states whose uniform value falls into bucket `b`.
pub open spec fn states_in_bucket(b: nat) -> Set<int> {
    Set::new(|x: int| 0 <= x < 0x1_0000_0000 && bucket(x as u32) == b)
}

/// The state with high bits `code / 32`, bucket `b` and low bits `code % 32`.
pub open spec fn state_of_code(b: nat, code: int) -> int {
    (code / 32) * 0x80_0000 + b * 32 + code % 32
}

/// The draws of one period lead to different states.
pub proof fn lemma_period_is_injective(start: u32)
    ensures
        injective_on(|n: int| state_at(start, n), period_steps()),
{
    let f = |n: int| state_at(start, n);
    assert forall|i: int, j: int|
        period_steps().contains(i) && period_steps().contains(j) && #[trigger] f(i)
            == #[trigger] f(j) implies i == j by {
        if i != j {
            let low: nat = (if i < j {
                i
            } else {
                j
            }) as nat;
            let high: nat = (if i < j {
                j
            } else {
                i
            }) as nat;
            if high < 0x1_0000_0000 {
                lemma_no_state_repeats(start, low, high);
            } else {
                lemma_full_period(start);
                lemma_no_state_repeats(start, 0, low);
            }
        }
    }
}

/// The draws of one period meet every state.
pub proof fn lemma_period_meets_every_state(start: u32)
    ensures
        period_steps().map(|n: int| state_at(start, n)) == set_int_range(0, 0x1_0000_0000),
{
    let f = |n: int| state_at(start, n);
    let orbit = period_steps().map(f);
    let all = set_int_range(0, 0x1_0000_0000);
    lemma_int_range(1, 0x1_0000_0001);
    lemma_int_range(0, 0x1_0000_0000);
    lemma_period_is_injective(start);
    lemma_map_size(period_steps(), orbit, f);
    assert(orbit.subset_of(all)) by {
        assert forall|x: int| orbit.contains(x) implies all.contains(x) by {
            let n = choose|n: int| period_steps().contains(n) && x == f(n);
        }
    }
    lemma_subset_equality(orbit, all);
}

/// 2^14 states fall into each bucket.
pub proof fn lemma_states_in_bucket(b: nat)
    requires
        b < 0x4_0000,
    ensures
        states_in_bucket(b).finite(),
        states_in_bucket(b).len() == 0x4000,
{
    let codes = set_int_range(0, 0x4000);
    let f = |code: int| state_of_code(b, code);
    lemma_int_range(0, 0x4000);
    assert(injective_on(f, codes)) by {
        assert forall|c: int, d: int|
            codes.contains(c) && codes.contains(d) && #[trigger] f(c) == #[trigger] f(
                d,
            ) implies c == d by {
            assert(c / 32 == d / 32);
            assert(c % 32 == d % 32);
        }
    }
    assert(codes.map(f) =~= states_in_bucket(b)) by {
        assert forall|x: int| states_in_bucket(b).contains(x) implies codes.map(f).contains(
            x,
        ) by {
            let code: int = (x / 0x80_0000) * 32 + x % 32;
            assert(codes.contains(code));
            assert(x == f(code));
        }
        assert forall|x: int| codes.map(f).contains(x) implies states_in_bucket(b).contains(
            x,
        ) by {
            let code = choose|code: int| codes.contains(code) && x == f(code);
            assert(0 <= x < 0x1_0000_0000);
            assert(x % 0x80_0000 == b * 32 + code % 32);
        }
    }
    lemma_map_size(codes, states_in_bucket(b), f);
}

/// Uniformity: of the 2^32 draws of one full period, from any start, exactly
/// 2^14 fall into each of the 2^18 buckets.
pub proof fn lemma_buckets_are_equal(start: u32, b: nat)
    requires
        b < 0x4_0000,
    ensures
        steps_in_bucket(start, b).finite(),
        steps_in_bucket(start, b).len() == 0x4000,
{
    let f = |n: int| state_at(start, n);
    let steps = steps_in_bucket(start, b);
    let states = states_in_bucket(b);
    lemma_int_range(1, 0x1_0000_0001);
    assert(steps.subset_of(period_steps()));
    lemma_set_subset_finite(period_steps(), steps);
    lemma_period_is_injective(start);
    assert(injective_on(f, steps));
    lemma_period_meets_every_state(start);
    assert(steps.map(f) =~= states) by {
        assert forall|x: int| states.contains(x) implies steps.map(f).contains(x) by {
            assert(set_int_range(0, 0x1_0000_0000).contains(x));
            assert(period_steps().map(f).contains(x));
            let n = choose|n: int| period_steps().contains(n) && x == f(n);
            assert(steps.contains(n));
        }
        assert forall|x: int| steps.map(f).contains(x) implies states.contains(x) by {
            let n = choose|n: int| steps.contains(n) && x == f(n);
        }
    }
    lemma_map_size(steps, states, f);
    lemma_states_in_bucket(b);
}

} // verus!
