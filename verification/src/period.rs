//! Registers of maximal length.
//!
//! A register of width `degree` has `2^degree - 1` nonzero states. Its
//! feedback is of maximal length when, started at 1, it comes back to 1 after
//! exactly that many steps and not before. Such a register visits every
//! nonzero state once per period, which is what lets a scan from seed 1 stand
//! for a scan over all seeds.

use vstd::prelude::*;
use vstd::arithmetic::power2::{pow2, lemma_pow2_pos};
use vstd::relations::injective_on;
use vstd::set_lib::{lemma_int_range, lemma_map_size, lemma_subset_equality, set_int_range};
use crate::lfsr::{
    lemma_one_fits,
    lemma_state_after_add,
    lemma_state_after_fits,
    lemma_zero_state_is_fixed,
    state_after,
};

verus! {

/// Number of nonzero states of a register of width `degree`.
pub open spec fn period(degree: nat) -> nat {
    (pow2(degree) - 1) as nat
}

/// The register returns to state 1 after `period(degree)` steps and not
/// before.
pub open spec fn is_maximal(taps: u32, degree: nat) -> bool {
    &&& state_after(taps, degree, 1, period(degree)) == 1
    &&& forall|k: nat| 0 < k < period(degree) ==> #[trigger] state_after(taps, degree, 1, k) != 1
}

/// The register holds `state` at some step of its first period from seed 1.
pub open spec fn visits(taps: u32, degree: nat, state: u32) -> bool {
    exists|k: nat| k < period(degree) && #[trigger] state_after(taps, degree, 1, k) == state
}

/// A register that has reached state 0 never leaves it, so one that returns
/// to state 1 has not been at 0 before.
proof fn lemma_returning_register_avoids_zero(taps: u32, degree: nat, back: nat, k: nat)
    requires
        state_after(taps, degree, 1, back) == 1,
        k <= back,
    ensures
        state_after(taps, degree, 1, k) != 0,
{
    if state_after(taps, degree, 1, k) == 0 {
        lemma_state_after_add(taps, degree, 1, k, (back - k) as nat);
        lemma_zero_state_is_fixed(taps, degree, (back - k) as nat);
    }
}

/// Two steps of one period at which the register holds the same state are
/// the same step.
proof fn lemma_no_state_twice(taps: u32, degree: nat, i: nat, j: nat)
    requires
        is_maximal(taps, degree),
        i <= j < period(degree),
        state_after(taps, degree, 1, i) == state_after(taps, degree, 1, j),
    ensures
        i == j,
{
    if i < j {
        let rest = (period(degree) - j) as nat;
        lemma_state_after_add(taps, degree, 1, i, rest);
        lemma_state_after_add(taps, degree, 1, j, rest);
        assert(state_after(taps, degree, 1, i + rest) == 1);
        assert(0 < i + rest < period(degree));
    }
}

/// The trajectory of a register of maximal length: during one period from
/// seed 1 it holds nonzero states below `2^degree` only, holds none of them
/// twice, and holds each of them at some step; after the period it is back at
/// seed 1.
pub proof fn lemma_maximal_register_visits_each_state_once(taps: u32, degree: nat)
    requires
        1 <= degree <= 32,
        is_maximal(taps, degree),
    ensures
        forall|k: nat|
            k < period(degree) ==> 0 < #[trigger] state_after(taps, degree, 1, k) < pow2(degree),
        forall|i: nat, j: nat|
            i < j < period(degree) ==> #[trigger] state_after(taps, degree, 1, i)
                != #[trigger] state_after(taps, degree, 1, j),
        forall|state: u32| 0 < state < pow2(degree) ==> #[trigger] visits(taps, degree, state),
        state_after(taps, degree, 1, period(degree)) == 1,
{
    let n = period(degree);
    lemma_pow2_pos(degree);
    lemma_one_fits(degree);
    assert forall|k: nat| k < n implies 0 < #[trigger] state_after(taps, degree, 1, k) < pow2(
        degree,
    ) by {
        lemma_returning_register_avoids_zero(taps, degree, n, k);
        lemma_state_after_fits(taps, degree, 1, k);
    }
    assert forall|i: nat, j: nat| i < j < n implies #[trigger] state_after(taps, degree, 1, i)
        != #[trigger] state_after(taps, degree, 1, j) by {
        if state_after(taps, degree, 1, i) == state_after(taps, degree, 1, j) {
            lemma_no_state_twice(taps, degree, i, j);
        }
    }
    let steps = set_int_range(0, n as int);
    let nonzero = set_int_range(1, pow2(degree) as int);
    let state_at = |k: int| state_after(taps, degree, 1, k as nat) as int;
    let visited = steps.map(state_at);
    lemma_int_range(0, n as int);
    lemma_int_range(1, pow2(degree) as int);
    assert(injective_on(state_at, steps)) by {
        assert forall|a: int, b: int|
            steps.contains(a) && steps.contains(b) && #[trigger] state_at(a) == #[trigger] state_at(
                b,
            ) implies a == b by {
            if a <= b {
                lemma_no_state_twice(taps, degree, a as nat, b as nat);
            } else {
                lemma_no_state_twice(taps, degree, b as nat, a as nat);
            }
        }
    }
    lemma_map_size(steps, visited, state_at);
    assert(visited.subset_of(nonzero)) by {
        assert forall|s: int| visited.contains(s) implies nonzero.contains(s) by {
            let k = choose|k: int| steps.contains(k) && s == state_at(k);
            assert(0 < state_after(taps, degree, 1, k as nat) < pow2(degree));
        }
    }
    lemma_subset_equality(visited, nonzero);
    assert forall|state: u32| 0 < state < pow2(degree) implies #[trigger] visits(
        taps,
        degree,
        state,
    ) by {
        assert(nonzero.contains(state as int));
        assert(visited.contains(state as int));
        let k = choose|k: int| steps.contains(k) && state as int == state_at(k);
        assert((k as nat) < n && state_after(taps, degree, 1, k as nat) == state);
    }
}

} // verus!
