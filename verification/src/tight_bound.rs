//! The lower bound of a node is the least it can be: for every lag, its term
//! is the smallest magnitude among the values that the correlation could take
//! by its range and its residue, and the bound is the least sum of squares
//! over one such value per lag.

use vstd::prelude::*;
use vstd::arithmetic::div_mod::{lemma_fundamental_div_mod, lemma_mod_bound, lemma_fundamental_div_mod_converse};
use crate::sums::{sum_of, lemma_sum_ext, lemma_sum_le};
use crate::bit_sequence::BitSequence;
use crate::energy::{bound_term, energy_lower_bound, multiple_distance, lemma_modular_min_abs_distance};
use crate::bound_law::{lemma_term_below, lemma_lag_range};
use crate::range_law::{lemma_free_range_reached, high_filling};

verus! {

/// The step between the values that the correlation at `lag` can take: 2,
/// or 4 when every free position has a neighbour at distance `lag` on both sides.
pub open spec fn step_of(m: int, lag: int) -> int {
    if m < lag {
        2
    } else {
        4
    }
}

/// `c` lies in the range `[f - umin, f + umax]` and differs from its lower end
/// by a multiple of the step.
pub open spec fn reachable_value(c: int, f: int, umax: int, umin: int, m: int, lag: int) -> bool {
    &&& f - umin <= c <= f + umax
    &&& (c - (f - umin)) % step_of(m, lag) == 0
}

/// Law: when the range spans whole steps, the bound term has the least square
/// among the values of the range in the residue of its lower end, and one of
/// them reaches it.
pub proof fn lemma_bound_term_least(f: int, umax: int, umin: int, m: int, lag: int)
    requires
        umax >= 0,
        umin >= 0,
        (umax + umin) % step_of(m, lag) == 0,
    ensures
        exists|c: int|
            #[trigger] reachable_value(c, f, umax, umin, m, lag) && c * c == bound_term(
                f,
                umax,
                umin,
                m,
                lag,
            ) * bound_term(f, umax, umin, m, lag),
        forall|c: int|
            #[trigger] reachable_value(c, f, umax, umin, m, lag) ==> bound_term(
                f,
                umax,
                umin,
                m,
                lag,
            ) * bound_term(f, umax, umin, m, lag) <= c * c,
{
    let g = step_of(m, lag);
    let t = bound_term(f, umax, umin, m, lag);
    assert forall|c: int| #[trigger] reachable_value(c, f, umax, umin, m, lag) implies t * t <= c
        * c by {
        lemma_term_below(c, f, umax, umin, m, lag);
    }
    let a = f - umin;
    let b = f + umax;
    if f <= -umax {
        assert(reachable_value(b, f, umax, umin, m, lag));
    } else if f >= umin {
        assert((a - a) % g == 0);
        assert(reachable_value(a, f, umax, umin, m, lag));
    } else {
        lemma_modular_min_abs_distance(a, g);
        lemma_fundamental_div_mod(a, g);
        lemma_fundamental_div_mod(b, g);
        lemma_fundamental_div_mod(umax + umin, g);
        lemma_mod_bound(a, g);
        lemma_mod_bound(b, g);
        let e = a % g;
        let qa = a / g;
        let qs = (umax + umin) / g;
        assert(t == multiple_distance(a, g));
        // b lies in the residue of a
        assert(b == g * (qa + qs) + e) by (nonlinear_arith)
            requires
                a == g * qa + e,
                umax + umin == g * qs,
                b == a + (umax + umin),
        ;
        assert(qa <= -1) by (nonlinear_arith)
            requires
                a == g * qa + e,
                0 <= e,
                a < 0,
                g > 0,
        ;
        assert(qa + qs >= 0) by (nonlinear_arith)
            requires
                b == g * (qa + qs) + e,
                e < g,
                b > 0,
                g > 0,
        ;
        assert(a <= e - g) by (nonlinear_arith)
            requires
                a == g * qa + e,
                qa <= -1,
                g > 0,
        ;
        assert(e <= b) by (nonlinear_arith)
            requires
                b == g * (qa + qs) + e,
                qa + qs >= 0,
                g > 0,
        ;
        assert(e - a == g * (-qa)) by (nonlinear_arith)
            requires
                a == g * qa + e,
        ;
        lemma_fundamental_div_mod_converse(e - a, g, -qa, 0);
        lemma_fundamental_div_mod_converse(e - g - a, g, -qa - 1, 0);
        if e <= g - e {
            assert(reachable_value(e, f, umax, umin, m, lag));
            assert(e * e == t * t);
        } else {
            assert(reachable_value(e - g, f, umax, umin, m, lag));
            assert((e - g) * (e - g) == t * t) by (nonlinear_arith)
                requires
                    t == g - e,
            ;
        }
    }
}

/// The ranges of every lag of a node span whole steps.
pub proof fn lemma_node_steps(node: &BitSequence)
    requires
        node.wf(),
    ensures
        forall|k: int|
            0 <= k < node.n - 1 ==> (#[trigger] node.u_max@[k] + node.u_min@[k]) % step_of(
                node.m as int,
                k + 1,
            ) == 0,
{
    let n = node.n as int;
    let m = node.m as int;
    let s = node.sequence@;
    assert forall|k: int| 0 <= k < n - 1 implies (#[trigger] node.u_max@[k] + node.u_min@[k])
        % step_of(m, k + 1) == 0 by {
        lemma_free_range_reached(s, n, m, k + 1);
        lemma_lag_range(s, n, m, high_filling(s, n, m, k + 1), k + 1);
        assert(node.u_max@[k] as int == crate::model::free_max(s, n, m, k + 1));
    }
}

/// Every `values(k)` is a value that the correlation at lag `k + 1` of `node`
/// could take by its range and residue.
pub open spec fn all_reachable(values: spec_fn(int) -> int, node: &BitSequence) -> bool {
    forall|k: int|
        0 <= k < node.n - 1 ==> reachable_value(
            #[trigger] values(k),
            node.fixed_energys@[k] as int,
            node.u_max@[k] as int,
            node.u_min@[k] as int,
            node.m as int,
            k + 1,
        )
}

/// The sum of the squares of `values(k)` over the lags of `node`.
pub open spec fn squares_over_lags(values: spec_fn(int) -> int, node: &BitSequence) -> int {
    sum_of(|k: int| values(k) * values(k), 0, node.n - 1)
}

/// Law: the lower bound of a node is the least sum of squares over one value
/// per lag that the correlation could take by its range and residue, and
/// some such choice of values reaches it.
pub proof fn lemma_lower_bound_is_least(node: &BitSequence)
    requires
        node.wf(),
    ensures
        forall|values: spec_fn(int) -> int|
            #[trigger] all_reachable(values, node) ==> energy_lower_bound(
                node.fixed_energys@,
                node.u_max@,
                node.u_min@,
                node.m as int,
                node.n as int,
            ) <= squares_over_lags(values, node),
        exists|values: spec_fn(int) -> int|
            #[trigger] all_reachable(values, node) && energy_lower_bound(
                node.fixed_energys@,
                node.u_max@,
                node.u_min@,
                node.m as int,
                node.n as int,
            ) == squares_over_lags(values, node),
{
    let n = node.n as int;
    let m = node.m as int;
    let f = node.fixed_energys@;
    let ux = node.u_max@;
    let un = node.u_min@;
    lemma_node_steps(node);
    let bt = |k: int|
        bound_term(f[k] as int, ux[k] as int, un[k] as int, m, k + 1) * bound_term(
            f[k] as int,
            ux[k] as int,
            un[k] as int,
            m,
            k + 1,
        );
    assert forall|k: int| #![trigger ux[k]] 0 <= k < n - 1 implies {
        &&& exists|c: int|
            #[trigger] reachable_value(c, f[k] as int, ux[k] as int, un[k] as int, m, k + 1) && c * c
                == bt(k)
        &&& forall|c: int|
            #[trigger] reachable_value(c, f[k] as int, ux[k] as int, un[k] as int, m, k + 1) ==> bt(
                k,
            ) <= c * c
    } by {
        assert((ux[k] + un[k]) % step_of(m, k + 1) == 0);
        lemma_bound_term_least(f[k] as int, ux[k] as int, un[k] as int, m, k + 1);
    }
    assert forall|values: spec_fn(int) -> int| #[trigger] all_reachable(values, node) implies
        energy_lower_bound(f, ux, un, m, n) <= squares_over_lags(values, node) by {
        let sq = |k: int| values(k) * values(k);
        assert forall|k: int| 0 <= k < n - 1 implies #[trigger] bt(k) <= sq(k) by {
            assert(reachable_value(values(k), f[k] as int, ux[k] as int, un[k] as int, m, k + 1));
        }
        lemma_sum_le(bt, sq, 0, n - 1);
    }
    let best = |k: int|
        choose|c: int|
            #[trigger] reachable_value(c, f[k] as int, ux[k] as int, un[k] as int, m, k + 1) && c * c
                == bt(k);
    assert forall|k: int| 0 <= k < n - 1 implies #[trigger] reachable_value(
        best(k),
        f[k] as int,
        ux[k] as int,
        un[k] as int,
        m,
        k + 1,
    ) && best(k) * best(k) == bt(k) by {}
    assert(all_reachable(best, node));
    let sqb = |k: int| best(k) * best(k);
    assert forall|k: int| 0 <= k < n - 1 implies #[trigger] bt(k) == sqb(k) by {}
    lemma_sum_ext(bt, sqb, 0, n - 1);
    assert(energy_lower_bound(f, ux, un, m, n) == squares_over_lags(best, node));
}

} // verus!
