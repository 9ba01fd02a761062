//! Facts about the nodes of the search: their correlations and bounds stay
//! small, and at a complete node the bound is the energy itself.

use vstd::prelude::*;
use crate::sums::{sum_of, lemma_sum_bounds, lemma_sum_ext, lemma_sum_shift};
use crate::model::{
    fixed_term, fixed_correlation, correlation, energy, free_max, free_min, first_start,
    length_ok, value_at, pair_sign,
};
use crate::chain_lemmas::{empty_start, lemma_skip_empty};
use crate::segment_lemmas::lemma_free_sum_bound;
use crate::bit_sequence::BitSequence;
use crate::energy::{energy_lower_bound, bound_term, squares_sum};

verus! {

/// The fixed-pair correlation at `lag` counts at most `n - lag` pairs.
pub proof fn lemma_fixed_correlation_bound(s: Seq<bool>, n: int, m: int, lag: int)
    requires
        1 <= lag < n,
    ensures
        -(n - lag) <= fixed_correlation(s, n, m, lag) <= n - lag,
{
    let f = |i: int| fixed_term(s, n, m, lag, i);
    assert forall|i: int| 0 <= i < n - lag implies -1 <= #[trigger] f(i) <= 1 by {}
    lemma_sum_bounds(f, 0, n - lag, -1, 1);
}

/// The autocorrelation at `lag` counts at most `len - lag` pairs.
pub proof fn lemma_correlation_bound(x: Seq<bool>, lag: int)
    requires
        1 <= lag < x.len(),
    ensures
        -(x.len() - lag) <= correlation(x, lag) <= x.len() - lag,
{
    let f = |i: int| pair_sign(x[i], x[i + lag]);
    assert forall|i: int| 0 <= i < x.len() - lag implies -1 <= #[trigger] f(i) <= 1 by {}
    lemma_sum_bounds(f, 0, x.len() - lag, -1, 1);
}

/// The correlations and bounds of a node are at most `n` in magnitude.
pub proof fn lemma_node_bounds(node: &BitSequence)
    requires
        node.wf(),
    ensures
        forall|k: int|
            0 <= k < node.n - 1 ==> -(node.n as int) <= #[trigger] node.fixed_energys@[k]
                <= node.n,
        forall|k: int| 0 <= k < node.n - 1 ==> #[trigger] node.u_max@[k] <= node.n,
        forall|k: int| 0 <= k < node.n - 1 ==> #[trigger] node.u_min@[k] <= node.n,
{
    let n = node.n as int;
    let m = node.m as int;
    let s = node.sequence@;
    assert forall|k: int| 0 <= k < n - 1 implies -n <= #[trigger] node.fixed_energys@[k] <= n by {
        lemma_fixed_correlation_bound(s, n, m, k + 1);
    }
    assert forall|k: int| 0 <= k < n - 1 implies #[trigger] node.u_max@[k] <= n by {
        lemma_free_sum_bound(s, n, m, k + 1, first_start(m, k + 1) + k + 1);
    }
    assert forall|k: int| 0 <= k < n - 1 implies #[trigger] node.u_min@[k] <= n by {
        lemma_free_sum_bound(s, n, m, k + 1, first_start(m, k + 1) + k + 1);
        assert(node.u_max@[k] <= n);
    }
}

/// The energy as a sum over the indices `0 .. len - 1` of the correlations.
pub proof fn lemma_energy_shift(x: Seq<bool>, f: Seq<isize>)
    requires
        x.len() >= 1,
        f.len() == x.len() - 1,
        forall|k: int| 0 <= k < f.len() ==> #[trigger] f[k] as int == correlation(x, k + 1),
    ensures
        squares_sum(f) == energy(x),
{
    let g = |lag: int| correlation(x, lag) * correlation(x, lag);
    let h = |k: int| f[k] * f[k];
    assert forall|k: int| 0 <= k < f.len() implies #[trigger] h(k) == g(k + 1) by {}
    lemma_sum_shift(g, h, 0, f.len() as int, 1);
}

/// When no position is free, the fixed-pair correlation is the correlation.
pub proof fn lemma_complete_correlation(s: Seq<bool>, n: int, lag: int)
    requires
        s.len() == n,
        n % 2 == 0,
        1 <= lag < n,
    ensures
        fixed_correlation(s, n, n / 2, lag) == correlation(s, lag),
{
    let m = n / 2;
    let f = |i: int| fixed_term(s, n, m, lag, i);
    let g = |i: int| pair_sign(s[i], s[i + lag]);
    assert forall|i: int| 0 <= i < n - lag implies #[trigger] f(i) == g(i) by {
        assert(value_at(s, n, m, i) == s[i]);
        assert(value_at(s, n, m, i + lag) == s[i + lag]);
    }
    lemma_sum_ext(f, g, 0, n - lag);
}

/// When no position is free, nothing can be added or taken away.
pub proof fn lemma_complete_free(s: Seq<bool>, n: int, lag: int)
    requires
        n % 2 == 0,
        1 <= lag,
    ensures
        free_max(s, n, n / 2, lag) == 0,
        free_min(s, n, n / 2, lag) == 0,
{
    let m = n / 2;
    let lo = first_start(m, lag);
    assert forall|t: int| lo <= t < lo + lag implies #[trigger] empty_start(n, m, lag, t) by {}
    lemma_skip_empty(s, n, m, lag, lo, lo, lo + lag);
}

/// Law: at a node of even length with no free position left, the lower bound
/// on the energy is the energy of its sequence.
pub proof fn lemma_complete_bound_is_energy(node: &BitSequence)
    requires
        node.wf(),
        2 * node.m == node.n,
    ensures
        energy_lower_bound(
            node.fixed_energys@,
            node.u_max@,
            node.u_min@,
            node.m as int,
            node.n as int,
        ) == energy(node.sequence@),
{
    let n = node.n as int;
    let m = node.m as int;
    let s = node.sequence@;
    let f = node.fixed_energys@;
    assert forall|k: int| 0 <= k < n - 1 implies #[trigger] f[k] as int == correlation(s, k + 1)
        && node.u_max@[k] == 0 && node.u_min@[k] == 0 by {
        lemma_complete_correlation(s, n, k + 1);
        lemma_complete_free(s, n, k + 1);
        assert(node.u_max@[k] as int == free_max(s, n, m, k + 1));
    }
    let bt = |k: int|
        bound_term(f[k] as int, node.u_max@[k] as int, node.u_min@[k] as int, m, k + 1)
            * bound_term(f[k] as int, node.u_max@[k] as int, node.u_min@[k] as int, m, k + 1);
    let sq = |k: int| f[k] * f[k];
    assert forall|k: int| 0 <= k < n - 1 implies #[trigger] bt(k) == sq(k) by {
        assert(f[k] as int == correlation(s, k + 1) && node.u_max@[k] == 0 && node.u_min@[k] == 0);
    }
    lemma_sum_ext(bt, sq, 0, n - 1);
    lemma_energy_shift(s, f);
}

/// Law: where no free pair is left at any lag (both ranges zero), the lower
/// bound is the sum of the squares of the fixed-pair correlations.
pub proof fn lemma_bound_without_free(
    f: Seq<isize>,
    umax: Seq<usize>,
    umin: Seq<usize>,
    m: int,
    n: int,
)
    requires
        1 <= n,
        f.len() >= n - 1,
        umax.len() >= n - 1,
        umin.len() >= n - 1,
        forall|k: int| #![trigger umax[k]] 0 <= k < n - 1 ==> umax[k] == 0 && umin[k] == 0,
    ensures
        energy_lower_bound(f, umax, umin, m, n) == sum_of(|k: int| f[k] * f[k], 0, n - 1),
        f.len() == n - 1 ==> energy_lower_bound(f, umax, umin, m, n) == squares_sum(f),
{
    let bt = |k: int|
        bound_term(f[k] as int, umax[k] as int, umin[k] as int, m, k + 1) * bound_term(
            f[k] as int,
            umax[k] as int,
            umin[k] as int,
            m,
            k + 1,
        );
    let sq = |k: int| f[k] * f[k];
    assert forall|k: int| 0 <= k < n - 1 implies #[trigger] bt(k) == sq(k) by {
        assert(0 <= k < n - 1);
        assert(umax[k] == 0);
        assert(umin[k] == 0);
    }
    lemma_sum_ext(bt, sq, 0, n - 1);
}

/// The energy of a sequence of admissible length fits the machine integers.
pub proof fn lemma_energy_fits(x: Seq<bool>, f: Seq<isize>)
    requires
        length_ok(x.len() as int),
        f.len() == x.len() - 1,
        forall|k: int| 0 <= k < f.len() ==> #[trigger] f[k] as int == correlation(x, k + 1),
    ensures
        squares_sum(f) == energy(x),
        0 <= energy(x) <= isize::MAX,
{
    let n = x.len() as int;
    lemma_energy_shift(x, f);
    let sq = |k: int| f[k] * f[k];
    assert forall|k: int| 0 <= k < n - 1 implies 0 <= #[trigger] sq(k) <= n * n by {
        lemma_correlation_bound(x, k + 1);
        let c = f[k] as int;
        assert(0 <= c * c <= n * n) by (nonlinear_arith)
            requires
                -n <= c <= n,
        ;
    }
    lemma_sum_bounds(sq, 0, n - 1, 0, n * n);
    assert(n * n * (n - 1) <= 4 * n * n * n && 0 * (n - 1) == 0) by (nonlinear_arith)
        requires
            n >= 2,
    ;
}

} // verus!
