//! The ranges that a node keeps are reached: for every lag, one filling of the
//! free positions makes the correlation the largest value of its range, and
//! another makes it the smallest.

use vstd::prelude::*;
use vstd::arithmetic::div_mod::lemma_fundamental_div_mod_converse;
use crate::sums::{sum_of, lemma_sum_ext};
use crate::model::{
    value_at, fixed_correlation, correlation, completion, segment_len, segment_end,
    segment_counted, segment_bounded, segment_max, segment_min, first_start, free_max, free_min,
};
use crate::segment_lemmas::lemma_segment_end;
use crate::bound_law::{
    path_sum, path_flips, segment_sum, lemma_path, lemma_completion_value,
    lemma_completion_correlation, lemma_free_pairs_by_segments, lemma_lag_range, free_terms,
};
use crate::chain_lemmas::lemma_free_far;
use crate::bit_sequence::BitSequence;

verus! {

/// The start, among the `lag` segment starts, of the chain through position `p`.
pub open spec fn window_start(m: int, lag: int, p: int) -> int {
    first_start(m, lag) + (p - first_start(m, lag)) % lag
}

/// The sign that every free position of the chain from `t` takes to make the
/// pairs of its segment sum to the largest value.
pub open spec fn high_value(s: Seq<bool>, n: int, m: int, lag: int, t: int) -> bool {
    if t < m {
        value_at(s, n, m, t)
    } else if segment_end(n, m, lag, t) >= n - m {
        value_at(s, n, m, segment_end(n, m, lag, t))
    } else {
        false
    }
}

/// A filling of the free positions under which the correlation at `lag` is
/// the largest value of its range.
pub open spec fn high_filling(s: Seq<bool>, n: int, m: int, lag: int) -> Seq<bool> {
    Seq::new((n - 2 * m) as nat, |i: int| high_value(s, n, m, lag, window_start(m, lag, m + i)))
}

/// The sign at the start of the chain from `t` when its signs alternate so
/// that the pairs of its segment sum to the smallest value.
pub open spec fn low_value(s: Seq<bool>, n: int, m: int, lag: int, t: int) -> bool {
    if t < m {
        value_at(s, n, m, t)
    } else if segment_end(n, m, lag, t) >= n - m {
        value_at(s, n, m, segment_end(n, m, lag, t)) != (segment_len(n, m, lag, t) % 2 == 1)
    } else {
        false
    }
}

/// A filling of the free positions under which the correlation at `lag` is
/// the smallest value of its range.
pub open spec fn low_filling(s: Seq<bool>, n: int, m: int, lag: int) -> Seq<bool> {
    Seq::new(
        (n - 2 * m) as nat,
        |i: int|
            low_value(s, n, m, lag, window_start(m, lag, m + i)) != ((m + i - window_start(
                m,
                lag,
                m + i,
            )) / lag % 2 == 1),
    )
}

/// The positions `t + j lag` of the chain from a segment start have that start
/// as their window start, `j` steps away.
proof fn lemma_on_chain(m: int, lag: int, t: int, j: int)
    requires
        lag >= 1,
        first_start(m, lag) <= t < first_start(m, lag) + lag,
        j >= 0,
    ensures
        window_start(m, lag, t + j * lag) == t,
        (t + j * lag - t) / lag == j,
{
    let lo = first_start(m, lag);
    assert(t + j * lag - lo == j * lag + (t - lo));
    lemma_fundamental_div_mod_converse(t + j * lag - lo, lag, j, t - lo);
    assert(t + j * lag - t == j * lag + 0);
    lemma_fundamental_div_mod_converse(t + j * lag - t, lag, j, 0);
}

/// The positions strictly inside a segment come before the right end.
proof fn lemma_segment_inside(n: int, m: int, lag: int, t: int, j: int)
    requires
        lag >= 1,
        m >= 0,
        1 <= j < segment_len(n, m, lag, t),
    ensures
        t + j * lag < n - m,
    decreases j,
{
    assert(t + lag < n - m);
    if j > 1 {
        lemma_segment_inside(n, m, lag, t + lag, j - 1);
        assert(t + lag + (j - 1) * lag == t + j * lag) by (nonlinear_arith);
    } else {
        assert(j * lag == lag);
    }
}

/// Along a path whose positions before the last all carry `v`, only the last
/// pair can change sign.
proof fn lemma_path_constant(x: Seq<bool>, lag: int, t: int, len: int, v: bool)
    requires
        lag >= 1,
        len >= 1,
        forall|j: int| 0 <= j < len ==> #[trigger] x[t + j * lag] == v,
    ensures
        path_flips(x, lag, t, len) == if v != x[t + len * lag] { 1int } else { 0 },
    decreases len,
{
    assert(x[t + 0 * lag] == v);
    assert(t + 0 * lag == t);
    if len == 1 {
        assert(path_flips(x, lag, t + lag, 0) == 0);
        assert(1 * lag == lag);
    } else {
        assert forall|j: int| 0 <= j < len - 1 implies #[trigger] x[(t + lag) + j * lag] == v by {
            assert((t + lag) + j * lag == t + (j + 1) * lag) by (nonlinear_arith);
            assert(x[t + (j + 1) * lag] == v);
        }
        assert(x[t + 1 * lag] == v);
        assert(1 * lag == lag);
        lemma_path_constant(x, lag, t + lag, len - 1, v);
        assert((t + lag) + (len - 1) * lag == t + len * lag) by (nonlinear_arith);
    }
}

/// Along a path whose signs before the last alternate from `v`, every pair but
/// the last changes sign.
proof fn lemma_path_alternating(x: Seq<bool>, lag: int, t: int, len: int, v: bool)
    requires
        lag >= 1,
        len >= 1,
        forall|j: int| 0 <= j < len ==> #[trigger] x[t + j * lag] == (v != (j % 2 == 1)),
    ensures
        path_flips(x, lag, t, len) == (len - 1) + if (v != ((len - 1) % 2 == 1)) != x[t + len
            * lag] {
            1int
        } else {
            0
        },
    decreases len,
{
    assert(x[t + 0 * lag] == (v != (0int % 2 == 1)));
    assert(t + 0 * lag == t);
    if len == 1 {
        assert(path_flips(x, lag, t + lag, 0) == 0);
        assert(1 * lag == lag);
    } else {
        assert forall|j: int| 0 <= j < len - 1 implies #[trigger] x[(t + lag) + j * lag] == (!v != (j % 2
            == 1)) by {
            assert((t + lag) + j * lag == t + (j + 1) * lag) by (nonlinear_arith);
            assert(x[t + (j + 1) * lag] == (v != ((j + 1) % 2 == 1)));
        }
        assert(x[t + 1 * lag] == (v != (1int % 2 == 1)));
        assert(1 * lag == lag);
        lemma_path_alternating(x, lag, t + lag, len - 1, !v);
        assert((t + lag) + (len - 1) * lag == t + len * lag) by (nonlinear_arith);
    }
}

/// Under the high filling, every segment sums to its largest value.
proof fn lemma_segment_high(s: Seq<bool>, n: int, m: int, lag: int, t: int)
    requires
        0 <= m,
        2 * m <= n,
        s.len() == 2 * m,
        1 <= lag < n,
        first_start(m, lag) <= t < first_start(m, lag) + lag,
    ensures
        segment_sum(completion(s, m, high_filling(s, n, m, lag)), n, m, lag, t) == segment_max(
            s,
            n,
            m,
            lag,
            t,
        ),
{
    let fill = high_filling(s, n, m, lag);
    let x = completion(s, m, fill);
    if segment_counted(n, m, lag, t) {
        let len = segment_len(n, m, lag, t);
        lemma_segment_end(n, m, lag, t);
        let e = segment_end(n, m, lag, t);
        let v = high_value(s, n, m, lag, t);
        assert(t < n - m);
        assert forall|j: int| 0 <= j < len implies #[trigger] x[t + j * lag] == v by {
            lemma_on_chain(m, lag, t, j);
            if j == 0 {
                assert(t + 0 * lag == t);
                if t < m {
                    lemma_completion_value(s, n, m, fill, t);
                } else {
                    assert(x[t] == fill[t - m]);
                }
            } else {
                lemma_segment_inside(n, m, lag, t, j);
                assert(t + j * lag >= t + lag) by (nonlinear_arith)
                    requires
                        j >= 1,
                        lag >= 1,
                ;
                assert(x[t + j * lag] == fill[t + j * lag - m]);
            }
        }
        lemma_path_constant(x, lag, t, len, v);
        lemma_path(x, lag, t, len);
        lemma_on_chain(m, lag, t, len);
        assert(e >= t + lag) by (nonlinear_arith)
            requires
                e == t + len * lag,
                len >= 1,
                lag >= 1,
        ;
        if e >= n - m {
            lemma_completion_value(s, n, m, fill, e);
        } else {
            assert(x[e] == fill[e - m]);
        }
    }
}

/// Under the low filling, every segment sums to its smallest value.
proof fn lemma_segment_low(s: Seq<bool>, n: int, m: int, lag: int, t: int)
    requires
        0 <= m,
        2 * m <= n,
        s.len() == 2 * m,
        1 <= lag < n,
        first_start(m, lag) <= t < first_start(m, lag) + lag,
    ensures
        segment_sum(completion(s, m, low_filling(s, n, m, lag)), n, m, lag, t) == -segment_min(
            s,
            n,
            m,
            lag,
            t,
        ),
{
    let fill = low_filling(s, n, m, lag);
    let x = completion(s, m, fill);
    if segment_counted(n, m, lag, t) {
        let len = segment_len(n, m, lag, t);
        lemma_segment_end(n, m, lag, t);
        let e = segment_end(n, m, lag, t);
        let v = low_value(s, n, m, lag, t);
        assert(t < n - m);
        assert forall|j: int| 0 <= j < len implies #[trigger] x[t + j * lag] == (v != (j % 2 == 1)) by {
            lemma_on_chain(m, lag, t, j);
            if j == 0 {
                assert(t + 0 * lag == t);
                if t < m {
                    lemma_completion_value(s, n, m, fill, t);
                } else {
                    assert(x[t] == fill[t - m]);
                }
            } else {
                lemma_segment_inside(n, m, lag, t, j);
                assert(t + j * lag >= t + lag) by (nonlinear_arith)
                    requires
                        j >= 1,
                        lag >= 1,
                ;
                assert(x[t + j * lag] == fill[t + j * lag - m]);
            }
        }
        lemma_path_alternating(x, lag, t, len, v);
        lemma_path(x, lag, t, len);
        lemma_on_chain(m, lag, t, len);
        assert(e >= t + lag) by (nonlinear_arith)
            requires
                e == t + len * lag,
                len >= 1,
                lag >= 1,
        ;
        if e >= n - m {
            lemma_completion_value(s, n, m, fill, e);
        } else {
            assert(x[e] == fill[e - m]);
        }
    }
}

/// Law: for every lag, some filling of the free positions makes the
/// correlation the fixed-pair correlation plus `free_max`, and some makes it
/// the fixed-pair correlation less `free_min`; with `lemma_lag_range`, these
/// are the largest and the smallest correlations over all fillings.
pub proof fn lemma_free_range_reached(s: Seq<bool>, n: int, m: int, lag: int)
    requires
        0 <= m,
        2 * m <= n,
        s.len() == 2 * m,
        1 <= lag < n,
    ensures
        high_filling(s, n, m, lag).len() == n - 2 * m,
        low_filling(s, n, m, lag).len() == n - 2 * m,
        correlation(completion(s, m, high_filling(s, n, m, lag)), lag) == fixed_correlation(
            s,
            n,
            m,
            lag,
        ) + free_max(s, n, m, lag),
        correlation(completion(s, m, low_filling(s, n, m, lag)), lag) == fixed_correlation(
            s,
            n,
            m,
            lag,
        ) - free_min(s, n, m, lag),
{
    let lo = first_start(m, lag);
    let hi_fill = high_filling(s, n, m, lag);
    let lo_fill = low_filling(s, n, m, lag);
    let xh = completion(s, m, hi_fill);
    let xl = completion(s, m, lo_fill);
    lemma_completion_correlation(s, n, m, hi_fill, lag);
    lemma_completion_correlation(s, n, m, lo_fill, lag);
    lemma_free_pairs_by_segments(xh, n, m, lag);
    lemma_free_pairs_by_segments(xl, n, m, lag);
    let sh = |t: int| segment_sum(xh, n, m, lag, t);
    let sx = |t: int| segment_max(s, n, m, lag, t);
    let sl = |t: int| segment_sum(xl, n, m, lag, t);
    let sn = |t: int| -segment_min(s, n, m, lag, t);
    assert forall|t: int| lo <= t < lo + lag implies #[trigger] sh(t) == sx(t) by {
        lemma_segment_high(s, n, m, lag, t);
    }
    assert forall|t: int| lo <= t < lo + lag implies #[trigger] sl(t) == sn(t) by {
        lemma_segment_low(s, n, m, lag, t);
    }
    lemma_sum_ext(sh, sx, lo, lo + lag);
    lemma_sum_ext(sl, sn, lo, lo + lag);
    let smin = |t: int| segment_min(s, n, m, lag, t);
    crate::sums::lemma_sum_add(sn, smin, |t: int| 0, lo, lo + lag);
    crate::sums::lemma_sum_zero(|t: int| 0, lo, lo + lag);
}

/// Law: at every lag the two ranges have the same parity, neither exceeds
/// the `n - lag` pairs of the lag, and both vanish at lags that no pair
/// touching a free position has.
pub proof fn lemma_free_range_shape(s: Seq<bool>, n: int, m: int, lag: int)
    requires
        0 <= m,
        2 * m <= n,
        s.len() == 2 * m,
        1 <= lag < n,
    ensures
        free_max(s, n, m, lag) % 2 == free_min(s, n, m, lag) % 2,
        free_max(s, n, m, lag) <= n - lag,
        free_min(s, n, m, lag) <= n - lag,
        n - m <= lag ==> free_max(s, n, m, lag) == 0 && free_min(s, n, m, lag) == 0,
{
    let fmax = free_max(s, n, m, lag);
    let fmin = free_min(s, n, m, lag);
    let hi_fill = high_filling(s, n, m, lag);
    let lo_fill = low_filling(s, n, m, lag);
    lemma_free_range_reached(s, n, m, lag);
    lemma_lag_range(s, n, m, hi_fill, lag);
    let g = if m < lag { 2int } else { 4 };
    assert((fmax + fmin) % g == 0);
    assert((fmax + fmin) % 2 == 0);
    let xh = completion(s, m, hi_fill);
    let xl = completion(s, m, lo_fill);
    lemma_completion_correlation(s, n, m, hi_fill, lag);
    lemma_completion_correlation(s, n, m, lo_fill, lag);
    assert forall|i: int| 0 <= i < n - lag implies -1 <= #[trigger] free_terms(xh, n, m, lag)(i)
        <= 1 by {}
    assert forall|i: int| 0 <= i < n - lag implies -1 <= #[trigger] free_terms(xl, n, m, lag)(i)
        <= 1 by {}
    crate::sums::lemma_sum_bounds(free_terms(xh, n, m, lag), 0, n - lag, -1, 1);
    crate::sums::lemma_sum_bounds(free_terms(xl, n, m, lag), 0, n - lag, -1, 1);
    if n - m <= lag {
        lemma_free_far(s, n, m, lag);
    }
}

/// Law: at every node, the two ranges of each lag have the same parity and
/// are at most the number of pairs of the lag, and they are zero at the lags
/// `n - m ..` that no pair touching a free position has.
pub proof fn lemma_node_ranges(node: &BitSequence)
    requires
        node.wf(),
    ensures
        forall|k: int|
            0 <= k < node.n - 1 ==> {
                &&& #[trigger] node.u_max@[k] % 2 == node.u_min@[k] % 2
                &&& node.u_max@[k] <= node.n - (k + 1)
                &&& node.u_min@[k] <= node.n - (k + 1)
            },
        forall|k: int|
            node.n - node.m - 1 <= k < node.n - 1 ==> #[trigger] node.u_max@[k] == 0
                && node.u_min@[k] == 0,
{
    let n = node.n as int;
    let m = node.m as int;
    let s = node.sequence@;
    assert forall|k: int| 0 <= k < n - 1 implies {
        &&& #[trigger] node.u_max@[k] % 2 == node.u_min@[k] % 2
        &&& node.u_max@[k] <= n - (k + 1)
        &&& node.u_min@[k] <= n - (k + 1)
        &&& (n - m - 1 <= k ==> node.u_max@[k] == 0 && node.u_min@[k] == 0)
    } by {
        lemma_free_range_shape(s, n, m, k + 1);
        assert(node.u_max@[k] as int == free_max(s, n, m, k + 1));
        assert(node.u_min@[k] as int == free_min(s, n, m, k + 1));
    }
}

} // verus!
