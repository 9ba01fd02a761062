//! The lower bound of a node never exceeds the energy of any completion of it:
//! pruning a node whose bound is no better than the best energy known loses
//! no better sequence.

use vstd::prelude::*;
use vstd::arithmetic::div_mod::{
    lemma_fundamental_div_mod, lemma_mod_pos_bound, lemma_mod_multiples_basic,
    lemma_mod_add_multiples_vanish, lemma_add_mod_noop, lemma_mod_bound,
    lemma_fundamental_div_mod_converse,
};
use crate::sums::{sum_of, lemma_sum_split, lemma_sum_zero, lemma_sum_ext, lemma_sum_add, lemma_sum_diff2};
use crate::grow_lemmas::lemma_window;
use crate::model::{
    pair_sign, is_fixed, value_at, fixed_term, fixed_correlation, correlation, completion,
    segment_len, segment_end, segment_counted, segment_bounded, segment_ends_differ, segment_max,
    segment_min, first_start, free_max, free_min, energy,
};
use crate::sums::{lemma_sum_le, lemma_sum_shift};
use crate::energy::{bound_term, energy_lower_bound, multiple_distance, abs, centered_rem, lemma_modular_min_abs_distance};
use crate::bit_sequence::BitSequence;

verus! {

/// `f(t) + f(t + lag) + f(t + 2 lag) + ...` over the positions below `hi`.
pub open spec fn chain_sum(f: spec_fn(int) -> int, t: int, hi: int, lag: int) -> int
    decreases (if t < hi { hi - t } else { 0 }),
{
    if lag <= 0 || t >= hi {
        0
    } else {
        f(t) + chain_sum(f, t + lag, hi, lag)
    }
}

/// Extending the range by one position adds it to the one chain that holds it.
proof fn lemma_chain_sum_extend(f: spec_fn(int) -> int, t: int, hi: int, lag: int)
    requires
        lag >= 1,
    ensures
        chain_sum(f, t, hi + 1, lag) == chain_sum(f, t, hi, lag) + (if t <= hi && (hi - t) % lag
            == 0 {
            f(hi)
        } else {
            0
        }),
    decreases (if t <= hi { hi + 1 - t } else { 0 }),
{
    if t > hi {
    } else if t == hi {
        assert(chain_sum(f, t + lag, hi + 1, lag) == 0);
        assert((hi - t) % lag == 0);
    } else {
        lemma_chain_sum_extend(f, t + lag, hi, lag);
        if t + lag <= hi {
            lemma_mod_add_multiples_vanish(hi - t - lag, lag);
        } else {
            lemma_mod_pos_bound(hi - t, lag);
            assert((hi - t) % lag == hi - t) by {
                vstd::arithmetic::div_mod::lemma_small_mod((hi - t) as nat, lag as nat);
            }
        }
    }
}

/// A sum over a range splits into the sums along the chains of `lag` that
/// start in the first `lag` positions of the range.
pub proof fn lemma_sum_by_chains(f: spec_fn(int) -> int, lo: int, hi: int, lag: int)
    requires
        lag >= 1,
        lo <= hi,
    ensures
        sum_of(f, lo, hi) == sum_of(|t: int| chain_sum(f, t, hi, lag), lo, lo + lag),
    decreases hi - lo,
{
    let g = |t: int| chain_sum(f, t, hi, lag);
    if hi == lo {
        assert forall|t: int| lo <= t < lo + lag implies #[trigger] g(t) == 0 by {}
        lemma_sum_zero(g, lo, lo + lag);
    } else {
        lemma_sum_by_chains(f, lo, hi - 1, lag);
        let g0 = |t: int| chain_sum(f, t, hi - 1, lag);
        let p = lo + (hi - 1 - lo) % lag;
        lemma_mod_pos_bound(hi - 1 - lo, lag);
        lemma_fundamental_div_mod(hi - 1 - lo, lag);
        assert((hi - 1 - p) % lag == 0) by {
            let q = (hi - 1 - lo) / lag;
            assert(hi - 1 - p == q * lag) by (nonlinear_arith)
                requires
                    hi - 1 - lo == lag * q + (hi - 1 - lo) % lag,
                    p == lo + (hi - 1 - lo) % lag,
            ;
            lemma_mod_multiples_basic(q, lag);
        }
        assert forall|t: int| lo <= t < lo + lag && !(t == p) implies #[trigger] g(t) == g0(t) by {
            lemma_chain_sum_extend(f, t, hi - 1, lag);
            if t <= hi - 1 {
                lemma_window(hi - 1, lag, lo, t, p);
            }
        }
        lemma_chain_sum_extend(f, p, hi - 1, lag);
        lemma_sum_diff2(g, g0, lo, lo + lag, p, true, p, false);
        assert(sum_of(f, lo, hi) == sum_of(f, lo, hi - 1) + f(hi - 1));
    }
}

/// The term of pair `(i, i + lag)` of a completion when one of its positions is free, else zero.
pub open spec fn free_term(x: Seq<bool>, n: int, m: int, lag: int, i: int) -> int {
    if is_fixed(n, m, i) && is_fixed(n, m, i + lag) {
        0
    } else {
        pair_sign(x[i], x[i + lag])
    }
}

/// The terms of all pairs touching a free position, as one function.
pub open spec fn free_terms(x: Seq<bool>, n: int, m: int, lag: int) -> spec_fn(int) -> int {
    |i: int| free_term(x, n, m, lag, i)
}

/// The sum of the `len` pair terms along the chain of `lag` from `t`.
pub open spec fn path_sum(x: Seq<bool>, lag: int, t: int, len: int) -> int
    decreases len,
{
    if len <= 0 {
        0
    } else {
        pair_sign(x[t], x[t + lag]) + path_sum(x, lag, t + lag, len - 1)
    }
}

/// The number of sign changes among the `len` pairs along the chain of `lag` from `t`.
pub open spec fn path_flips(x: Seq<bool>, lag: int, t: int, len: int) -> int
    decreases len,
{
    if len <= 0 {
        0
    } else {
        (if x[t] != x[t + lag] { 1int } else { 0 }) + path_flips(x, lag, t + lag, len - 1)
    }
}

/// What the segment starting at `t` adds to the correlation of a completion.
pub open spec fn segment_sum(x: Seq<bool>, n: int, m: int, lag: int, t: int) -> int {
    if segment_counted(n, m, lag, t) {
        path_sum(x, lag, t, segment_len(n, m, lag, t))
    } else {
        0
    }
}

/// The fixed signs of a completion are the stored ones.
pub proof fn lemma_completion_value(s: Seq<bool>, n: int, m: int, free: Seq<bool>, j: int)
    requires
        0 <= m,
        2 * m <= n,
        s.len() == 2 * m,
        free.len() == n - 2 * m,
        is_fixed(n, m, j),
    ensures
        completion(s, m, free).len() == n,
        value_at(s, n, m, j) == completion(s, m, free)[j],
{
    let x = completion(s, m, free);
    if j >= m {
        assert(x[j] == s.skip(m)[j - m - free.len()]);
    }
}

/// The correlation of a completion: the fixed pairs plus the pairs touching a free position.
pub proof fn lemma_completion_correlation(s: Seq<bool>, n: int, m: int, free: Seq<bool>, lag: int)
    requires
        0 <= m,
        2 * m <= n,
        s.len() == 2 * m,
        free.len() == n - 2 * m,
        1 <= lag < n,
    ensures
        correlation(completion(s, m, free), lag) == fixed_correlation(s, n, m, lag) + sum_of(
            free_terms(completion(s, m, free), n, m, lag),
            0,
            n - lag,
        ),
{
    let x = completion(s, m, free);
    assert(x.len() == n);
    let c = |i: int| pair_sign(x[i], x[i + lag]);
    let ft = |i: int| fixed_term(s, n, m, lag, i);
    let nt = free_terms(x, n, m, lag);
    assert forall|i: int| 0 <= i < n - lag implies #[trigger] c(i) == ft(i) + nt(i) by {
        if is_fixed(n, m, i) && is_fixed(n, m, i + lag) {
            lemma_completion_value(s, n, m, free, i);
            lemma_completion_value(s, n, m, free, i + lag);
        }
    }
    lemma_sum_add(ft, nt, c, 0, n - lag);
}

/// From a fixed position of the right end, every pair along the chain is fixed.
proof fn lemma_chain_right(x: Seq<bool>, n: int, m: int, lag: int, t: int)
    requires
        lag >= 1,
        0 <= m,
        n - m <= t,
    ensures
        chain_sum(free_terms(x, n, m, lag), t, n - lag, lag) == 0,
    decreases (if t < n - lag { n - lag - t } else { 0 }),
{
    if t < n - lag {
        lemma_chain_right(x, n, m, lag, t + lag);
    }
}

/// From a free position, the chain adds the pairs of its segment.
proof fn lemma_chain_free(x: Seq<bool>, n: int, m: int, lag: int, t: int)
    requires
        lag >= 1,
        0 <= m,
        m <= t < n - m,
    ensures
        chain_sum(free_terms(x, n, m, lag), t, n - lag, lag) == path_sum(
            x,
            lag,
            t,
            segment_len(n, m, lag, t),
        ),
    decreases n - t,
{
    let ft = free_terms(x, n, m, lag);
    if t + lag >= n {
        assert(segment_len(n, m, lag, t) == 0);
        assert(chain_sum(ft, t, n - lag, lag) == 0);
    } else {
        assert(chain_sum(ft, t, n - lag, lag) == ft(t) + chain_sum(ft, t + lag, n - lag, lag));
        assert(ft(t) == pair_sign(x[t], x[t + lag]));
        if t + lag >= n - m {
            lemma_chain_right(x, n, m, lag, t + lag);
            assert(segment_len(n, m, lag, t) == 1);
            assert(path_sum(x, lag, t + lag, 0) == 0);
            assert(path_sum(x, lag, t, 1) == pair_sign(x[t], x[t + lag]) + path_sum(x, lag, t + lag, 0));
        } else {
            lemma_chain_free(x, n, m, lag, t + lag);
            let l = segment_len(n, m, lag, t + lag);
            crate::segment_lemmas::lemma_segment_end(n, m, lag, t + lag);
            assert(segment_len(n, m, lag, t) == 1 + l);
            assert(path_sum(x, lag, t, 1 + l) == pair_sign(x[t], x[t + lag]) + path_sum(x, lag, t + lag, l));
        }
    }
}

/// Along the chain from a segment start, the terms add up to the segment's sum.
proof fn lemma_chain_start(x: Seq<bool>, n: int, m: int, lag: int, t: int)
    requires
        lag >= 1,
        0 <= m,
        2 * m <= n,
        first_start(m, lag) <= t < first_start(m, lag) + lag,
    ensures
        chain_sum(free_terms(x, n, m, lag), t, n - lag, lag) == segment_sum(
            x,
            n,
            m,
            lag,
            t,
        ),
{
    let ft = free_terms(x, n, m, lag);
    if t >= m {
        if t >= n - m {
            lemma_chain_right(x, n, m, lag, t);
            assert(segment_len(n, m, lag, t) == 0);
        } else {
            lemma_chain_free(x, n, m, lag, t);
        }
    } else {
        if t + lag >= n {
            assert(segment_len(n, m, lag, t) == 0);
            assert(chain_sum(ft, t, n - lag, lag) == 0);
        } else {
            assert(chain_sum(ft, t, n - lag, lag) == ft(t) + chain_sum(ft, t + lag, n - lag, lag));
            if t + lag >= n - m {
                lemma_chain_right(x, n, m, lag, t + lag);
                assert(ft(t) == 0);
            } else {
                assert(ft(t) == pair_sign(x[t], x[t + lag]));
                lemma_chain_free(x, n, m, lag, t + lag);
                let l = segment_len(n, m, lag, t + lag);
                crate::segment_lemmas::lemma_segment_end(n, m, lag, t + lag);
                assert(segment_len(n, m, lag, t) == 1 + l);
                assert(path_sum(x, lag, t, 1 + l) == pair_sign(x[t], x[t + lag]) + path_sum(x, lag, t + lag, l));
            }
        }
    }
}

/// The pairs touching a free position, grouped by the segments of `lag`.
pub proof fn lemma_free_pairs_by_segments(x: Seq<bool>, n: int, m: int, lag: int)
    requires
        1 <= lag < n,
        0 <= m,
        2 * m <= n,
    ensures
        sum_of(free_terms(x, n, m, lag), 0, n - lag) == sum_of(
            |t: int| segment_sum(x, n, m, lag, t),
            first_start(m, lag),
            first_start(m, lag) + lag,
        ),
{
    let nt = free_terms(x, n, m, lag);
    let lo = first_start(m, lag);
    lemma_sum_split(nt, 0, lo, n - lag);
    assert forall|i: int| 0 <= i < lo implies #[trigger] nt(i) == 0 by {}
    lemma_sum_zero(nt, 0, lo);
    lemma_sum_by_chains(nt, lo, n - lag, lag);
    let cs = |t: int| chain_sum(nt, t, n - lag, lag);
    let ss = |t: int| segment_sum(x, n, m, lag, t);
    assert forall|t: int| lo <= t < lo + lag implies #[trigger] cs(t) == ss(t) by {
        lemma_chain_start(x, n, m, lag, t);
    }
    lemma_sum_ext(cs, ss, lo, lo + lag);
}

/// The sum along a path is its length less twice its sign changes, and the
/// parity of the sign changes tells whether its two ends differ.
pub proof fn lemma_path(x: Seq<bool>, lag: int, t: int, len: int)
    requires
        lag >= 1,
        len >= 0,
    ensures
        path_sum(x, lag, t, len) == len - 2 * path_flips(x, lag, t, len),
        0 <= path_flips(x, lag, t, len) <= len,
        (path_flips(x, lag, t, len) % 2 == 1) == (x[t] != x[t + len * lag]),
    decreases len,
{
    if len == 0 {
        assert(len * lag == 0);
    } else {
        lemma_path(x, lag, t + lag, len - 1);
        assert(t + lag + (len - 1) * lag == t + len * lag) by (nonlinear_arith);
    }
}

/// What one segment adds lies in its range, and differs from the lower end of
/// the range by a multiple of 2, or of 4 when both ends of the segment are fixed.
proof fn lemma_segment_sum_range(s: Seq<bool>, n: int, m: int, free: Seq<bool>, lag: int, t: int)
    requires
        0 <= m,
        2 * m <= n,
        s.len() == 2 * m,
        free.len() == n - 2 * m,
        1 <= lag,
        0 <= t < n,
    ensures
        ({
            let ss = segment_sum(completion(s, m, free), n, m, lag, t);
            let lo = segment_min(s, n, m, lag, t);
            &&& -lo <= ss <= segment_max(s, n, m, lag, t)
            &&& (ss + lo) % 2 == 0
            &&& segment_counted(n, m, lag, t) && segment_bounded(n, m, lag, t) ==> (ss + lo) % 4 == 0
        }),
{
    let x = completion(s, m, free);
    if segment_counted(n, m, lag, t) {
        let len = segment_len(n, m, lag, t);
        crate::segment_lemmas::lemma_segment_end(n, m, lag, t);
        let e = segment_end(n, m, lag, t);
        lemma_path(x, lag, t, len);
        if segment_bounded(n, m, lag, t) {
            lemma_completion_value(s, n, m, free, t);
            lemma_completion_value(s, n, m, free, e);
            crate::segment_lemmas::lemma_segment_bounds(s, n, m, lag, t);
        }
    }
}

/// A sum of multiples of `g` is a multiple of `g`.
proof fn lemma_sum_multiples(h: spec_fn(int) -> int, lo: int, hi: int, g: int)
    requires
        g > 0,
        forall|t: int| lo <= t < hi ==> #[trigger] h(t) % g == 0,
    ensures
        sum_of(h, lo, hi) % g == 0,
    decreases hi - lo,
{
    vstd::arithmetic::div_mod::lemma_small_mod(0, g as nat);
    if hi > lo {
        lemma_sum_multiples(h, lo, hi - 1, g);
        lemma_add_mod_noop(sum_of(h, lo, hi - 1), h(hi - 1), g);
    }
}

/// For every completion, the correlation at `lag` lies in the range that the
/// node keeps, and is congruent to its lower end modulo 2, or modulo 4 when
/// every free position has a neighbour at distance `lag` on both sides.
pub proof fn lemma_lag_range(s: Seq<bool>, n: int, m: int, free: Seq<bool>, lag: int)
    requires
        0 <= m,
        2 * m <= n,
        s.len() == 2 * m,
        free.len() == n - 2 * m,
        1 <= lag < n,
    ensures
        ({
            let c = correlation(completion(s, m, free), lag);
            let f = fixed_correlation(s, n, m, lag);
            let g = if m < lag { 2int } else { 4 };
            &&& f - free_min(s, n, m, lag) <= c <= f + free_max(s, n, m, lag)
            &&& (c - (f - free_min(s, n, m, lag))) % g == 0
        }),
{
    let x = completion(s, m, free);
    let lo = first_start(m, lag);
    let g = if m < lag { 2int } else { 4 };
    lemma_completion_correlation(s, n, m, free, lag);
    lemma_free_pairs_by_segments(x, n, m, lag);
    let ss = |t: int| segment_sum(x, n, m, lag, t);
    let sx = |t: int| segment_max(s, n, m, lag, t);
    let sn = |t: int| segment_min(s, n, m, lag, t);
    let d = |t: int| ss(t) + sn(t);
    assert forall|t: int| lo <= t < lo + lag implies #[trigger] ss(t) <= sx(t) && 0 <= d(t) && d(t)
        % g == 0 by {
        lemma_segment_sum_range(s, n, m, free, lag, t);
        if m >= lag && segment_counted(n, m, lag, t) {
            crate::segment_lemmas::lemma_segment_end(n, m, lag, t);
            assert(segment_bounded(n, m, lag, t));
        }
    }
    assert forall|t: int| lo <= t < lo + lag implies #[trigger] d(t) % g == 0 && 0 <= d(t) by {
        assert(ss(t) <= sx(t) && 0 <= d(t) && d(t) % g == 0);
    }
    assert forall|t: int| lo <= t < lo + lag implies #[trigger] ss(t) <= sx(t) by {
        assert(ss(t) <= sx(t) && 0 <= d(t) && d(t) % g == 0);
    }
    lemma_sum_le(ss, sx, lo, lo + lag);
    lemma_sum_add(ss, sn, d, lo, lo + lag);
    lemma_sum_le(|t: int| 0, d, lo, lo + lag);
    lemma_sum_zero(|t: int| 0, lo, lo + lag);
    lemma_sum_multiples(d, lo, lo + lag, g);
}

/// A value in `[f - lo_range, f + hi_range]`, congruent to `f - lo_range`
/// modulo `g`, is at least the bound term in magnitude.
pub(crate) proof fn lemma_term_below(c: int, f: int, umax: int, umin: int, m: int, lag: int)
    requires
        umax >= 0,
        umin >= 0,
        f - umin <= c <= f + umax,
        (c - (f - umin)) % (if m < lag { 2int } else { 4 }) == 0,
    ensures
        bound_term(f, umax, umin, m, lag) * bound_term(f, umax, umin, m, lag) <= c * c,
{
    let t = bound_term(f, umax, umin, m, lag);
    let g = if m < lag { 2int } else { 4 };
    if f <= -umax {
        assert(t * t <= c * c) by (nonlinear_arith)
            requires
                c <= t,
                t <= 0,
        ;
    } else if f >= umin {
        assert(t * t <= c * c) by (nonlinear_arith)
            requires
                0 <= t,
                t <= c,
        ;
    } else {
        let a = f - umin;
        lemma_modular_min_abs_distance(a, g);
        // c and a leave the same remainder
        lemma_fundamental_div_mod(c - a, g);
        lemma_fundamental_div_mod(a, g);
        lemma_fundamental_div_mod(c, g);
        lemma_mod_bound(a, g);
        lemma_mod_bound(c, g);
        let q1 = (c - a) / g;
        let qa = a / g;
        let qc = c / g;
        assert(c == g * (q1 + qa) + a % g) by (nonlinear_arith)
            requires
                c - a == g * q1 + (c - a) % g,
                (c - a) % g == 0,
                a == g * qa + a % g,
        ;
        lemma_fundamental_div_mod_converse(c, g, q1 + qa, a % g);
        assert(multiple_distance(c, g) == t);
        let e = c % g;
        // the magnitude of c is at least its distance to the nearest multiple
        if c >= 0 {
            assert(qc >= 0) by (nonlinear_arith)
                requires
                    c == g * qc + e,
                    0 <= e < g,
                    c >= 0,
                    g > 0,
            ;
            assert(c >= e) by (nonlinear_arith)
                requires
                    c == g * qc + e,
                    qc >= 0,
                    g > 0,
            ;
        } else {
            assert(qc <= -1) by (nonlinear_arith)
                requires
                    c == g * qc + e,
                    0 <= e < g,
                    c < 0,
                    g > 0,
            ;
            assert(-c >= g - e) by (nonlinear_arith)
                requires
                    c == g * qc + e,
                    qc <= -1,
                    g > 0,
            ;
        }
        assert(0 <= t <= abs(c));
        assert(t * t <= c * c) by (nonlinear_arith)
            requires
                0 <= t,
                t <= abs(c),
                abs(c) == c || abs(c) == -c,
        ;
    }
}

/// Law: the lower bound that a node keeps never exceeds the energy of any
/// sequence that fills its free positions.
pub proof fn lemma_bound_below_completions(node: &BitSequence, free: Seq<bool>)
    requires
        node.wf(),
        free.len() == node.n - 2 * node.m,
    ensures
        energy_lower_bound(
            node.fixed_energys@,
            node.u_max@,
            node.u_min@,
            node.m as int,
            node.n as int,
        ) <= energy(completion(node.sequence@, node.m as int, free)),
{
    let n = node.n as int;
    let m = node.m as int;
    let s = node.sequence@;
    let x = completion(s, m, free);
    assert(x.len() == n);
    let f = node.fixed_energys@;
    let bt = |k: int|
        bound_term(f[k] as int, node.u_max@[k] as int, node.u_min@[k] as int, m, k + 1)
            * bound_term(f[k] as int, node.u_max@[k] as int, node.u_min@[k] as int, m, k + 1);
    let cs = |lag: int| correlation(x, lag) * correlation(x, lag);
    let ck = |k: int| cs(k + 1);
    assert forall|k: int| 0 <= k < n - 1 implies #[trigger] bt(k) <= ck(k) by {
        lemma_lag_range(s, n, m, free, k + 1);
        assert(node.u_max@[k] as int == free_max(s, n, m, k + 1));
        lemma_term_below(correlation(x, k + 1), f[k] as int, node.u_max@[k] as int, node.u_min@[k] as int, m, k + 1);
    }
    lemma_sum_le(bt, ck, 0, n - 1);
    lemma_sum_shift(cs, ck, 0, n - 1, 1);
}

} // verus!
