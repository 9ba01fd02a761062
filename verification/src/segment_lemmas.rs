//! Closed forms for the segments along which the free pairs of one lag are
//! chained, and the bounds on their contributions.

use vstd::prelude::*;
use vstd::arithmetic::div_mod::{lemma_fundamental_div_mod, lemma_mod_pos_bound};
use crate::model::{
    segment_len, segment_end, segment_max, segment_min, segment_counted, segment_bounded, first_start,
};
use crate::sums::{sum_of, lemma_sum_bounds};

verus! {

/// A segment that reaches the right end after `len` steps has length `len`.
pub proof fn lemma_segment_reach(n: int, m: int, lag: int, t: int, len: int)
    requires
        lag >= 1,
        m >= 0,
        len >= 1,
        t + (len - 1) * lag < n - m,
        n - m <= t + len * lag < n,
    ensures
        segment_len(n, m, lag, t) == len,
        segment_end(n, m, lag, t) == t + len * lag,
    decreases len,
{
    assert((len - 1) * lag + lag == len * lag) by (nonlinear_arith);
    if len > 1 {
        assert(t + lag <= t + (len - 1) * lag) by (nonlinear_arith)
            requires
                len >= 2,
                lag >= 1,
        ;
        assert((len - 2) * lag + lag == (len - 1) * lag) by (nonlinear_arith);
        lemma_segment_reach(n, m, lag, t + lag, len - 1);
    }
}

/// A segment whose chain leaves the sequence before the right end, after
/// `len` steps, has length `len`.
pub proof fn lemma_segment_stop(n: int, m: int, lag: int, t: int, len: int)
    requires
        lag >= 1,
        m >= 0,
        len >= 0,
        t + len * lag < n - m,
        t + (len + 1) * lag >= n,
    ensures
        segment_len(n, m, lag, t) == len,
        segment_end(n, m, lag, t) == t + len * lag,
    decreases len,
{
    assert(len * lag + lag == (len + 1) * lag) by (nonlinear_arith);
    if len > 0 {
        assert(t + lag <= t + len * lag) by (nonlinear_arith)
            requires
                len >= 1,
                lag >= 1,
        ;
        assert((len - 1) * lag + lag == len * lag) by (nonlinear_arith);
        lemma_segment_stop(n, m, lag, t + lag, len - 1);
        assert(segment_len(n, m, lag, t) == 1 + segment_len(n, m, lag, t + lag));
    } else {
        assert(len * lag == 0);
        assert((len + 1) * lag == lag);
    }
}

/// The end of a segment is `len` steps from its start and stays inside the sequence.
pub proof fn lemma_segment_end(n: int, m: int, lag: int, t: int)
    requires
        lag >= 1,
        0 <= t < n,
    ensures
        segment_end(n, m, lag, t) == t + segment_len(n, m, lag, t) * lag,
        segment_end(n, m, lag, t) < n,
        segment_len(n, m, lag, t) >= 0,
        m >= 0 && segment_end(n, m, lag, t) < n - m ==> segment_end(n, m, lag, t) + lag >= n,
    decreases n - t,
{
    if t + lag >= n {
    } else if t + lag >= n - m {
    } else {
        lemma_segment_end(n, m, lag, t + lag);
        let l = segment_len(n, m, lag, t + lag);
        assert(t + lag + l * lag == t + (1 + l) * lag) by (nonlinear_arith);
    }
}

/// The segment lengths that the search computes by division.
pub proof fn lemma_segment_closed(n: int, m: int, lag: int, t: int)
    requires
        lag >= 1,
        0 <= m,
        2 * m <= n,
        0 <= t,
        t + lag < n,
        t < n - m,
    ensures
        m > lag ==> segment_len(n, m, lag, t) == (n - m - 1 - t) / lag + 1,
        m <= lag ==> segment_len(n, m, lag, t) == (n - 1 - t) / lag,
        m <= lag ==> segment_len(n, m, lag, t) == (n - lag - 1 - t) / lag + 1,
        segment_end(n, m, lag, t) == t + segment_len(n, m, lag, t) * lag,
        segment_end(n, m, lag, t) < n,
        segment_len(n, m, lag, t) >= 1,
        m > lag ==> n - m <= segment_end(n, m, lag, t) && segment_end(n, m, lag, t) - lag < n - m,
        segment_end(n, m, lag, t) < n - m ==> segment_end(n, m, lag, t) + lag >= n,
{
    lemma_segment_end(n, m, lag, t);
    if t + lag < n - m {
        lemma_segment_end(n, m, lag, t + lag);
    }
    if m > lag {
        let x = n - m - 1 - t;
        lemma_fundamental_div_mod(x, lag);
        lemma_mod_pos_bound(x, lag);
        let q = x / lag;
        assert(q >= 0) by (nonlinear_arith)
            requires
                x == lag * q + x % lag,
                0 <= x % lag < lag,
                x >= 0,
                lag >= 1,
        ;
        assert(t + q * lag <= n - m - 1 && n - m - 1 < t + (q + 1) * lag) by (nonlinear_arith)
            requires
                x == lag * q + x % lag,
                0 <= x % lag < lag,
                x == n - m - 1 - t,
        ;
        assert(t + (q + 1) * lag < n) by (nonlinear_arith)
            requires
                t + q * lag <= n - m - 1,
                lag < m,
        ;
        lemma_segment_reach(n, m, lag, t, q + 1);
    } else {
        let x = n - 1 - t;
        lemma_fundamental_div_mod(x, lag);
        lemma_mod_pos_bound(x, lag);
        let q = x / lag;
        assert(q >= 1 && t + q * lag <= n - 1 && n - 1 < t + (q + 1) * lag) by (nonlinear_arith)
            requires
                x == lag * q + x % lag,
                0 <= x % lag < lag,
                x == n - 1 - t,
                t + lag < n,
        ;
        assert(t + (q - 1) * lag < n - m) by (nonlinear_arith)
            requires
                t + q * lag <= n - 1,
                m <= lag,
        ;
        if t + q * lag >= n - m {
            lemma_segment_reach(n, m, lag, t, q);
        } else {
            lemma_segment_stop(n, m, lag, t, q);
        }
        let y = n - lag - 1 - t;
        lemma_fundamental_div_mod(y, lag);
        lemma_mod_pos_bound(y, lag);
        assert(y == (q - 1) * lag + x % lag) by (nonlinear_arith)
            requires
                x == lag * q + x % lag,
                y == x - lag,
        ;
        vstd::arithmetic::div_mod::lemma_fundamental_div_mod_converse(y, lag, q - 1, x % lag);
    }
}

/// The contributions of one segment lie between zero and its length, and its
/// length times the lag is less than `n`.
pub proof fn lemma_segment_bounds(s: Seq<bool>, n: int, m: int, lag: int, t: int)
    requires
        lag >= 1,
        0 <= t < n,
    ensures
        0 <= segment_max(s, n, m, lag, t) <= segment_len(n, m, lag, t),
        0 <= segment_min(s, n, m, lag, t) <= segment_len(n, m, lag, t),
        segment_len(n, m, lag, t) * lag < n,
{
    lemma_segment_end(n, m, lag, t);
    if segment_counted(n, m, lag, t) && segment_bounded(n, m, lag, t) {
        // a bounded segment holds at least two pairs
        assert(t + lag < n - m);
        assert(segment_len(n, m, lag, t) == 1 + segment_len(n, m, lag, t + lag));
        lemma_segment_end(n, m, lag, t + lag);
        assert(segment_len(n, m, lag, t + lag) >= 1);
    }
}

/// The contributions of the segments of one lag add up to less than `n`.
pub proof fn lemma_free_sum_bound(s: Seq<bool>, n: int, m: int, lag: int, x: int)
    requires
        1 <= lag < n,
        0 <= m,
        2 * m <= n,
        first_start(m, lag) <= x <= first_start(m, lag) + lag,
    ensures
        0 <= sum_of(|t: int| segment_max(s, n, m, lag, t), first_start(m, lag), x) <= n - 1,
        0 <= sum_of(|t: int| segment_min(s, n, m, lag, t), first_start(m, lag), x) <= n - 1,
{
    let lo = first_start(m, lag);
    let q = (n - 1) / lag;
    lemma_fundamental_div_mod(n - 1, lag);
    lemma_mod_pos_bound(n - 1, lag);
    let fx = |t: int| segment_max(s, n, m, lag, t);
    let fm = |t: int| segment_min(s, n, m, lag, t);
    assert forall|t: int| lo <= t < x implies 0 <= #[trigger] fx(t) <= q && 0 <= fm(t) <= q by {
        lemma_segment_bounds(s, n, m, lag, t);
        let l = segment_len(n, m, lag, t);
        assert(l <= q) by (nonlinear_arith)
            requires
                l * lag < n,
                n - 1 == lag * q + (n - 1) % lag,
                0 <= (n - 1) % lag < lag,
                lag >= 1,
        ;
    }
    assert forall|t: int| lo <= t < x implies 0 <= #[trigger] fm(t) <= q by {
        assert(0 <= fx(t) <= q && 0 <= fm(t) <= q);
    }
    lemma_sum_bounds(fx, lo, x, 0, q);
    lemma_sum_bounds(fm, lo, x, 0, q);
    assert(q * (x - lo) <= n - 1 && 0 * (x - lo) == 0) by (nonlinear_arith)
        requires
            0 <= x - lo <= lag,
            n - 1 == lag * q + (n - 1) % lag,
            0 <= (n - 1) % lag,
            q >= 0,
    ;
}

} // verus!
