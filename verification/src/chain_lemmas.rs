//! How the from-scratch computation of the free-pair ranges enumerates the
//! segments of one lag.

use vstd::prelude::*;
use crate::sums::{sum_of, lemma_sum_split, lemma_sum_zero};
use crate::model::{first_start, segment_len, segment_max, segment_min, free_max, free_min};

verus! {

/// The number of chains of `lag` that hold only fixed pairs.
pub open spec fn closed_chains(n: int, m: int, lag: int) -> int {
    if 2 * m + lag > n {
        2 * m + lag - n
    } else {
        0
    }
}

/// The number of chains of `lag` that hold a pair touching a free position.
pub open spec fn chain_count(n: int, m: int, lag: int) -> int {
    (if 2 * lag > n {
        n - lag
    } else {
        lag
    }) - closed_chains(n, m, lag)
}

/// The start of the `i`-th such chain.
pub open spec fn chain_start(n: int, m: int, lag: int, i: int) -> int {
    if i + first_start(m, lag) + lag >= n - m {
        i + first_start(m, lag) + closed_chains(n, m, lag)
    } else {
        i + first_start(m, lag)
    }
}

/// A segment start whose chain holds no pair touching a free position.
pub open spec fn empty_start(n: int, m: int, lag: int, t: int) -> bool {
    (t < m && t + lag >= n - m) || t + lag >= n
}

/// A start whose segment is empty adds nothing to either range.
pub proof fn lemma_empty_start(s: Seq<bool>, n: int, m: int, lag: int, t: int)
    requires
        lag >= 1,
        empty_start(n, m, lag, t),
    ensures
        segment_max(s, n, m, lag, t) == 0,
        segment_min(s, n, m, lag, t) == 0,
{
    if t + lag >= n {
        assert(segment_len(n, m, lag, t) == 0);
    }
}

/// Skipping starts that hold nothing leaves the sum of the contributions unchanged.
pub proof fn lemma_skip_empty(s: Seq<bool>, n: int, m: int, lag: int, lo: int, a: int, b: int)
    requires
        lag >= 1,
        lo <= a <= b,
        forall|t: int| a <= t < b ==> #[trigger] empty_start(n, m, lag, t),
    ensures
        sum_of(|t: int| segment_max(s, n, m, lag, t), lo, b) == sum_of(
            |t: int| segment_max(s, n, m, lag, t),
            lo,
            a,
        ),
        sum_of(|t: int| segment_min(s, n, m, lag, t), lo, b) == sum_of(
            |t: int| segment_min(s, n, m, lag, t),
            lo,
            a,
        ),
{
    let fx = |t: int| segment_max(s, n, m, lag, t);
    let fn_ = |t: int| segment_min(s, n, m, lag, t);
    assert forall|t: int| a <= t < b implies #[trigger] fx(t) == 0 && fn_(t) == 0 by {
        lemma_empty_start(s, n, m, lag, t);
    }
    lemma_sum_split(fx, lo, a, b);
    lemma_sum_zero(fx, a, b);
    lemma_sum_split(fn_, lo, a, b);
    assert forall|t: int| a <= t < b implies #[trigger] fn_(t) == 0 by {
        lemma_empty_start(s, n, m, lag, t);
    }
    lemma_sum_zero(fn_, a, b);
}

/// The first chain start: the starts before it hold nothing.
pub proof fn lemma_chain_begin(n: int, m: int, lag: int)
    requires
        1 <= lag < n - m,
        0 <= m,
        2 * m <= n,
    ensures
        chain_count(n, m, lag) >= 0,
        first_start(m, lag) <= chain_start(n, m, lag, 0) <= first_start(m, lag) + lag,
        forall|t: int|
            first_start(m, lag) <= t < chain_start(n, m, lag, 0) ==> #[trigger] empty_start(
                n,
                m,
                lag,
                t,
            ),
{
}

/// The `i`-th chain start, and the starts between it and the next one.
pub proof fn lemma_chain_at(n: int, m: int, lag: int, i: int)
    requires
        1 <= lag < n - m,
        0 <= m,
        2 * m <= n,
        0 <= i < chain_count(n, m, lag),
    ensures
        ({
            let t = chain_start(n, m, lag, i);
            &&& first_start(m, lag) <= t < first_start(m, lag) + lag
            &&& 0 <= t
            &&& t + lag < n
            &&& t < n - m
            &&& (t < m ==> t + lag < n - m && t == i + first_start(m, lag))
            &&& t + 1 <= chain_start(n, m, lag, i + 1) <= first_start(m, lag) + lag
        }),
        forall|t: int|
            chain_start(n, m, lag, i) + 1 <= t < chain_start(n, m, lag, i + 1)
                ==> #[trigger] empty_start(n, m, lag, t),
{
}

/// The starts after the last chain hold nothing.
pub proof fn lemma_chain_finish(n: int, m: int, lag: int)
    requires
        1 <= lag < n - m,
        0 <= m,
        2 * m <= n,
    ensures
        chain_start(n, m, lag, chain_count(n, m, lag)) <= first_start(m, lag) + lag,
        forall|t: int|
            chain_start(n, m, lag, chain_count(n, m, lag)) <= t < first_start(m, lag) + lag
                ==> #[trigger] empty_start(n, m, lag, t),
{
}

/// Lags that no pair touching a free position has: nothing to add or take away.
pub proof fn lemma_free_far(s: Seq<bool>, n: int, m: int, lag: int)
    requires
        0 <= m,
        2 * m <= n,
        1 <= lag,
        n - m <= lag,
    ensures
        free_max(s, n, m, lag) == 0,
        free_min(s, n, m, lag) == 0,
{
    let lo = first_start(m, lag);
    assert forall|t: int| lo <= t < lo + lag implies #[trigger] empty_start(n, m, lag, t) by {}
    lemma_skip_empty(s, n, m, lag, lo, lo, lo + lag);
}

} // verus!
