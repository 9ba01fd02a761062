//! Finite sums of integer-valued functions and the facts about them that the
//! energy bookkeeping needs.

use vstd::prelude::*;

verus! {

/// `f(lo) + f(lo + 1) + ... + f(hi - 1)`, zero for an empty range.
pub open spec fn sum_of(f: spec_fn(int) -> int, lo: int, hi: int) -> int
    decreases hi - lo,
{
    if hi <= lo {
        0
    } else {
        sum_of(f, lo, hi - 1) + f(hi - 1)
    }
}

/// A sum splits at any point between its bounds.
pub proof fn lemma_sum_split(f: spec_fn(int) -> int, lo: int, mid: int, hi: int)
    requires
        lo <= mid <= hi,
    ensures
        sum_of(f, lo, hi) == sum_of(f, lo, mid) + sum_of(f, mid, hi),
    decreases hi - mid,
{
    if hi > mid {
        lemma_sum_split(f, lo, mid, hi - 1);
    }
}

/// Sums of functions that agree on the range are equal.
pub proof fn lemma_sum_ext(f: spec_fn(int) -> int, g: spec_fn(int) -> int, lo: int, hi: int)
    requires
        forall|i: int| lo <= i < hi ==> #[trigger] f(i) == g(i),
    ensures
        sum_of(f, lo, hi) == sum_of(g, lo, hi),
    decreases hi - lo,
{
    if hi > lo {
        lemma_sum_ext(f, g, lo, hi - 1);
    }
}

/// The sum of a pointwise sum is the sum of the sums.
pub proof fn lemma_sum_add(
    f: spec_fn(int) -> int,
    g: spec_fn(int) -> int,
    h: spec_fn(int) -> int,
    lo: int,
    hi: int,
)
    requires
        forall|i: int| lo <= i < hi ==> #[trigger] h(i) == f(i) + g(i),
    ensures
        sum_of(h, lo, hi) == sum_of(f, lo, hi) + sum_of(g, lo, hi),
    decreases hi - lo,
{
    if hi > lo {
        lemma_sum_add(f, g, h, lo, hi - 1);
    }
}

/// A function that vanishes on the range has sum zero.
pub proof fn lemma_sum_zero(f: spec_fn(int) -> int, lo: int, hi: int)
    requires
        forall|i: int| lo <= i < hi ==> #[trigger] f(i) == 0,
    ensures
        sum_of(f, lo, hi) == 0,
    decreases hi - lo,
{
    if hi > lo {
        lemma_sum_zero(f, lo, hi - 1);
    }
}

/// A function that vanishes on the range except at `p` sums to its value at `p`.
pub proof fn lemma_sum_single(f: spec_fn(int) -> int, lo: int, hi: int, p: int)
    requires
        lo <= p < hi,
        forall|i: int| lo <= i < hi && i != p ==> #[trigger] f(i) == 0,
    ensures
        sum_of(f, lo, hi) == f(p),
{
    lemma_sum_split(f, lo, p, hi);
    lemma_sum_zero(f, lo, p);
    lemma_sum_split(f, p, p + 1, hi);
    lemma_sum_zero(f, p + 1, hi);
    assert(sum_of(f, p, p + 1) == f(p)) by {
        assert(sum_of(f, p, p) == 0);
    }
}

/// Summing in the opposite order gives the same result.
pub proof fn lemma_sum_reverse(f: spec_fn(int) -> int, g: spec_fn(int) -> int, lo: int, hi: int)
    requires
        forall|i: int| lo <= i < hi ==> #[trigger] g(i) == f(lo + hi - 1 - i),
    ensures
        sum_of(f, lo, hi) == sum_of(g, lo, hi),
    decreases hi - lo,
{
    if hi > lo {
        // peel the last element of f and the first element of g
        let f1 = |i: int| f(i);
        lemma_sum_split(g, lo, lo + 1, hi);
        assert(sum_of(g, lo, lo + 1) == g(lo)) by {
            assert(sum_of(g, lo, lo) == 0);
        }
        let g2 = |i: int| g(i + 1);
        assert forall|i: int| lo <= i < hi - 1 implies #[trigger] g2(i) == f(lo + (hi - 1) - 1 - i) by {}
        lemma_sum_reverse(f, g2, lo, hi - 1);
        lemma_sum_shift(g, g2, lo, hi - 1, 1);
        assert(f1 == f);
    }
}

/// Shifting the argument shifts the range.
pub proof fn lemma_sum_shift(f: spec_fn(int) -> int, g: spec_fn(int) -> int, lo: int, hi: int, d: int)
    requires
        forall|i: int| lo <= i < hi ==> #[trigger] g(i) == f(i + d),
    ensures
        sum_of(g, lo, hi) == sum_of(f, lo + d, hi + d),
    decreases hi - lo,
{
    if hi > lo {
        lemma_sum_shift(f, g, lo, hi - 1, d);
    }
}

/// Bounds on the terms bound the sum.
pub proof fn lemma_sum_bounds(f: spec_fn(int) -> int, lo: int, hi: int, a: int, b: int)
    requires
        lo <= hi,
        forall|i: int| lo <= i < hi ==> a <= #[trigger] f(i) <= b,
    ensures
        a * (hi - lo) <= sum_of(f, lo, hi) <= b * (hi - lo),
    decreases hi - lo,
{
    if hi > lo {
        lemma_sum_bounds(f, lo, hi - 1, a, b);
        assert(a * (hi - lo) == a * (hi - 1 - lo) + a) by (nonlinear_arith);
        assert(b * (hi - lo) == b * (hi - 1 - lo) + b) by (nonlinear_arith);
    } else {
        assert(a * (hi - lo) == 0 && b * (hi - lo) == 0) by (nonlinear_arith)
            requires
                hi == lo,
        ;
    }
}

/// Pointwise order carries over to the sums.
pub proof fn lemma_sum_le(f: spec_fn(int) -> int, g: spec_fn(int) -> int, lo: int, hi: int)
    requires
        forall|i: int| lo <= i < hi ==> #[trigger] f(i) <= g(i),
    ensures
        sum_of(f, lo, hi) <= sum_of(g, lo, hi),
    decreases hi - lo,
{
    if hi > lo {
        lemma_sum_le(f, g, lo, hi - 1);
    }
}

/// Two functions that agree on the range except at up to two marked points
/// differ in sum by their differences at those points.
pub proof fn lemma_sum_diff2(
    fa: spec_fn(int) -> int,
    fb: spec_fn(int) -> int,
    lo: int,
    hi: int,
    p: int,
    cp: bool,
    q: int,
    cq: bool,
)
    requires
        cp ==> lo <= p < hi,
        cq ==> lo <= q < hi,
        cp && cq ==> p != q,
        forall|t: int|
            lo <= t < hi && !(cp && t == p) && !(cq && t == q) ==> #[trigger] fa(t) == fb(t),
    ensures
        sum_of(fa, lo, hi) == sum_of(fb, lo, hi) + (if cp {
            fa(p) - fb(p)
        } else {
            0
        }) + (if cq {
            fa(q) - fb(q)
        } else {
            0
        }),
{
    let dp = |t: int| if cp && t == p { fa(p) - fb(p) } else { 0 };
    let dq = |t: int| if cq && t == q { fa(q) - fb(q) } else { 0 };
    let d = |t: int| dp(t) + dq(t);
    let g = |t: int| fb(t) + d(t);
    assert forall|t: int| lo <= t < hi implies #[trigger] fa(t) == g(t) by {}
    lemma_sum_ext(fa, g, lo, hi);
    lemma_sum_add(fb, d, g, lo, hi);
    lemma_sum_add(dp, dq, d, lo, hi);
    if cp {
        assert forall|t: int| lo <= t < hi && t != p implies #[trigger] dp(t) == 0 by {}
        lemma_sum_single(dp, lo, hi, p);
    } else {
        assert forall|t: int| lo <= t < hi implies #[trigger] dp(t) == 0 by {}
        lemma_sum_zero(dp, lo, hi);
    }
    if cq {
        assert forall|t: int| lo <= t < hi && t != q implies #[trigger] dq(t) == 0 by {}
        lemma_sum_single(dq, lo, hi, q);
    } else {
        assert forall|t: int| lo <= t < hi implies #[trigger] dq(t) == 0 by {}
        lemma_sum_zero(dq, lo, hi);
    }
}

} // verus!
