//! How the fixed-pair correlation splits into the pairs that the energy
//! bookkeeping visits, and how it changes when positions become fixed.

use vstd::prelude::*;
use crate::sums::{sum_of, lemma_sum_add, lemma_sum_single, lemma_sum_ext, lemma_sum_split, lemma_sum_zero, lemma_sum_shift, lemma_sum_reverse};
use crate::model::{pair_sign, fixed_term, fixed_correlation, is_fixed, value_at, correlation};

verus! {

/// Pairs whose first position lies in the left end: left-left and left-right pairs.
pub open spec fn left_term(s: Seq<bool>, n: int, m: int, lag: int, i: int) -> int {
    (if i + lag < m {
        pair_sign(s[i], s[i + lag])
    } else {
        0
    }) + (if n - m <= i + lag < n {
        pair_sign(s[i], s[i + lag - (n - 2 * m)])
    } else {
        0
    })
}

/// Right-right pairs, counted from the last position backwards.
pub open spec fn right_term(s: Seq<bool>, m: int, lag: int, i: int) -> int {
    if i + lag <= m - 1 {
        pair_sign(s[2 * m - 1 - i], s[2 * m - 1 - i - lag])
    } else {
        0
    }
}

/// The fixed-pair correlation splits into the pairs starting in the left end and those in the right end.
pub proof fn lemma_fixed_correlation_split(s: Seq<bool>, n: int, m: int, lag: int)
    requires
        1 <= lag < n,
        0 <= m,
        2 * m <= n,
        s.len() == 2 * m,
    ensures
        fixed_correlation(s, n, m, lag) == sum_of(|i: int| left_term(s, n, m, lag, i), 0, m)
            + sum_of(|i: int| right_term(s, m, lag, i), 0, m),
{
    let ft = |i: int| fixed_term(s, n, m, lag, i);
    let lt = |i: int| left_term(s, n, m, lag, i);
    let rt = |i: int| right_term(s, m, lag, i);
    // the left part
    let a = if n - lag < m { n - lag } else { m };
    assert forall|i: int| 0 <= i < a implies #[trigger] ft(i) == lt(i) by {}
    lemma_sum_ext(ft, lt, 0, a);
    lemma_sum_split(lt, 0, a, m);
    assert forall|i: int| a <= i < m implies #[trigger] lt(i) == 0 by {}
    lemma_sum_zero(lt, a, m);
    // the free middle
    lemma_sum_split(ft, 0, a, n - lag);
    if lag <= m {
        lemma_sum_split(ft, a, n - m, n - lag);
        assert forall|i: int| a <= i < n - m implies #[trigger] ft(i) == 0 by {}
        lemma_sum_zero(ft, a, n - m);
        // the right part, reversed
        let g = |j: int| ft(j + (n - m));
        assert forall|j: int| 0 <= j < m - lag implies #[trigger] g(j) == ft(j + (n - m)) by {}
        lemma_sum_shift(ft, g, 0, m - lag, n - m);
        assert forall|i: int| 0 <= i < m - lag implies #[trigger] rt(i) == g(0 + (m - lag) - 1 - i) by {
            let p = n - lag - 1 - i;
            assert(p + lag - (n - 2 * m) == 2 * m - 1 - i);
            assert(p - (n - 2 * m) == 2 * m - 1 - i - lag);
        }
        lemma_sum_reverse(g, rt, 0, m - lag);
        lemma_sum_split(rt, 0, m - lag, m);
        assert forall|i: int| m - lag <= i < m implies #[trigger] rt(i) == 0 by {}
        lemma_sum_zero(rt, m - lag, m);
    } else {
        assert forall|i: int| a <= i < n - lag implies #[trigger] ft(i) == 0 by {}
        lemma_sum_zero(ft, a, n - lag);
        assert forall|i: int| 0 <= i < m implies #[trigger] rt(i) == 0 by {}
        lemma_sum_zero(rt, 0, m);
    }
}

/// The stored signs of the node one level up: the two innermost fixed signs removed.
pub open spec fn without_middle(s: Seq<bool>, m: int) -> Seq<bool> {
    s.take(m - 1) + s.skip(m + 1)
}

/// Fixing two more positions keeps the signs of the positions fixed before.
pub proof fn lemma_value_grow(s: Seq<bool>, n: int, m: int, j: int)
    requires
        1 <= m,
        2 * m <= n,
        s.len() == 2 * m,
        is_fixed(n, m - 1, j),
    ensures
        is_fixed(n, m, j),
        value_at(s, n, m, j) == value_at(without_middle(s, m), n, m - 1, j),
{
    let p = without_middle(s, m);
    if j < m - 1 {
        assert(p[j] == s[j]);
    } else {
        let q = j - (n - 2 * (m - 1));
        assert(q >= m - 1);
        assert(p[q] == s[q + 2]);
    }
}

/// A sum that is `v` at the point `p` when `c` holds, and zero elsewhere.
pub open spec fn point(p: int, c: bool, v: int, i: int) -> int {
    if c && i == p {
        v
    } else {
        0
    }
}

/// A sum of a term that is nonzero at one point only is that term.
pub proof fn lemma_sum_point(p: int, c: bool, v: int, lo: int, hi: int)
    requires
        c ==> lo <= p < hi,
    ensures
        sum_of(|i: int| point(p, c, v, i), lo, hi) == if c {
            v
        } else {
            0
        },
{
    let f = |i: int| point(p, c, v, i);
    if c {
        assert forall|i: int| lo <= i < hi && i != p implies #[trigger] f(i) == 0 by {}
        lemma_sum_single(f, lo, hi, p);
    } else {
        assert forall|i: int| lo <= i < hi implies #[trigger] f(i) == 0 by {}
        lemma_sum_zero(f, lo, hi);
    }
}

/// What the fixed-pair correlation at `lag` gains when positions `m - 1` and
/// `n - m` become fixed: the pairs that join one of them to a fixed position.
pub open spec fn grow_delta(s: Seq<bool>, n: int, m: int, lag: int) -> int {
    let k = lag - 1;
    if lag > n - m {
        0
    } else {
        (if m + k >= n - m {
            pair_sign(s[m - 1], s[3 * m + k - n])
        } else {
            0
        }) + (if m + k > n - m {
            pair_sign(s[m], s[n - m - lag])
        } else {
            0
        }) + (if m >= k + 2 {
            pair_sign(s[m - 1], s[m - 2 - k]) + pair_sign(s[m], s[m + lag])
        } else {
            0
        })
    }
}

/// Fixing two more positions changes the fixed-pair correlation by the pairs they close.
pub proof fn lemma_fixed_correlation_grow(s: Seq<bool>, n: int, m: int, lag: int)
    requires
        1 <= m,
        2 * m <= n,
        s.len() == 2 * m,
        1 <= lag < n,
    ensures
        fixed_correlation(s, n, m, lag) == fixed_correlation(without_middle(s, m), n, m - 1, lag)
            + grow_delta(s, n, m, lag),
{
    let p = without_middle(s, m);
    let k = lag - 1;
    let hi = n - lag;
    let fnew = |i: int| fixed_term(s, n, m, lag, i);
    let fold = |i: int| fixed_term(p, n, m - 1, lag, i);
    let p1 = m - 1;
    let c1 = m + k >= n - m && lag <= n - m;
    let v1 = if c1 { pair_sign(s[m - 1], s[3 * m + k - n]) } else { 0 };
    let p2 = n - m - lag;
    let c2 = m + k > n - m && lag <= n - m;
    let v2 = if c2 { pair_sign(s[m], s[n - m - lag]) } else { 0 };
    let p3 = m - 1 - lag;
    let c3 = m >= k + 2;
    let v3 = if c3 { pair_sign(s[m - 1], s[m - 2 - k]) } else { 0 };
    let p4 = n - m;
    let c4 = m >= k + 2;
    let v4 = if c4 { pair_sign(s[m], s[m + lag]) } else { 0 };
    let d1 = |i: int| point(p1, c1, v1, i);
    let d2 = |i: int| point(p2, c2, v2, i);
    let d3 = |i: int| point(p3, c3, v3, i);
    let d4 = |i: int| point(p4, c4, v4, i);
    let d12 = |i: int| d1(i) + d2(i);
    let d123 = |i: int| d12(i) + d3(i);
    let d = |i: int| d123(i) + d4(i);
    assert forall|i: int| 0 <= i < hi implies #[trigger] fnew(i) == fold(i) + d(i) by {
        if is_fixed(n, m - 1, i) {
            lemma_value_grow(s, n, m, i);
        }
        if is_fixed(n, m - 1, i + lag) {
            lemma_value_grow(s, n, m, i + lag);
        }
        if i == p1 {
            if c1 {
                assert(value_at(s, n, m, i + lag) == s[3 * m + k - n]);
            }
        } else if i == p2 {
            if c2 {
                assert(value_at(s, n, m, i + lag) == s[m]);
            }
        } else if i == p3 {
        } else if i == p4 {
            if c4 {
                assert(value_at(s, n, m, i) == s[m]);
                assert(value_at(s, n, m, i + lag) == s[m + lag]);
            }
        } else {
            if i + lag == m - 1 {
                assert(i == p3);
            }
            if i + lag == n - m {
                assert(i == p2);
            }
        }
    }
    let fsum = |i: int| fold(i) + d(i);
    lemma_sum_ext(fnew, fsum, 0, hi);
    lemma_sum_add(fold, d, fsum, 0, hi);
    lemma_sum_add(d123, d4, d, 0, hi);
    lemma_sum_add(d12, d3, d123, 0, hi);
    lemma_sum_add(d1, d2, d12, 0, hi);
    lemma_sum_point(p1, c1, v1, 0, hi);
    lemma_sum_point(p2, c2, v2, 0, hi);
    lemma_sum_point(p3, c3, v3, 0, hi);
    lemma_sum_point(p4, c4, v4, 0, hi);
}

/// What the correlation at `lag` gains when the single free middle position
/// `m` of a sequence of odd length `2 * m + 1` is fixed.
pub open spec fn last_delta(x: Seq<bool>, m: int, lag: int) -> int {
    if lag <= m {
        pair_sign(x[m], x[m - lag]) + pair_sign(x[m], x[m + lag])
    } else {
        0
    }
}

/// Filling the last free position turns the fixed-pair correlation into the
/// correlation, by the pairs of the filled position.
pub proof fn lemma_correlation_last(s: Seq<bool>, m: int, bit: bool, lag: int)
    requires
        0 <= m,
        s.len() == 2 * m,
        1 <= lag < 2 * m + 1,
    ensures
        correlation(s.insert(m, bit), lag) == fixed_correlation(s, 2 * m + 1, m, lag)
            + last_delta(s.insert(m, bit), m, lag),
{
    let n = 2 * m + 1;
    let x = s.insert(m, bit);
    let hi = n - lag;
    let fc = |i: int| pair_sign(x[i], x[i + lag]);
    let ft = |i: int| fixed_term(s, n, m, lag, i);
    let c = lag <= m;
    let d1 = |i: int| point(m, c, pair_sign(x[m], x[m + lag]), i);
    let d2 = |i: int| point(m - lag, c, pair_sign(x[m], x[m - lag]), i);
    let d = |i: int| d1(i) + d2(i);
    assert forall|j: int| 0 <= j < n && j != m implies value_at(s, n, m, j) == #[trigger] x[j] by {}
    assert forall|i: int| 0 <= i < hi implies #[trigger] fc(i) == ft(i) + d(i) by {
        if i != m && i + lag != m {
            assert(value_at(s, n, m, i) == x[i]);
            assert(value_at(s, n, m, i + lag) == x[i + lag]);
        }
    }
    let fsum = |i: int| ft(i) + d(i);
    lemma_sum_ext(fc, fsum, 0, hi);
    lemma_sum_add(ft, d, fsum, 0, hi);
    lemma_sum_add(d1, d2, d, 0, hi);
    lemma_sum_point(m, c, pair_sign(x[m], x[m + lag]), 0, hi);
    lemma_sum_point(m - lag, c, pair_sign(x[m], x[m - lag]), 0, hi);
}

} // verus!
