//! How the ranges of the free pairs change when two more positions are fixed:
//! only the chains through the two new positions change.

use vstd::prelude::*;
use vstd::arithmetic::div_mod::{lemma_mod_multiples_basic, lemma_mod_add_multiples_vanish};
use crate::sums::{sum_of, lemma_sum_split, lemma_sum_diff2, lemma_sum_bounds};
use crate::model::{
    segment_len, segment_end, segment_max, segment_min, first_start, free_max, free_min,
};
use crate::fixed_lemmas::{without_middle, lemma_value_grow};
use crate::segment_lemmas::{
    lemma_segment_end, lemma_segment_closed, lemma_segment_reach, lemma_segment_stop,
    lemma_segment_bounds,
};
use crate::model::value_at;

verus! {

/// The start that represented the chain of the new left position one level up.
pub open spec fn old_start(m: int, lag: int) -> int {
    if m > lag {
        m - 1 - lag
    } else {
        m - 1
    }
}

/// A segment whose chain never meets the new right position `n - m` is the
/// same one level up.
pub proof fn lemma_segment_same(n: int, m: int, lag: int, t: int)
    requires
        lag >= 1,
        m >= 1,
        0 <= t,
        t > n - m || (n - m - t) % lag != 0,
    ensures
        segment_len(n, m, lag, t) == segment_len(n, m - 1, lag, t),
        segment_end(n, m, lag, t) == segment_end(n, m - 1, lag, t),
    decreases n - t,
{
    if t + lag >= n {
    } else if t + lag >= n - m {
        if t + lag == n - m {
            assert((n - m - t) % lag == 0) by {
                lemma_mod_multiples_basic(1, lag);
            }
        }
    } else {
        if t + lag <= n - m {
            lemma_mod_add_multiples_vanish(n - m - t - lag, lag);
        }
        lemma_segment_same(n, m, lag, t + lag);
    }
}

/// The contribution of a start other than the new left position, whose chain
/// never meets the new right position, is the same one level up.
pub proof fn lemma_contribution_same(s: Seq<bool>, n: int, m: int, lag: int, t: int)
    requires
        lag >= 1,
        1 <= m,
        2 * m <= n,
        s.len() == 2 * m,
        0 <= t < n,
        t != m - 1,
        t > n - m || (n - m - t) % lag != 0,
    ensures
        segment_max(s, n, m, lag, t) == segment_max(without_middle(s, m), n, m - 1, lag, t),
        segment_min(s, n, m, lag, t) == segment_min(without_middle(s, m), n, m - 1, lag, t),
{
    lemma_segment_same(n, m, lag, t);
    lemma_segment_end(n, m, lag, t);
    let l = segment_len(n, m, lag, t);
    let e = segment_end(n, m, lag, t);
    if t <= n - m && e == n - m {
        assert((n - m - t) % lag == 0) by {
            lemma_mod_multiples_basic(l, lag);
        }
    }
    if t + lag == n - m {
        assert((n - m - t) % lag == 0) by {
            lemma_mod_multiples_basic(1, lag);
        }
    }
    if t < m - 1 && e >= n - m + 1 {
        lemma_value_grow(s, n, m, t);
        lemma_value_grow(s, n, m, e);
    }
}

/// Two different starts in one window of `lag` lie on different chains.
pub proof fn lemma_window(b: int, lag: int, lo: int, t: int, t2: int)
    requires
        lag >= 1,
        lo <= t < lo + lag,
        lo <= t2 < lo + lag,
        t != t2,
        (b - t2) % lag == 0,
    ensures
        (b - t) % lag != 0,
{
    if (b - t) % lag == 0 {
        vstd::arithmetic::div_mod::lemma_fundamental_div_mod(b - t, lag);
        vstd::arithmetic::div_mod::lemma_fundamental_div_mod(b - t2, lag);
        let p = (b - t) / lag;
        let q = (b - t2) / lag;
        assert(false) by (nonlinear_arith)
            requires
                b - t == lag * p,
                b - t2 == lag * q,
                -lag < t - t2 < lag,
                t != t2,
                lag >= 1,
        ;
    }
}

/// The ranges of the free pairs after fixing positions `m - 1` and `n - m`
/// differ from those one level up only by the chain of the new left position
/// and, when it is another chain, the chain `t2` of the new right position.
pub proof fn lemma_free_grow(s: Seq<bool>, n: int, m: int, lag: int, hit: bool, t2: int)
    requires
        1 <= m,
        2 * m <= n,
        s.len() == 2 * m,
        1 <= lag < n - m,
        !hit ==> (n - m - (m - 1)) % lag == 0,
        hit ==> first_start(m, lag) <= t2 < first_start(m, lag) + lag && t2 != m - 1 && (n - m
            - t2) % lag == 0,
    ensures
        free_max(s, n, m, lag) == free_max(without_middle(s, m), n, m - 1, lag) + segment_max(
            s,
            n,
            m,
            lag,
            m - 1,
        ) - segment_max(without_middle(s, m), n, m - 1, lag, old_start(m, lag)) + (if hit {
            segment_max(s, n, m, lag, t2) - segment_max(without_middle(s, m), n, m - 1, lag, t2)
        } else {
            0
        }),
        free_min(s, n, m, lag) == free_min(without_middle(s, m), n, m - 1, lag) + segment_min(
            s,
            n,
            m,
            lag,
            m - 1,
        ) - segment_min(without_middle(s, m), n, m - 1, lag, old_start(m, lag)) + (if hit {
            segment_min(s, n, m, lag, t2) - segment_min(without_middle(s, m), n, m - 1, lag, t2)
        } else {
            0
        }),
{
    let p = without_middle(s, m);
    let fxn = |t: int| segment_max(s, n, m, lag, t);
    let fxo = |t: int| segment_max(p, n, m - 1, lag, t);
    let fmn = |t: int| segment_min(s, n, m, lag, t);
    let fmo = |t: int| segment_min(p, n, m - 1, lag, t);
    let a = m - 1;
    let b = n - m;
    if m <= lag {
        // both windows are [0, lag)
        assert forall|t: int|
            0 <= t < lag && !(t == a) && !(hit && t == t2) implies #[trigger] fxn(t) == fxo(t)
            && fmn(t) == fmo(t) by {
            if hit {
                lemma_window(b, lag, 0, t, t2);
            } else {
                lemma_window(b, lag, 0, t, a);
            }
            lemma_contribution_same(s, n, m, lag, t);
        }
        assert forall|t: int|
            0 <= t < lag && !(t == a) && !(hit && t == t2) implies #[trigger] fmn(t) == fmo(t) by {
            assert(fxn(t) == fxo(t) && fmn(t) == fmo(t));
        }
        lemma_sum_diff2(fxn, fxo, 0, lag, a, true, t2, hit);
        lemma_sum_diff2(fmn, fmo, 0, lag, a, true, t2, hit);
    } else {
        let lo = m - lag;
        // new window [m - lag, m), old window [m - 1 - lag, m - 1)
        assert forall|t: int|
            lo <= t < m - 1 && !(hit && t == t2) implies #[trigger] fxn(t) == fxo(t) && fmn(t)
            == fmo(t) by {
            if hit {
                lemma_window(b, lag, lo, t, t2);
            } else {
                lemma_window(b, lag, lo, t, a);
            }
            lemma_contribution_same(s, n, m, lag, t);
        }
        assert forall|t: int| lo <= t < m - 1 && !(hit && t == t2) implies #[trigger] fmn(t)
            == fmo(t) by {
            assert(fxn(t) == fxo(t) && fmn(t) == fmo(t));
        }
        lemma_sum_diff2(fxn, fxo, lo, m - 1, t2, hit, t2, false);
        lemma_sum_diff2(fmn, fmo, lo, m - 1, t2, hit, t2, false);
        lemma_sum_split(fxn, lo, m - 1, m);
        lemma_sum_split(fmn, lo, m - 1, m);
        lemma_sum_split(fxo, lo - 1, lo, m - 1);
        lemma_sum_split(fmo, lo - 1, lo, m - 1);
        assert(sum_of(fxn, m - 1, m) == fxn(m - 1)) by {
            assert(sum_of(fxn, m - 1, m - 1) == 0);
        }
        assert(sum_of(fmn, m - 1, m) == fmn(m - 1)) by {
            assert(sum_of(fmn, m - 1, m - 1) == 0);
        }
        assert(sum_of(fxo, lo - 1, lo) == fxo(lo - 1)) by {
            assert(sum_of(fxo, lo - 1, lo - 1) == 0);
        }
        assert(sum_of(fmo, lo - 1, lo) == fmo(lo - 1)) by {
            assert(sum_of(fmo, lo - 1, lo - 1) == 0);
        }
    }
}

/// What the chain of one new position loses when it grows by one pair from
/// `cl + 1` to `cl` steps: from the sign comparisons of its old and new ends.
pub open spec fn half_delta(d_old: bool, d_new: bool, even: bool) -> (int, int) {
    if even {
        if d_old {
            if d_new {
                (1, 3)
            } else {
                (-1, 1)
            }
        } else if d_new {
            (3, 1)
        } else {
            (1, -1)
        }
    } else if d_old {
        if d_new {
            (1, -1)
        } else {
            (-1, 1)
        }
    } else if d_new {
        (3, 1)
    } else {
        (1, 3)
    }
}

/// How much the range of the free pairs at `lag` shrinks, above and below,
/// when positions `m - 1` and `n - m` become fixed, told by the lengths of the
/// chains through them and the signs at their ends.
pub open spec fn grow_bound_delta(s: Seq<bool>, n: int, m: int, lag: int) -> (int, int) {
    if m <= lag {
        let cl = (n - lag - m) / lag + 1;
        let e = m - 1 + cl * lag;
        if e == n - m {
            if cl == 1 {
                (1, 1)
            } else if s[m - 1] != s[e - (n - 2 * m)] {
                if cl % 2 == 0 {
                    (2, 2)
                } else {
                    (2, 0)
                }
            } else if cl % 2 == 0 {
                (0, 0)
            } else {
                (0, 2)
            }
        } else if e > n - m {
            if cl == 1 {
                (2, 2)
            } else {
                let x1 = s[m - 1] != s[e - (n - 2 * m)];
                let x2 = s[m] != s[n - m - cl * lag];
                if cl % 2 == 0 {
                    (
                        (if x1 { 2int } else { 0 }) + (if x2 { 2int } else { 0 }),
                        (if x1 { 2int } else { 0 }) + (if x2 { 2int } else { 0 }),
                    )
                } else {
                    (
                        (if x1 { 2int } else { 0 }) + (if x2 { 2int } else { 0 }),
                        (if x1 { 0int } else { 2 }) + (if x2 { 0int } else { 2 }),
                    )
                }
            }
        } else {
            (0, 0)
        }
    } else {
        let cl = (n - 2 * m) / lag + 1;
        let e = m - 1 + cl * lag;
        let pe = e - (n - 2 * m);
        let q = n - m - cl * lag;
        if e == n - m {
            let y = s[m - 1 - lag] != s[pe + lag];
            if cl == 1 {
                if y {
                    (1, 3)
                } else {
                    (3, 1)
                }
            } else if y {
                if s[m - 1] != s[pe] {
                    (2, 2)
                } else if cl % 2 == 0 {
                    (0, 0)
                } else {
                    (0, 4)
                }
            } else if s[m - 1] != s[pe] {
                if cl % 2 == 0 {
                    (4, 4)
                } else {
                    (4, 0)
                }
            } else {
                (2, 2)
            }
        } else if cl == 1 {
            let a = if s[m - 1 - lag] != s[pe] { 0int } else { 2 };
            let b = if s[m + lag] != s[q] { 0int } else { 2 };
            (a + b, a + b)
        } else {
            let ha = grow_first_half(s, n, m, lag);
            let hb = half_delta(s[m + lag] != s[q], s[m] != s[q], cl % 2 == 0);
            (ha.0 + hb.0, ha.1 + hb.1)
        }
    }
}

/// The part of `grow_bound_delta` that comes from the chain of the new left
/// position, when it continues a chain of the left end and passes the right end.
pub open spec fn grow_first_half(s: Seq<bool>, n: int, m: int, lag: int) -> (int, int) {
    let cl = (n - 2 * m) / lag + 1;
    let pe = m - 1 + cl * lag - (n - 2 * m);
    half_delta(s[m - 1 - lag] != s[pe], s[m - 1] != s[pe], cl % 2 == 0)
}

/// The chains through the two new positions when the new left position starts its chain.
proof fn lemma_bounds_grow_small(s: Seq<bool>, n: int, m: int, lag: int)
    requires
        1 <= m <= lag,
        2 * m <= n,
        s.len() == 2 * m,
        lag < n - m,
    ensures
        free_max(s, n, m, lag) == free_max(without_middle(s, m), n, m - 1, lag) - grow_bound_delta(
            s,
            n,
            m,
            lag,
        ).0,
        free_min(s, n, m, lag) == free_min(without_middle(s, m), n, m - 1, lag) - grow_bound_delta(
            s,
            n,
            m,
            lag,
        ).1,
{
    let p = without_middle(s, m);
    let a = m - 1;
    let b = n - m;
    lemma_segment_closed(n, m, lag, a);
    lemma_segment_closed(n, m - 1, lag, a);
    let cl = (n - lag - m) / lag + 1;
    assert(n - lag - 1 - a == n - lag - m);
    assert(segment_len(n, m, lag, a) == cl);
    let e = a + cl * lag;
    assert(segment_end(n, m, lag, a) == e);
    assert(segment_end(n, m - 1, lag, a) == e);
    assert(value_at(s, n, m, a) == s[m - 1]);
    if e >= n - m {
        assert(value_at(s, n, m, e) == s[e - (n - 2 * m)]);
    }
    if e == b {
        assert((b - a) % lag == 0) by {
            lemma_mod_multiples_basic(cl, lag);
        }
        lemma_free_grow(s, n, m, lag, false, 0);
        if cl >= 2 {
            assert(a + lag < n - m);
        }
    } else {
        let t2 = b - cl * lag;
        assert(b - t2 == cl * lag);
        assert((b - t2) % lag == 0) by {
            lemma_mod_multiples_basic(cl, lag);
        }
        assert(cl * lag <= n - m);
        assert(t2 + (cl - 1) * lag == b - lag) by (nonlinear_arith)
            requires
                t2 == b - cl * lag,
        ;
        assert(t2 + (cl + 1) * lag == b + lag) by (nonlinear_arith)
            requires
                t2 == b - cl * lag,
        ;
        lemma_segment_reach(n, m, lag, t2, cl);
        lemma_segment_stop(n, m - 1, lag, t2, cl);
        if e > b {
            assert(t2 < a);
            lemma_free_grow(s, n, m, lag, true, t2);
            lemma_value_grow(s, n, m, t2);
            assert(value_at(s, n, m, t2) == s[t2]);
            assert(value_at(s, n, m, b) == s[m]);
            if cl >= 2 {
                assert(a + lag < n - m);
                assert(t2 + lag < n - m) by (nonlinear_arith)
                    requires
                        t2 + (cl - 1) * lag == b - lag,
                        cl >= 2,
                        lag >= 1,
                        b == n - m,
                ;
            } else {
                assert(cl == 1);
                assert(cl * lag == lag);
                assert(t2 + lag == b);
            }
        } else {
            assert(e + lag >= n);
            assert(t2 > a && t2 < lag);
            lemma_free_grow(s, n, m, lag, true, t2);
        }
    }
}

/// The chains through the two new positions when the new left position
/// continues a chain of the left end.
proof fn lemma_bounds_grow_big(s: Seq<bool>, n: int, m: int, lag: int)
    requires
        1 <= lag < m,
        2 * m <= n,
        s.len() == 2 * m,
        lag < n - m,
    ensures
        free_max(s, n, m, lag) == free_max(without_middle(s, m), n, m - 1, lag) - grow_bound_delta(
            s,
            n,
            m,
            lag,
        ).0,
        free_min(s, n, m, lag) == free_min(without_middle(s, m), n, m - 1, lag) - grow_bound_delta(
            s,
            n,
            m,
            lag,
        ).1,
        m > lag && (n - 2 * m) / lag + 1 >= 2 && m - 1 + ((n - 2 * m) / lag + 1) * lag != n - m
            ==> free_max(without_middle(s, m), n, m - 1, lag) >= grow_first_half(s, n, m, lag).0
            && free_min(without_middle(s, m), n, m - 1, lag) >= grow_first_half(s, n, m, lag).1,
{
    let p = without_middle(s, m);
    let a = m - 1;
    let ao = m - 1 - lag;
    let b = n - m;
    lemma_segment_closed(n, m, lag, a);
    let cl = (n - 2 * m) / lag + 1;
    assert(n - m - 1 - a == n - 2 * m);
    assert(segment_len(n, m, lag, a) == cl);
    let e = a + cl * lag;
    let pe = e - (n - 2 * m);
    assert(segment_end(n, m, lag, a) == e);
    assert(e >= n - m && e - lag < n - m);
    assert(value_at(s, n, m, a) == s[m - 1]);
    assert(value_at(s, n, m, e) == s[pe]);
    lemma_value_grow(s, n, m, ao);
    assert(value_at(s, n, m, ao) == s[m - 1 - lag]);
    if cl >= 2 {
        assert(a + lag < n - m);
    }
    if e == b {
        assert((b - a) % lag == 0) by {
            lemma_mod_multiples_basic(cl, lag);
        }
        assert(ao + (cl + 1) * lag == e && ao + (cl + 2) * lag == e + lag) by (nonlinear_arith)
            requires
                ao == a - lag,
                e == a + cl * lag,
        ;
        lemma_segment_reach(n, m - 1, lag, ao, cl + 2);
        lemma_value_grow(s, n, m, e + lag);
        assert(value_at(s, n, m, e + lag) == s[pe + lag]);
        lemma_free_grow(s, n, m, lag, false, 0);
    } else {
        assert(ao + cl * lag == e - lag && ao + (cl + 1) * lag == e) by (nonlinear_arith)
            requires
                ao == a - lag,
                e == a + cl * lag,
        ;
        lemma_segment_reach(n, m - 1, lag, ao, cl + 1);
        lemma_value_grow(s, n, m, e);
        let t2 = b - cl * lag;
        let q = n - m - cl * lag;
        assert((b - t2) % lag == 0) by {
            lemma_mod_multiples_basic(cl, lag);
        }
        assert(t2 + (cl - 1) * lag == b - lag && t2 + (cl + 1) * lag == b + lag) by (nonlinear_arith)
            requires
                t2 == b - cl * lag,
        ;
        assert(m - lag <= t2 < a);
        lemma_segment_reach(n, m, lag, t2, cl);
        lemma_segment_reach(n, m - 1, lag, t2, cl + 1);
        lemma_value_grow(s, n, m, t2);
        lemma_value_grow(s, n, m, b + lag);
        assert(value_at(s, n, m, t2) == s[q]);
        assert(value_at(s, n, m, b) == s[m]);
        assert(value_at(s, n, m, b + lag) == s[m + lag]);
        if cl >= 2 {
            assert(t2 + lag < n - m) by (nonlinear_arith)
                requires
                    t2 + (cl - 1) * lag == b - lag,
                    cl >= 2,
                    lag >= 1,
                    b == n - m,
            ;
        }
        lemma_free_grow(s, n, m, lag, true, t2);
        // the old range holds at least the contribution of the old chain start
        let fxo = |t: int| segment_max(p, n, m - 1, lag, t);
        let fmo = |t: int| segment_min(p, n, m - 1, lag, t);
        lemma_sum_split(fxo, ao, ao + 1, ao + lag);
        lemma_sum_split(fmo, ao, ao + 1, ao + lag);
        assert(sum_of(fxo, ao, ao + 1) == fxo(ao)) by {
            assert(sum_of(fxo, ao, ao) == 0);
        }
        assert(sum_of(fmo, ao, ao + 1) == fmo(ao)) by {
            assert(sum_of(fmo, ao, ao) == 0);
        }
        assert forall|t: int| ao + 1 <= t < ao + lag implies 0 <= #[trigger] fxo(t) <= n && 0
            <= fmo(t) <= n by {
            lemma_segment_bounds(p, n, m - 1, lag, t);
            let l = segment_len(n, m - 1, lag, t);
            assert(l <= l * lag) by (nonlinear_arith)
                requires
                    l >= 0,
                    lag >= 1,
            ;
        }
        assert forall|t: int| ao + 1 <= t < ao + lag implies 0 <= #[trigger] fmo(t) <= n by {
            assert(0 <= fxo(t) <= n && 0 <= fmo(t) <= n);
        }
        lemma_sum_bounds(fxo, ao + 1, ao + lag, 0, n);
        lemma_sum_bounds(fmo, ao + 1, ao + lag, 0, n);
        assert(first_start(m - 1, lag) == ao);
    }
}

/// The ranges of the free pairs after fixing two more positions, from those one level up.
pub proof fn lemma_bounds_grow(s: Seq<bool>, n: int, m: int, lag: int)
    requires
        1 <= m,
        2 * m <= n,
        s.len() == 2 * m,
        1 <= lag < n - m,
    ensures
        free_max(s, n, m, lag) == free_max(without_middle(s, m), n, m - 1, lag) - grow_bound_delta(
            s,
            n,
            m,
            lag,
        ).0,
        free_min(s, n, m, lag) == free_min(without_middle(s, m), n, m - 1, lag) - grow_bound_delta(
            s,
            n,
            m,
            lag,
        ).1,
        m > lag && (n - 2 * m) / lag + 1 >= 2 && m - 1 + ((n - 2 * m) / lag + 1) * lag != n - m
            ==> free_max(without_middle(s, m), n, m - 1, lag) >= grow_first_half(s, n, m, lag).0
            && free_min(without_middle(s, m), n, m - 1, lag) >= grow_first_half(s, n, m, lag).1,
{
    if m <= lag {
        lemma_bounds_grow_small(s, n, m, lag);
    } else {
        lemma_bounds_grow_big(s, n, m, lag);
    }
}

} // verus!
