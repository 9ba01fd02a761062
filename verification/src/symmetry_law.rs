//! How the bookkeeping of a node changes when its stored signs are reversed,
//! complemented or flipped at alternate positions: the fixed-pair correlation
//! and the two ranges of every lag stay the same, except that alternate
//! flipping negates the correlation and swaps the ranges at odd lags.

use vstd::prelude::*;
use crate::sums::{sum_of, lemma_sum_ext, lemma_sum_reverse, lemma_sum_add, lemma_sum_zero};
use crate::model::{
    pair_sign, correlation, completion, fixed_term, fixed_correlation, value_at, is_fixed,
    free_max, free_min,
};
use crate::symmetry::{
    reversed, complemented, alternated, even_flipped, lemma_completion_reversed,
    lemma_completion_complemented, lemma_completion_alternated,
};
use crate::bound_law::lemma_lag_range;
use crate::range_law::{lemma_free_range_reached, high_filling, low_filling};

verus! {

/// The correlation at `lag` of a sequence read backwards is unchanged.
proof fn lemma_correlation_reversed(x: Seq<bool>, lag: int)
    requires
        1 <= lag < x.len(),
    ensures
        correlation(reversed(x), lag) == correlation(x, lag),
{
    let y = reversed(x);
    let n = x.len() as int;
    let f = |i: int| pair_sign(x[i], x[i + lag]);
    let g = |i: int| pair_sign(y[i], y[i + lag]);
    assert forall|i: int| 0 <= i < n - lag implies #[trigger] g(i) == f(0 + (n - lag) - 1 - i) by {}
    lemma_sum_reverse(f, g, 0, n - lag);
}

/// The correlation at `lag` of a complemented sequence is unchanged.
proof fn lemma_correlation_complemented(x: Seq<bool>, lag: int)
    requires
        1 <= lag < x.len(),
    ensures
        correlation(complemented(x), lag) == correlation(x, lag),
{
    let y = complemented(x);
    let n = x.len() as int;
    let f = |i: int| pair_sign(x[i], x[i + lag]);
    let g = |i: int| pair_sign(y[i], y[i + lag]);
    assert forall|i: int| 0 <= i < n - lag implies #[trigger] g(i) == f(i) by {}
    lemma_sum_ext(g, f, 0, n - lag);
}

/// A sum of negated terms is the negated sum.
proof fn lemma_sum_negated(f: spec_fn(int) -> int, g: spec_fn(int) -> int, lo: int, hi: int)
    requires
        forall|i: int| lo <= i < hi ==> #[trigger] g(i) == -f(i),
    ensures
        sum_of(g, lo, hi) == -sum_of(f, lo, hi),
{
    lemma_sum_add(f, g, |i: int| 0, lo, hi);
    lemma_sum_zero(|i: int| 0, lo, hi);
}

/// Flipping the even positions negates the correlation at odd lags.
proof fn lemma_correlation_even_flipped(x: Seq<bool>, lag: int)
    requires
        1 <= lag < x.len(),
    ensures
        correlation(even_flipped(x), lag) == if lag % 2 == 1 {
            -correlation(x, lag)
        } else {
            correlation(x, lag)
        },
{
    let y = even_flipped(x);
    let n = x.len() as int;
    let f = |i: int| pair_sign(x[i], x[i + lag]);
    let g = |i: int| pair_sign(y[i], y[i + lag]);
    if lag % 2 == 0 {
        assert forall|i: int| 0 <= i < n - lag implies #[trigger] g(i) == f(i) by {
            assert((i + lag) % 2 == i % 2);
        }
        lemma_sum_ext(g, f, 0, n - lag);
    } else {
        assert forall|i: int| 0 <= i < n - lag implies #[trigger] g(i) == -f(i) by {
            assert((i + lag) % 2 != i % 2);
        }
        lemma_sum_negated(f, g, 0, n - lag);
    }
}

/// Law: the fixed-pair correlation of the reversed stored signs is unchanged.
pub proof fn lemma_fixed_reversed(s: Seq<bool>, n: int, m: int, lag: int)
    requires
        0 <= m,
        2 * m <= n,
        s.len() == 2 * m,
        1 <= lag < n,
    ensures
        fixed_correlation(reversed(s), n, m, lag) == fixed_correlation(s, n, m, lag),
{
    let r = reversed(s);
    let f = |i: int| fixed_term(s, n, m, lag, i);
    let g = |i: int| fixed_term(r, n, m, lag, i);
    assert forall|j: int| is_fixed(n, m, j) implies #[trigger] value_at(r, n, m, j) == value_at(
        s,
        n,
        m,
        n - 1 - j,
    ) by {}
    assert forall|i: int| 0 <= i < n - lag implies #[trigger] g(i) == f(0 + (n - lag) - 1 - i) by {
        let i2 = n - lag - 1 - i;
        assert(is_fixed(n, m, i) == is_fixed(n, m, i2 + lag));
        assert(is_fixed(n, m, i + lag) == is_fixed(n, m, i2));
        if is_fixed(n, m, i) && is_fixed(n, m, i + lag) {
            assert(value_at(r, n, m, i) == value_at(s, n, m, i2 + lag));
            assert(value_at(r, n, m, i + lag) == value_at(s, n, m, i2));
        }
    }
    lemma_sum_reverse(f, g, 0, n - lag);
}

/// Law: the fixed-pair correlation of the complemented stored signs is unchanged.
pub proof fn lemma_fixed_complemented(s: Seq<bool>, n: int, m: int, lag: int)
    requires
        0 <= m,
        2 * m <= n,
        s.len() == 2 * m,
        1 <= lag < n,
    ensures
        fixed_correlation(complemented(s), n, m, lag) == fixed_correlation(s, n, m, lag),
{
    let c = complemented(s);
    let f = |i: int| fixed_term(s, n, m, lag, i);
    let g = |i: int| fixed_term(c, n, m, lag, i);
    assert forall|i: int| 0 <= i < n - lag implies #[trigger] g(i) == f(i) by {
        if is_fixed(n, m, i) && is_fixed(n, m, i + lag) {
            assert(value_at(c, n, m, i) == !value_at(s, n, m, i));
            assert(value_at(c, n, m, i + lag) == !value_at(s, n, m, i + lag));
        }
    }
    lemma_sum_ext(g, f, 0, n - lag);
}

/// Law: flipping the stored signs at the even positions of the sequence
/// negates the fixed-pair correlation at odd lags and keeps it at even lags.
pub proof fn lemma_fixed_alternated(s: Seq<bool>, n: int, m: int, lag: int)
    requires
        0 <= m,
        2 * m <= n,
        s.len() == 2 * m,
        1 <= lag < n,
    ensures
        fixed_correlation(alternated(s, n), n, m, lag) == if lag % 2 == 1 {
            -fixed_correlation(s, n, m, lag)
        } else {
            fixed_correlation(s, n, m, lag)
        },
{
    let a = alternated(s, n);
    let f = |i: int| fixed_term(s, n, m, lag, i);
    let g = |i: int| fixed_term(a, n, m, lag, i);
    assert forall|j: int| is_fixed(n, m, j) implies #[trigger] value_at(a, n, m, j) == (value_at(
        s,
        n,
        m,
        j,
    ) != (j % 2 == 0)) by {
        if j >= m {
            let k = j - (n - 2 * m);
            assert(2 * m - 1 - k == n - 1 - j);
        }
    }
    if lag % 2 == 0 {
        assert forall|i: int| 0 <= i < n - lag implies #[trigger] g(i) == f(i) by {
            assert((i + lag) % 2 == i % 2);
            if is_fixed(n, m, i) && is_fixed(n, m, i + lag) {
                assert(value_at(a, n, m, i) == (value_at(s, n, m, i) != (i % 2 == 0)));
                assert(value_at(a, n, m, i + lag) == (value_at(s, n, m, i + lag) != ((i + lag) % 2
                    == 0)));
            }
        }
        lemma_sum_ext(g, f, 0, n - lag);
    } else {
        assert forall|i: int| 0 <= i < n - lag implies #[trigger] g(i) == -f(i) by {
            assert((i + lag) % 2 != i % 2);
            if is_fixed(n, m, i) && is_fixed(n, m, i + lag) {
                assert(value_at(a, n, m, i) == (value_at(s, n, m, i) != (i % 2 == 0)));
                assert(value_at(a, n, m, i + lag) == (value_at(s, n, m, i + lag) != ((i + lag) % 2
                    == 0)));
            }
        }
        lemma_sum_negated(f, g, 0, n - lag);
    }
}

/// What the pairs touching a free position add to the correlation at `lag`
/// when the free positions are filled with `free`.
pub open spec fn free_part(s: Seq<bool>, n: int, m: int, free: Seq<bool>, lag: int) -> int {
    correlation(completion(s, m, free), lag) - fixed_correlation(s, n, m, lag)
}

/// When a change of the fillings, undone by itself, carries what the free
/// pairs add under `s` to what they add under `t` (negated when `neg`), the
/// ranges of `t` are those of `s` (swapped when `neg`).
proof fn lemma_ranges_transfer(
    s: Seq<bool>,
    t: Seq<bool>,
    n: int,
    m: int,
    lag: int,
    phi: spec_fn(Seq<bool>) -> Seq<bool>,
    neg: bool,
)
    requires
        0 <= m,
        2 * m <= n,
        s.len() == 2 * m,
        t.len() == 2 * m,
        1 <= lag < n,
        forall|free: Seq<bool>|
            free.len() == n - 2 * m ==> {
                &&& (#[trigger] phi(free)).len() == n - 2 * m
                &&& phi(phi(free)) == free
                &&& free_part(t, n, m, phi(free), lag) == if neg {
                    -free_part(s, n, m, free, lag)
                } else {
                    free_part(s, n, m, free, lag)
                }
            },
    ensures
        neg ==> free_max(t, n, m, lag) == free_min(s, n, m, lag) && free_min(t, n, m, lag)
            == free_max(s, n, m, lag),
        !neg ==> free_max(t, n, m, lag) == free_max(s, n, m, lag) && free_min(t, n, m, lag)
            == free_min(s, n, m, lag),
{
    lemma_free_range_reached(s, n, m, lag);
    lemma_free_range_reached(t, n, m, lag);
    let hs = high_filling(s, n, m, lag);
    let ls = low_filling(s, n, m, lag);
    let ht = high_filling(t, n, m, lag);
    let lt = low_filling(t, n, m, lag);
    assert(phi(ht).len() == n - 2 * m);
    assert(phi(lt).len() == n - 2 * m);
    assert(phi(phi(ht)) == ht);
    assert(phi(phi(lt)) == lt);
    assert(free_part(t, n, m, phi(phi(ht)), lag) == if neg {
        -free_part(s, n, m, phi(ht), lag)
    } else {
        free_part(s, n, m, phi(ht), lag)
    });
    assert(free_part(t, n, m, phi(phi(lt)), lag) == if neg {
        -free_part(s, n, m, phi(lt), lag)
    } else {
        free_part(s, n, m, phi(lt), lag)
    });
    assert(phi(hs).len() == n - 2 * m);
    assert(phi(ls).len() == n - 2 * m);
    lemma_lag_range(s, n, m, phi(ht), lag);
    lemma_lag_range(s, n, m, phi(lt), lag);
    lemma_lag_range(t, n, m, phi(hs), lag);
    lemma_lag_range(t, n, m, phi(ls), lag);
}

/// Law: reading the stored signs backwards keeps the fixed-pair correlation
/// and both ranges of every lag.
pub proof fn lemma_reversed_node(s: Seq<bool>, n: int, m: int, lag: int)
    requires
        0 <= m,
        2 * m <= n,
        s.len() == 2 * m,
        1 <= lag < n,
    ensures
        fixed_correlation(reversed(s), n, m, lag) == fixed_correlation(s, n, m, lag),
        free_max(reversed(s), n, m, lag) == free_max(s, n, m, lag),
        free_min(reversed(s), n, m, lag) == free_min(s, n, m, lag),
{
    let t = reversed(s);
    lemma_fixed_reversed(s, n, m, lag);
    let phi = |f: Seq<bool>| reversed(f);
    assert forall|free: Seq<bool>| free.len() == n - 2 * m implies {
        &&& (#[trigger] phi(free)).len() == n - 2 * m
        &&& phi(phi(free)) == free
        &&& free_part(t, n, m, phi(free), lag) == free_part(s, n, m, free, lag)
    } by {
        assert(reversed(reversed(free)) =~= free);
        lemma_completion_reversed(s, m, free);
        lemma_correlation_reversed(completion(s, m, free), lag);
    }
    lemma_ranges_transfer(s, t, n, m, lag, phi, false);
}

/// Law: complementing the stored signs keeps the fixed-pair correlation and
/// both ranges of every lag.
pub proof fn lemma_complemented_node(s: Seq<bool>, n: int, m: int, lag: int)
    requires
        0 <= m,
        2 * m <= n,
        s.len() == 2 * m,
        1 <= lag < n,
    ensures
        fixed_correlation(complemented(s), n, m, lag) == fixed_correlation(s, n, m, lag),
        free_max(complemented(s), n, m, lag) == free_max(s, n, m, lag),
        free_min(complemented(s), n, m, lag) == free_min(s, n, m, lag),
{
    let t = complemented(s);
    lemma_fixed_complemented(s, n, m, lag);
    let phi = |f: Seq<bool>| complemented(f);
    assert forall|free: Seq<bool>| free.len() == n - 2 * m implies {
        &&& (#[trigger] phi(free)).len() == n - 2 * m
        &&& phi(phi(free)) == free
        &&& free_part(t, n, m, phi(free), lag) == free_part(s, n, m, free, lag)
    } by {
        assert(complemented(complemented(free)) =~= free);
        lemma_completion_complemented(s, m, free);
        lemma_correlation_complemented(completion(s, m, free), lag);
    }
    lemma_ranges_transfer(s, t, n, m, lag, phi, false);
}

/// Law: flipping the stored signs at the even positions of the sequence
/// negates the fixed-pair correlation and swaps the two ranges at odd lags,
/// and keeps all three at even lags.
pub proof fn lemma_alternated_node(s: Seq<bool>, n: int, m: int, lag: int)
    requires
        0 <= m,
        2 * m <= n,
        s.len() == 2 * m,
        1 <= lag < n,
    ensures
        lag % 2 == 1 ==> {
            &&& fixed_correlation(alternated(s, n), n, m, lag) == -fixed_correlation(s, n, m, lag)
            &&& free_max(alternated(s, n), n, m, lag) == free_min(s, n, m, lag)
            &&& free_min(alternated(s, n), n, m, lag) == free_max(s, n, m, lag)
        },
        lag % 2 == 0 ==> {
            &&& fixed_correlation(alternated(s, n), n, m, lag) == fixed_correlation(s, n, m, lag)
            &&& free_max(alternated(s, n), n, m, lag) == free_max(s, n, m, lag)
            &&& free_min(alternated(s, n), n, m, lag) == free_min(s, n, m, lag)
        },
{
    let t = alternated(s, n);
    assert(t.len() == 2 * m);
    lemma_fixed_alternated(s, n, m, lag);
    let phi = |f: Seq<bool>|
        Seq::new(f.len(), |i: int| if (m + i) % 2 == 0 { !f[i] } else { f[i] });
    let neg = lag % 2 == 1;
    assert forall|free: Seq<bool>| free.len() == n - 2 * m implies {
        &&& (#[trigger] phi(free)).len() == n - 2 * m
        &&& phi(phi(free)) == free
        &&& free_part(t, n, m, phi(free), lag) == if neg {
            -free_part(s, n, m, free, lag)
        } else {
            free_part(s, n, m, free, lag)
        }
    } by {
        assert(phi(phi(free)) =~= free);
        lemma_completion_alternated(s, n, m, free);
        lemma_correlation_even_flipped(completion(s, m, free), lag);
    }
    lemma_ranges_transfer(s, t, n, m, lag, phi, neg);
}

} // verus!
