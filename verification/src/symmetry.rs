//! The symmetries of the energy (reversal, complement, alternating complement)
//! and the choice of one representative among the symmetric root prefixes.

use vstd::prelude::*;
use crate::bit_sequence::BitSequence;
use crate::sums::{sum_of, lemma_sum_ext, lemma_sum_reverse};
use crate::model::{pair_sign, correlation, energy, completion};

verus! {

/// The sequence read backwards.
pub open spec fn reversed(s: Seq<bool>) -> Seq<bool> {
    Seq::new(s.len(), |i: int| s[s.len() - 1 - i])
}

/// Every sign flipped.
pub open spec fn complemented(s: Seq<bool>) -> Seq<bool> {
    Seq::new(s.len(), |i: int| !s[i])
}

/// The stored signs after flipping every even position of a sequence of
/// length `n` whose two ends are stored as `s`: position `i < len / 2` of the
/// left half, and the position `n - 1 - i` of the right half.
pub open spec fn alternated(s: Seq<bool>, n: int) -> Seq<bool> {
    let mid = s.len() / 2;
    Seq::new(
        s.len(),
        |j: int|
            if j < mid {
                if j % 2 == 0 {
                    !s[j]
                } else {
                    s[j]
                }
            } else if j < 2 * mid {
                if (2 * mid - 1 - j) % 2 != n % 2 {
                    !s[j]
                } else {
                    s[j]
                }
            } else {
                s[j]
            },
    )
}

/// The stored signs are replaced and everything else is kept.
pub open spec fn only_sequence_changed(a: &BitSequence, b: &BitSequence) -> bool {
    &&& a.fixed_energys@ == b.fixed_energys@
    &&& a.u_max@ == b.u_max@
    &&& a.u_min@ == b.u_min@
    &&& a.m == b.m
    &&& a.n == b.n
    &&& a.branched_pp == b.branched_pp
    &&& a.branched_pm == b.branched_pm
    &&& a.branched_mp == b.branched_mp
    &&& a.branched_mm == b.branched_mm
}

/// Reverses the stored signs.
pub fn reverse(individual: &mut BitSequence)
    ensures
        final(individual).sequence@ == reversed(old(individual).sequence@),
        only_sequence_changed(final(individual), old(individual)),
{
    let len = individual.sequence.len();
    let ghost s = individual.sequence@;
    let mut i: usize = 0;
    while i < len / 2
        invariant
            len == s.len(),
            i <= len / 2,
            individual.sequence@.len() == len,
            forall|j: int| 0 <= j < i ==> #[trigger] individual.sequence@[j] == s[len - 1 - j],
            forall|j: int| len - i <= j < len ==> #[trigger] individual.sequence@[j] == s[len - 1 - j],
            forall|j: int| i <= j < len - i ==> #[trigger] individual.sequence@[j] == s[j],
            only_sequence_changed(individual, old(individual)),
        decreases len / 2 - i,
    {
        let a = individual.sequence[i];
        let b = individual.sequence[len - 1 - i];
        individual.sequence.set(i, b);
        individual.sequence.set(len - 1 - i, a);
        i = i + 1;
    }
    assert(individual.sequence@ =~= reversed(s));
}

/// Flips every stored sign.
pub fn complement(individual: &mut BitSequence)
    ensures
        final(individual).sequence@ == complemented(old(individual).sequence@),
        only_sequence_changed(final(individual), old(individual)),
{
    let len = individual.sequence.len();
    let ghost s = individual.sequence@;
    for i in 0..len
        invariant
            len == s.len(),
            individual.sequence@.len() == len,
            forall|j: int| 0 <= j < i ==> #[trigger] individual.sequence@[j] == !s[j],
            forall|j: int| i <= j < len ==> #[trigger] individual.sequence@[j] == s[j],
            only_sequence_changed(individual, old(individual)),
    {
        let b = individual.sequence[i];
        individual.sequence.set(i, !b);
    }
    assert(individual.sequence@ =~= complemented(s));
}

/// Flips the signs at the even positions of the sequence of length `n`: the
/// even positions of the left half, and the right half's positions counted
/// from the end of the sequence.
pub fn alternate_complement(individual: &mut BitSequence)
    ensures
        final(individual).sequence@ == alternated(old(individual).sequence@, old(individual).n as int),
        only_sequence_changed(final(individual), old(individual)),
{
    let len = individual.sequence.len();
    let mid = len / 2;
    let ghost s = individual.sequence@;
    let ghost n = individual.n as int;
    for i in 0..mid
        invariant
            mid == s.len() / 2,
            len == s.len(),
            n == individual.n,
            individual.sequence@.len() == s.len(),
            forall|j: int|
                0 <= j < i ==> #[trigger] individual.sequence@[j] == if j % 2 == 0 {
                    !s[j]
                } else {
                    s[j]
                },
            forall|j: int| i <= j < s.len() ==> #[trigger] individual.sequence@[j] == s[j],
            only_sequence_changed(individual, old(individual)),
    {
        if i % 2 == 0 {
            let b = individual.sequence[i];
            individual.sequence.set(i, !b);
        }
    }
    for i in 0..mid
        invariant
            mid == s.len() / 2,
            len == s.len(),
            n == individual.n,
            individual.sequence@.len() == s.len(),
            forall|j: int|
                0 <= j < mid ==> #[trigger] individual.sequence@[j] == if j % 2 == 0 {
                    !s[j]
                } else {
                    s[j]
                },
            forall|j: int|
                2 * mid - i <= j < 2 * mid ==> #[trigger] individual.sequence@[j] == if (2 * mid - 1
                    - j) % 2 != n % 2 {
                    !s[j]
                } else {
                    s[j]
                },
            forall|j: int|
                mid <= j < 2 * mid - i || 2 * mid <= j < s.len() ==> #[trigger] individual.sequence@[j]
                    == s[j],
            only_sequence_changed(individual, old(individual)),
    {
        if i % 2 != individual.n % 2 {
            let b = individual.sequence[2 * mid - 1 - i];
            individual.sequence.set(2 * mid - 1 - i, !b);
        }
    }
    assert(individual.sequence@ =~= alternated(s, n));
}

/// Every even position of a complete sequence flipped.
pub open spec fn even_flipped(x: Seq<bool>) -> Seq<bool> {
    Seq::new(x.len(), |i: int| if i % 2 == 0 { !x[i] } else { x[i] })
}

/// Energies are equal when the correlations agree up to sign at every lag.
proof fn lemma_energy_from_correlations(x: Seq<bool>, y: Seq<bool>)
    requires
        x.len() == y.len(),
        forall|lag: int|
            1 <= lag < x.len() ==> #[trigger] correlation(y, lag) == correlation(x, lag)
                || correlation(y, lag) == -correlation(x, lag),
    ensures
        energy(y) == energy(x),
{
    let fx = |lag: int| correlation(x, lag) * correlation(x, lag);
    let fy = |lag: int| correlation(y, lag) * correlation(y, lag);
    assert forall|lag: int| 1 <= lag < x.len() implies #[trigger] fy(lag) == fx(lag) by {
        let c = correlation(x, lag);
        assert(c * c == (-c) * (-c)) by (nonlinear_arith);
    }
    lemma_sum_ext(fy, fx, 1, x.len() as int);
}

/// Law: reading a sequence backwards keeps its energy.
pub proof fn lemma_energy_reversed(x: Seq<bool>)
    ensures
        energy(reversed(x)) == energy(x),
{
    let y = reversed(x);
    let n = x.len() as int;
    assert forall|lag: int| 1 <= lag < n implies #[trigger] correlation(y, lag) == correlation(x, lag)
        || correlation(y, lag) == -correlation(x, lag) by {
        let f = |i: int| pair_sign(x[i], x[i + lag]);
        let g = |i: int| pair_sign(y[i], y[i + lag]);
        assert forall|i: int| 0 <= i < n - lag implies #[trigger] g(i) == f(0 + (n - lag) - 1 - i) by {}
        lemma_sum_reverse(f, g, 0, n - lag);
    }
    lemma_energy_from_correlations(x, y);
}

/// Law: flipping every sign keeps the energy.
pub proof fn lemma_energy_complemented(x: Seq<bool>)
    ensures
        energy(complemented(x)) == energy(x),
{
    let y = complemented(x);
    let n = x.len() as int;
    assert forall|lag: int| 1 <= lag < n implies #[trigger] correlation(y, lag) == correlation(x, lag)
        || correlation(y, lag) == -correlation(x, lag) by {
        let f = |i: int| pair_sign(x[i], x[i + lag]);
        let g = |i: int| pair_sign(y[i], y[i + lag]);
        assert forall|i: int| 0 <= i < n - lag implies #[trigger] g(i) == f(i) by {}
        lemma_sum_ext(g, f, 0, n - lag);
    }
    lemma_energy_from_correlations(x, y);
}

/// Law: flipping every even position keeps the energy.
pub proof fn lemma_energy_even_flipped(x: Seq<bool>)
    ensures
        energy(even_flipped(x)) == energy(x),
{
    let y = even_flipped(x);
    let n = x.len() as int;
    assert forall|lag: int| 1 <= lag < n implies #[trigger] correlation(y, lag) == correlation(x, lag)
        || correlation(y, lag) == -correlation(x, lag) by {
        let f = |i: int| pair_sign(x[i], x[i + lag]);
        let g = |i: int| pair_sign(y[i], y[i + lag]);
        if lag % 2 == 0 {
            assert forall|i: int| 0 <= i < n - lag implies #[trigger] g(i) == f(i) by {
                assert((i + lag) % 2 == i % 2);
            }
            lemma_sum_ext(g, f, 0, n - lag);
        } else {
            let nf = |i: int| -f(i);
            assert forall|i: int| 0 <= i < n - lag implies #[trigger] g(i) == nf(i) by {
                assert((i + lag) % 2 != i % 2);
            }
            lemma_sum_ext(g, nf, 0, n - lag);
            crate::sums::lemma_sum_add(f, nf, |i: int| 0, 0, n - lag);
            crate::sums::lemma_sum_zero(|i: int| 0, 0, n - lag);
        }
    }
    lemma_energy_from_correlations(x, y);
}

/// Law: the completions of the reversed stored signs are the reversed completions.
pub proof fn lemma_completion_reversed(s: Seq<bool>, m: int, free: Seq<bool>)
    requires
        0 <= m,
        s.len() == 2 * m,
    ensures
        completion(reversed(s), m, reversed(free)) == reversed(completion(s, m, free)),
{
    let x = completion(s, m, free);
    let a = completion(reversed(s), m, reversed(free));
    let n = x.len() as int;
    assert forall|j: int| 0 <= j < n implies #[trigger] a[j] == reversed(x)[j] by {
        let f = free.len() as int;
        if j < m {
            assert(a[j] == s[2 * m - 1 - j]);
            assert(x[n - 1 - j] == s.skip(m)[n - 1 - j - m - f]);
        } else if j < m + f {
            assert(a[j] == free[f - 1 - (j - m)]);
        } else {
            assert(a[j] == reversed(s).skip(m)[j - m - f]);
        }
    }
    assert(a =~= reversed(x));
}

/// Law: the completions of the flipped stored signs are the flipped completions.
pub proof fn lemma_completion_complemented(s: Seq<bool>, m: int, free: Seq<bool>)
    requires
        0 <= m,
        s.len() == 2 * m,
    ensures
        completion(complemented(s), m, complemented(free)) == complemented(completion(s, m, free)),
{
    let x = completion(s, m, free);
    let a = completion(complemented(s), m, complemented(free));
    assert forall|j: int| 0 <= j < x.len() implies #[trigger] a[j] == complemented(x)[j] by {
        let f = free.len() as int;
        if j >= m + f {
            assert(a[j] == complemented(s).skip(m)[j - m - f]);
            assert(x[j] == s.skip(m)[j - m - f]);
        }
    }
    assert(a =~= complemented(x));
}

/// Law: the completions of the stored signs with their even positions flipped,
/// filled with the free signs flipped at even positions of the sequence, are
/// the completions with their even positions flipped.
pub proof fn lemma_completion_alternated(s: Seq<bool>, n: int, m: int, free: Seq<bool>)
    requires
        0 <= m,
        2 * m <= n,
        s.len() == 2 * m,
        free.len() == n - 2 * m,
    ensures
        completion(
            alternated(s, n),
            m,
            Seq::new(free.len(), |i: int| if (m + i) % 2 == 0 { !free[i] } else { free[i] }),
        ) == even_flipped(completion(s, m, free)),
{
    let x = completion(s, m, free);
    let ff = Seq::new(free.len(), |i: int| if (m + i) % 2 == 0 { !free[i] } else { free[i] });
    let a = completion(alternated(s, n), m, ff);
    assert forall|j: int| 0 <= j < n implies #[trigger] a[j] == even_flipped(x)[j] by {
        let f = free.len() as int;
        if j >= m + f {
            let k = j - (n - 2 * m);
            assert(a[j] == alternated(s, n).skip(m)[j - m - f]);
            assert(x[j] == s.skip(m)[j - m - f]);
            assert(alternated(s, n)[k] == if (2 * m - 1 - k) % 2 != n % 2 { !s[k] } else { s[k] });
        }
    }
    assert(a =~= even_flipped(x));
}

} // verus!
