//! The partial sequence that the search extends, with its energy bookkeeping.

use vstd::prelude::*;
use vstd::string::StringExecFns;
use crate::sums::sum_of;
use crate::model::{
    correlation, fixed_correlation, free_max, free_min, length_ok, lemma_length_small,
};
use crate::fixed_lemmas::{
    left_term, right_term, lemma_fixed_correlation_split, without_middle, grow_delta,
    lemma_fixed_correlation_grow, last_delta, lemma_correlation_last,
};

verus! {

/// A sequence of `n` signs whose `m` first and `m` last positions are fixed.
///
/// `sequence` holds the `2 * m` fixed signs (left end, then right end);
/// `fixed_energys[k]` is meant to hold the correlation at lag `k + 1` of the pairs
/// whose two positions are fixed, and `u_max[k]`, `u_min[k]` how much the other
/// pairs can add to it or take away from it. The four `branched_*` flags record
/// which extensions of this node have been handed out.
#[derive(Debug)]
pub struct BitSequence {
    pub sequence: Vec<bool>,
    pub fixed_energys: Vec<isize>,
    pub u_min: Vec<usize>,
    pub u_max: Vec<usize>,
    pub m: usize,
    pub n: usize,
    pub branched_pp: bool,
    pub branched_pm: bool,
    pub branched_mp: bool,
    pub branched_mm: bool,
}

impl BitSequence {
    /// The stored signs, the fixed-pair correlations and the bounds have the
    /// lengths that `n` and `m` ask for.
    pub open spec fn shape_ok(&self) -> bool {
        &&& length_ok(self.n as int)
        &&& 2 * self.m <= self.n
        &&& self.sequence@.len() == 2 * self.m
        &&& self.fixed_energys@.len() == self.n - 1
        &&& self.u_max@.len() == self.n - 1
        &&& self.u_min@.len() == self.n - 1
    }

    /// Every `fixed_energys[k]` is the fixed-pair correlation at lag `k + 1`.
    pub open spec fn energies_ok(&self) -> bool {
        forall|k: int|
            0 <= k < self.n - 1 ==> #[trigger] self.fixed_energys@[k] as int == fixed_correlation(
                self.sequence@,
                self.n as int,
                self.m as int,
                k + 1,
            )
    }

    /// Every `u_max[k]` and `u_min[k]` is the range of the free pairs at lag `k + 1`.
    pub open spec fn bounds_ok(&self) -> bool {
        forall|k: int|
            0 <= k < self.n - 1 ==> {
                &&& #[trigger] self.u_max@[k] as int == free_max(
                    self.sequence@,
                    self.n as int,
                    self.m as int,
                    k + 1,
                )
                &&& self.u_min@[k] as int == free_min(
                    self.sequence@,
                    self.n as int,
                    self.m as int,
                    k + 1,
                )
            }
    }

    /// A node of the search: shape, correlations and bounds all hold.
    pub open spec fn wf(&self) -> bool {
        self.shape_ok() && self.energies_ok() && self.bounds_ok()
    }

    /// The same node with other values for the correlations and bounds.
    pub open spec fn same_except_energies(&self, other: &Self) -> bool {
        &&& self.sequence@ == other.sequence@
        &&& self.m == other.m
        &&& self.n == other.n
        &&& self.branched_pp == other.branched_pp
        &&& self.branched_pm == other.branched_pm
        &&& self.branched_mp == other.branched_mp
        &&& self.branched_mm == other.branched_mm
    }

    /// All fields of the two nodes hold the same values.
    pub open spec fn same_as(&self, other: &Self) -> bool {
        &&& self.same_except_energies(other)
        &&& self.fixed_energys@ == other.fixed_energys@
        &&& self.u_max@ == other.u_max@
        &&& self.u_min@ == other.u_min@
    }

    /// The stored signs written as `+` for `true` and `-` for `false`.
    pub fn to_pm_string(&self) -> (r: String)
        ensures
            r@ == self.sequence@.map_values(|b: bool| if b { '+' } else { '-' }),
    {
        let mut res = String::new();
        let len = self.sequence.len();
        for i in 0..len
            invariant
                len == self.sequence@.len(),
                res@ == self.sequence@.take(i as int).map_values(|b: bool| if b { '+' } else { '-' }),
        {
            proof {
                reveal_strlit("+");
                reveal_strlit("-");
            }
            if self.sequence[i] {
                res.append("+");
            } else {
                res.append("-");
            }
            assert(self.sequence@.take(i + 1) == self.sequence@.take(i as int).push(self.sequence@[i as int]));
            assert(res@ =~= self.sequence@.take(i + 1).map_values(|b: bool| if b { '+' } else { '-' }));
        }
        assert(self.sequence@.take(len as int) == self.sequence@);
        res
    }

    /// An empty sequence of the given length, with nothing fixed.
    pub fn new(length: usize) -> (r: Self)
        ensures
            r.sequence@ == Seq::<bool>::empty(),
            r.fixed_energys@ == Seq::<isize>::empty(),
            r.u_min@ == Seq::<usize>::empty(),
            r.u_max@ == Seq::<usize>::empty(),
            r.m == 0,
            r.n == length,
            !r.branched_pp && !r.branched_pm && !r.branched_mp && !r.branched_mm,
    {
        BitSequence {
            sequence: Vec::new(),
            fixed_energys: Vec::new(),
            u_min: Vec::new(),
            u_max: Vec::new(),
            m: 0,
            n: length,
            branched_pp: false,
            branched_pm: false,
            branched_mp: false,
            branched_mm: false,
        }
    }

    /// Sets all `n - 1` fixed-pair correlations to zero.
    pub fn initialize_fixed_energys(&mut self)
        requires
            old(self).n >= 1,
        ensures
            final(self).fixed_energys@ == Seq::new((old(self).n - 1) as nat, |k: int| 0isize),
            final(self).same_except_energies(old(self)),
            final(self).u_max@ == old(self).u_max@,
            final(self).u_min@ == old(self).u_min@,
    {
        self.fixed_energys = vec![0; self.n - 1];
        assert(self.fixed_energys@ =~= Seq::new((self.n - 1) as nat, |k: int| 0isize));
    }

    /// Adds to every `fixed_energys[k]` the fixed-pair correlation at lag `k + 1`,
    /// computed from scratch.
    pub fn multi_update_fixed_energys(&mut self)
        requires
            length_ok(old(self).n as int),
            2 * old(self).m <= old(self).n,
            old(self).sequence@.len() == 2 * old(self).m,
            old(self).fixed_energys@.len() == old(self).n - 1,
            forall|k: int|
                0 <= k < old(self).n - 1 ==> isize::MIN + old(self).n <= #[trigger] old(
                    self,
                ).fixed_energys@[k] <= isize::MAX - old(self).n,
        ensures
            final(self).same_except_energies(old(self)),
            final(self).u_max@ == old(self).u_max@,
            final(self).u_min@ == old(self).u_min@,
            final(self).fixed_energys@.len() == old(self).fixed_energys@.len(),
            forall|k: int|
                0 <= k < old(self).n - 1 ==> #[trigger] final(self).fixed_energys@[k] as int == old(
                    self,
                ).fixed_energys@[k] + fixed_correlation(
                    old(self).sequence@,
                    old(self).n as int,
                    old(self).m as int,
                    k + 1,
                ),
    {
        let m = self.m;
        let n = self.n;
        let ghost s = self.sequence@;
        let ghost f0 = self.fixed_energys@;

        for k in 0..(n - 1)
            invariant
                m == self.m,
                n == self.n,
                length_ok(n as int),
                2 * m <= n,
                s == self.sequence@,
                s.len() == 2 * m,
                self.fixed_energys@.len() == n - 1,
                f0.len() == n - 1,
                forall|j: int|
                    0 <= j < n - 1 ==> isize::MIN + n <= #[trigger] f0[j] <= isize::MAX - n,
                forall|j: int|
                    0 <= j < k ==> #[trigger] self.fixed_energys@[j] as int == f0[j]
                        + fixed_correlation(s, n as int, m as int, j + 1),
                forall|j: int| k <= j < n - 1 ==> #[trigger] self.fixed_energys@[j] == f0[j],
                self.same_except_energies(old(self)),
                self.u_max@ == old(self).u_max@,
                self.u_min@ == old(self).u_min@,
        {
            let ghost lag = k + 1;
            let ghost lt = |i: int| left_term(s, n as int, m as int, lag as int, i);
            let ghost rt = |i: int| right_term(s, m as int, lag as int, i);
            for i in 0..m
                invariant
                    m == self.m,
                    n == self.n,
                    length_ok(n as int),
                    2 * m <= n,
                    k < n - 1,
                    lag == k + 1,
                    lt == (|i: int| left_term(s, n as int, m as int, lag as int, i)),
                    rt == (|i: int| right_term(s, m as int, lag as int, i)),
                    s == self.sequence@,
                    s.len() == 2 * m,
                    self.fixed_energys@.len() == n - 1,
                    f0.len() == n - 1,
                    isize::MIN + n <= f0[k as int] <= isize::MAX - n,
                    self.fixed_energys@[k as int] as int == f0[k as int] + sum_of(lt, 0, i as int),
                    forall|j: int|
                        0 <= j < k ==> #[trigger] self.fixed_energys@[j] as int == f0[j]
                            + fixed_correlation(s, n as int, m as int, j + 1),
                    forall|j: int| k < j < n - 1 ==> #[trigger] self.fixed_energys@[j] == f0[j],
                    self.same_except_energies(old(self)),
                    self.u_max@ == old(self).u_max@,
                    self.u_min@ == old(self).u_min@,
            {
                proof {
                    lemma_left_term_bound(s, n as int, m as int, lag as int);
                    crate::sums::lemma_sum_bounds(lt, 0, i as int, -1, 1);
                }
                let old_sum = self.fixed_energys[k];
                let mut v = old_sum;
                if i + (k + 1) < m {
                    if self.sequence[i] ^ self.sequence[i + (k + 1)] {
                        v = v - 1;
                    } else {
                        v = v + 1;
                    }
                }
                if i + (k + 1) >= n - m && i + (k + 1) < n {
                    if self.sequence[i] ^ self.sequence[i + (k + 1) - (n - 2 * m)] {
                        v = v - 1;
                    } else {
                        v = v + 1;
                    }
                }
                self.fixed_energys.set(k, v);
                assert(sum_of(lt, 0, i + 1) == sum_of(lt, 0, i as int) + lt(i as int));
            }
            for i in 0..m
                invariant
                    m == self.m,
                    n == self.n,
                    length_ok(n as int),
                    2 * m <= n,
                    k < n - 1,
                    lag == k + 1,
                    lt == (|i: int| left_term(s, n as int, m as int, lag as int, i)),
                    rt == (|i: int| right_term(s, m as int, lag as int, i)),
                    s == self.sequence@,
                    s.len() == 2 * m,
                    self.fixed_energys@.len() == n - 1,
                    f0.len() == n - 1,
                    isize::MIN + n <= f0[k as int] <= isize::MAX - n,
                    self.fixed_energys@[k as int] as int == f0[k as int] + sum_of(lt, 0, m as int)
                        + sum_of(rt, 0, i as int),
                    forall|j: int|
                        0 <= j < k ==> #[trigger] self.fixed_energys@[j] as int == f0[j]
                            + fixed_correlation(s, n as int, m as int, j + 1),
                    forall|j: int| k < j < n - 1 ==> #[trigger] self.fixed_energys@[j] == f0[j],
                    self.same_except_energies(old(self)),
                    self.u_max@ == old(self).u_max@,
                    self.u_min@ == old(self).u_min@,
            {
                proof {
                    lemma_left_term_bound(s, n as int, m as int, lag as int);
                    crate::sums::lemma_sum_bounds(lt, 0, m as int, -1, 1);
                    crate::sums::lemma_sum_bounds(rt, 0, i as int, -1, 1);
                }
                let old_sum = self.fixed_energys[k];
                let mut v = old_sum;
                if n >= n - m + 1 + i + (k + 1) {
                    if self.sequence[2 * m - 1 - i] ^ self.sequence[2 * m - 1 - i - (k + 1)] {
                        v = v - 1;
                    } else {
                        v = v + 1;
                    }
                }
                self.fixed_energys.set(k, v);
                assert(sum_of(rt, 0, i + 1) == sum_of(rt, 0, i as int) + rt(i as int));
            }
            proof {
                lemma_fixed_correlation_split(s, n as int, m as int, lag as int);
            }
        }
    }

    /// Fixes the next two positions: `left` at position `m` and `right` at
    /// position `n - m - 1`, stored in the middle of `sequence`.
    pub fn set_bits(&mut self, left: bool, right: bool)
        requires
            old(self).m <= old(self).sequence@.len(),
            old(self).m < usize::MAX,
        ensures
            final(self).sequence@ == old(self).sequence@.insert(old(self).m as int, left).insert(
                old(self).m + 1,
                right,
            ),
            final(self).m == old(self).m + 1,
            final(self).n == old(self).n,
            final(self).fixed_energys@ == old(self).fixed_energys@,
            final(self).u_max@ == old(self).u_max@,
            final(self).u_min@ == old(self).u_min@,
            final(self).branched_pp == old(self).branched_pp,
            final(self).branched_pm == old(self).branched_pm,
            final(self).branched_mp == old(self).branched_mp,
            final(self).branched_mm == old(self).branched_mm,
    {
        let mid = self.m;
        self.sequence.insert(mid, left);
        self.sequence.insert(mid + 1, right);
        self.m += 1;
    }

    /// After `set_bits`, adds to every fixed-pair correlation the pairs that join
    /// one of the two new positions to a fixed position.
    pub fn update_fixed_energys(&mut self)
        requires
            length_ok(old(self).n as int),
            1 <= old(self).m,
            2 * old(self).m <= old(self).n,
            old(self).sequence@.len() == 2 * old(self).m,
            old(self).fixed_energys@.len() == old(self).n - 1,
            forall|k: int|
                0 <= k < old(self).n - 1 ==> isize::MIN + 4 <= #[trigger] old(
                    self,
                ).fixed_energys@[k] <= isize::MAX - 4,
        ensures
            final(self).same_except_energies(old(self)),
            final(self).u_max@ == old(self).u_max@,
            final(self).u_min@ == old(self).u_min@,
            final(self).fixed_energys@.len() == old(self).fixed_energys@.len(),
            forall|k: int|
                0 <= k < old(self).n - 1 ==> #[trigger] final(self).fixed_energys@[k] as int == old(
                    self,
                ).fixed_energys@[k] + fixed_correlation(
                    old(self).sequence@,
                    old(self).n as int,
                    old(self).m as int,
                    k + 1,
                ) - fixed_correlation(
                    without_middle(old(self).sequence@, old(self).m as int),
                    old(self).n as int,
                    old(self).m - 1,
                    k + 1,
                ),
    {
        let m = self.m;
        let n = self.n;
        let ghost s = self.sequence@;
        let ghost f0 = self.fixed_energys@;
        proof {
            lemma_length_small(n as int);
        }

        for k in 0..(n - m)
            invariant
                m == self.m,
                n == self.n,
                length_ok(n as int),
                n < 0x20_0000,
                1 <= m,
                2 * m <= n,
                s == self.sequence@,
                s.len() == 2 * m,
                self.fixed_energys@.len() == n - 1,
                f0.len() == n - 1,
                forall|j: int|
                    0 <= j < n - 1 ==> isize::MIN + 4 <= #[trigger] f0[j] <= isize::MAX - 4,
                forall|j: int|
                    0 <= j < k ==> #[trigger] self.fixed_energys@[j] as int == f0[j] + grow_delta(
                        s,
                        n as int,
                        m as int,
                        j + 1,
                    ),
                forall|j: int| k <= j < n - 1 ==> #[trigger] self.fixed_energys@[j] == f0[j],
                self.same_except_energies(old(self)),
                self.u_max@ == old(self).u_max@,
                self.u_min@ == old(self).u_min@,
        {
            let mut v = self.fixed_energys[k];
            if m + k >= n - m {
                if self.sequence[m - 1] ^ self.sequence[3 * m + k - n] {
                    v = v - 1;
                } else {
                    v = v + 1;
                }
            }
            if m + k > n - m {
                if self.sequence[m] ^ self.sequence[n - m - (k + 1)] {
                    v = v - 1;
                } else {
                    v = v + 1;
                }
            }
            if m >= k + 2 {
                if self.sequence[m - 1] ^ self.sequence[m - (k + 2)] {
                    v = v - 1;
                } else {
                    v = v + 1;
                }
                if self.sequence[m] ^ self.sequence[m + (k + 1)] {
                    v = v - 1;
                } else {
                    v = v + 1;
                }
            }
            self.fixed_energys.set(k, v);
        }
        proof {
            assert forall|j: int| 0 <= j < n - 1 implies #[trigger] self.fixed_energys@[j] as int
                == f0[j] + fixed_correlation(s, n as int, m as int, j + 1) - fixed_correlation(
                without_middle(s, m as int),
                n as int,
                m - 1,
                j + 1,
            ) by {
                lemma_fixed_correlation_grow(s, n as int, m as int, j + 1);
            }
        }
    }

    /// Fixes the single free position of a sequence of odd length and adds to
    /// every correlation the two pairs that join it to the rest: the result
    /// holds the complete sequence.
    pub fn set_last_bit(&mut self, bit: bool)
        requires
            length_ok(old(self).n as int),
            old(self).n == 2 * old(self).m + 1,
            old(self).sequence@.len() == 2 * old(self).m,
            old(self).fixed_energys@.len() == old(self).n - 1,
            forall|k: int|
                0 <= k < old(self).n - 1 ==> isize::MIN + 2 <= #[trigger] old(
                    self,
                ).fixed_energys@[k] <= isize::MAX - 2,
        ensures
            final(self).sequence@ == old(self).sequence@.insert(old(self).m as int, bit),
            final(self).m == old(self).m + 1,
            final(self).n == old(self).n,
            final(self).u_max@ == old(self).u_max@,
            final(self).u_min@ == old(self).u_min@,
            final(self).branched_pp == old(self).branched_pp,
            final(self).branched_pm == old(self).branched_pm,
            final(self).branched_mp == old(self).branched_mp,
            final(self).branched_mm == old(self).branched_mm,
            final(self).fixed_energys@.len() == old(self).fixed_energys@.len(),
            forall|k: int|
                0 <= k < old(self).n - 1 ==> #[trigger] final(self).fixed_energys@[k] as int == old(
                    self,
                ).fixed_energys@[k] + correlation(final(self).sequence@, k + 1)
                    - fixed_correlation(
                    old(self).sequence@,
                    old(self).n as int,
                    old(self).m as int,
                    k + 1,
                ),
    {
        let ghost s = self.sequence@;
        let ghost f0 = self.fixed_energys@;
        let ghost m0 = self.m as int;
        proof {
            lemma_length_small(self.n as int);
        }
        let mid = self.sequence.len() / 2;
        self.sequence.insert(mid, bit);
        self.m += 1;
        let n = self.n;
        let m = self.m;
        let ghost x = self.sequence@;

        for k in 0..(n - m)
            invariant
                m == self.m,
                n == self.n,
                m == m0 + 1,
                n == 2 * m0 + 1,
                n < 0x20_0000,
                x == self.sequence@,
                x == s.insert(m0, bit),
                s.len() == 2 * m0,
                self.fixed_energys@.len() == n - 1,
                f0.len() == n - 1,
                forall|j: int|
                    0 <= j < n - 1 ==> isize::MIN + 2 <= #[trigger] f0[j] <= isize::MAX - 2,
                forall|j: int|
                    0 <= j < k ==> #[trigger] self.fixed_energys@[j] as int == f0[j] + last_delta(
                        x,
                        m0,
                        j + 1,
                    ),
                forall|j: int| k <= j < n - 1 ==> #[trigger] self.fixed_energys@[j] == f0[j],
                self.u_max@ == old(self).u_max@,
                self.u_min@ == old(self).u_min@,
                self.branched_pp == old(self).branched_pp,
                self.branched_pm == old(self).branched_pm,
                self.branched_mp == old(self).branched_mp,
                self.branched_mm == old(self).branched_mm,
        {
            let mut v = self.fixed_energys[k];
            if self.sequence[m - 1] ^ self.sequence[m - 2 - k] {
                v = v - 1;
            } else {
                v = v + 1;
            }
            if self.sequence[m - 1] ^ self.sequence[m + k] {
                v = v - 1;
            } else {
                v = v + 1;
            }
            self.fixed_energys.set(k, v);
        }
        proof {
            assert forall|j: int| 0 <= j < n - 1 implies #[trigger] self.fixed_energys@[j] as int
                == f0[j] + correlation(x, j + 1) - fixed_correlation(s, n as int, m0, j + 1) by {
                lemma_correlation_last(s, m0, bit, j + 1);
            }
        }
    }
}

/// Each term is between `-1` and `1`.
proof fn lemma_left_term_bound(s: Seq<bool>, n: int, m: int, lag: int)
    requires
        2 * m <= n,
    ensures
        forall|j: int| -1 <= #[trigger] left_term(s, n, m, lag, j) <= 1,
        forall|j: int| -1 <= #[trigger] right_term(s, m, lag, j) <= 1,
{
}

impl Clone for BitSequence {
    /// A copy of every field.
    fn clone(&self) -> (r: Self)
        ensures
            r.same_as(self),
    {
        let r = BitSequence {
            sequence: self.sequence.clone(),
            fixed_energys: self.fixed_energys.clone(),
            u_min: self.u_min.clone(),
            u_max: self.u_max.clone(),
            m: self.m,
            n: self.n,
            branched_pp: self.branched_pp,
            branched_pm: self.branched_pm,
            branched_mp: self.branched_mp,
            branched_mm: self.branched_mm,
        };
        assert(r.sequence@ =~= self.sequence@);
        assert(r.fixed_energys@ =~= self.fixed_energys@);
        assert(r.u_min@ =~= self.u_min@);
        assert(r.u_max@ =~= self.u_max@);
        r
    }
}

} // verus!
