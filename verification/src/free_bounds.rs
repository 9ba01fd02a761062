//! The ranges that the pairs touching a free position can add to each
//! correlation: computed from scratch for a root, and updated when two more
//! positions are fixed.

use vstd::prelude::*;
use crate::sums::sum_of;
use crate::model::{
    first_start, segment_len, segment_end, segment_max, segment_min, value_at, free_max, free_min,
    length_ok, lemma_length_small,
};
use crate::fixed_lemmas::without_middle;
use crate::chain_lemmas::{
    chain_count, chain_start, closed_chains, lemma_chain_begin, lemma_chain_at, lemma_chain_finish,
    lemma_skip_empty, lemma_free_far,
};
use crate::segment_lemmas::{lemma_segment_closed, lemma_free_sum_bound, lemma_segment_bounds};
use crate::grow_lemmas::{grow_bound_delta, lemma_bounds_grow};
use crate::bit_sequence::BitSequence;

verus! {

impl BitSequence {
    /// Computes from scratch, for every lag, how much the pairs touching a free
    /// position can add to the correlation and take away from it.
    pub fn multi_update_u_min_max(&mut self)
        requires
            length_ok(old(self).n as int),
            2 * old(self).m <= old(self).n,
            old(self).sequence@.len() == 2 * old(self).m,
        ensures
            final(self).same_except_energies(old(self)),
            final(self).fixed_energys@ == old(self).fixed_energys@,
            final(self).u_max@.len() == old(self).n - 1,
            final(self).u_min@.len() == old(self).n - 1,
            final(self).bounds_ok(),
    {
        proof {
            lemma_length_small(self.n as int);
        }
        self.u_max = vec![0; self.n - 1];
        self.u_min = vec![0; self.n - 1];
        assert(self.u_max@ =~= Seq::new((self.n - 1) as nat, |k: int| 0usize));
        assert(self.u_min@ =~= Seq::new((self.n - 1) as nat, |k: int| 0usize));

        let m = self.m;
        let n = self.n;
        let ghost s = self.sequence@;

        for k in 0..n - m - 1
            invariant
                m == self.m,
                n == self.n,
                length_ok(n as int),
                n < 0x20_0000,
                2 * m <= n,
                s == self.sequence@,
                s.len() == 2 * m,
                self.u_max@.len() == n - 1,
                self.u_min@.len() == n - 1,
                forall|j: int|
                    0 <= j < k ==> #[trigger] self.u_max@[j] as int == free_max(
                        s,
                        n as int,
                        m as int,
                        j + 1,
                    ),
                forall|j: int|
                    0 <= j < k ==> #[trigger] self.u_min@[j] as int == free_min(
                        s,
                        n as int,
                        m as int,
                        j + 1,
                    ),
                forall|j: int| k <= j < n - 1 ==> #[trigger] self.u_max@[j] == 0,
                forall|j: int| k <= j < n - 1 ==> #[trigger] self.u_min@[j] == 0,
                self.same_except_energies(old(self)),
                self.fixed_energys@ == old(self).fixed_energys@,
        {
            let (sum_max, sum_min) = self.free_ranges(k);
            self.u_max.set(k, sum_max);
            self.u_min.set(k, sum_min);
        }
        proof {
            assert forall|j: int| n - m - 1 <= j < n - 1 implies #[trigger] self.u_max@[j] as int
                == free_max(s, n as int, m as int, j + 1) by {
                lemma_free_far(s, n as int, m as int, j + 1);
            }
            assert forall|j: int| n - m - 1 <= j < n - 1 implies #[trigger] self.u_min@[j] as int
                == free_min(s, n as int, m as int, j + 1) by {
                lemma_free_far(s, n as int, m as int, j + 1);
            }
        }
    }

    /// For lag `k + 1`, the sums over the chains holding a free pair of what
    /// each can add and take away, computed from scratch.
    fn free_ranges(&self, k: usize) -> (r: (usize, usize))
        requires
            length_ok(self.n as int),
            2 * self.m <= self.n,
            self.sequence@.len() == 2 * self.m,
            k + 1 < self.n - self.m,
        ensures
            r.0 as int == free_max(self.sequence@, self.n as int, self.m as int, k + 1),
            r.1 as int == free_min(self.sequence@, self.n as int, self.m as int, k + 1),
    {
        let m = self.m;
        let n = self.n;
        let ghost s = self.sequence@;
        proof {
            lemma_length_small(n as int);
        }
        let ghost lag = k + 1;
        let ghost lo = first_start(m as int, lag as int);
        let ghost fx = |t: int| segment_max(s, n as int, m as int, lag as int, t);
        let ghost fm = |t: int| segment_min(s, n as int, m as int, lag as int, t);
        proof {
            lemma_chain_begin(n as int, m as int, lag as int);
        }
        let base_amount = if (k + 1) > n / 2 {
            n - (k + 1)
        } else {
            k + 1
        };
        let disappeared = if m > (n - (k + 1)) / 2 {
            2 * m - (n - (k + 1))
        } else {
            0
        };
        assert(disappeared == closed_chains(n as int, m as int, lag as int));
        let amount = base_amount - disappeared;
        assert(amount == chain_count(n as int, m as int, lag as int));
        proof {
            lemma_skip_empty(s, n as int, m as int, lag as int, lo, lo, chain_start(n as int, m as int, lag as int, 0));
        }

        let mut total_max: usize = 0;
        let mut total_min: usize = 0;
        for i in 0..amount
            invariant
                m == self.m,
                n == self.n,
                length_ok(n as int),
                s == self.sequence@,
                n < 0x20_0000,
                2 * m <= n,
                k < n - m - 1,
                lag == k + 1,
                lo == first_start(m as int, lag as int),
                fx == (|t: int| segment_max(s, n as int, m as int, lag as int, t)),
                fm == (|t: int| segment_min(s, n as int, m as int, lag as int, t)),
                amount == chain_count(n as int, m as int, lag as int),
                disappeared == closed_chains(n as int, m as int, lag as int),
                s == self.sequence@,
                s.len() == 2 * m,
                total_max <= n,
                total_min <= n,
                total_max as int == sum_of(fx, lo, chain_start(n as int, m as int, lag as int, i as int)),
                total_min as int == sum_of(fm, lo, chain_start(n as int, m as int, lag as int, i as int)),
                chain_start(n as int, m as int, lag as int, i as int) <= lo + lag,
        {
            let ghost t = chain_start(n as int, m as int, lag as int, i as int);
            proof {
                lemma_chain_at(n as int, m as int, lag as int, i as int);
                lemma_free_sum_bound(s, n as int, m as int, lag as int, t + 1);
                lemma_skip_empty(s, n as int, m as int, lag as int, lo, t + 1, chain_start(n as int, m as int, lag as int, i + 1));
                assert(sum_of(fx, lo, t + 1) == sum_of(fx, lo, t) + fx(t));
                assert(sum_of(fm, lo, t + 1) == sum_of(fm, lo, t) + fm(t));
            }
            let (seg_max, seg_min) = self.segment_range(k, i, disappeared);
            total_max = total_max + seg_max;
            total_min = total_min + seg_min;
        }
        proof {
            lemma_chain_finish(n as int, m as int, lag as int);
            lemma_skip_empty(s, n as int, m as int, lag as int, lo, chain_start(n as int, m as int, lag as int, amount as int), lo + lag);
        }
            (total_max, total_min)
    }

    /// The range that the `i`-th chain of lag `k + 1` holding a free pair adds.
    fn segment_range(&self, k: usize, i: usize, disappeared: usize) -> (r: (usize, usize))
        requires
            length_ok(self.n as int),
            2 * self.m <= self.n,
            self.sequence@.len() == 2 * self.m,
            k < self.n - self.m - 1,
            i < chain_count(self.n as int, self.m as int, k + 1),
            disappeared == closed_chains(self.n as int, self.m as int, k + 1),
        ensures
            r.0 as int == segment_max(
                self.sequence@,
                self.n as int,
                self.m as int,
                k + 1,
                chain_start(self.n as int, self.m as int, k + 1, i as int),
            ),
            r.1 as int == segment_min(
                self.sequence@,
                self.n as int,
                self.m as int,
                k + 1,
                chain_start(self.n as int, self.m as int, k + 1, i as int),
            ),
    {
        let m = self.m;
        let n = self.n;
        let ghost s = self.sequence@;
        let ghost lag = k + 1;
        let ghost t = chain_start(n as int, m as int, lag as int, i as int);
        proof {
            lemma_length_small(n as int);
            lemma_chain_at(n as int, m as int, lag as int, i as int);
            lemma_segment_closed(n as int, m as int, lag as int, t);
            lemma_segment_bounds(s, n as int, m as int, lag as int, t);
        }
        let first_chain = if m <= k + 1 {
            0
        } else {
            m - (k + 1)
        };
        let chain = if i + first_chain + (k + 1) >= n - m {
            i + first_chain + disappeared
        } else {
            i + first_chain
        };
        assert(chain == t);
        let chain_length = if m <= k + 1 {
            ((n - (k + 1) - 1 - chain) / (k + 1)) + 1
        } else {
            ((n - m - 1 - chain) / (k + 1)) + 1
        };
        assert(chain_length == segment_len(n as int, m as int, lag as int, t));
        proof {
            assert(chain_length * (k + 1) < n) by (nonlinear_arith)
                requires
                    segment_end(n as int, m as int, lag as int, t) == t + chain_length * lag,
                    segment_end(n as int, m as int, lag as int, t) < n,
                    t >= 0,
                    lag == k + 1,
            ;
        }
        proof {
            if t < m {
                assert(value_at(s, n as int, m as int, t) == s[first_chain + i]);
            }
        }
        if chain >= m || chain + chain_length * (k + 1) < n - m {
            (chain_length, chain_length)
        } else if chain_length % 2 == 0 {
            if self.sequence[first_chain + i] ^ self.sequence[first_chain + i + chain_length * (k + 1) - (n - 2 * m)] {
                (chain_length - 2, chain_length - 2)
            } else {
                (chain_length, chain_length)
            }
        } else if self.sequence[first_chain + i] ^ self.sequence[first_chain + i + chain_length * (k + 1) - (n - 2 * m)] {
            (chain_length - 2, chain_length)
        } else {
            (chain_length, chain_length - 2)
        }
    }

    /// After `set_bits`, updates for every lag the range of the pairs touching
    /// a free position: only the chains through the two new positions change.
    pub fn update_u_min_max(&mut self)
        requires
            length_ok(old(self).n as int),
            1 <= old(self).m,
            2 * old(self).m <= old(self).n,
            old(self).sequence@.len() == 2 * old(self).m,
            old(self).u_max@.len() == old(self).n - 1,
            old(self).u_min@.len() == old(self).n - 1,
            forall|k: int|
                0 <= k < old(self).n - 1 ==> #[trigger] old(self).u_max@[k] as int == free_max(
                    without_middle(old(self).sequence@, old(self).m as int),
                    old(self).n as int,
                    old(self).m - 1,
                    k + 1,
                ),
            forall|k: int|
                0 <= k < old(self).n - 1 ==> #[trigger] old(self).u_min@[k] as int == free_min(
                    without_middle(old(self).sequence@, old(self).m as int),
                    old(self).n as int,
                    old(self).m - 1,
                    k + 1,
                ),
        ensures
            final(self).same_except_energies(old(self)),
            final(self).fixed_energys@ == old(self).fixed_energys@,
            final(self).u_max@.len() == old(self).n - 1,
            final(self).u_min@.len() == old(self).n - 1,
            final(self).bounds_ok(),
    {
        let m = self.m;
        let n = self.n;
        let ghost s = self.sequence@;
        let ghost p = without_middle(s, m as int);
        proof {
            lemma_length_small(n as int);
            lemma_free_far(s, n as int, m as int, (n - m) as int);
        }

        self.u_max.set(n - m - 1, 0);
        self.u_min.set(n - m - 1, 0);
        proof {
            assert forall|j: int| n - m - 1 <= j < n - 1 implies #[trigger] self.u_max@[j] as int
                == free_max(s, n as int, m as int, j + 1) && self.u_min@[j] as int == free_min(
                s,
                n as int,
                m as int,
                j + 1,
            ) by {
                lemma_free_far(s, n as int, m as int, j + 1);
                if j > n - m - 1 {
                    lemma_free_far(p, n as int, m - 1, j + 1);
                }
            }
            assert forall|j: int| n - m - 1 <= j < n - 1 implies #[trigger] self.u_min@[j] as int
                == free_min(s, n as int, m as int, j + 1) by {
                assert(self.u_max@[j] as int == free_max(s, n as int, m as int, j + 1));
            }
        }

        for k in 0..(n - m - 1)
            invariant
                m == self.m,
                n == self.n,
                length_ok(n as int),
                n < 0x20_0000,
                1 <= m,
                2 * m <= n,
                s == self.sequence@,
                s.len() == 2 * m,
                p == without_middle(s, m as int),
                self.u_max@.len() == n - 1,
                self.u_min@.len() == n - 1,
                forall|j: int|
                    0 <= j < k ==> #[trigger] self.u_max@[j] as int == free_max(
                        s,
                        n as int,
                        m as int,
                        j + 1,
                    ),
                forall|j: int|
                    0 <= j < k ==> #[trigger] self.u_min@[j] as int == free_min(
                        s,
                        n as int,
                        m as int,
                        j + 1,
                    ),
                forall|j: int|
                    k <= j < n - m - 1 ==> #[trigger] self.u_max@[j] as int == free_max(
                        p,
                        n as int,
                        m - 1,
                        j + 1,
                    ),
                forall|j: int|
                    k <= j < n - m - 1 ==> #[trigger] self.u_min@[j] as int == free_min(
                        p,
                        n as int,
                        m - 1,
                        j + 1,
                    ),
                forall|j: int|
                    n - m - 1 <= j < n - 1 ==> #[trigger] self.u_max@[j] as int == free_max(
                        s,
                        n as int,
                        m as int,
                        j + 1,
                    ),
                forall|j: int|
                    n - m - 1 <= j < n - 1 ==> #[trigger] self.u_min@[j] as int == free_min(
                        s,
                        n as int,
                        m as int,
                        j + 1,
                    ),
                self.same_except_energies(old(self)),
                self.fixed_energys@ == old(self).fixed_energys@,
        {
            let ghost lag = (k + 1) as int;
            let vmax = self.u_max[k];
            let vmin = self.u_min[k];
            let (vmax, vmin) = if m <= k + 1 {
                self.shrink_bounds_small(k, vmax, vmin)
            } else {
                self.shrink_bounds_big(k, vmax, vmin)
            };
            proof {
                lemma_bounds_grow(s, n as int, m as int, lag);
            }
            self.u_max.set(k, vmax);
            self.u_min.set(k, vmin);
        }
    }

    /// The new bounds at lag `k + 1` when the new left position starts its chain.
    fn shrink_bounds_small(&self, k: usize, vmax: usize, vmin: usize) -> (r: (usize, usize))
        requires
            length_ok(self.n as int),
            1 <= self.m,
            2 * self.m <= self.n,
            self.sequence@.len() == 2 * self.m,
            k + 1 < self.n - self.m,
            self.m <= k + 1,
            vmax as int == free_max(
                without_middle(self.sequence@, self.m as int),
                self.n as int,
                self.m - 1,
                k + 1,
            ),
            vmin as int == free_min(
                without_middle(self.sequence@, self.m as int),
                self.n as int,
                self.m - 1,
                k + 1,
            ),
        ensures
            r.0 as int == vmax - grow_bound_delta(self.sequence@, self.n as int, self.m as int, k + 1).0,
            r.1 as int == vmin - grow_bound_delta(self.sequence@, self.n as int, self.m as int, k + 1).1,
    {
        let m = self.m;
        let n = self.n;
        let ghost s = self.sequence@;
        let ghost p = without_middle(s, m as int);
        let ghost lag = (k + 1) as int;
        let ghost delta = grow_bound_delta(s, n as int, m as int, lag);
        let mut vmax = vmax;
        let mut vmin = vmin;
        proof {
            lemma_length_small(n as int);
            lemma_bounds_grow(s, n as int, m as int, lag);
            lemma_free_sum_bound(s, n as int, m as int, lag, first_start(m as int, lag) + lag);
        }
        let chain_length = ((n - (k + 1) - m) / (k + 1)) + 1;
        proof {
            lemma_segment_closed(n as int, m as int, lag, m - 1);
            assert(chain_length * lag < n) by (nonlinear_arith)
                requires
                    segment_end(n as int, m as int, lag, m - 1) == (m - 1)
                        + segment_len(n as int, m as int, lag, m - 1) * lag,
                    segment_end(n as int, m as int, lag, m - 1) < n,
                    segment_len(n as int, m as int, lag, m - 1) == chain_length,
                    m >= 1,
            ;
        }
        if m - 1 + chain_length * (k + 1) == n - m {
            if chain_length == 1 {
                vmax -= 1;
                vmin -= 1;
            } else if self.sequence[m - 1] ^ self.sequence[m - 1 + chain_length * (k + 1) - (n - 2 * m)] {
                if chain_length % 2 == 0 {
                    vmax -= 2;
                    vmin -= 2;
                } else {
                    vmax -= 2;
                }
            } else if chain_length % 2 == 0 {
            } else {
                vmin -= 2;
            }
        } else if m - 1 + chain_length * (k + 1) > n - m {
            if chain_length == 1 {
                vmax -= 2;
                vmin -= 2;
            } else if chain_length % 2 == 0 {
                if self.sequence[m - 1] ^ self.sequence[m - 1 + chain_length * (k + 1) - (n - 2 * m)] {
                    vmax -= 2;
                    vmin -= 2;
                }
                if self.sequence[m] ^ self.sequence[n - m - chain_length * (k + 1)] {
                    vmax -= 2;
                    vmin -= 2;
                }
            } else {
                if self.sequence[m - 1] ^ self.sequence[m - 1 + chain_length * (k + 1) - (n - 2 * m)] {
                    vmax -= 2;
                } else {
                    vmin -= 2;
                }
                if self.sequence[m] ^ self.sequence[n - m - chain_length * (k + 1)] {
                    vmax -= 2;
                } else {
                    vmin -= 2;
                }
            }
        }
        (vmax, vmin)
    }

    /// The new bounds at lag `k + 1` when the new left position continues a chain of the left end.
    fn shrink_bounds_big(&self, k: usize, vmax: usize, vmin: usize) -> (r: (usize, usize))
        requires
            length_ok(self.n as int),
            1 <= self.m,
            2 * self.m <= self.n,
            self.sequence@.len() == 2 * self.m,
            k + 1 < self.n - self.m,
            self.m > k + 1,
            vmax as int == free_max(
                without_middle(self.sequence@, self.m as int),
                self.n as int,
                self.m - 1,
                k + 1,
            ),
            vmin as int == free_min(
                without_middle(self.sequence@, self.m as int),
                self.n as int,
                self.m - 1,
                k + 1,
            ),
        ensures
            r.0 as int == vmax - grow_bound_delta(self.sequence@, self.n as int, self.m as int, k + 1).0,
            r.1 as int == vmin - grow_bound_delta(self.sequence@, self.n as int, self.m as int, k + 1).1,
    {
        let m = self.m;
        let n = self.n;
        let ghost s = self.sequence@;
        let ghost p = without_middle(s, m as int);
        let ghost lag = (k + 1) as int;
        let ghost delta = grow_bound_delta(s, n as int, m as int, lag);
        let mut vmax = vmax;
        let mut vmin = vmin;
        proof {
            lemma_length_small(n as int);
            lemma_bounds_grow(s, n as int, m as int, lag);
            lemma_free_sum_bound(s, n as int, m as int, lag, first_start(m as int, lag) + lag);
        }
        let chain_length = ((n - 2 * m) / (k + 1)) + 1;
        proof {
            lemma_segment_closed(n as int, m as int, lag, m - 1);
            assert(chain_length * lag < n) by (nonlinear_arith)
                requires
                    segment_end(n as int, m as int, lag, m - 1) == (m - 1)
                        + segment_len(n as int, m as int, lag, m - 1) * lag,
                    segment_end(n as int, m as int, lag, m - 1) < n,
                    segment_len(n as int, m as int, lag, m - 1) == chain_length,
                    m >= 1,
            ;
        }
        if m - 1 + chain_length * (k + 1) == n - m {
            if chain_length == 1 {
                if self.sequence[m - 1 - (k + 1)] ^ self.sequence[m - 1 + chain_length * (k + 1) - (n - 2 * m) + (k + 1)] {
                    vmax -= 1;
                    vmin -= 3;
                } else {
                    vmax -= 3;
                    vmin -= 1;
                }
            } else if self.sequence[m - 1 - (k + 1)] ^ self.sequence[m - 1 + chain_length * (k + 1) - (n - 2 * m) + (k + 1)] {
                if self.sequence[m - 1] ^ self.sequence[m - 1 + chain_length * (k + 1) - (n - 2 * m)] {
                    vmax -= 2;
                    vmin -= 2;
                } else if chain_length % 2 == 0 {
                } else {
                    vmin -= 4;
                }
            } else {
                if self.sequence[m - 1] ^ self.sequence[m - 1 + chain_length * (k + 1) - (n - 2 * m)] {
                    if chain_length % 2 == 0 {
                        vmax -= 4;
                        vmin -= 4;
                    } else {
                        vmax -= 4;
                    }
                } else {
                    vmax -= 2;
                    vmin -= 2;
                }
            }
        } else if chain_length == 1 {
            if !(self.sequence[m - 1 - (k + 1)] ^ self.sequence[m - 1 + chain_length * (k + 1) - (n - 2 * m)]) {
                vmax -= 2;
                vmin -= 2;
            }
            if !(self.sequence[m + (k + 1)] ^ self.sequence[n - m - chain_length * (k + 1)]) {
                vmax -= 2;
                vmin -= 2;
            }
        } else if chain_length % 2 == 0 {
            if self.sequence[m - 1 - (k + 1)] ^ self.sequence[m - 1 + chain_length * (k + 1) - (n - 2 * m)] {
                if self.sequence[m - 1] ^ self.sequence[m - 1 + chain_length * (k + 1) - (n - 2 * m)] {
                    vmax -= 1;
                    vmin -= 3;
                } else {
                    vmax += 1;
                    vmin -= 1;
                }
            } else {
                if self.sequence[m - 1] ^ self.sequence[m - 1 + chain_length * (k + 1) - (n - 2 * m)] {
                    vmax -= 3;
                    vmin -= 1;
                } else {
                    vmax -= 1;
                    vmin += 1;
                }
            }
            if self.sequence[m + (k + 1)] ^ self.sequence[n - m - chain_length * (k + 1)] {
                if self.sequence[m] ^ self.sequence[n - m - chain_length * (k + 1)] {
                    vmax -= 1;
                    vmin -= 3;
                } else {
                    vmax += 1;
                    vmin -= 1;
                }
            } else {
                if self.sequence[m] ^ self.sequence[n - m - chain_length * (k + 1)] {
                    vmax -= 3;
                    vmin -= 1;
                } else {
                    vmax -= 1;
                    vmin += 1;
                }
            }
        } else {
            if self.sequence[m - 1 - (k + 1)] ^ self.sequence[m - 1 + chain_length * (k + 1) - (n - 2 * m)] {
                if self.sequence[m - 1] ^ self.sequence[m - 1 + chain_length * (k + 1) - (n - 2 * m)] {
                    vmax -= 1;
                    vmin += 1;
                } else {
                    vmax += 1;
                    vmin -= 1;
                }
            } else {
                if self.sequence[m - 1] ^ self.sequence[m - 1 + chain_length * (k + 1) - (n - 2 * m)] {
                    vmax -= 3;
                    vmin -= 1;
                } else {
                    vmax -= 1;
                    vmin -= 3;
                }
            }
            if self.sequence[m + (k + 1)] ^ self.sequence[n - m - chain_length * (k + 1)] {
                if self.sequence[m] ^ self.sequence[n - m - chain_length * (k + 1)] {
                    vmax -= 1;
                    vmin += 1;
                } else {
                    vmax += 1;
                    vmin -= 1;
                }
            } else {
                if self.sequence[m] ^ self.sequence[n - m - chain_length * (k + 1)] {
                    vmax -= 3;
                    vmin -= 1;
                } else {
                    vmax -= 1;
                    vmin -= 3;
                }
            }
        }
            (vmax, vmin)
    }
}

} // verus!
