//! The energy of a complete sequence and the lower bound on the energy of
//! every completion of a partial one.

use vstd::prelude::*;
use vstd::arithmetic::div_mod::{
    lemma_fundamental_div_mod, lemma_mod_pos_bound, lemma_fundamental_div_mod_converse, lemma_mod_bound,
};
use crate::sums::{sum_of, lemma_sum_bounds, lemma_sum_split};
use crate::model::{length_ok, lemma_length_small};
use crate::bit_sequence::BitSequence;

verus! {

/// The remainder of `a` by `b` as the machine computes it: it takes the sign of `a`.
pub open spec fn trunc_rem(a: int, b: int) -> int {
    let d = if b >= 0 { b } else { -b };
    if a >= 0 {
        a % d
    } else {
        -((-a) % d)
    }
}

/// Half of `b`, rounded toward zero.
pub open spec fn trunc_half(b: int) -> int {
    if b >= 0 {
        b / 2
    } else {
        -((-b) / 2)
    }
}

/// The remainder of `a` by `b` moved into `[-b/2, b/2]` by one step of `b`.
pub open spec fn centered_rem(a: int, b: int) -> int {
    let r = trunc_rem(a, b);
    let h = trunc_half(b);
    if r > h {
        r - b
    } else if r < -h {
        r + b
    } else {
        r
    }
}

/// The magnitude of `x`.
pub open spec fn abs(x: int) -> int {
    if x < 0 {
        -x
    } else {
        x
    }
}

/// The distance from `a` to the nearest multiple of `b > 0`.
pub open spec fn multiple_distance(a: int, b: int) -> int {
    let e = a % b;
    if e <= b - e {
        e
    } else {
        b - e
    }
}

/// `|a|` reduced modulo `b` into the remainder nearest to zero: for `b > 0`,
/// the distance from `a` to the nearest multiple of `b`.
pub fn modular_min_abs(a: isize, b: isize) -> (r: isize)
    requires
        b != 0,
        !(a == isize::MIN && b == -1),
        isize::MIN < centered_rem(a as int, b as int) <= isize::MAX,
    ensures
        r as int == abs(centered_rem(a as int, b as int)),
        b > 0 ==> r as int == multiple_distance(a as int, b as int),
{
    let rem = a.checked_rem(b);
    let half = b.checked_div(2);
    proof {
        let x = a as int;
        let d = b as int;
        if x < 0 {
            assert(x * -1 == -x);
        }
        if d < 0 {
            assert(d * -1 == -d);
        }
        if x < 0 && d > 0 {
            assert(((x * -1) % d) * -1 == -((-x) % d));
            lemma_mod_pos_bound(-x, d);
        }
        if x < 0 && d < 0 {
            assert(((x * -1) % (d * -1)) * -1 == -((-x) % (-d)));
            lemma_mod_pos_bound(-x, -d);
        }
        if x >= 0 && d < 0 {
            assert(x % (d * -1) == x % (-d));
            lemma_mod_pos_bound(x, -d);
        }
        if x >= 0 && d > 0 {
            lemma_mod_pos_bound(x, d);
        }
        if x == 0 {
            let ad: int = if d >= 0 { d } else { -d };
            assert(0int % ad == 0) by {
                vstd::arithmetic::div_mod::lemma_small_mod(0, ad as nat);
            }
        }
        assert(x == 0 ==> rem == Some(trunc_rem(x, d) as isize));
        assert(x > 0 && d > 0 ==> rem == Some(trunc_rem(x, d) as isize));
        assert(x < 0 && d > 0 ==> rem == Some(trunc_rem(x, d) as isize));
        assert(x > 0 && d < 0 ==> rem == Some(trunc_rem(x, d) as isize));
        assert(x < 0 && d < 0 ==> rem == Some(trunc_rem(x, d) as isize));
        assert(rem == Some(trunc_rem(x, d) as isize));
        if d < 0 {
            assert(((d * -1) / 2) * -1 == -((-d) / 2));
        }
        assert(half == Some(trunc_half(d) as isize));
    }
    let mut result = rem.unwrap();
    let h = half.unwrap();
    if result > h {
        result -= b;
    } else if result < -h {
        result += b;
    }
    proof {
        if b > 0 {
            lemma_modular_min_abs_distance(a as int, b as int);
        }
    }
    if result < 0 {
        -result
    } else {
        result
    }
}

/// Law: for a positive modulus, the centred remainder's magnitude is the
/// distance from `a` to the nearest multiple of `b`.
pub proof fn lemma_modular_min_abs_distance(a: int, b: int)
    requires
        b > 0,
    ensures
        abs(centered_rem(a, b)) == multiple_distance(a, b),
{
    if a >= 0 {
        lemma_mod_pos_bound(a, b);
    } else {
        let u = (-a) % b;
        lemma_fundamental_div_mod(-a, b);
        lemma_mod_pos_bound(-a, b);
        let q = (-a) / b;
        if u == 0 {
            assert(a == (-q) * b + 0) by (nonlinear_arith)
                requires
                    -a == b * q + u,
                    u == 0,
            ;
            lemma_fundamental_div_mod_converse(a, b, -q, 0);
        } else {
            assert(a == (-q - 1) * b + (b - u)) by (nonlinear_arith)
                requires
                    -a == b * q + u,
            ;
            lemma_fundamental_div_mod_converse(a, b, -q - 1, b - u);
        }
    }
}

/// The least magnitude that the correlation at `lag` can reach: it lies within
/// `[f - umin, f + umax]` and is congruent to `f - umin` modulo 2, or modulo 4
/// when every free position has a neighbour at distance `lag` on both sides.
pub open spec fn bound_term(f: int, umax: int, umin: int, m: int, lag: int) -> int {
    if f <= -umax {
        f + umax
    } else if f >= umin {
        f - umin
    } else {
        abs(centered_rem(f - umin, if m < lag { 2 } else { 4 }))
    }
}

/// The lower bound on the energy of every completion of a node: the sum over
/// all lags of the squared least reachable correlation.
pub open spec fn energy_lower_bound(
    f: Seq<isize>,
    umax: Seq<usize>,
    umin: Seq<usize>,
    m: int,
    n: int,
) -> int {
    sum_of(
        |k: int|
            bound_term(f[k] as int, umax[k] as int, umin[k] as int, m, k + 1) * bound_term(
                f[k] as int,
                umax[k] as int,
                umin[k] as int,
                m,
                k + 1,
            ),
        0,
        n - 1,
    )
}

/// The sum of the squares of the entries.
pub open spec fn squares_sum(v: Seq<isize>) -> int {
    sum_of(|k: int| v[k] * v[k], 0, v.len() as int)
}

/// The centred remainder lies within one modulus of zero, its magnitude within half.
proof fn lemma_centered_small(a: int, b: int)
    requires
        b > 0,
    ensures
        -b <= centered_rem(a, b) <= b,
        0 <= abs(centered_rem(a, b)) <= b / 2,
{
    lemma_modular_min_abs_distance(a, b);
    lemma_mod_bound(a, b);
}

/// A lower bound on the energy of every completion of `individual`: for each
/// lag, the least correlation magnitude that the free pairs can still reach.
pub fn calculate_e_min(individual: &mut BitSequence) -> (r: isize)
    requires
        length_ok(old(individual).n as int),
        old(individual).fixed_energys@.len() == old(individual).n - 1,
        old(individual).u_max@.len() == old(individual).n - 1,
        old(individual).u_min@.len() == old(individual).n - 1,
        forall|k: int|
            0 <= k < old(individual).n - 1 ==> -(old(individual).n as int) <= #[trigger] old(
                individual,
            ).fixed_energys@[k] <= old(individual).n,
        forall|k: int|
            0 <= k < old(individual).n - 1 ==> #[trigger] old(individual).u_max@[k] <= old(
                individual,
            ).n,
        forall|k: int|
            0 <= k < old(individual).n - 1 ==> #[trigger] old(individual).u_min@[k] <= old(
                individual,
            ).n,
    ensures
        *final(individual) == *old(individual),
        r as int == energy_lower_bound(
            old(individual).fixed_energys@,
            old(individual).u_max@,
            old(individual).u_min@,
            old(individual).m as int,
            old(individual).n as int,
        ),
{
    let n = individual.n;
    proof {
        lemma_length_small(n as int);
    }
    let mut result: Vec<isize> = vec![0; n - 1];
    for k in 0..(n - 1)
        invariant
            n == individual.n,
            n < 0x20_0000,
            *individual == *old(individual),
            individual.fixed_energys@.len() == n - 1,
            individual.u_max@.len() == n - 1,
            individual.u_min@.len() == n - 1,
            result@.len() == n - 1,
            forall|j: int|
                0 <= j < n - 1 ==> -(n as int) <= #[trigger] individual.fixed_energys@[j] <= n,
            forall|j: int| 0 <= j < n - 1 ==> #[trigger] individual.u_max@[j] <= n,
            forall|j: int| 0 <= j < n - 1 ==> #[trigger] individual.u_min@[j] <= n,
            forall|j: int|
                0 <= j < k ==> #[trigger] result@[j] as int == bound_term(
                    individual.fixed_energys@[j] as int,
                    individual.u_max@[j] as int,
                    individual.u_min@[j] as int,
                    individual.m as int,
                    j + 1,
                ),
            forall|j: int| 0 <= j < n - 1 ==> -2 * (n as int) <= #[trigger] result@[j] <= 2 * n,
    {
        let item;
        if individual.fixed_energys[k] <= -(individual.u_max[k] as isize) {
            item = individual.fixed_energys[k] + individual.u_max[k] as isize;
        } else if individual.fixed_energys[k] >= individual.u_min[k] as isize {
            item = individual.fixed_energys[k] - individual.u_min[k] as isize;
        } else {
            let g_k = if individual.m < (k + 1) {
                2
            } else {
                4
            };
            proof {
                lemma_centered_small(individual.fixed_energys@[k as int] - individual.u_min@[k as int], g_k as int);
            }
            item = modular_min_abs(individual.fixed_energys[k] - individual.u_min[k] as isize, g_k as isize);
        }
        result.set(k, item);
    }
    let ghost sq = |j: int| result@[j] * result@[j];
    let mut total: isize = 0;
    for k in 0..result.len()
        invariant
            n < 0x20_0000,
            length_ok(n as int),
            result@.len() == n - 1,
            sq == (|j: int| result@[j] * result@[j]),
            forall|j: int| 0 <= j < n - 1 ==> -2 * (n as int) <= #[trigger] result@[j] <= 2 * n,
            total as int == sum_of(sq, 0, k as int),
            0 <= total <= 4 * n * n * k,
    {
        let x = result[k];
        proof {
            assert(0 <= x * x <= 4 * n * n) by (nonlinear_arith)
                requires
                    -2 * (n as int) <= x <= 2 * n,
            ;
            assert(4 * n * n * (k + 1) <= 4 * n * n * n) by (nonlinear_arith)
                requires
                    k + 1 <= n,
            ;
            assert(4 * n * n * k + 4 * n * n == 4 * n * n * (k + 1)) by (nonlinear_arith);
        }
        total = total + x * x;
    }
    proof {
        let et = |j: int|
            bound_term(
                old(individual).fixed_energys@[j] as int,
                old(individual).u_max@[j] as int,
                old(individual).u_min@[j] as int,
                old(individual).m as int,
                j + 1,
            ) * bound_term(
                old(individual).fixed_energys@[j] as int,
                old(individual).u_max@[j] as int,
                old(individual).u_min@[j] as int,
                old(individual).m as int,
                j + 1,
            );
        crate::sums::lemma_sum_ext(sq, et, 0, n - 1);
    }
    total
}

/// The energy of a complete sequence from its correlations: the sum of their squares.
pub fn final_energy(individual: &BitSequence) -> (r: isize)
    requires
        squares_sum(individual.fixed_energys@) <= isize::MAX,
    ensures
        r as int == squares_sum(individual.fixed_energys@),
{
    let ghost f = individual.fixed_energys@;
    let ghost sq = |j: int| f[j] * f[j];
    let len = individual.fixed_energys.len();
    let mut total: isize = 0;
    for k in 0..len
        invariant
            f == individual.fixed_energys@,
            len == f.len(),
            sq == (|j: int| f[j] * f[j]),
            sum_of(sq, 0, len as int) <= isize::MAX,
            total as int == sum_of(sq, 0, k as int),
    {
        let x = individual.fixed_energys[k];
        proof {
            assert forall|j: int| 0 <= j < len implies 0 <= #[trigger] sq(j) by {
                assert(f[j] * f[j] >= 0) by (nonlinear_arith);
            }
            lemma_sum_split(sq, 0, k as int, len as int);
            lemma_sum_split(sq, k as int, k + 1, len as int);
            crate::sums::lemma_sum_le(|j: int| 0, sq, 0, k as int);
            crate::sums::lemma_sum_zero(|j: int| 0, 0, k as int);
            crate::sums::lemma_sum_le(|j: int| 0, sq, k + 1, len as int);
            crate::sums::lemma_sum_zero(|j: int| 0, k + 1, len as int);
            assert(sum_of(sq, k as int, k + 1) == sq(k as int)) by {
                assert(sum_of(sq, k as int, k as int) == 0);
            }
        }
        total = total + x * x;
    }
    total
}

} // verus!
