//! The roots of the search: all prefixes of a fixed depth, one per class of
//! prefixes that the symmetries of the energy map onto each other.

use vstd::prelude::*;
use crate::bit_sequence::BitSequence;
use crate::model::length_ok;
use crate::symmetry::{
    reversed, complemented, alternated, reverse, complement, alternate_complement,
};

verus! {

/// Lexicographic order on sign sequences, `false` before `true`, a proper
/// prefix before its extensions.
pub open spec fn lex_le(a: Seq<bool>, b: Seq<bool>) -> bool {
    exists|i: int|
        0 <= i <= a.len() && i <= b.len() && #[trigger] a.take(i) == b.take(i) && ((i < a.len()
            && i < b.len() && !a[i] && b[i]) || i == a.len())
}

/// Whether `a` comes before or equals `b` in lexicographic order.
pub fn lex_le_vec(a: &Vec<bool>, b: &Vec<bool>) -> (r: bool)
    ensures
        r == lex_le(a@, b@),
{
    let la = a.len();
    let lb = b.len();
    let common = if la < lb {
        la
    } else {
        lb
    };
    for i in 0..common
        invariant
            la == a@.len(),
            lb == b@.len(),
            common <= la && common <= lb,
            a@.take(i as int) == b@.take(i as int),
    {
        if a[i] != b[i] {
            proof {
                if !a@[i as int] {
                    assert(a@.take(i as int) == b@.take(i as int));
                } else {
                    assert forall|j: int|
                        0 <= j <= a@.len() && j <= b@.len() && #[trigger] a@.take(j) == b@.take(j)
                            implies !((j < a@.len() && j < b@.len() && !a@[j] && b@[j]) || j
                            == a@.len()) by {
                        if j > i {
                            assert(a@.take(j)[i as int] == b@.take(j)[i as int]);
                        } else if j < i {
                            assert(a@.take(i as int)[j] == b@.take(i as int)[j]);
                        }
                    }
                }
            }
            return !a[i];
        }
        assert(a@.take(i + 1) =~= b@.take(i + 1)) by {
            assert(a@.take(i as int) =~= b@.take(i as int));
        }
    }
    proof {
        if la <= lb {
            assert(a@.take(la as int) == b@.take(la as int));
        } else {
            assert forall|j: int|
                0 <= j <= a@.len() && j <= b@.len() && #[trigger] a@.take(j) == b@.take(j)
                    implies !((j < a@.len() && j < b@.len() && !a@[j] && b@[j]) || j == a@.len()) by {
                if j < lb {
                    assert(a@.take(lb as int)[j] == b@.take(lb as int)[j]);
                }
            }
        }
    }
    la <= lb
}

/// The images of the stored signs under the symmetries the search uses for
/// a sequence of length `n`.
pub open spec fn symmetric_variants(s: Seq<bool>, n: int) -> Seq<Seq<bool>> {
    let r = reversed(s);
    let c = complemented(s);
    let a = alternated(s, n);
    let rc = complemented(r);
    if n % 2 == 1 {
        seq![s, r, c, a, rc, alternated(r, n), alternated(c, n), alternated(rc, n)]
    } else {
        seq![s, r, c, a, rc, alternated(r, n), reversed(a), complemented(a)]
    }
}

/// Whether the stored signs come first among all their symmetric images.
pub open spec fn is_canonical(s: Seq<bool>, n: int) -> bool {
    forall|i: int| 0 <= i < 8 ==> lex_le(s, #[trigger] symmetric_variants(s, n)[i])
}

/// Whether `individual`'s signs come first among all their symmetric images.
pub fn is_canonical_root(individual: &BitSequence) -> (r: bool)
    ensures
        r == is_canonical(individual.sequence@, individual.n as int),
{
    let ghost s = individual.sequence@;
    let ghost n = individual.n as int;
    let mut r = individual.clone();
    reverse(&mut r);
    let mut c = individual.clone();
    complement(&mut c);
    let mut a = individual.clone();
    alternate_complement(&mut a);
    let mut rc = r.clone();
    complement(&mut rc);
    let mut ra = r.clone();
    alternate_complement(&mut ra);
    let ghost v = symmetric_variants(s, n);
    let b0 = lex_le_vec(&individual.sequence, &individual.sequence);
    let b1 = lex_le_vec(&individual.sequence, &r.sequence);
    let b2 = lex_le_vec(&individual.sequence, &c.sequence);
    let b3 = lex_le_vec(&individual.sequence, &a.sequence);
    let b4 = lex_le_vec(&individual.sequence, &rc.sequence);
    let b5 = lex_le_vec(&individual.sequence, &ra.sequence);
    let ok = b0 && b1 && b2 && b3 && b4 && b5;
    if individual.n % 2 == 1 {
        let mut ca = c.clone();
        alternate_complement(&mut ca);
        let mut rca = rc.clone();
        alternate_complement(&mut rca);
        let b6 = lex_le_vec(&individual.sequence, &ca.sequence);
        let b7 = lex_le_vec(&individual.sequence, &rca.sequence);
        proof {
            assert(v[0] == s && v[1] == r.sequence@ && v[2] == c.sequence@ && v[3] == a.sequence@);
            assert(v[4] == rc.sequence@ && v[5] == ra.sequence@ && v[6] == ca.sequence@ && v[7] == rca.sequence@);
            if ok && b6 && b7 {
                assert forall|i: int| 0 <= i < 8 implies lex_le(s, #[trigger] v[i]) by {}
            }
        }
        ok && b6 && b7
    } else {
        let mut ar = a.clone();
        reverse(&mut ar);
        let mut ac = a.clone();
        complement(&mut ac);
        let b6 = lex_le_vec(&individual.sequence, &ar.sequence);
        let b7 = lex_le_vec(&individual.sequence, &ac.sequence);
        proof {
            assert(v[0] == s && v[1] == r.sequence@ && v[2] == c.sequence@ && v[3] == a.sequence@);
            assert(v[4] == rc.sequence@ && v[5] == ra.sequence@ && v[6] == ar.sequence@ && v[7] == ac.sequence@);
            if ok && b6 && b7 {
                assert forall|i: int| 0 <= i < 8 implies lex_le(s, #[trigger] v[i]) by {}
            }
        }
        ok && b6 && b7
    }
}

/// Bit `j` of `i`, for `j < len`, as a sign sequence.
pub open spec fn prefix_bits(i: usize, len: usize) -> Seq<bool> {
    Seq::new(len as nat, |j: int| i & (1usize << (j as usize)) != 0usize)
}

/// The prefixes `0 .. count`, as numbers, that are canonical for length `n`.
pub open spec fn canonical_prefixes(n: int, count: int) -> Seq<usize>
    decreases count,
{
    if count <= 0 {
        Seq::empty()
    } else if is_canonical(prefix_bits((count - 1) as usize, 10), n) {
        canonical_prefixes(n, count - 1).push((count - 1) as usize)
    } else {
        canonical_prefixes(n, count - 1)
    }
}

/// A root of the search: `m` signs fixed at each end, correlations and
/// bounds computed from scratch, no extension handed out yet.
pub open spec fn is_root(r: BitSequence, length: usize, bits: Seq<bool>) -> bool {
    &&& r.wf()
    &&& r.n == length
    &&& r.m == 5
    &&& r.sequence@ == bits
    &&& !r.branched_pp && !r.branched_pm && !r.branched_mp && !r.branched_mm
}

/// The roots of the search for sequences of `length`: every assignment of
/// the five first and five last signs that comes first among its symmetric
/// images, in increasing order of the number whose bits it holds.
pub fn generate_roots(length: usize) -> (roots: Vec<BitSequence>)
    requires
        length_ok(length as int),
        length >= 10,
    ensures
        roots@.len() == canonical_prefixes(length as int, 1024).len(),
        forall|j: int|
            0 <= j < roots@.len() ==> is_root(
                #[trigger] roots@[j],
                length,
                prefix_bits(canonical_prefixes(length as int, 1024)[j], 10),
            ),
{
    let two_m: usize = 10;
    let mut roots: Vec<BitSequence> = Vec::new();
    assert(1usize << 10usize == 1024) by (bit_vector);
    for i in 0..(1usize << two_m)
        invariant
            two_m == 10,
            length_ok(length as int),
            length >= 10,
            roots@.len() == canonical_prefixes(length as int, i as int).len(),
            forall|j: int|
                0 <= j < roots@.len() ==> is_root(
                    #[trigger] roots@[j],
                    length,
                    prefix_bits(canonical_prefixes(length as int, i as int)[j], 10),
                ),
    {
        let mut sequence: Vec<bool> = Vec::new();
        for j in 0..two_m
            invariant
                two_m == 10,
                sequence@.len() == j,
                forall|q: int| 0 <= q < j ==> #[trigger] sequence@[q] == prefix_bits(i, 10)[q],
        {
            sequence.push((i & (1 << j)) != 0);
        }
        assert(sequence@ =~= prefix_bits(i, 10));
        let mut individual = BitSequence::new(length);
        individual.n = length;
        individual.m = two_m / 2;
        individual.sequence = sequence;
        let ghost prev = canonical_prefixes(length as int, i as int);
        if is_canonical_root(&individual) {
            individual.initialize_fixed_energys();
            proof {
                crate::model::lemma_length_small(length as int);
                assert forall|k: int| 0 <= k < length - 1 implies #[trigger] individual.fixed_energys@[k] == 0 by {}
            }
            individual.multi_update_fixed_energys();
            individual.multi_update_u_min_max();
            roots.push(individual);
            proof {
                assert(canonical_prefixes(length as int, i + 1) == prev.push(i));
                assert forall|j: int| 0 <= j < roots@.len() implies is_root(
                    #[trigger] roots@[j],
                    length,
                    prefix_bits(canonical_prefixes(length as int, i + 1)[j], 10),
                ) by {
                }
            }
        }
    }
    roots
}

} // verus!
