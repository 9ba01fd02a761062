//! One step of the depth-first branch-and-bound search over the nodes of one root.

use vstd::prelude::*;
use crate::model::{energy, length_ok};
use crate::bit_sequence::BitSequence;
use crate::fixed_lemmas::without_middle;
use crate::energy::{calculate_e_min, final_energy, energy_lower_bound};
use crate::node_lemmas::{lemma_node_bounds, lemma_complete_bound_is_energy, lemma_energy_fits};
use crate::search_law::{
    flags_ok_all, keeps_cover, stack_weight, lemma_step_keeps_cover, lemma_step_weight,
    lemma_step_prunes_at_best,
};

verus! {

/// The signs `(left, right)` of the next extension of a node, from the
/// extensions already handed out: `--`, then `-+`, then `+-`, then `++`.
pub open spec fn next_choice(mm: bool, mp: bool, pm: bool) -> (bool, bool) {
    if !mm {
        (false, false)
    } else if !mp {
        (false, true)
    } else if !pm {
        (true, false)
    } else {
        (true, true)
    }
}

/// The node `child` extends `parent` by `left` at position `m` and `right` at
/// position `n - m - 1`, with its correlations and bounds and no extension
/// handed out.
pub open spec fn is_extension(child: BitSequence, parent: BitSequence, left: bool, right: bool) -> bool {
    &&& child.wf()
    &&& child.sequence@ == parent.sequence@.insert(parent.m as int, left).insert(parent.m + 1, right)
    &&& child.m == parent.m + 1
    &&& child.n == parent.n
    &&& !child.branched_pp && !child.branched_pm && !child.branched_mp && !child.branched_mm
}

/// `after` is `before` with the flag of its next extension set.
pub open spec fn marks_next(after: BitSequence, before: BitSequence) -> bool {
    &&& after.sequence@ == before.sequence@
    &&& after.fixed_energys@ == before.fixed_energys@
    &&& after.u_max@ == before.u_max@
    &&& after.u_min@ == before.u_min@
    &&& after.m == before.m
    &&& after.n == before.n
    &&& after.branched_mm
    &&& after.branched_mp == (before.branched_mp || before.branched_mm)
    &&& after.branched_pm == (before.branched_pm || (before.branched_mm && before.branched_mp))
    &&& after.branched_pp == (before.branched_pp || (before.branched_mm && before.branched_mp
        && before.branched_pm))
}

/// Removing the two inserted middle signs gives the parent's signs back.
proof fn lemma_without_inserted(s: Seq<bool>, m: int, l: bool, r: bool)
    requires
        0 <= m <= s.len(),
    ensures
        without_middle(s.insert(m, l).insert(m + 1, r), m + 1) == s,
{
    assert(without_middle(s.insert(m, l).insert(m + 1, r), m + 1) =~= s);
}

/// Hands out the next extension of `sequence` and marks it as handed out.
pub fn branch(sequence: &mut BitSequence) -> (child: BitSequence)
    requires
        old(sequence).wf(),
        2 * old(sequence).m + 2 <= old(sequence).n,
    ensures
        is_extension(
            child,
            *old(sequence),
            next_choice(
                old(sequence).branched_mm,
                old(sequence).branched_mp,
                old(sequence).branched_pm,
            ).0,
            next_choice(
                old(sequence).branched_mm,
                old(sequence).branched_mp,
                old(sequence).branched_pm,
            ).1,
        ),
        marks_next(*final(sequence), *old(sequence)),
        final(sequence).wf(),
{
    let mut seq = sequence.clone();
    let ghost s = sequence.sequence@;
    let ghost m = sequence.m as int;
    proof {
        lemma_node_bounds(sequence);
        crate::model::lemma_length_small(sequence.n as int);
    }

    if !sequence.branched_mm {
        seq.set_bits(false, false);
        sequence.branched_mm = true;
    } else if !sequence.branched_mp {
        seq.set_bits(false, true);
        sequence.branched_mp = true;
    } else if !sequence.branched_pm {
        seq.set_bits(true, false);
        sequence.branched_pm = true;
    } else {
        seq.set_bits(true, true);
        sequence.branched_pp = true;
    }

    seq.branched_mm = false;
    seq.branched_mp = false;
    seq.branched_pm = false;
    seq.branched_pp = false;

    proof {
        let (l, r) = next_choice(old(sequence).branched_mm, old(sequence).branched_mp, old(sequence).branched_pm);
        lemma_without_inserted(s, m, l, r);
        assert(seq.sequence@ == s.insert(m, l).insert(m + 1, r));
        assert forall|k: int| 0 <= k < seq.n - 1 implies isize::MIN + 4 <= #[trigger] seq.fixed_energys@[k]
            <= isize::MAX - 4 by {
            assert(seq.fixed_energys@[k] == old(sequence).fixed_energys@[k]);
        }
        assert forall|k: int| 0 <= k < seq.n - 1 implies #[trigger] seq.u_min@[k] as int == crate::model::free_min(
            without_middle(seq.sequence@, seq.m as int),
            seq.n as int,
            seq.m - 1,
            k + 1,
        ) by {
            assert(old(sequence).u_max@[k] as int == crate::model::free_max(s, seq.n as int, m, k + 1));
        }
    }
    seq.update_fixed_energys();
    seq.update_u_min_max();
    seq
}

/// A complete sequence that the search reports, with its energy.
pub struct Incumbent {
    pub energy: isize,
    pub sequence: BitSequence,
    /// Whether the sequence is a node of its own, beyond the one popped.
    pub counts_node: bool,
}

/// Every node on the stack is well formed.
pub open spec fn stack_ok(individuals: Seq<BitSequence>) -> bool {
    forall|i: int| 0 <= i < individuals.len() ==> (#[trigger] individuals[i]).wf()
}

/// The lower bound of a node.
pub open spec fn node_bound(node: BitSequence) -> int {
    energy_lower_bound(node.fixed_energys@, node.u_max@, node.u_min@, node.m as int, node.n as int)
}

/// What one step of the search does with the stack `before`, given the best
/// energy known so far: the stack `after` and the complete sequences `found`.
pub open spec fn step_outcome(
    before: Seq<BitSequence>,
    after: Seq<BitSequence>,
    found: Seq<Incumbent>,
    current_best: int,
) -> bool {
    let top = before.last();
    let rest = before.drop_last();
    let (l, r) = next_choice(top.branched_mm, top.branched_mp, top.branched_pm);
    if node_bound(top) >= current_best {
        &&& after == rest
        &&& found.len() == 0
    } else if top.m == top.n / 2 {
        &&& after == rest
        &&& if top.n % 2 == 1 {
            &&& found.len() == 2
            &&& found[0].sequence.sequence@ == top.sequence@.insert(top.m as int, false)
            &&& found[1].sequence.sequence@ == top.sequence@.insert(top.m as int, true)
            &&& found[0].counts_node && found[1].counts_node
        } else {
            &&& found.len() == 1
            &&& found[0].sequence.sequence@ == top.sequence@
            &&& found[0].energy == node_bound(top)
            &&& !found[0].counts_node
        }
    } else {
        &&& found.len() == 0
        &&& after.take(rest.len() as int) == rest
        &&& is_extension(after.last(), top, l, r)
        &&& if top.branched_pp || (top.branched_mm && top.branched_mp && top.branched_pm) {
            after.len() == rest.len() + 1
        } else {
            &&& after.len() == rest.len() + 2
            &&& marks_next(after[rest.len() as int], top)
        }
    }
}

/// Pops the last node of the stack and handles it against the best energy
/// known so far: prunes it when its lower bound is no better; reports the
/// complete sequences of a node without free positions; otherwise pushes its
/// next extension on top and keeps the node below it while extensions remain.
/// No sequence below the best energy that the stack still covers is lost, and
/// the work left under the stack goes down.
pub fn search_step(individuals: &mut Vec<BitSequence>, current_best: isize) -> (found: Vec<Incumbent>)
    requires
        old(individuals)@.len() > 0,
        stack_ok(old(individuals)@),
    ensures
        stack_ok(final(individuals)@),
        step_outcome(old(individuals)@, final(individuals)@, found@, current_best as int),
        forall|i: int|
            0 <= i < found@.len() ==> #[trigger] found@[i].energy as int == energy(
                found@[i].sequence.sequence@,
            ) && found@[i].sequence.sequence@.len() == old(individuals)@.last().n,
        stack_weight(final(individuals)@) < stack_weight(old(individuals)@),
        found@.len() > 0 ==> node_bound(old(individuals)@.last()) < current_best,
        flags_ok_all(old(individuals)@) ==> flags_ok_all(final(individuals)@),
        flags_ok_all(old(individuals)@) ==> keeps_cover(
            old(individuals)@,
            final(individuals)@,
            found@,
            current_best as int,
        ),
{
    let ghost before = individuals@;
    let mut individual = individuals.pop().unwrap();
    let ghost top = individual;
    let mut found: Vec<Incumbent> = Vec::new();
    proof {
        assert(top == before.last());
        assert forall|i: int| 0 <= i < individuals@.len() implies (#[trigger] individuals@[i]).wf() by {
            assert(individuals@[i] == before[i]);
        }
        lemma_node_bounds(&individual);
    }

    let e_min = calculate_e_min(&mut individual);

    if e_min >= current_best {
        proof {
            assert(individuals@ == before.drop_last());
            assert(step_outcome(before, individuals@, found@, current_best as int));
        }
    } else if individual.m == individual.n / 2 {
        if individual.n % 2 != 0 {
            let mut child_f = individual.clone();
            proof {
                crate::model::lemma_length_small(individual.n as int);
                assert forall|k: int| 0 <= k < child_f.n - 1 implies isize::MIN + 2 <= #[trigger] child_f.fixed_energys@[k]
                    <= isize::MAX - 2 by {
                    assert(child_f.fixed_energys@[k] == individual.fixed_energys@[k]);
                }
            }
            child_f.set_last_bit(false);
            proof {
                lemma_energy_fits(child_f.sequence@, child_f.fixed_energys@);
            }
            let energy_f = final_energy(&child_f);
            found.push(Incumbent { energy: energy_f, sequence: child_f, counts_node: true });

            let mut child_t = individual.clone();
            proof {
                assert forall|k: int| 0 <= k < child_t.n - 1 implies isize::MIN + 2 <= #[trigger] child_t.fixed_energys@[k]
                    <= isize::MAX - 2 by {
                    assert(child_t.fixed_energys@[k] == individual.fixed_energys@[k]);
                }
            }
            child_t.set_last_bit(true);
            proof {
                lemma_energy_fits(child_t.sequence@, child_t.fixed_energys@);
            }
            let energy_t = final_energy(&child_t);
            found.push(Incumbent { energy: energy_t, sequence: child_t, counts_node: true });
            proof {
                assert(step_outcome(before, individuals@, found@, current_best as int));
            }
        } else {
            let energy = calculate_e_min(&mut individual);
            proof {
                lemma_complete_bound_is_energy(&individual);
            }
            found.push(Incumbent { energy, sequence: individual, counts_node: false });
            proof {
                assert(step_outcome(before, individuals@, found@, current_best as int));
            }
        }
    } else {
        let child = branch(&mut individual);
        individuals.push(child);
        if !individual.branched_pp && individual.m < individual.n / 2 {
            if individuals.len() == 0 {
                individuals.push(individual);
            } else {
                let last = individuals.len() - 1;
                individuals.insert(last, individual);
            }
        }
        proof {
            let rest = before.drop_last();
            let (l, r) = next_choice(top.branched_mm, top.branched_mp, top.branched_pm);
            assert(node_bound(top) < current_best);
            assert(top.m != top.n / 2);
            assert(found@.len() == 0);
            assert(individuals@.take(rest.len() as int) == rest);
            assert(is_extension(individuals@.last(), top, l, r));
            if top.branched_pp || (top.branched_mm && top.branched_mp && top.branched_pm) {
                assert(individuals@.len() == rest.len() + 1);
            } else {
                assert(individuals@.len() == rest.len() + 2);
                assert(marks_next(individuals@[rest.len() as int], top));
            }
            assert(step_outcome(before, individuals@, found@, current_best as int));
        }
    }
    proof {
        lemma_step_keeps_cover(before, individuals@, found@, current_best as int);
        lemma_step_weight(before, individuals@, found@, current_best as int);
        lemma_step_prunes_at_best(before, individuals@, found@, current_best as int);
    }
    found
}

} // verus!
