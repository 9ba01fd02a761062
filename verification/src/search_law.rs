//! What a step of the search keeps: every sequence below the best energy that
//! a node of the stack still covers is reported or covered by the new stack.

use vstd::prelude::*;
use crate::model::{energy, completion};
use crate::bit_sequence::BitSequence;
use crate::search::{Incumbent, stack_ok, step_outcome, node_bound, next_choice, marks_next};
use crate::bound_law::lemma_bound_below_completions;
use crate::roots::{canonical_prefixes, prefix_bits, is_root};
use crate::canonical_law::lemma_root_image;

verus! {

/// Whether the extension with signs `(left, right)` was handed out already.
pub open spec fn handed_out(node: BitSequence, left: bool, right: bool) -> bool {
    if !left && !right {
        node.branched_mm
    } else if !left {
        node.branched_mp
    } else if !right {
        node.branched_pm
    } else {
        node.branched_pp
    }
}

/// The extensions of a node are handed out in order: `--`, `-+`, `+-`, `++`.
pub open spec fn flags_ok(node: BitSequence) -> bool {
    &&& node.branched_mp ==> node.branched_mm
    &&& node.branched_pm ==> node.branched_mp
    &&& node.branched_pp ==> node.branched_pm
}

/// Every node of the stack hands out its extensions in order.
pub open spec fn flags_ok_all(stack: Seq<BitSequence>) -> bool {
    forall|i: int| 0 <= i < stack.len() ==> flags_ok(#[trigger] stack[i])
}

/// The complete sequence `x` is still to be explored under `node`: it agrees
/// with the stored signs at both ends, and its extension at the next two
/// positions was not handed out yet.
pub open spec fn covers(node: BitSequence, x: Seq<bool>) -> bool {
    let m = node.m as int;
    let n = node.n as int;
    &&& x.len() == n
    &&& x.take(m) == node.sequence@.take(m)
    &&& x.skip(n - m) == node.sequence@.skip(m)
    &&& (2 * m + 2 <= n ==> !handed_out(node, x[m], x[n - 1 - m]))
}

/// Some node of the stack covers `x`.
pub open spec fn stack_covers(stack: Seq<BitSequence>, x: Seq<bool>) -> bool {
    exists|i: int| 0 <= i < stack.len() && covers(#[trigger] stack[i], x)
}

/// Some reported sequence is `x`.
pub open spec fn reported(found: Seq<Incumbent>, x: Seq<bool>) -> bool {
    exists|i: int| 0 <= i < found.len() && #[trigger] found[i].sequence.sequence@ == x
}

/// Every sequence below `best` that `before` covers is reported or covered by `after`.
pub open spec fn keeps_cover(
    before: Seq<BitSequence>,
    after: Seq<BitSequence>,
    found: Seq<Incumbent>,
    best: int,
) -> bool {
    forall|x: Seq<bool>|
        #[trigger] stack_covers(before, x) && energy(x) < best ==> reported(found, x)
            || stack_covers(after, x)
}

/// A covered sequence is a completion of the node.
proof fn lemma_covered_completion(node: BitSequence, x: Seq<bool>)
    requires
        node.wf(),
        covers(node, x),
    ensures
        x == completion(
            node.sequence@,
            node.m as int,
            x.subrange(node.m as int, node.n - node.m),
        ),
{
    let m = node.m as int;
    let n = node.n as int;
    let s = node.sequence@;
    let c = completion(s, m, x.subrange(m, n - m));
    assert forall|j: int| 0 <= j < n implies #[trigger] c[j] == x[j] by {
        if j < m {
            assert(x.take(m)[j] == s.take(m)[j]);
        } else if j >= n - m {
            assert(x.skip(n - m)[j - (n - m)] == s.skip(m)[j - (n - m)]);
        }
    }
    assert(c =~= x);
}

/// The step keeps every covered sequence below the best energy of its top node.
proof fn lemma_top_kept(
    before: Seq<BitSequence>,
    after: Seq<BitSequence>,
    found: Seq<Incumbent>,
    best: int,
    x: Seq<bool>,
)
    requires
        before.len() > 0,
        before.last().wf(),
        flags_ok(before.last()),
        step_outcome(before, after, found, best),
        covers(before.last(), x),
        energy(x) < best,
    ensures
        reported(found, x) || exists|i: int|
            before.len() - 1 <= i < after.len() && covers(#[trigger] after[i], x),
{
    let top = before.last();
    let rest = before.drop_last();
    let k = rest.len() as int;
    let m = top.m as int;
    let n = top.n as int;
    let s = top.sequence@;
    lemma_covered_completion(top, x);
    lemma_bound_below_completions(&top, x.subrange(m, n - m));
    assert(node_bound(top) <= energy(x));
    if top.m == top.n / 2 {
        if n % 2 == 1 {
            let b = x[m];
            assert(x =~= s.insert(m, b)) by {
                assert forall|j: int| 0 <= j < n implies #[trigger] x[j] == s.insert(m, b)[j] by {
                    if j < m {
                        assert(x.take(m)[j] == s.take(m)[j]);
                    } else if j > m {
                        assert(x.skip(n - m)[j - (n - m)] == s.skip(m)[j - (n - m)]);
                    }
                }
            }
            if b {
                assert(found[1].sequence.sequence@ == x);
            } else {
                assert(found[0].sequence.sequence@ == x);
            }
        } else {
            assert(x =~= s) by {
                assert forall|j: int| 0 <= j < n implies #[trigger] x[j] == s[j] by {
                    if j < m {
                        assert(x.take(m)[j] == s.take(m)[j]);
                    } else {
                        assert(x.skip(n - m)[j - (n - m)] == s.skip(m)[j - (n - m)]);
                    }
                }
            }
            assert(found[0].sequence.sequence@ == x);
        }
    } else {
        let (l, r) = next_choice(top.branched_mm, top.branched_mp, top.branched_pm);
        let child = after.last();
        if x[m] == l && x[n - 1 - m] == r {
            let cs = child.sequence@;
            assert(cs == s.insert(m, l).insert(m + 1, r));
            assert(x.take(m + 1) =~= cs.take(m + 1)) by {
                assert forall|j: int| 0 <= j < m implies #[trigger] x[j] == cs[j] by {
                    assert(x.take(m)[j] == s.take(m)[j]);
                }
            }
            assert(x.skip(n - m - 1) =~= cs.skip(m + 1)) by {
                assert forall|j: int| n - m <= j < n implies #[trigger] x[j] == cs[j - (n - 2 * m - 2)] by {
                    assert(x.skip(n - m)[j - (n - m)] == s.skip(m)[j - (n - m)]);
                }
            }
            assert(covers(after[after.len() - 1], x));
        } else {
            let p = after[k];
            assert(!(top.branched_pp || (top.branched_mm && top.branched_mp && top.branched_pm)));
            assert(marks_next(p, top));
            assert(!handed_out(p, x[m], x[n - 1 - m]));
            assert(covers(p, x));
        }
    }
}

/// The step keeps every covered sequence below the best energy, and the order
/// in which extensions are handed out.
pub(crate) proof fn lemma_step_keeps_cover(
    before: Seq<BitSequence>,
    after: Seq<BitSequence>,
    found: Seq<Incumbent>,
    best: int,
)
    requires
        before.len() > 0,
        stack_ok(before),
        step_outcome(before, after, found, best),
    ensures
        flags_ok_all(before) ==> flags_ok_all(after),
        flags_ok_all(before) ==> keeps_cover(before, after, found, best),
{
    if flags_ok_all(before) {
        let top = before.last();
        let rest = before.drop_last();
        let k = rest.len() as int;
        assert(flags_ok(before[k]));
        assert(top.wf());
        assert forall|i: int| 0 <= i < after.len() implies flags_ok(#[trigger] after[i]) by {
            if i < k {
                if node_bound(top) < best && top.m != top.n / 2 {
                    assert(after.take(k)[i] == rest[i]);
                }
                assert(flags_ok(before[i]));
            }
        }
        assert forall|x: Seq<bool>| #[trigger]
            stack_covers(before, x) && energy(x) < best implies reported(found, x) || stack_covers(
            after,
            x,
        ) by {
            let i = choose|i: int| 0 <= i < before.len() && covers(#[trigger] before[i], x);
            if i < k {
                if node_bound(top) < best && top.m != top.n / 2 {
                    assert(after.take(k)[i] == rest[i]);
                }
                assert(after[i] == before[i]);
                assert(covers(after[i], x));
            } else {
                lemma_top_kept(before, after, found, best, x);
                if !reported(found, x) {
                    let j = choose|j: int| k <= j < after.len() && covers(#[trigger] after[j], x);
                    assert(covers(after[j], x));
                }
            }
        }
    }
}

/// Law: a search that runs until its stack is empty reports every sequence
/// that its first stack covers and whose energy is below the best energy in
/// force at every step. `stacks[i]` is the stack before step `i`,
/// `founds[i]` what step `i` reported, `bests[i]` the best energy it was given.
pub proof fn lemma_search_reports_all(
    stacks: Seq<Seq<BitSequence>>,
    founds: Seq<Seq<Incumbent>>,
    bests: Seq<int>,
    x: Seq<bool>,
)
    requires
        stacks.len() == founds.len() + 1,
        bests.len() == founds.len(),
        forall|i: int|
            0 <= i < founds.len() ==> {
                &&& stacks[i].len() > 0
                &&& stack_ok(stacks[i])
                &&& step_outcome(#[trigger] stacks[i], stacks[i + 1], founds[i], bests[i])
            },
        flags_ok_all(stacks[0]),
        stacks.last().len() == 0,
        stack_covers(stacks[0], x),
        forall|i: int| 0 <= i < bests.len() ==> energy(x) < #[trigger] bests[i],
    ensures
        exists|i: int| 0 <= i < founds.len() && reported(#[trigger] founds[i], x),
    decreases founds.len(),
{
    if founds.len() == 0 {
        let j = choose|j: int| 0 <= j < stacks[0].len() && covers(#[trigger] stacks[0][j], x);
        assert(stacks[0].len() == 0);
    } else {
        lemma_step_keeps_cover(stacks[0], stacks[1], founds[0], bests[0]);
        assert(energy(x) < bests[0]);
        if reported(founds[0], x) {
            assert(reported(founds[0], x));
        } else {
            let st = stacks.skip(1);
            let fs = founds.skip(1);
            let bs = bests.skip(1);
            assert forall|i: int| 0 <= i < fs.len() implies {
                &&& st[i].len() > 0
                &&& stack_ok(st[i])
                &&& step_outcome(#[trigger] st[i], st[i + 1], fs[i], bs[i])
            } by {
                assert(st[i] == stacks[i + 1]);
                assert(st[i + 1] == stacks[i + 2]);
                assert(step_outcome(stacks[i + 1], stacks[i + 2], founds[i + 1], bests[i + 1]));
            }
            assert forall|i: int| 0 <= i < bs.len() implies energy(x) < #[trigger] bs[i] by {
                assert(bs[i] == bests[i + 1]);
            }
            assert(st.last() == stacks.last());
            lemma_search_reports_all(st, fs, bs, x);
            let i = choose|i: int| 0 <= i < fs.len() && reported(#[trigger] fs[i], x);
            assert(founds[i + 1] == fs[i]);
        }
    }
}

/// A root covers every completion of its signs.
proof fn lemma_root_covers(r: BitSequence, n: usize, v: Seq<bool>, free: Seq<bool>)
    requires
        is_root(r, n, v),
        free.len() == n - 10,
    ensures
        covers(r, completion(v, 5, free)),
{
    let y = completion(v, 5, free);
    assert(y.take(5) =~= v.take(5));
    assert(y.skip(n - 5) =~= v.skip(5));
}

/// Law: every energy of a sequence of length `n` is the energy of a sequence
/// that one of the roots covers, so searching the roots misses no energy.
/// `roots` are the roots as the search builds them for `n`.
pub proof fn lemma_roots_cover_every_energy(roots: Seq<BitSequence>, n: usize, x: Seq<bool>)
    requires
        n >= 10,
        x.len() == n,
        roots.len() == canonical_prefixes(n as int, 1024).len(),
        forall|j: int|
            0 <= j < roots.len() ==> is_root(
                #[trigger] roots[j],
                n,
                prefix_bits(canonical_prefixes(n as int, 1024)[j], 10),
            ),
    ensures
        exists|j: int, y: Seq<bool>|
            0 <= j < roots.len() && covers(#[trigger] roots[j], y) && #[trigger] energy(y) == energy(
                x,
            ),
{
    let s = x.take(5) + x.skip(n - 5);
    let free = x.subrange(5, n - 5);
    assert(x =~= completion(s, 5, free)) by {
        assert(s.take(5) =~= x.take(5));
        assert(s.skip(5) =~= x.skip(n - 5));
    }
    let (j, free2) = lemma_root_image(s, n as int, free);
    let v = prefix_bits(canonical_prefixes(n as int, 1024)[j], 10);
    lemma_root_covers(roots[j], n, v, free2);
    let y = completion(v, 5, free2);
    assert(covers(roots[j], y) && energy(y) == energy(x));
}

/// The number of nodes of a full subtree with `levels` pairs of positions
/// still to fix below its root, counting each node once per visit.
pub open spec fn fresh_weight(levels: int) -> int
    decreases levels,
{
    if levels <= 0 {
        1
    } else {
        4 * (1 + fresh_weight(levels - 1))
    }
}

/// How many of the first three extensions of a node were handed out.
pub open spec fn handed_count(node: BitSequence) -> int {
    (if node.branched_mm {
        1int
    } else {
        0int
    }) + (if node.branched_mp {
        1int
    } else {
        0int
    }) + (if node.branched_pm {
        1int
    } else {
        0int
    })
}

/// The work left under a node: one step for a node without free pair of
/// positions, else a share of a full subtree for each extension not handed out.
pub open spec fn node_weight(node: BitSequence) -> int {
    if node.m >= node.n / 2 {
        1
    } else {
        let w = 1 + fresh_weight(node.n / 2 - node.m - 1);
        let c = handed_count(node);
        if c == 0 {
            4 * w
        } else if c == 1 {
            3 * w
        } else if c == 2 {
            2 * w
        } else {
            w
        }
    }
}

/// The work left under all the nodes of a stack.
pub open spec fn stack_weight(stack: Seq<BitSequence>) -> int
    decreases stack.len(),
{
    if stack.len() == 0 {
        0
    } else {
        stack_weight(stack.drop_last()) + node_weight(stack.last())
    }
}

proof fn lemma_fresh_positive(levels: int)
    ensures
        fresh_weight(levels) >= 1,
    decreases levels,
{
    if levels > 0 {
        lemma_fresh_positive(levels - 1);
    }
}

/// The work left under a stack is never negative.
proof fn lemma_stack_weight_nonneg(stack: Seq<BitSequence>)
    ensures
        stack_weight(stack) >= 0,
    decreases stack.len(),
{
    if stack.len() > 0 {
        lemma_stack_weight_nonneg(stack.drop_last());
        lemma_fresh_positive(stack.last().n / 2 - stack.last().m - 1);
    }
}

/// Every step lowers the work left under the stack.
pub(crate) proof fn lemma_step_weight(
    before: Seq<BitSequence>,
    after: Seq<BitSequence>,
    found: Seq<Incumbent>,
    best: int,
)
    requires
        before.len() > 0,
        stack_ok(before),
        step_outcome(before, after, found, best),
    ensures
        stack_weight(after) < stack_weight(before),
{
    let top = before.last();
    let rest = before.drop_last();
    let k = rest.len() as int;
    assert(top == before[k]);
    assert(top.wf());
    let w = 1 + fresh_weight(top.n / 2 - top.m - 1);
    lemma_fresh_positive(top.n / 2 - top.m - 1);
    assert(stack_weight(before) == stack_weight(rest) + node_weight(top));
    if node_bound(top) >= best || top.m == top.n / 2 {
        assert(after == rest);
    } else {
        let child = after.last();
        assert(child.m == top.m + 1 && child.n == top.n);
        assert(handed_count(child) == 0);
        assert(node_weight(child) == fresh_weight(top.n / 2 - top.m - 1)) by {
            if child.m < child.n / 2 {
                assert(fresh_weight(top.n / 2 - top.m - 1) == 4 * (1 + fresh_weight(
                    top.n / 2 - top.m - 2,
                )));
            }
        }
        if top.branched_pp || (top.branched_mm && top.branched_mp && top.branched_pm) {
            assert(after.drop_last() =~= rest) by {
                assert forall|i: int| 0 <= i < k implies #[trigger] after.drop_last()[i] == rest[i] by {
                    assert(after.take(k)[i] == rest[i]);
                }
            }
            assert(stack_weight(after) == stack_weight(rest) + node_weight(child));
        } else {
            let p = after[k];
            assert(marks_next(p, top));
            assert(handed_count(p) == handed_count(top) + 1);
            let a1 = after.drop_last();
            assert(a1.last() == p);
            assert(a1.drop_last() =~= rest) by {
                assert forall|i: int| 0 <= i < k implies #[trigger] a1.drop_last()[i] == rest[i] by {
                    assert(after.take(k)[i] == rest[i]);
                }
            }
            assert(stack_weight(a1) == stack_weight(rest) + node_weight(p));
            assert(stack_weight(after) == stack_weight(a1) + node_weight(child));
        }
    }
}

/// Law: the search ends. Every step on a non-empty stack lowers the work left
/// under the stack, which is never negative, so a run of steps that each find
/// a non-empty stack has at most as many steps as the work left under the first
/// stack; the loop that steps while the stack is not empty therefore empties it.
pub proof fn lemma_search_ends(
    stacks: Seq<Seq<BitSequence>>,
    founds: Seq<Seq<Incumbent>>,
    bests: Seq<int>,
)
    requires
        stacks.len() == founds.len() + 1,
        bests.len() == founds.len(),
        forall|i: int|
            0 <= i < founds.len() ==> {
                &&& stacks[i].len() > 0
                &&& stack_ok(stacks[i])
                &&& step_outcome(#[trigger] stacks[i], stacks[i + 1], founds[i], bests[i])
            },
    ensures
        founds.len() + stack_weight(stacks.last()) <= stack_weight(stacks[0]),
        founds.len() <= stack_weight(stacks[0]),
    decreases founds.len(),
{
    lemma_stack_weight_nonneg(stacks.last());
    if founds.len() > 0 {
        let st = stacks.skip(1);
        let fs = founds.skip(1);
        let bs = bests.skip(1);
        assert(step_outcome(stacks[0], stacks[1], founds[0], bests[0]));
        lemma_step_weight(stacks[0], stacks[1], founds[0], bests[0]);
        assert forall|i: int| 0 <= i < fs.len() implies {
            &&& st[i].len() > 0
            &&& stack_ok(st[i])
            &&& step_outcome(#[trigger] st[i], st[i + 1], fs[i], bs[i])
        } by {
            assert(st[i] == stacks[i + 1]);
            assert(st[i + 1] == stacks[i + 2]);
            assert(step_outcome(stacks[i + 1], stacks[i + 2], founds[i + 1], bests[i + 1]));
        }
        assert(st.last() == stacks.last());
        lemma_search_ends(st, fs, bs);
    }
}

/// Law: a step reports only from a node whose bound is strictly below the
/// best energy, and every sequence it reports has an energy at least that
/// bound; a node whose bound is at least the best energy is removed and
/// nothing is reported.
pub proof fn lemma_step_prunes_at_best(
    before: Seq<BitSequence>,
    after: Seq<BitSequence>,
    found: Seq<Incumbent>,
    best: int,
)
    requires
        before.len() > 0,
        stack_ok(before),
        step_outcome(before, after, found, best),
    ensures
        found.len() > 0 ==> node_bound(before.last()) < best,
        forall|i: int|
            0 <= i < found.len() ==> node_bound(before.last()) <= energy(
                #[trigger] found[i].sequence.sequence@,
            ),
        node_bound(before.last()) >= best ==> found.len() == 0 && after == before.drop_last()
            && after.len() < before.len(),
{
    let top = before.last();
    let k = before.len() - 1;
    assert(top == before[k]);
    let m = top.m as int;
    let s = top.sequence@;
    assert forall|i: int| 0 <= i < found.len() implies node_bound(top) <= energy(
        #[trigger] found[i].sequence.sequence@,
    ) by {
        if top.n % 2 == 1 {
            let b = i == 1;
            let fr = seq![b];
            assert(s.insert(m, b) =~= completion(s, m, fr));
            lemma_bound_below_completions(&top, fr);
        } else {
            let fr = Seq::<bool>::empty();
            assert(s =~= completion(s, m, fr));
            lemma_bound_below_completions(&top, fr);
        }
    }
}

} // verus!
