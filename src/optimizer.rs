//! Fixed-point simplification of the fragment graph.
use std::collections::BTreeSet;
use vstd::prelude::*;
use crate::language::{in_language, lemma_optimization_keeps_language};
use crate::ir::{
    children, copy_fragment, same_fragment, ids_view, node_in_bounds, table_view, table_wf, Fragment, FragmentId,
    GrammarRust, Node,
};

verus! {

/// The steps of `e` that are not known no-ops, in their order.
pub open spec fn live_steps(e: Seq<nat>, nops: Seq<bool>) -> Seq<nat>
    decreases e.len(),
{
    if e.len() == 0 {
        e
    } else {
        let r = live_steps(e.drop_last(), nops);
        if nops[e.last() as int] {
            r
        } else {
            r.push(e.last())
        }
    }
}

/// A known-no-op set that holds nothing, for a table of `n` fragments.
pub open spec fn no_nops(n: nat) -> Seq<bool> {
    Seq::new(n, |i: int| false)
}

/// The rewrite rules applied to fragment `idx` of table `t`, with the
/// known-no-op set `nops`: the new table, the new known-no-op set, and
/// whether a rule changed the fragment.
///
/// A one-option choice becomes a copy of its option; an expression with no
/// step becomes a no-op and is remembered as one; an expression with one
/// step becomes a copy of that step; an expression then loses its steps
/// that are known no-ops.
pub open spec fn rewrite_at(t: Seq<Node>, nops: Seq<bool>, idx: int) -> (Seq<Node>, Seq<bool>, bool) {
    match t[idx] {
        Node::Choice(o) => {
            if o.len() == 1 {
                (t.update(idx, t[o[0] as int]), nops, t[o[0] as int] != t[idx])
            } else {
                (t, nops, false)
            }
        },
        Node::Steps(e) => {
            let first = if e.len() == 0 {
                (t.update(idx, Node::Empty), nops.update(idx, true), true)
            } else if e.len() == 1 {
                (t.update(idx, t[e[0] as int]), nops, t[e[0] as int] != t[idx])
            } else {
                (t, nops, false)
            };
            match first.0[idx] {
                Node::Steps(e2) => {
                    let kept = live_steps(e2, first.1);
                    (first.0.update(idx, Node::Steps(kept)), first.1, first.2 || kept.len() != e2.len())
                },
                _ => first,
            }
        },
        _ => (t, nops, false),
    }
}

/// The state after the rewrite rules were applied to fragments `0..k`, in
/// order, each seeing the table as the earlier ones left it; the flag says
/// whether any rule changed a fragment.
pub open spec fn pass_upto(t: Seq<Node>, nops: Seq<bool>, k: nat) -> (Seq<Node>, Seq<bool>, bool)
    decreases k,
{
    if k == 0 {
        (t, nops, false)
    } else {
        let before = pass_upto(t, nops, (k - 1) as nat);
        let step = rewrite_at(before.0, before.1, k - 1);
        (step.0, step.1, before.2 || step.2)
    }
}

/// One pass of the rewrite rules over the whole table.
pub open spec fn one_pass(t: Seq<Node>, nops: Seq<bool>) -> (Seq<Node>, Seq<bool>, bool) {
    pass_upto(t, nops, t.len())
}

/// The table and known-no-op set after `k` whole passes.
pub open spec fn run_passes(t: Seq<Node>, nops: Seq<bool>, k: nat) -> (Seq<Node>, Seq<bool>)
    decreases k,
{
    if k == 0 {
        (t, nops)
    } else {
        let before = run_passes(t, nops, (k - 1) as nat);
        let after = one_pass(before.0, before.1);
        (after.0, after.1)
    }
}

/// No rewrite rule changes fragment `i` when nothing is known to be a
/// no-op: it is no expression without steps, and a one-option choice or
/// one-step expression is already equal to its only child.
pub open spec fn simplified_at(t: Seq<Node>, i: int) -> bool {
    match t[i] {
        Node::Choice(o) => o.len() == 1 ==> t[o[0] as int] == t[i],
        Node::Steps(e) => e.len() >= 1 && (e.len() == 1 ==> t[e[0] as int] == t[i]),
        _ => true,
    }
}

/// Whether pass `j` (counting from zero) of a run of the optimizer on `t`
/// changed anything.
pub open spec fn pass_changed(t: Seq<Node>, j: nat) -> bool {
    let before = run_passes(t, no_nops(t.len()), j);
    one_pass(before.0, before.1).2
}

/// A run of the optimizer on `t`, allowed `max` passes, stops after `k`
/// passes: every pass before the last changed something, and the last one
/// changed nothing or was pass number `max`.
pub open spec fn stops_after(t: Seq<Node>, max: nat, k: nat) -> bool {
    &&& k <= max
    &&& forall|j: nat| j + 1 < k ==> #[trigger] pass_changed(t, j)
    &&& (k > 0 && !pass_changed(t, (k - 1) as nat)) || k == max
}

/// The table is a fixed point of the simplification.
pub open spec fn is_simplified(t: Seq<Node>) -> bool {
    forall|i: int| 0 <= i < t.len() ==> #[trigger] simplified_at(t, i)
}

/// Every fragment marked in `nops` is a no-op.
pub open spec fn nops_empty(t: Seq<Node>, nops: Seq<bool>) -> bool {
    forall|i: int| 0 <= i < t.len() && i < nops.len() && #[trigger] nops[i] ==> t[i] == Node::Empty
}

/// The rewrite rules mark only no-ops as known no-ops, and never rewrite a
/// no-op.
pub proof fn lemma_rewrite_marks_only_nops(t: Seq<Node>, nops: Seq<bool>, idx: int)
    requires
        0 <= idx < t.len(),
        nops.len() == t.len(),
        nops_empty(t, nops),
    ensures
        nops_empty(rewrite_at(t, nops, idx).0, rewrite_at(t, nops, idx).1),
{
}

pub(crate) proof fn lemma_live_steps(e: Seq<nat>, nops: Seq<bool>, bound: nat)
    ensures
        live_steps(e, nops).len() <= e.len(),
        live_steps(e, nops).len() == e.len() ==> live_steps(e, nops) == e,
        (forall|k: int| 0 <= k < e.len() ==> e[k] < bound) ==> (forall|k: int|
            0 <= k < live_steps(e, nops).len() ==> #[trigger] live_steps(e, nops)[k] < bound),
        (forall|k: int| 0 <= k < e.len() ==> !nops[#[trigger] e[k] as int]) ==> live_steps(e, nops) == e,
    decreases e.len(),
{
    if e.len() > 0 {
        let d = e.drop_last();
        lemma_live_steps(d, nops, bound);
        assert(d.push(e.last()) =~= e);
        if (forall|k: int| 0 <= k < e.len() ==> !nops[#[trigger] e[k] as int]) {
            assert(forall|k: int| 0 <= k < d.len() ==> d[k] == e[k]);
            assert(!nops[e[e.len() - 1] as int]);
        }
        if (forall|k: int| 0 <= k < e.len() ==> e[k] < bound) {
            assert(forall|k: int| 0 <= k < d.len() ==> d[k] == e[k]);
        }
    }
}

pub(crate) proof fn lemma_rewrite_wf(t: Seq<Node>, nops: Seq<bool>, idx: int)
    requires
        table_wf(t),
        0 <= idx < t.len(),
        nops.len() == t.len(),
    ensures
        table_wf(rewrite_at(t, nops, idx).0),
        rewrite_at(t, nops, idx).0.len() == t.len(),
        rewrite_at(t, nops, idx).1.len() == t.len(),
{
    assert(node_in_bounds(t[idx], t.len()));
    match t[idx] {
        Node::Choice(o) => {
            if o.len() == 1 {
                assert(children(t[idx])[0] < t.len());
                assert(node_in_bounds(t[o[0] as int], t.len()));
            }
        },
        Node::Steps(e) => {
            if e.len() == 1 {
                assert(children(t[idx])[0] < t.len());
                assert(node_in_bounds(t[e[0] as int], t.len()));
            }
            let first = if e.len() == 0 {
                (t.update(idx, Node::Empty), nops.update(idx, true), true)
            } else if e.len() == 1 {
                (t.update(idx, t[e[0] as int]), nops, t[e[0] as int] != t[idx])
            } else {
                (t, nops, false)
            };
            assert(table_wf(first.0));
            match first.0[idx] {
                Node::Steps(e2) => {
                    assert(node_in_bounds(first.0[idx], t.len()));
                    assert(forall|k: int| 0 <= k < e2.len() ==> e2[k] == children(first.0[idx])[k]);
                    lemma_live_steps(e2, first.1, t.len());
                    let kept = live_steps(e2, first.1);
                    assert(forall|k: int| 0 <= k < kept.len() ==> kept[k] == children(Node::Steps(kept))[k]);
                    assert(node_in_bounds(Node::Steps(kept), t.len()));
                },
                _ => {},
            }
        },
        _ => {},
    }
}

pub(crate) proof fn lemma_pass_upto_wf(t: Seq<Node>, nops: Seq<bool>, k: nat)
    requires
        table_wf(t),
        k <= t.len(),
        nops.len() == t.len(),
    ensures
        table_wf(pass_upto(t, nops, k).0),
        pass_upto(t, nops, k).0.len() == t.len(),
        pass_upto(t, nops, k).1.len() == t.len(),
    decreases k,
{
    if k > 0 {
        lemma_pass_upto_wf(t, nops, (k - 1) as nat);
        let before = pass_upto(t, nops, (k - 1) as nat);
        lemma_rewrite_wf(before.0, before.1, k - 1);
    }
}

/// Where no rule changed a fragment in fragments `0..k`, the table and the known-no-op
/// set are as they were, and each of those fragments is simplified.
proof fn lemma_quiet_pass(t: Seq<Node>, nops: Seq<bool>, k: nat)
    requires
        k <= t.len(),
        !pass_upto(t, nops, k).2,
    ensures
        pass_upto(t, nops, k).0 == t,
        pass_upto(t, nops, k).1 == nops,
        forall|i: int| 0 <= i < k ==> #[trigger] simplified_at(t, i),
    decreases k,
{
    if k > 0 {
        lemma_quiet_pass(t, nops, (k - 1) as nat);
        let i = k - 1;
        match t[i] {
            Node::Choice(o) => {
                if o.len() == 1 {
                    assert(t.update(i, t[o[0] as int]) =~= t);
                }
            },
            Node::Steps(e) => {
                if e.len() == 1 {
                    assert(t.update(i, t[e[0] as int]) =~= t);
                }
                lemma_live_steps(e, nops, 0);
                assert(t.update(i, Node::Steps(e)) =~= t);
            },
            _ => {},
        }
    }
}

/// On a simplified table with nothing known to be a no-op, no rule changes
/// fragments `0..k`.
proof fn lemma_simplified_pass(t: Seq<Node>, k: nat)
    requires
        k <= t.len(),
        is_simplified(t),
        table_wf(t),
    ensures
        pass_upto(t, no_nops(t.len()), k) == (t, no_nops(t.len()), false),
    decreases k,
{
    if k > 0 {
        lemma_simplified_pass(t, (k - 1) as nat);
        let i = k - 1;
        assert(simplified_at(t, i));
        match t[i] {
            Node::Choice(o) => {
                if o.len() == 1 {
                    assert(t.update(i, t[o[0] as int]) =~= t);
                }
            },
            Node::Steps(e) => {
                if e.len() == 1 {
                    assert(t.update(i, t[e[0] as int]) =~= t);
                }
                assert(node_in_bounds(t[i], t.len()));
                assert forall|j: int| 0 <= j < e.len() implies !no_nops(t.len())[#[trigger] e[j] as int] by {
                    assert(children(t[i])[j] < t.len());
                }
                lemma_live_steps(e, no_nops(t.len()), 0);
                assert(t.update(i, Node::Steps(e)) =~= t);
            },
            _ => {},
        }
    }
}

/// A simplified table is a fixed point: a second run of the optimizer, which
/// starts with nothing known to be a no-op, changes nothing in its first pass
/// and stops there.
pub proof fn lemma_optimize_idempotent(t: Seq<Node>)
    requires
        table_wf(t),
        is_simplified(t),
    ensures
        one_pass(t, no_nops(t.len())) == (t, no_nops(t.len()), false),
        run_passes(t, no_nops(t.len()), 1) == (t, no_nops(t.len())),
{
    lemma_simplified_pass(t, t.len());
    assert(run_passes(t, no_nops(t.len()), 0) == (t, no_nops(t.len())));
}


/// The known-no-op set `s`, as flags for the fragments `0..n`.
pub open spec fn nop_flags(s: Set<usize>, n: nat) -> Seq<bool> {
    Seq::new(n, |i: int| s.contains(i as usize))
}

/// The steps of `e` that are not in `nops`, in their order.
fn live_of(e: &Vec<FragmentId>, nops: &BTreeSet<usize>, Ghost(n): Ghost<nat>) -> (r: Vec<FragmentId>)
    requires
        forall|k: int| 0 <= k < e@.len() ==> (#[trigger] e@[k]).0 < n,
    ensures
        ids_view(r@) == live_steps(ids_view(e@), nop_flags(nops@, n)),
{
    broadcast use vstd::std_specs::btree::group_btree_axioms;

    let mut r: Vec<FragmentId> = Vec::new();
    let mut i: usize = 0;
    while i < e.len()
        invariant
            i <= e@.len(),
            forall|k: int| 0 <= k < e@.len() ==> (#[trigger] e@[k]).0 < n,
            ids_view(r@) == live_steps(ids_view(e@.subrange(0, i as int)), nop_flags(nops@, n)),
        decreases e@.len() - i,
    {
        let ghost before = ids_view(e@.subrange(0, i as int));
        let ghost after = ids_view(e@.subrange(0, i + 1));
        proof {
            assert(after.drop_last() =~= before);
            assert(after.last() == e@[i as int].0);
        }
        let x = e[i];
        if !nops.contains(&x.0) {
            let ghost r0 = r@;
            r.push(x);
            proof {
                assert(ids_view(r@) =~= ids_view(r0).push(x.0 as nat));
            }
        }
        i = i + 1;
    }
    proof {
        assert(e@.subrange(0, i as int) =~= e@);
    }
    r
}

impl GrammarRust {
    /// Applies the rewrite rules once to every fragment, in order; returns
    /// whether any rule changed a fragment.
    #[verifier::rlimit(40)]
    fn pass(&mut self, nops: &mut BTreeSet<usize>) -> (changed: bool)
        requires
            table_wf(old(self).nodes()),
        ensures
            (final(self).nodes(), nop_flags(final(nops)@, old(self).nodes().len()), changed)
                == one_pass(old(self).nodes(), nop_flags(old(nops)@, old(self).nodes().len())),
            final(self).names == old(self).names,
            final(self).start == old(self).start,
    {
        broadcast use vstd::std_specs::btree::group_btree_axioms;
        let ghost t0 = self.nodes();
        let ghost n0 = nop_flags(nops@, t0.len());
        let mut changed = false;
        let mut idx: usize = 0;
        while idx < self.fragments.len()
            invariant
                idx <= self.fragments@.len(),
                self.fragments@.len() == t0.len(),
                table_wf(t0),
                n0.len() == t0.len(),
                (self.nodes(), nop_flags(nops@, t0.len()), changed) == pass_upto(t0, n0, idx as nat),
                self.names == old(self).names,
                self.start == old(self).start,
            decreases t0.len() - idx,
        {
            proof {
                lemma_pass_upto_wf(t0, n0, idx as nat);
                lemma_rewrite_wf(self.nodes(), nop_flags(nops@, t0.len()), idx as int);
            }
            let ghost t = self.nodes();
            let ghost nn = nop_flags(nops@, t0.len());
            let ghost want = rewrite_at(t, nn, idx as int);
            assert(node_in_bounds(t[idx as int], t.len()));
            let f = copy_fragment(&self.fragments[idx]);
            match f {
                Fragment::NonTerminal(options) => {
                    if options.len() == 1 {
                        assert(children(t[idx as int])[0] == options@[0].0);
                        let g = copy_fragment(&self.fragments[options[0].0]);
                        if !same_fragment(&g, &self.fragments[idx]) {
                            changed = true;
                        }
                        self.fragments.set(idx, g);
                        assert(self.nodes() =~= want.0);
                    } else {
                        assert(self.nodes() =~= want.0);
                    }
                },
                Fragment::Expression(expr) => {
                    if expr.len() == 0 {
                        self.fragments.set(idx, Fragment::Nop);
                        nops.insert(idx);
                        changed = true;
                    }
                    if expr.len() == 1 {
                        assert(children(t[idx as int])[0] == expr@[0].0);
                        let g = copy_fragment(&self.fragments[expr[0].0]);
                        if !same_fragment(&g, &self.fragments[idx]) {
                            changed = true;
                        }
                        self.fragments.set(idx, g);
                    }
                    let ghost first = if expr@.len() == 0 {
                        (t.update(idx as int, Node::Empty), nn.update(idx as int, true), true)
                    } else if expr@.len() == 1 {
                        (t.update(idx as int, t[expr@[0].0 as int]), nn, t[expr@[0].0 as int] != t[idx as int])
                    } else {
                        (t, nn, false)
                    };
                    assert(self.nodes() =~= first.0);
                    assert(nop_flags(nops@, t0.len()) =~= first.1);
                    let cur = copy_fragment(&self.fragments[idx]);
                    match cur {
                        Fragment::Expression(e2) => {
                            proof {
                                lemma_rewrite_wf(t, nn, idx as int);
                                assert(table_wf(first.0)) by {
                                    if expr@.len() == 1 {
                                        assert(node_in_bounds(t[expr@[0].0 as int], t.len()));
                                    }
                                }
                                assert(node_in_bounds(first.0[idx as int], t.len()));
                                assert forall|k: int| 0 <= k < e2@.len() implies (#[trigger] e2@[k]).0 < t0.len() by {
                                    assert(children(first.0[idx as int])[k] == e2@[k].0);
                                }
                            }
                            let kept = live_of(&e2, nops, Ghost(t0.len()));
                            if kept.len() != e2.len() {
                                changed = true;
                            }
                            self.fragments.set(idx, Fragment::Expression(kept));
                            assert(self.nodes() =~= want.0);
                        },
                        _ => {
                            assert(self.nodes() =~= want.0);
                        },
                    }
                },
                _ => {
                    assert(self.nodes() =~= want.0);
                },
            }
            idx = idx + 1;
        }
        changed
    }

    /// Runs passes of the rewrite rules until one changes no fragment, or until
    /// `max_passes` passes have run. Returns whether the table reached that
    /// fixed point. The known-no-op set lives for this one call.
    pub fn optimize_passes(&mut self, max_passes: usize) -> (fixed: bool)
        requires
            old(self).wf(),
        ensures
            final(self).wf(),
            final(self).names == old(self).names,
            final(self).start == old(self).start,
            exists|k: nat|
                #[trigger] stops_after(old(self).nodes(), max_passes as nat, k)
                    && run_passes(old(self).nodes(), no_nops(old(self).nodes().len()), k).0 == final(self).nodes()
                    && (fixed <==> (k > 0 && !pass_changed(old(self).nodes(), (k - 1) as nat))),
            !fixed ==> forall|j: nat| j < max_passes ==> #[trigger] pass_changed(old(self).nodes(), j),
            fixed ==> is_simplified(final(self).nodes()),
            (max_passes > 0 && is_simplified(old(self).nodes())) ==> fixed && final(self).nodes() == old(self).nodes(),
    {
        let ghost t0 = self.nodes();
        let ghost fresh = no_nops(t0.len());
        let mut nops: BTreeSet<usize> = BTreeSet::new();
        proof {
            assert(nop_flags(nops@, t0.len()) =~= fresh);
            assert(run_passes(t0, fresh, 0) == (t0, fresh));
        }
        let mut changed = true;
        let mut passes: usize = 0;
        while changed && passes < max_passes
            invariant
                passes <= max_passes,
                t0 == old(self).nodes(),
                fresh == no_nops(t0.len()),
                self.wf(),
                self.names == old(self).names,
                self.start == old(self).start,
                self.nodes().len() == t0.len(),
                run_passes(t0, fresh, passes as nat) == (self.nodes(), nop_flags(nops@, t0.len())),
                forall|j: nat| j + 1 < passes ==> #[trigger] pass_changed(t0, j),
                passes > 0 ==> changed == pass_changed(t0, (passes - 1) as nat),
                passes == 0 ==> changed,
                !changed ==> is_simplified(self.nodes()),
                (passes > 0 && is_simplified(t0)) ==> !changed && self.nodes() == t0,
            decreases max_passes - passes,
        {
            let ghost t = self.nodes();
            let ghost nn = nop_flags(nops@, t0.len());
            changed = self.pass(&mut nops);
            proof {
                if passes == 0 && is_simplified(t0) {
                    assert(run_passes(t0, fresh, 0) == (t0, fresh));
                    lemma_simplified_pass(t0, t0.len());
                }
                lemma_pass_upto_wf(t, nn, t.len());
                if !changed {
                    lemma_quiet_pass(t, nn, t.len());
                    assert forall|i: int| 0 <= i < self.nodes().len() implies #[trigger] simplified_at(self.nodes(), i) by {
                        assert(simplified_at(t, i));
                    }
                }
                assert(run_passes(t0, fresh, (passes + 1) as nat) == (self.nodes(), nop_flags(nops@, t0.len())));
                assert(changed == pass_changed(t0, passes as nat));
            }
            passes = passes + 1;
        }
        proof {
            let k = passes as nat;
            assert(stops_after(t0, max_passes as nat, k));
            assert(run_passes(t0, fresh, k).0 == self.nodes());
            if changed {
                assert forall|j: nat| j < max_passes implies #[trigger] pass_changed(t0, j) by {
                    if j + 1 < k {
                    } else {
                        assert(j == k - 1);
                    }
                }
            }
        }
        !changed
    }

    /// Simplifies the table in place until a pass changes no fragment,
    /// keeping the set of strings every fragment can produce. Returns
    /// whether that fixed point was reached, which fails only when each of
    /// `usize::MAX` passes changed something.
    pub fn optimize(&mut self) -> (fixed: bool)
        requires
            old(self).wf(),
        ensures
            final(self).wf(),
            final(self).names == old(self).names,
            final(self).start == old(self).start,
            exists|k: nat|
                #[trigger] stops_after(old(self).nodes(), usize::MAX as nat, k)
                    && run_passes(old(self).nodes(), no_nops(old(self).nodes().len()), k).0 == final(self).nodes()
                    && (fixed <==> (k > 0 && !pass_changed(old(self).nodes(), (k - 1) as nat))),
            !fixed ==> forall|j: nat| j < usize::MAX ==> #[trigger] pass_changed(old(self).nodes(), j),
            forall|x: nat, s: Seq<u8>|
                #[trigger] in_language(final(self).nodes(), x, s) == in_language(old(self).nodes(), x, s),
            fixed ==> is_simplified(final(self).nodes()),
            is_simplified(old(self).nodes()) ==> fixed && final(self).nodes() == old(self).nodes(),
    {
        let ghost t0 = self.nodes();
        let fixed = self.optimize_passes(usize::MAX);
        proof {
            let k = choose|k: nat|
                #[trigger] stops_after(t0, usize::MAX as nat, k)
                    && run_passes(t0, no_nops(t0.len()), k).0 == self.nodes()
                    && (fixed <==> (k > 0 && !pass_changed(t0, (k - 1) as nat)));
            assert forall|x: nat, s: Seq<u8>| #[trigger] in_language(self.nodes(), x, s) == in_language(t0, x, s) by {
                lemma_optimization_keeps_language(t0, k, x, s);
            }
        }
        fixed
    }
}

} // verus!
