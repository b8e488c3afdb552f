//! The language of a fragment graph: the byte strings a fragment can
//! produce when depth is no object.
use vstd::prelude::*;
use crate::ir::{children, node_in_bounds, table_wf, Node};
use crate::optimizer::{
    lemma_pass_upto_wf, lemma_rewrite_marks_only_nops, live_steps, no_nops, nops_empty, pass_upto,
    rewrite_at, run_passes,
};

verus! {

/// Fragment `id` of `t` derives `s` in at most `f` levels.
pub open spec fn derives(t: Seq<Node>, id: nat, s: Seq<u8>, f: nat) -> bool
    decreases f, 0nat, 0nat, 0nat,
{
    f > 0 && id < t.len() && node_derives(t, t[id as int], s, (f - 1) as nat)
}

/// The content `n` derives `s`, its children in at most `f` levels.
pub open spec fn node_derives(t: Seq<Node>, n: Node, s: Seq<u8>, f: nat) -> bool
    decreases f, 3nat, 0nat, 0nat,
{
    match n {
        Node::Choice(o) => option_derives(t, o, o.len(), s, f),
        Node::Steps(e) => steps_derive(t, e, e.len(), s, f),
        Node::Bytes(b) => s == b,
        Node::Empty => s.len() == 0,
    }
}

/// One of the first `k` options `o` derives `s`.
pub open spec fn option_derives(t: Seq<Node>, o: Seq<nat>, k: nat, s: Seq<u8>, f: nat) -> bool
    decreases f, 2nat, k, 0nat,
{
    0 < k <= o.len() && (option_derives(t, o, (k - 1) as nat, s, f) || derives(t, o[k - 1], s, f))
}

/// The first `k` steps of `e` derive, one after the other, `s`.
pub open spec fn steps_derive(t: Seq<Node>, e: Seq<nat>, k: nat, s: Seq<u8>, f: nat) -> bool
    decreases f, 1nat, k, s.len() + 1,
{
    if k == 0 {
        s.len() == 0
    } else {
        k <= e.len() && split_derives(t, e, k, s, s.len(), f)
    }
}

/// For some cut `i <= j`, the first `k - 1` steps of `e` derive `s[..i]`
/// and step `k - 1` derives `s[i..]`.
pub open spec fn split_derives(t: Seq<Node>, e: Seq<nat>, k: nat, s: Seq<u8>, j: nat, f: nat) -> bool
    decreases f, 1nat, k, j,
{
    &&& 0 < k <= e.len()
    &&& j <= s.len()
    &&& {
        ||| (steps_derive(t, e, (k - 1) as nat, s.subrange(0, j as int), f)
            && derives(t, e[k - 1], s.subrange(j as int, s.len() as int), f))
        ||| (j > 0 && split_derives(t, e, k, s, (j - 1) as nat, f))
    }
}

/// Fragment `id` of `t` can produce `s`.
pub open spec fn in_language(t: Seq<Node>, id: nat, s: Seq<u8>) -> bool {
    exists|f: nat| #[trigger] derives(t, id, s, f)
}

/// Fragment `idx` of `t` is a one-option choice or a one-step expression
/// whose only child is `c`.
pub open spec fn single_child(t: Seq<Node>, idx: nat, c: nat) -> bool {
    &&& idx < t.len()
    &&& c < t.len()
    &&& (t[idx as int] == Node::Choice(seq![c]) || t[idx as int] == Node::Steps(seq![c]))
}

/// The relation between the source and target tables of a transfer of
/// derivations: the same table one level up (mode 0), the table before and
/// after inlining (mode 1), or after and before it (mode 2).
spec fn transfer_ok(mode: nat, t: Seq<Node>, idx: nat, c: nat, nops: Seq<bool>, src: Seq<Node>, dst: Seq<Node>) -> bool {
    ||| mode == 0 && src == dst
    ||| mode == 1 && single_child(t, idx, c) && src == t && dst == t.update(idx as int, t[c as int])
    ||| mode == 2 && single_child(t, idx, c) && src == t.update(idx as int, t[c as int]) && dst == t
    ||| mode == 3 && empty_steps(t, idx) && src == t && dst == t.update(idx as int, Node::Empty)
    ||| mode == 4 && empty_steps(t, idx) && src == t.update(idx as int, Node::Empty) && dst == t
    ||| mode == 5 && droppable(t, idx, nops) && src == t && dst == t.update(idx as int, dropped(t, idx, nops))
    ||| mode == 6 && droppable(t, idx, nops) && src == t.update(idx as int, dropped(t, idx, nops)) && dst == t
}

/// Fragment `idx` of `t` is an expression without steps.
pub open spec fn empty_steps(t: Seq<Node>, idx: nat) -> bool {
    idx < t.len() && t[idx as int] == Node::Steps(Seq::empty())
}

/// Fragment `idx` of `t` is an expression, the table has no dangling
/// references, and every fragment marked in `nops` is a no-op.
pub open spec fn droppable(t: Seq<Node>, idx: nat, nops: Seq<bool>) -> bool {
    &&& idx < t.len()
    &&& t[idx as int] is Steps
    &&& table_wf(t)
    &&& nops.len() == t.len()
    &&& nops_empty(t, nops)
}

/// Fragment `idx` without its steps that are marked in `nops`.
pub open spec fn dropped(t: Seq<Node>, idx: nat, nops: Seq<bool>) -> Node {
    Node::Steps(live_steps(t[idx as int]->Steps_0, nops))
}

/// Transfers into the same table come first in the order of the proofs.
spec fn mode_rank(mode: nat) -> nat {
    if mode == 0 {
        0
    } else {
        1
    }
}

/// The number of levels a derivation of `f` levels needs after a transfer.
spec fn transfer_fuel(mode: nat, f: nat) -> nat {
    if mode == 0 || mode == 5 || mode == 6 {
        f + 1
    } else if mode == 1 || mode == 3 || mode == 4 {
        f
    } else {
        2 * f
    }
}

proof fn lemma_single_steps(t: Seq<Node>, e: Seq<nat>, s: Seq<u8>, j: nat, f: nat)
    requires
        e.len() == 1,
        j <= s.len(),
    ensures
        split_derives(t, e, 1, s, j, f) <==> derives(t, e[0], s, f),
    decreases j,
{
    assert(s.subrange(0, s.len() as int) =~= s);
    assert(s.subrange(0, 0) =~= Seq::<u8>::empty());
    if j > 0 {
        lemma_single_steps(t, e, s, (j - 1) as nat, f);
        assert(s.subrange(0, j as int).len() > 0);
        assert(!steps_derive(t, e, 0, s.subrange(0, j as int), f));
    } else {
        assert(steps_derive(t, e, 0, s.subrange(0, 0), f));
    }
}

/// A single child's derivations are those of the fragment around it, one
/// level up.
proof fn lemma_single_child(t: Seq<Node>, idx: nat, c: nat, s: Seq<u8>, f: nat)
    requires
        single_child(t, idx, c),
    ensures
        node_derives(t, t[idx as int], s, f) <==> derives(t, c, s, f),
{
    if t[idx as int] == Node::Steps(seq![c]) {
        lemma_single_steps(t, seq![c], s, s.len(), f);
    } else {
        assert(option_derives(t, seq![c], 0, s, f) == false);
    }
}

proof fn lemma_transfer(mode: nat, t: Seq<Node>, idx: nat, c: nat, nops: Seq<bool>, src: Seq<Node>, dst: Seq<Node>, x: nat, s: Seq<u8>, f: nat)
    requires
        transfer_ok(mode, t, idx, c, nops, src, dst),
        derives(src, x, s, f),
    ensures
        derives(dst, x, s, transfer_fuel(mode, f)),
    decreases mode_rank(mode), f, 0nat, 0nat, 0nat,
{
    let g = (f - 1) as nat;
    if mode >= 3 {
        if x != idx {
            lemma_transfer_node(mode, t, idx, c, nops, src, dst, src[x as int], s, g);
        } else if mode == 3 || mode == 4 {
        } else if mode == 5 {
            let e = t[idx as int]->Steps_0;
            assert(node_in_bounds(t[idx as int], t.len()));
            assert forall|k: int| 0 <= k < e.len() implies #[trigger] e[k] < t.len() by {
                assert(children(t[idx as int])[k] == e[k]);
            }
            lemma_drop_fwd(t, idx, nops, src, dst, e, s, g);
        } else {
            let e = t[idx as int]->Steps_0;
            assert(node_in_bounds(t[idx as int], t.len()));
            assert forall|k: int| 0 <= k < e.len() implies #[trigger] e[k] < t.len() by {
                assert(children(t[idx as int])[k] == e[k]);
            }
            lemma_drop_bwd(t, idx, nops, src, dst, e, s, g);
        }
    } else if mode == 0 || x != idx || c == idx {
        if mode == 2 && x == idx && c == idx {
            assert(src =~= dst);
        }
        if mode == 1 && x == idx && c == idx {
            assert(src =~= dst);
        }
        lemma_transfer_node(mode, t, idx, c, nops, src, dst, src[x as int], s, g);
        if mode == 2 {
            assert(derives(dst, x, s, (2 * g + 1) as nat));
            lemma_transfer(0, t, idx, c, nops, dst, dst, x, s, (2 * g + 1) as nat);
        }
    } else if mode == 1 {
        lemma_single_child(t, idx, c, s, g);
        let h = (g - 1) as nat;
        lemma_transfer_node(mode, t, idx, c, nops, src, dst, t[c as int], s, h);
        assert(derives(dst, x, s, g));
        lemma_transfer(0, t, idx, c, nops, dst, dst, x, s, g);
    } else {
        lemma_transfer_node(mode, t, idx, c, nops, src, dst, t[c as int], s, g);
        assert(derives(dst, c, s, (2 * g + 1) as nat));
        lemma_single_child(t, idx, c, s, (2 * g + 1) as nat);
    }
}

proof fn lemma_transfer_node(mode: nat, t: Seq<Node>, idx: nat, c: nat, nops: Seq<bool>, src: Seq<Node>, dst: Seq<Node>, n: Node, s: Seq<u8>, f: nat)
    requires
        transfer_ok(mode, t, idx, c, nops, src, dst),
        node_derives(src, n, s, f),
    ensures
        node_derives(dst, n, s, transfer_fuel(mode, f)),
    decreases mode_rank(mode), f, 3nat, 0nat, 0nat,
{
    match n {
        Node::Choice(o) => lemma_transfer_option(mode, t, idx, c, nops, src, dst, o, o.len(), s, f),
        Node::Steps(e) => lemma_transfer_steps(mode, t, idx, c, nops, src, dst, e, e.len(), s, f),
        _ => {},
    }
}

proof fn lemma_transfer_option(mode: nat, t: Seq<Node>, idx: nat, c: nat, nops: Seq<bool>, src: Seq<Node>, dst: Seq<Node>, o: Seq<nat>, k: nat, s: Seq<u8>, f: nat)
    requires
        transfer_ok(mode, t, idx, c, nops, src, dst),
        option_derives(src, o, k, s, f),
    ensures
        option_derives(dst, o, k, s, transfer_fuel(mode, f)),
    decreases mode_rank(mode), f, 2nat, k, 0nat,
{
    if option_derives(src, o, (k - 1) as nat, s, f) {
        lemma_transfer_option(mode, t, idx, c, nops, src, dst, o, (k - 1) as nat, s, f);
    } else {
        lemma_transfer(mode, t, idx, c, nops, src, dst, o[k - 1], s, f);
    }
}

proof fn lemma_transfer_steps(mode: nat, t: Seq<Node>, idx: nat, c: nat, nops: Seq<bool>, src: Seq<Node>, dst: Seq<Node>, e: Seq<nat>, k: nat, s: Seq<u8>, f: nat)
    requires
        transfer_ok(mode, t, idx, c, nops, src, dst),
        steps_derive(src, e, k, s, f),
    ensures
        steps_derive(dst, e, k, s, transfer_fuel(mode, f)),
    decreases mode_rank(mode), f, 1nat, k, s.len() + 1,
{
    if k > 0 {
        lemma_transfer_split(mode, t, idx, c, nops, src, dst, e, k, s, s.len(), f);
    }
}

proof fn lemma_transfer_split(mode: nat, t: Seq<Node>, idx: nat, c: nat, nops: Seq<bool>, src: Seq<Node>, dst: Seq<Node>, e: Seq<nat>, k: nat, s: Seq<u8>, j: nat, f: nat)
    requires
        transfer_ok(mode, t, idx, c, nops, src, dst),
        split_derives(src, e, k, s, j, f),
    ensures
        split_derives(dst, e, k, s, j, transfer_fuel(mode, f)),
    decreases mode_rank(mode), f, 1nat, k, j,
{
    if steps_derive(src, e, (k - 1) as nat, s.subrange(0, j as int), f)
        && derives(src, e[k - 1], s.subrange(j as int, s.len() as int), f) {
        lemma_transfer_steps(mode, t, idx, c, nops, src, dst, e, (k - 1) as nat, s.subrange(0, j as int), f);
        lemma_transfer(mode, t, idx, c, nops, src, dst, e[k - 1], s.subrange(j as int, s.len() as int), f);
    } else {
        lemma_transfer_split(mode, t, idx, c, nops, src, dst, e, k, s, (j - 1) as nat, f);
    }
}

/// Inlining the only child of a one-option choice or a one-step expression
/// into its place changes the language of no fragment.
pub proof fn lemma_inlining_keeps_language(t: Seq<Node>, idx: nat, c: nat, x: nat, s: Seq<u8>)
    requires
        single_child(t, idx, c),
    ensures
        in_language(t, x, s) <==> in_language(t.update(idx as int, t[c as int]), x, s),
{
    let t2 = t.update(idx as int, t[c as int]);
    if in_language(t, x, s) {
        let f = choose|f: nat| #[trigger] derives(t, x, s, f);
        lemma_transfer(1, t, idx, c, Seq::empty(), t, t2, x, s, f);
        assert(derives(t2, x, s, f));
    }
    if in_language(t2, x, s) {
        let f = choose|f: nat| #[trigger] derives(t2, x, s, f);
        lemma_transfer(2, t, idx, c, Seq::empty(), t2, t, x, s, f);
        assert(derives(t, x, s, 2 * f));
    }
}


proof fn lemma_steps_prefix(t: Seq<Node>, e: Seq<nat>, e2: Seq<nat>, k: nat, s: Seq<u8>, f: nat)
    requires
        k <= e.len(),
        k <= e2.len(),
        forall|i: int| 0 <= i < k ==> e[i] == e2[i],
    ensures
        steps_derive(t, e, k, s, f) == steps_derive(t, e2, k, s, f),
    decreases k, s.len() + 1,
{
    if k > 0 {
        lemma_split_prefix(t, e, e2, k, s, s.len(), f);
    }
}

proof fn lemma_split_prefix(t: Seq<Node>, e: Seq<nat>, e2: Seq<nat>, k: nat, s: Seq<u8>, j: nat, f: nat)
    requires
        0 < k,
        k <= e.len(),
        k <= e2.len(),
        j <= s.len(),
        forall|i: int| 0 <= i < k ==> e[i] == e2[i],
    ensures
        split_derives(t, e, k, s, j, f) == split_derives(t, e2, k, s, j, f),
    decreases k, j,
{
    lemma_steps_prefix(t, e, e2, (k - 1) as nat, s.subrange(0, j as int), f);
    if j > 0 {
        lemma_split_prefix(t, e, e2, k, s, (j - 1) as nat, f);
    }
}

proof fn lemma_split_intro(t: Seq<Node>, e: Seq<nat>, k: nat, s: Seq<u8>, bound: nat, j: nat, f: nat)
    requires
        0 < k <= e.len(),
        j <= bound <= s.len(),
        steps_derive(t, e, (k - 1) as nat, s.subrange(0, j as int), f),
        derives(t, e[k - 1], s.subrange(j as int, s.len() as int), f),
    ensures
        split_derives(t, e, k, s, bound, f),
    decreases bound,
{
    if j < bound {
        lemma_split_intro(t, e, k, s, (bound - 1) as nat, j, f);
    }
}

proof fn lemma_split_elim(t: Seq<Node>, e: Seq<nat>, k: nat, s: Seq<u8>, bound: nat, f: nat) -> (j: nat)
    requires
        split_derives(t, e, k, s, bound, f),
    ensures
        j <= bound <= s.len(),
        0 < k <= e.len(),
        steps_derive(t, e, (k - 1) as nat, s.subrange(0, j as int), f),
        derives(t, e[k - 1], s.subrange(j as int, s.len() as int), f),
    decreases bound,
{
    if steps_derive(t, e, (k - 1) as nat, s.subrange(0, bound as int), f)
        && derives(t, e[k - 1], s.subrange(bound as int, s.len() as int), f) {
        bound
    } else {
        lemma_split_elim(t, e, k, s, (bound - 1) as nat, f)
    }
}

proof fn lemma_drop_fwd(t: Seq<Node>, idx: nat, nops: Seq<bool>, src: Seq<Node>, dst: Seq<Node>, e: Seq<nat>, s: Seq<u8>, f: nat)
    requires
        transfer_ok(5, t, idx, 0, nops, src, dst),
        forall|k: int| 0 <= k < e.len() ==> #[trigger] e[k] < t.len(),
        steps_derive(src, e, e.len(), s, f),
    ensures
        steps_derive(dst, live_steps(e, nops), live_steps(e, nops).len(), s, f + 1),
    decreases 1nat, f, 4nat, e.len(), 0nat,
{
    if e.len() > 0 {
        let n = e.len();
        let d = e.drop_last();
        let last = e.last();
        let j = lemma_split_elim(src, e, n, s, s.len(), f);
        lemma_steps_prefix(src, e, d, d.len(), s.subrange(0, j as int), f);
        let live_d = live_steps(d, nops);
        if nops[last as int] {
            assert(src[last as int] == Node::Empty);
            assert(s.subrange(0, j as int) =~= s);
            lemma_drop_fwd(t, idx, nops, src, dst, d, s, f);
        } else {
            lemma_drop_fwd(t, idx, nops, src, dst, d, s.subrange(0, j as int), f);
            lemma_transfer(5, t, idx, 0, nops, src, dst, last, s.subrange(j as int, s.len() as int), f);
            let l = live_d.push(last);
            lemma_steps_prefix(dst, live_d, l, live_d.len(), s.subrange(0, j as int), f + 1);
            lemma_split_intro(dst, l, l.len(), s, s.len(), j, f + 1);
        }
    }
}

proof fn lemma_drop_bwd(t: Seq<Node>, idx: nat, nops: Seq<bool>, src: Seq<Node>, dst: Seq<Node>, e: Seq<nat>, s: Seq<u8>, f: nat)
    requires
        transfer_ok(6, t, idx, 0, nops, src, dst),
        forall|k: int| 0 <= k < e.len() ==> #[trigger] e[k] < t.len(),
        steps_derive(src, live_steps(e, nops), live_steps(e, nops).len(), s, f),
    ensures
        steps_derive(dst, e, e.len(), s, f + 1),
    decreases 1nat, f, 4nat, e.len(), 0nat,
{
    if e.len() > 0 {
        let n = e.len();
        let d = e.drop_last();
        let last = e.last();
        let live_d = live_steps(d, nops);
        if nops[last as int] {
            lemma_drop_bwd(t, idx, nops, src, dst, d, s, f);
            lemma_steps_prefix(dst, d, e, d.len(), s, f + 1);
            assert(s.subrange(0, s.len() as int) =~= s);
            assert(dst[last as int] == Node::Empty);
            assert(derives(dst, last, s.subrange(s.len() as int, s.len() as int), f + 1));
            lemma_split_intro(dst, e, n, s, s.len(), s.len(), f + 1);
        } else {
            let l = live_d.push(last);
            let j = lemma_split_elim(src, l, l.len(), s, s.len(), f);
            lemma_steps_prefix(src, live_d, l, live_d.len(), s.subrange(0, j as int), f);
            lemma_drop_bwd(t, idx, nops, src, dst, d, s.subrange(0, j as int), f);
            lemma_steps_prefix(dst, d, e, d.len(), s.subrange(0, j as int), f + 1);
            lemma_transfer(6, t, idx, 0, nops, src, dst, last, s.subrange(j as int, s.len() as int), f);
            lemma_split_intro(dst, e, n, s, s.len(), j, f + 1);
        }
    }
}


/// Replacing an expression without steps by a no-op changes the language
/// of no fragment.
pub proof fn lemma_empty_steps_keeps_language(t: Seq<Node>, idx: nat, x: nat, s: Seq<u8>)
    requires
        empty_steps(t, idx),
    ensures
        in_language(t, x, s) <==> in_language(t.update(idx as int, Node::Empty), x, s),
{
    let t2 = t.update(idx as int, Node::Empty);
    if in_language(t, x, s) {
        let f = choose|f: nat| #[trigger] derives(t, x, s, f);
        lemma_transfer(3, t, idx, 0, Seq::empty(), t, t2, x, s, f);
    }
    if in_language(t2, x, s) {
        let f = choose|f: nat| #[trigger] derives(t2, x, s, f);
        lemma_transfer(4, t, idx, 0, Seq::empty(), t2, t, x, s, f);
    }
}

/// Dropping from an expression its steps that are known no-ops changes the
/// language of no fragment.
pub proof fn lemma_dropping_nops_keeps_language(t: Seq<Node>, idx: nat, nops: Seq<bool>, x: nat, s: Seq<u8>)
    requires
        droppable(t, idx, nops),
    ensures
        in_language(t, x, s) <==> in_language(t.update(idx as int, dropped(t, idx, nops)), x, s),
{
    let t2 = t.update(idx as int, dropped(t, idx, nops));
    if in_language(t, x, s) {
        let f = choose|f: nat| #[trigger] derives(t, x, s, f);
        lemma_transfer(5, t, idx, 0, nops, t, t2, x, s, f);
        assert(derives(t2, x, s, f + 1));
    }
    if in_language(t2, x, s) {
        let f = choose|f: nat| #[trigger] derives(t2, x, s, f);
        lemma_transfer(6, t, idx, 0, nops, t2, t, x, s, f);
        assert(derives(t, x, s, f + 1));
    }
}

/// Applying the rewrite rules to one fragment changes the language of no
/// fragment.
proof fn lemma_rewrite_keeps_language(t: Seq<Node>, nops: Seq<bool>, idx: int, x: nat, s: Seq<u8>)
    requires
        table_wf(t),
        nops.len() == t.len(),
        nops_empty(t, nops),
        0 <= idx < t.len(),
    ensures
        in_language(t, x, s) <==> in_language(rewrite_at(t, nops, idx).0, x, s),
{
    assert(node_in_bounds(t[idx], t.len()));
    match t[idx] {
        Node::Choice(o) => {
            if o.len() == 1 {
                assert(children(t[idx])[0] < t.len());
                assert(o =~= seq![o[0]]);
                lemma_inlining_keeps_language(t, idx as nat, o[0], x, s);
            }
        },
        Node::Steps(e) => {
            let first = if e.len() == 0 {
                (t.update(idx, Node::Empty), nops.update(idx, true), true)
            } else if e.len() == 1 {
                (t.update(idx, t[e[0] as int]), nops, true)
            } else {
                (t, nops, false)
            };
            if e.len() == 0 {
                assert(e =~= Seq::<nat>::empty());
                lemma_empty_steps_keeps_language(t, idx as nat, x, s);
            } else if e.len() == 1 {
                assert(children(t[idx])[0] < t.len());
                assert(e =~= seq![e[0]]);
                lemma_inlining_keeps_language(t, idx as nat, e[0], x, s);
                assert(node_in_bounds(t[e[0] as int], t.len()));
            }
            assert(table_wf(first.0)) by {
                assert forall|i: int| 0 <= i < first.0.len() implies node_in_bounds(#[trigger] first.0[i], first.0.len()) by {
                    if i != idx {
                        assert(node_in_bounds(t[i], t.len()));
                    }
                }
            }
            assert(nops_empty(first.0, first.1));
            match first.0[idx] {
                Node::Steps(e2) => {
                    lemma_dropping_nops_keeps_language(first.0, idx as nat, first.1, x, s);
                },
                _ => {},
            }
        },
        _ => {},
    }
}

proof fn lemma_pass_keeps_language(t: Seq<Node>, nops: Seq<bool>, k: nat, x: nat, s: Seq<u8>)
    requires
        table_wf(t),
        nops.len() == t.len(),
        nops_empty(t, nops),
        k <= t.len(),
    ensures
        in_language(t, x, s) <==> in_language(pass_upto(t, nops, k).0, x, s),
        nops_empty(pass_upto(t, nops, k).0, pass_upto(t, nops, k).1),
    decreases k,
{
    if k > 0 {
        lemma_pass_keeps_language(t, nops, (k - 1) as nat, x, s);
        lemma_pass_upto_wf(t, nops, (k - 1) as nat);
        let b = pass_upto(t, nops, (k - 1) as nat);
        lemma_rewrite_marks_only_nops(b.0, b.1, k - 1);
        lemma_rewrite_keeps_language(b.0, b.1, k - 1, x, s);
    }
}

proof fn lemma_passes_keep_language(t: Seq<Node>, nops: Seq<bool>, k: nat, x: nat, s: Seq<u8>)
    requires
        table_wf(t),
        nops.len() == t.len(),
        nops_empty(t, nops),
    ensures
        in_language(t, x, s) <==> in_language(run_passes(t, nops, k).0, x, s),
        table_wf(run_passes(t, nops, k).0),
        run_passes(t, nops, k).0.len() == t.len(),
        run_passes(t, nops, k).1.len() == t.len(),
        nops_empty(run_passes(t, nops, k).0, run_passes(t, nops, k).1),
    decreases k,
{
    if k > 0 {
        lemma_passes_keep_language(t, nops, (k - 1) as nat, x, s);
        let b = run_passes(t, nops, (k - 1) as nat);
        lemma_pass_upto_wf(b.0, b.1, b.0.len());
        lemma_pass_keeps_language(b.0, b.1, b.0.len(), x, s);
    }
}

/// Any number of optimizer passes, started as the optimizer starts them,
/// keeps the set of byte strings every fragment can produce.
pub proof fn lemma_optimization_keeps_language(t: Seq<Node>, k: nat, x: nat, s: Seq<u8>)
    requires
        table_wf(t),
    ensures
        in_language(t, x, s) <==> in_language(run_passes(t, no_nops(t.len()), k).0, x, s),
{
    lemma_passes_keep_language(t, no_nops(t.len()), k, x, s);
}

} // verus!
