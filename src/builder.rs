//! Building the fragment graph from named productions.
use vstd::prelude::*;
use crate::ir::{
    children, copy_bytes, ids_view, names_distinct, names_view, node_in_bounds, table_view, table_wf, Fragment,
    FragmentId, GrammarRust, Node,
};

verus! {

/// One named production: its alternatives, each an ordered list of symbols.
/// A symbol that equals the name of a production refers to it; any other
/// symbol is literal text.
#[derive(Debug)]
pub struct Production {
    pub name: Vec<u8>,
    pub alternatives: Vec<Vec<Vec<u8>>>,
}

/// Why a grammar could not be turned into a fragment graph.
#[derive(Clone, Copy, Debug, PartialEq, Eq, Structural)]
pub enum BuildError {
    /// Two productions have the same name.
    DuplicateName,
    /// No production is named `<start>`.
    MissingStart,
}

/// The alternatives of a production, as byte sequences.
pub open spec fn alts_of(p: Production) -> Seq<Seq<Seq<u8>>> {
    p.alternatives@.map_values(|a: Vec<Vec<u8>>| a@.map_values(|s: Vec<u8>| s@))
}

pub open spec fn prod_names(ps: Seq<Production>) -> Seq<Seq<u8>> {
    ps.map_values(|p: Production| p.name@)
}

/// The reserved name of the entry production, `<start>`.
pub open spec fn start_name() -> Seq<u8> {
    seq![60u8, 115u8, 116u8, 97u8, 114u8, 116u8, 62u8]
}

/// `n` is what symbol `sym` compiles to: a one-option choice of the
/// production it names, or its literal bytes when it names none.
pub open spec fn resolves(names: Seq<Seq<u8>>, sym: Seq<u8>, n: Node) -> bool {
    if names.contains(sym) {
        exists|j: int| 0 <= j < names.len() && names[j] == sym && n == Node::Choice(seq![j as nat])
    } else {
        n == Node::Bytes(sym)
    }
}

/// Fragment `id` (allocated at or after `lo`) is the expression compiled
/// from alternative `alt`: one step per symbol, in order, each a fragment of
/// its own, allocated in order just before the expression.
pub open spec fn alt_built(t: Seq<Node>, names: Seq<Seq<u8>>, lo: nat, alt: Seq<Seq<u8>>, id: nat) -> bool {
    &&& lo <= id < t.len()
    &&& t[id as int] is Steps
    &&& t[id as int]->Steps_0.len() == alt.len()
    &&& forall|k: int| 0 <= k < alt.len() ==> {
        let s = #[trigger] t[id as int]->Steps_0[k];
        &&& s == id - alt.len() + k
        &&& lo <= s < t.len()
        &&& resolves(names, alt[k], t[s as int])
    }
}

/// Fragment `i` is the choice among the compiled alternatives `alts`, in
/// order; the fragments of the alternatives are allocated one after the
/// other from `base` on.
pub open spec fn prod_built(t: Seq<Node>, names: Seq<Seq<u8>>, lo: nat, base: nat, alts: Seq<Seq<Seq<u8>>>, i: int) -> bool {
    &&& 0 <= i < t.len()
    &&& t[i] is Choice
    &&& t[i]->Choice_0.len() == alts.len()
    &&& forall|a: int| 0 <= a < alts.len() ==> {
        &&& alt_built(t, names, lo, alts[a], #[trigger] t[i]->Choice_0[a])
        &&& t[i]->Choice_0[a] == base + alts_cost(alts, (a + 1) as nat) - 1
    }
}

/// `g` is the fragment graph of the productions `ps`: production `i` is
/// fragment `i` and is registered under its name, its body is compiled as
/// described by `prod_built` into the fragments that follow those of the
/// bodies before it, no other fragment is allocated, and the start fragment
/// is the production named `<start>`.
pub open spec fn built_from(g: GrammarRust, ps: Seq<Production>) -> bool {
    &&& g.wf()
    &&& g.name_table() == prod_names(ps)
    &&& g.fragments@.len() == fragment_count(ps)
    &&& forall|i: int| 0 <= i < ps.len() ==> prod_built(g.nodes(), prod_names(ps), ps.len(), ps.len() + bodies_cost(ps, i as nat), alts_of(#[trigger] ps[i]), i)
    &&& g.start matches Some(s) && s.0 < ps.len() && prod_names(ps)[s.0 as int] == start_name()
}

/// The number of fragments taken by the first `a` alternatives.
pub open spec fn alts_cost(alts: Seq<Seq<Seq<u8>>>, a: nat) -> nat
    decreases a,
{
    if a == 0 || a > alts.len() {
        0
    } else {
        alts_cost(alts, (a - 1) as nat) + alts[a - 1].len() + 1
    }
}

/// The number of fragments taken by the bodies of the first `i` productions.
pub open spec fn bodies_cost(ps: Seq<Production>, i: nat) -> nat
    decreases i,
{
    if i == 0 || i > ps.len() {
        0
    } else {
        bodies_cost(ps, (i - 1) as nat) + alts_cost(alts_of(ps[i - 1]), alts_of(ps[i - 1]).len())
    }
}

/// The number of fragments that building `ps` allocates.
pub open spec fn fragment_count(ps: Seq<Production>) -> nat {
    ps.len() + bodies_cost(ps, ps.len())
}

proof fn lemma_alts_cost_mono(alts: Seq<Seq<Seq<u8>>>, a: nat, b: nat)
    requires
        a <= b <= alts.len(),
    ensures
        alts_cost(alts, a) <= alts_cost(alts, b),
    decreases b - a,
{
    if a < b {
        lemma_alts_cost_mono(alts, a, (b - 1) as nat);
    }
}

proof fn lemma_bodies_cost_mono(ps: Seq<Production>, a: nat, b: nat)
    requires
        a <= b <= ps.len(),
    ensures
        bodies_cost(ps, a) <= bodies_cost(ps, b),
    decreases b - a,
{
    if a < b {
        lemma_bodies_cost_mono(ps, a, (b - 1) as nat);
    }
}

/// Growing or rewriting a table outside the positions an alternative's
/// expression reaches keeps it built.
proof fn lemma_alt_built_keep(t: Seq<Node>, t2: Seq<Node>, names: Seq<Seq<u8>>, lo: nat, alt: Seq<Seq<u8>>, id: nat)
    requires
        alt_built(t, names, lo, alt, id),
        t.len() <= t2.len(),
        forall|x: int| lo <= x < t.len() ==> t2[x] == t[x],
    ensures
        alt_built(t2, names, lo, alt, id),
{
    assert forall|k: int| 0 <= k < alt.len() implies {
        let s = #[trigger] t2[id as int]->Steps_0[k];
        &&& lo <= s < t2.len()
        &&& resolves(names, alt[k], t2[s as int])
    } by {
        let s = t[id as int]->Steps_0[k];
        assert(lo <= s < t.len());
    }
}

proof fn lemma_prod_built_keep(t: Seq<Node>, t2: Seq<Node>, names: Seq<Seq<u8>>, lo: nat, base: nat, alts: Seq<Seq<Seq<u8>>>, i: int)
    requires
        prod_built(t, names, lo, base, alts, i),
        t.len() <= t2.len(),
        t2[i] == t[i],
        forall|x: int| lo <= x < t.len() ==> t2[x] == t[x],
    ensures
        prod_built(t2, names, lo, base, alts, i),
{
    assert forall|a: int| 0 <= a < alts.len() implies alt_built(t2, names, lo, alts[a], #[trigger] t2[i]->Choice_0[a]) by {
        lemma_alt_built_keep(t, t2, names, lo, alts[a], t[i]->Choice_0[a]);
    }
}

/// Whether two byte strings are equal.
pub fn bytes_eq(a: &Vec<u8>, b: &Vec<u8>) -> (r: bool)
    ensures
        r == (a@ == b@),
{
    if a.len() != b.len() {
        return false;
    }
    let mut i: usize = 0;
    while i < a.len()
        invariant
            i <= a@.len(),
            a@.len() == b@.len(),
            a@.subrange(0, i as int) == b@.subrange(0, i as int),
        decreases a@.len() - i,
    {
        if a[i] != b[i] {
            return false;
        }
        assert(a@.subrange(0, i + 1) =~= a@.subrange(0, i as int).push(a@[i as int]));
        assert(b@.subrange(0, i + 1) =~= b@.subrange(0, i as int).push(b@[i as int]));
        i = i + 1;
    }
    assert(a@ =~= a@.subrange(0, i as int));
    assert(b@ =~= b@.subrange(0, i as int));
    true
}

/// The position of `s` in the name table, if it is there.
pub fn find_name(names: &Vec<Vec<u8>>, s: &Vec<u8>) -> (r: Option<usize>)
    ensures
        match r {
            Some(j) => j < names@.len() && names@[j as int]@ == s@,
            None => !names_view(names@).contains(s@),
        },
{
    let mut i: usize = 0;
    while i < names.len()
        invariant
            i <= names@.len(),
            forall|j: int| 0 <= j < i ==> names@[j]@ != s@,
        decreases names@.len() - i,
    {
        if bytes_eq(&names[i], s) {
            return Some(i);
        }
        i = i + 1;
    }
    proof {
        if names_view(names@).contains(s@) {
            let j = choose|j: int| 0 <= j < names_view(names@).len() && names_view(names@)[j] == s@;
            assert(names@[j]@ == s@);
        }
    }
    None
}


/// Pushing one fragment keeps every earlier fragment, keeps the table free
/// of dangling references when the new fragment's children exist, and keeps
/// built productions built.
proof fn lemma_push_keeps(t: Seq<Node>, x: Node)
    requires
        table_wf(t),
        node_in_bounds(x, t.len() + 1),
    ensures
        table_wf(t.push(x)),
        forall|i: int| 0 <= i < t.len() ==> t.push(x)[i] == t[i],
{
    let t2 = t.push(x);
    assert forall|i: int| 0 <= i < t2.len() implies node_in_bounds(#[trigger] t2[i], t2.len()) by {
        if i < t.len() {
            assert(node_in_bounds(t[i], t.len()));
        }
    }
}

impl GrammarRust {
    /// Builds the fragment graph of `grammar`.
    ///
    /// Each production gets one fragment, registered under its name; each
    /// alternative becomes an expression and each symbol a fragment of its
    /// own, either a one-option choice of the production it names or its
    /// literal bytes. Fails on a repeated production name, then on a missing
    /// `<start>` production.
    #[verifier::rlimit(50)]
    pub fn new(grammar: &Vec<Production>) -> (r: Result<GrammarRust, BuildError>)
        requires
            fragment_count(grammar@) < usize::MAX,
        ensures
            (r == Err::<GrammarRust, BuildError>(BuildError::DuplicateName)) <==> !names_distinct(prod_names(grammar@)),
            (r == Err::<GrammarRust, BuildError>(BuildError::MissingStart)) <==> (names_distinct(prod_names(grammar@))
                && !prod_names(grammar@).contains(start_name())),
            r matches Ok(g) ==> built_from(g, grammar@),
    {
        let mut ret = GrammarRust { fragments: Vec::new(), start: None, names: Vec::new() };
        let n = grammar.len();
        let ghost names = prod_names(grammar@);
        let mut i: usize = 0;
        while i < n
            invariant
                n == grammar@.len(),
                names == prod_names(grammar@),
                fragment_count(grammar@) < usize::MAX,
                i <= n,
                ret.fragments@.len() == i,
                ret.names@.len() == i,
                ret.start is None,
                forall|j: int| 0 <= j < i ==> ret.names@[j]@ == grammar@[j].name@,
                forall|j: int| 0 <= j < i ==> (#[trigger] ret.fragments@[j])@ == Node::Choice(Seq::empty()),
                names_distinct(ret.name_table()),
            decreases n - i,
        {
            match find_name(&ret.names, &grammar[i].name) {
                Some(j) => {
                    proof {
                        assert(names[j as int] == names[i as int]);
                    }
                    return Err(BuildError::DuplicateName);
                },
                None => {},
            }
            ret.allocate_fragment(Fragment::NonTerminal(Vec::new()));
            proof {
                assert(ids_view(Seq::<FragmentId>::empty()) =~= Seq::empty());
            }
            let ghost old_names = ret.name_table();
            ret.names.push(copy_bytes(&grammar[i].name));
            proof {
                assert(ret.name_table() =~= old_names.push(grammar@[i as int].name@));
                assert forall|x: int, y: int| 0 <= x < y < ret.name_table().len() implies
                    ret.name_table()[x] != ret.name_table()[y] by {
                    if y == i {
                        assert(old_names[x] == ret.name_table()[x]);
                    }
                }
            }
            i = i + 1;
        }
        proof {
            assert(ret.name_table() =~= names);
            assert forall|x: int| 0 <= x < ret.nodes().len() implies node_in_bounds(#[trigger] ret.nodes()[x], ret.nodes().len()) by {
                assert(ret.fragments@[x]@ == Node::Choice(Seq::empty()));
            }
            lemma_bodies_cost_mono(grammar@, 0, n as nat);
        }
        let ghost lo = n as nat;
        let mut p: usize = 0;
        while p < n
            invariant
                n == grammar@.len(),
                lo == n,
                names == prod_names(grammar@),
                ret.name_table() == names,
                names_distinct(names),
                ret.names@.len() == n,
                ret.start is None,
                fragment_count(grammar@) < usize::MAX,
                p <= n,
                ret.fragments@.len() == n + bodies_cost(grammar@, p as nat),
                table_wf(ret.nodes()),
                forall|q: int| p <= q < n ==> #[trigger] ret.nodes()[q] == Node::Choice(Seq::empty()),
                forall|q: int| 0 <= q < p ==> prod_built(ret.nodes(), names, lo, lo + bodies_cost(grammar@, q as nat), alts_of(#[trigger] grammar@[q]), q),
            decreases n - p,
        {
            let prod = &grammar[p];
            let ghost alts = alts_of(grammar@[p as int]);
            proof {
                lemma_bodies_cost_mono(grammar@, (p + 1) as nat, n as nat);
            }
            let mut variants: Vec<FragmentId> = Vec::new();
            let mut a: usize = 0;
            while a < prod.alternatives.len()
                invariant
                    n == grammar@.len(),
                    lo == n,
                    p < n,
                    *prod == grammar@[p as int],
                    alts == alts_of(grammar@[p as int]),
                    names == prod_names(grammar@),
                    ret.name_table() == names,
                    names_distinct(names),
                    ret.names@.len() == n,
                    ret.start is None,
                    n + bodies_cost(grammar@, p as nat) + alts_cost(alts, alts.len()) < usize::MAX,
                    a <= alts.len(),
                    ret.fragments@.len() == n + bodies_cost(grammar@, p as nat) + alts_cost(alts, a as nat),
                    table_wf(ret.nodes()),
                    forall|q: int| p <= q < n ==> #[trigger] ret.nodes()[q] == Node::Choice(Seq::empty()),
                    forall|q: int| 0 <= q < p ==> prod_built(ret.nodes(), names, lo, lo + bodies_cost(grammar@, q as nat), alts_of(#[trigger] grammar@[q]), q),
                    variants@.len() == a,
                    forall|b: int| 0 <= b < a ==> alt_built(ret.nodes(), names, lo, alts[b], (#[trigger] variants@[b]).0 as nat),
                    forall|b: int| 0 <= b < a ==> (#[trigger] variants@[b]).0 == n + bodies_cost(grammar@, p as nat) + alts_cost(alts, (b + 1) as nat) - 1,
                decreases alts.len() - a,
            {
                let alt = &prod.alternatives[a];
                proof {
                    lemma_alts_cost_mono(alts, (a + 1) as nat, alts.len());
                }
                let mut options: Vec<FragmentId> = Vec::new();
                let mut k: usize = 0;
                while k < alt.len()
                    invariant
                        n == grammar@.len(),
                        lo == n,
                        p < n,
                        a < alts.len(),
                        alts.len() == prod.alternatives@.len(),
                        *alt == prod.alternatives@[a as int],
                        alts[a as int] == alt@.map_values(|s: Vec<u8>| s@),
                        names == prod_names(grammar@),
                        ret.name_table() == names,
                        names_distinct(names),
                        ret.names@.len() == n,
                        ret.start is None,
                        n + bodies_cost(grammar@, p as nat) + alts_cost(alts, (a + 1) as nat) < usize::MAX,
                        alts_cost(alts, (a + 1) as nat) == alts_cost(alts, a as nat) + alt@.len() + 1,
                        k <= alt@.len(),
                        ret.fragments@.len() == n + bodies_cost(grammar@, p as nat) + alts_cost(alts, a as nat) + k,
                        table_wf(ret.nodes()),
                        forall|q: int| p <= q < n ==> #[trigger] ret.nodes()[q] == Node::Choice(Seq::empty()),
                        forall|q: int| 0 <= q < p ==> prod_built(ret.nodes(), names, lo, lo + bodies_cost(grammar@, q as nat), alts_of(#[trigger] grammar@[q]), q),
                        variants@.len() == a,
                        forall|b: int| 0 <= b < a ==> alt_built(ret.nodes(), names, lo, alts[b], (#[trigger] variants@[b]).0 as nat),
                        forall|b: int| 0 <= b < a ==> (#[trigger] variants@[b]).0 == n + bodies_cost(grammar@, p as nat) + alts_cost(alts, (b + 1) as nat) - 1,
                        options@.len() == k,
                        forall|c: int| 0 <= c < k ==> (#[trigger] options@[c]).0 == n + bodies_cost(grammar@, p as nat) + alts_cost(alts, a as nat) + c,
                        forall|c: int| 0 <= c < k ==> {
                            let s = (#[trigger] options@[c]).0;
                            &&& lo <= s < ret.nodes().len()
                            &&& resolves(names, alts[a as int][c], ret.nodes()[s as int])
                        },
                    decreases alt@.len() - k,
                {
                    let ghost t = ret.nodes();
                    let frag = match find_name(&ret.names, &alt[k]) {
                        Some(j) => {
                            let mut one: Vec<FragmentId> = Vec::new();
                            one.push(FragmentId(j));
                            Fragment::NonTerminal(one)
                        },
                        None => Fragment::Terminal(copy_bytes(&alt[k])),
                    };
                    proof {
                        let sym = alts[a as int][k as int];
                        assert(sym == alt@[k as int]@);
                        match frag@ {
                            Node::Choice(one) => {
                                let j = one[0];
                                assert(one =~= seq![j]);
                                assert(names[j as int] == sym);
                                assert(names.contains(sym));
                                assert(node_in_bounds(frag@, t.len() + 1));
                            },
                            _ => {},
                        }
                        assert(resolves(names, sym, frag@));
                        lemma_push_keeps(t, frag@);
                    }
                    let id = ret.allocate_fragment(frag);
                    proof {
                        assert(ret.nodes() =~= t.push(frag@));
                        assert forall|q: int| 0 <= q < p implies prod_built(ret.nodes(), names, lo, lo + bodies_cost(grammar@, q as nat), alts_of(#[trigger] grammar@[q]), q) by {
                            lemma_prod_built_keep(t, ret.nodes(), names, lo, lo + bodies_cost(grammar@, q as nat), alts_of(grammar@[q]), q);
                        }
                        assert forall|b: int| 0 <= b < a implies alt_built(ret.nodes(), names, lo, alts[b], (#[trigger] variants@[b]).0 as nat) by {
                            lemma_alt_built_keep(t, ret.nodes(), names, lo, alts[b], variants@[b].0 as nat);
                        }
                    }
                    options.push(id);
                    k = k + 1;
                }
                let ghost t = ret.nodes();
                let ghost steps = ids_view(options@);
                proof {
                    assert forall|c: int| 0 <= c < steps.len() implies #[trigger] children(Node::Steps(steps))[c] < t.len() + 1 by {
                        assert(steps[c] == options@[c].0);
                    }
                    lemma_push_keeps(t, Node::Steps(steps));
                }
                let id = ret.allocate_fragment(Fragment::Expression(options));
                proof {
                    assert(ret.nodes() =~= t.push(Node::Steps(steps)));
                    assert forall|q: int| 0 <= q < p implies prod_built(ret.nodes(), names, lo, lo + bodies_cost(grammar@, q as nat), alts_of(#[trigger] grammar@[q]), q) by {
                        lemma_prod_built_keep(t, ret.nodes(), names, lo, lo + bodies_cost(grammar@, q as nat), alts_of(grammar@[q]), q);
                    }
                    assert forall|b: int| 0 <= b < a implies alt_built(ret.nodes(), names, lo, alts[b], (#[trigger] variants@[b]).0 as nat) by {
                        lemma_alt_built_keep(t, ret.nodes(), names, lo, alts[b], variants@[b].0 as nat);
                    }
                    assert forall|c: int| 0 <= c < alts[a as int].len() implies {
                        let s = #[trigger] ret.nodes()[id.0 as int]->Steps_0[c];
                        &&& s == id.0 - alts[a as int].len() + c
                        &&& lo <= s < ret.nodes().len()
                        &&& resolves(names, alts[a as int][c], ret.nodes()[s as int])
                    } by {
                        assert(steps[c] == options@[c].0);
                    }
                    assert(alt_built(ret.nodes(), names, lo, alts[a as int], id.0 as nat));
                }
                variants.push(id);
                a = a + 1;
            }
            let ghost t = ret.nodes();
            let ghost choice = ids_view(variants@);
            ret.fragments.set(p, Fragment::NonTerminal(variants));
            proof {
                let t2 = ret.nodes();
                assert(t2 =~= t.update(p as int, Node::Choice(choice)));
                assert forall|x: int| 0 <= x < t2.len() implies node_in_bounds(#[trigger] t2[x], t2.len()) by {
                    if x == p {
                        assert forall|c: int| 0 <= c < choice.len() implies #[trigger] children(t2[x])[c] < t2.len() by {
                            assert(choice[c] == variants@[c].0);
                        }
                    } else {
                        assert(node_in_bounds(t[x], t.len()));
                    }
                }
                assert forall|q: int| 0 <= q < p implies prod_built(t2, names, lo, lo + bodies_cost(grammar@, q as nat), alts_of(#[trigger] grammar@[q]), q) by {
                    lemma_prod_built_keep(t, t2, names, lo, lo + bodies_cost(grammar@, q as nat), alts_of(grammar@[q]), q);
                }
                assert forall|b: int| 0 <= b < alts.len() implies {
                    &&& alt_built(t2, names, lo, alts[b], #[trigger] t2[p as int]->Choice_0[b])
                    &&& t2[p as int]->Choice_0[b] == n + bodies_cost(grammar@, p as nat) + alts_cost(alts, (b + 1) as nat) - 1
                } by {
                    assert(choice[b] == variants@[b].0);
                    lemma_alt_built_keep(t, t2, names, lo, alts[b], variants@[b].0 as nat);
                }
                assert(prod_built(t2, names, lo, lo + bodies_cost(grammar@, p as nat), alts, p as int));
                assert(bodies_cost(grammar@, (p + 1) as nat) == bodies_cost(grammar@, p as nat) + alts_cost(alts, alts.len()));
            }
            p = p + 1;
        }
        let mut start: Vec<u8> = Vec::new();
        start.push(60u8);
        start.push(115u8);
        start.push(116u8);
        start.push(97u8);
        start.push(114u8);
        start.push(116u8);
        start.push(62u8);
        proof {
            assert(start@ =~= start_name());
        }
        match find_name(&ret.names, &start) {
            Some(j) => {
                ret.start = Some(FragmentId(j));
                proof {
                    assert(names[j as int] == start_name());
                    assert(names.contains(start_name()));
                }
                Ok(ret)
            },
            None => Err(BuildError::MissingStart),
        }
    }
}

} // verus!
