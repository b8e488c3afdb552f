//! The fragment graph: an arena of fragments addressed by stable indices.
use vstd::prelude::*;
use crate::builder::bytes_eq;

verus! {

/// A handle into the fragment table of a [`GrammarRust`].
#[derive(Clone, Copy, Debug, PartialEq, Eq, Structural)]
pub struct FragmentId(pub usize);

/// One node of the fragment graph.
#[derive(Debug)]
pub enum Fragment {
    /// Exactly one of the options is expanded, chosen at random.
    NonTerminal(Vec<FragmentId>),
    /// Every step is expanded, in order.
    Expression(Vec<FragmentId>),
    /// Expands to these bytes verbatim.
    Terminal(Vec<u8>),
    /// Expands to nothing.
    Nop,
}

/// The mathematical content of a fragment: children as plain indices.
pub enum Node {
    Choice(Seq<nat>),
    Steps(Seq<nat>),
    Bytes(Seq<u8>),
    Empty,
}

pub open spec fn ids_view(v: Seq<FragmentId>) -> Seq<nat> {
    v.map_values(|f: FragmentId| f.0 as nat)
}

impl View for Fragment {
    type V = Node;

    open spec fn view(&self) -> Node {
        match self {
            Fragment::NonTerminal(o) => Node::Choice(ids_view(o@)),
            Fragment::Expression(e) => Node::Steps(ids_view(e@)),
            Fragment::Terminal(b) => Node::Bytes(b@),
            Fragment::Nop => Node::Empty,
        }
    }
}

/// The children of a node (empty for terminals and no-ops).
pub open spec fn children(n: Node) -> Seq<nat> {
    match n {
        Node::Choice(o) => o,
        Node::Steps(e) => e,
        _ => Seq::empty(),
    }
}

/// Every child of `n` is an index into a table of `len` fragments.
pub open spec fn node_in_bounds(n: Node, len: nat) -> bool {
    forall|k: int| 0 <= k < children(n).len() ==> #[trigger] children(n)[k] < len
}

/// No fragment of the table refers outside the table.
pub open spec fn table_wf(t: Seq<Node>) -> bool {
    forall|i: int| 0 <= i < t.len() ==> node_in_bounds(#[trigger] t[i], t.len())
}

pub open spec fn table_view(v: Seq<Fragment>) -> Seq<Node> {
    v.map_values(|f: Fragment| f@)
}

/// A grammar compiled to a fragment graph, with its name table.
///
/// The name table lists the productions in the order they were registered;
/// the production at position `i` is the fragment with identifier `i`.
#[derive(Debug)]
pub struct GrammarRust {
    pub fragments: Vec<Fragment>,
    pub start: Option<FragmentId>,
    pub names: Vec<Vec<u8>>,
}

/// No two entries of a name table are equal.
pub open spec fn names_distinct(names: Seq<Seq<u8>>) -> bool {
    forall|i: int, j: int| 0 <= i < j < names.len() ==> names[i] != names[j]
}

pub open spec fn names_view(v: Seq<Vec<u8>>) -> Seq<Seq<u8>> {
    v.map_values(|n: Vec<u8>| n@)
}

impl GrammarRust {
    pub open spec fn nodes(&self) -> Seq<Node> {
        table_view(self.fragments@)
    }

    pub open spec fn name_table(&self) -> Seq<Seq<u8>> {
        names_view(self.names@)
    }

    /// The table has no dangling references, the name table has no
    /// duplicates and names only allocated fragments, and the start
    /// fragment, when set, exists.
    pub open spec fn wf(&self) -> bool {
        &&& table_wf(self.nodes())
        &&& names_distinct(self.name_table())
        &&& self.names@.len() <= self.fragments@.len()
        &&& match self.start {
            Some(s) => s.0 < self.fragments@.len(),
            None => true,
        }
    }

    /// Appends `fragment` to the table and returns its new identifier.
    pub fn allocate_fragment(&mut self, fragment: Fragment) -> (id: FragmentId)
        requires
            old(self).fragments@.len() < usize::MAX,
        ensures
            id.0 == old(self).fragments@.len(),
            final(self).fragments@ == old(self).fragments@.push(fragment),
            final(self).start == old(self).start,
            final(self).names == old(self).names,
    {
        let id = FragmentId(self.fragments.len());
        self.fragments.push(fragment);
        id
    }
}

/// A structural copy of a fragment.
pub fn copy_fragment(f: &Fragment) -> (r: Fragment)
    ensures
        r@ == f@,
{
    match f {
        Fragment::NonTerminal(o) => Fragment::NonTerminal(copy_ids(o)),
        Fragment::Expression(e) => Fragment::Expression(copy_ids(e)),
        Fragment::Terminal(b) => Fragment::Terminal(copy_bytes(b)),
        Fragment::Nop => Fragment::Nop,
    }
}

pub fn copy_ids(v: &Vec<FragmentId>) -> (r: Vec<FragmentId>)
    ensures
        r@ == v@,
{
    let mut r: Vec<FragmentId> = Vec::with_capacity(v.len());
    let mut i: usize = 0;
    while i < v.len()
        invariant
            i <= v@.len(),
            r@ == v@.subrange(0, i as int),
        decreases v@.len() - i,
    {
        r.push(v[i]);
        i = i + 1;
    }
    assert(r@ =~= v@);
    r
}

pub fn copy_bytes(v: &Vec<u8>) -> (r: Vec<u8>)
    ensures
        r@ == v@,
{
    let mut r: Vec<u8> = Vec::with_capacity(v.len());
    let mut i: usize = 0;
    while i < v.len()
        invariant
            i <= v@.len(),
            r@ == v@.subrange(0, i as int),
        decreases v@.len() - i,
    {
        r.push(v[i]);
        i = i + 1;
    }
    assert(r@ =~= v@);
    r
}


/// Whether two lists of fragment identifiers are equal.
pub fn same_ids(a: &Vec<FragmentId>, b: &Vec<FragmentId>) -> (r: bool)
    ensures
        r == (ids_view(a@) == ids_view(b@)),
{
    if a.len() != b.len() {
        proof {
            assert(ids_view(a@).len() != ids_view(b@).len());
        }
        return false;
    }
    let mut i: usize = 0;
    while i < a.len()
        invariant
            i <= a@.len(),
            a@.len() == b@.len(),
            forall|j: int| 0 <= j < i ==> (#[trigger] a@[j]).0 == b@[j].0,
        decreases a@.len() - i,
    {
        if a[i].0 != b[i].0 {
            proof {
                assert(ids_view(a@)[i as int] != ids_view(b@)[i as int]);
            }
            return false;
        }
        i = i + 1;
    }
    proof {
        assert(ids_view(a@) =~= ids_view(b@));
    }
    true
}

/// Whether two fragments are structurally equal.
pub fn same_fragment(a: &Fragment, b: &Fragment) -> (r: bool)
    ensures
        r == (a@ == b@),
{
    match (a, b) {
        (Fragment::NonTerminal(x), Fragment::NonTerminal(y)) => same_ids(x, y),
        (Fragment::Expression(x), Fragment::Expression(y)) => same_ids(x, y),
        (Fragment::Terminal(x), Fragment::Terminal(y)) => bytes_eq(x, y),
        (Fragment::Nop, Fragment::Nop) => true,
        _ => false,
    }
}

} // verus!
