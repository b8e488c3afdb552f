//! Random expansion of a simplified fragment graph under a depth bound.
use vstd::prelude::*;
use crate::builder::{built_from, fragment_count, prod_names, start_name, BuildError, Production};
use crate::ir::{
    children, names_distinct, node_in_bounds, table_view, table_wf, Fragment, FragmentId,
    GrammarRust, Node,
};
use crate::language::in_language;
use crate::optimizer::{stops_after, live_steps, no_nops, nops_empty, run_passes};

verus! {

/// The fixed seed every generation stream starts from.
pub const SEED: u64 = 0x34cc028e11b4f89c;

/// One step of the xorshift generator: shift left by 13, right by 17, left
/// by 43, each XORed into the state.
pub open spec fn xorshift(s: u64) -> u64 {
    let a = s ^ (s << 13u64);
    let b = a ^ (a >> 17u64);
    b ^ (b << 43u64)
}

/// Advances the generator state and returns the new state as the draw.
pub fn next_rand(seed: &mut u64) -> (r: u64)
    ensures
        r == xorshift(*old(seed)),
        *final(seed) == r,
{
    let mut s = *seed;
    s = s ^ (s << 13u64);
    s = s ^ (s >> 17u64);
    s = s ^ (s << 43u64);
    *seed = s;
    s
}

/// The bytes that expanding fragment `id` at depth `depth` appends, and the
/// generator state afterwards, starting from state `seed`.
///
/// At or past the depth bound nothing is emitted. A choice draws one value
/// and expands the option at that value modulo the number of options (a
/// choice without options draws nothing). An expression expands its steps in
/// order, one level deeper. A terminal emits its bytes; a no-op nothing.
pub open spec fn expand(t: Seq<Node>, id: nat, depth: nat, max: nat, seed: u64) -> (Seq<u8>, u64)
    decreases max - depth, 0nat, 0nat,
{
    if depth >= max || id >= t.len() {
        (Seq::empty(), seed)
    } else {
        match t[id as int] {
            Node::Choice(o) => {
                if o.len() == 0 {
                    (Seq::empty(), seed)
                } else {
                    let s = xorshift(seed);
                    expand(t, o[(s as int) % (o.len() as int)], depth + 1, max, s)
                }
            },
            Node::Steps(e) => expand_steps(t, e, e.len(), depth + 1, max, seed),
            Node::Bytes(b) => (b, seed),
            Node::Empty => (Seq::empty(), seed),
        }
    }
}

/// The bytes and final state of expanding the first `k` steps of `e`, in
/// order, each at depth `depth`.
pub open spec fn expand_steps(t: Seq<Node>, e: Seq<nat>, k: nat, depth: nat, max: nat, seed: u64) -> (Seq<u8>, u64)
    decreases max - depth, 1nat, k,
{
    if k == 0 || k > e.len() || depth > max {
        (Seq::empty(), seed)
    } else {
        let before = expand_steps(t, e, (k - 1) as nat, depth, max, seed);
        let last = expand(t, e[k - 1], depth, max, before.1);
        (before.0 + last.0, last.1)
    }
}

/// `x` is a byte of some terminal of the table.
pub open spec fn terminal_byte(t: Seq<Node>, x: u8) -> bool {
    exists|i: int, m: int|
        0 <= i < t.len() && t[i] is Bytes && 0 <= m < t[i]->Bytes_0.len() && #[trigger] t[i]->Bytes_0[m] == x
}

/// Every byte that an expansion emits is a byte of one of the table's
/// terminals, whatever the grammar, depth bound and generator state.
pub proof fn lemma_output_from_terminals(t: Seq<Node>, id: nat, depth: nat, max: nat, seed: u64)
    ensures
        forall|m: int|
            0 <= m < expand(t, id, depth, max, seed).0.len() ==> terminal_byte(t, #[trigger] expand(t, id, depth, max, seed).0[m]),
    decreases max - depth, 0nat, 0nat,
{
    if depth < max && id < t.len() {
        match t[id as int] {
            Node::Choice(o) => {
                if o.len() > 0 {
                    let s = xorshift(seed);
                    lemma_output_from_terminals(t, o[(s as int) % (o.len() as int)], depth + 1, max, s);
                    assert(expand(t, id, depth, max, seed) == expand(t, o[(s as int) % (o.len() as int)], depth + 1, max, s));
                }
            },
            Node::Steps(e) => {
                lemma_steps_output_from_terminals(t, e, e.len(), depth + 1, max, seed);
                assert(expand(t, id, depth, max, seed) == expand_steps(t, e, e.len(), depth + 1, max, seed));
            },
            Node::Bytes(b) => {
                assert forall|m: int| 0 <= m < b.len() implies terminal_byte(t, #[trigger] b[m]) by {
                    assert(t[id as int]->Bytes_0[m] == b[m]);
                }
                assert(expand(t, id, depth, max, seed).0 == b);
            },
            Node::Empty => {},
        }
    }
}

proof fn lemma_steps_output_from_terminals(t: Seq<Node>, e: Seq<nat>, k: nat, depth: nat, max: nat, seed: u64)
    ensures
        forall|m: int|
            0 <= m < expand_steps(t, e, k, depth, max, seed).0.len() ==> terminal_byte(t, #[trigger] expand_steps(t, e, k, depth, max, seed).0[m]),
    decreases max - depth, 1nat, k,
{
    if k > 0 && k <= e.len() && depth <= max {
        let before = expand_steps(t, e, (k - 1) as nat, depth, max, seed);
        let last = expand(t, e[k - 1], depth, max, before.1);
        lemma_steps_output_from_terminals(t, e, (k - 1) as nat, depth, max, seed);
        lemma_output_from_terminals(t, e[k - 1], depth, max, before.1);
        let out = before.0 + last.0;
        assert forall|m: int| 0 <= m < out.len() implies terminal_byte(t, #[trigger] out[m]) by {
            if m < before.0.len() {
                assert(out[m] == before.0[m]);
            } else {
                assert(out[m] == last.0[m - before.0.len()]);
            }
        }
    }
}

proof fn lemma_steps_prefix(t: Seq<Node>, e: Seq<nat>, e2: Seq<nat>, k: nat, depth: nat, max: nat, seed: u64)
    requires
        k <= e.len(),
        k <= e2.len(),
        forall|i: int| 0 <= i < k ==> e[i] == e2[i],
    ensures
        expand_steps(t, e, k, depth, max, seed) == expand_steps(t, e2, k, depth, max, seed),
    decreases k,
{
    if k > 0 {
        lemma_steps_prefix(t, e, e2, (k - 1) as nat, depth, max, seed);
    }
}

/// Dropping the steps of an expression that are known no-ops changes
/// neither the bytes it expands to nor the generator state after it; an
/// expression whose steps are all no-ops expands to nothing.
pub proof fn lemma_dropping_nops_keeps_expansion(t: Seq<Node>, e: Seq<nat>, nops: Seq<bool>, depth: nat, max: nat, seed: u64)
    requires
        nops.len() == t.len(),
        nops_empty(t, nops),
        forall|k: int| 0 <= k < e.len() ==> #[trigger] e[k] < t.len(),
    ensures
        expand_steps(t, live_steps(e, nops), live_steps(e, nops).len(), depth, max, seed)
            == expand_steps(t, e, e.len(), depth, max, seed),
        (forall|k: int| 0 <= k < e.len() ==> nops[#[trigger] e[k] as int]) ==> expand_steps(t, e, e.len(), depth, max, seed)
            == (Seq::<u8>::empty(), seed),
    decreases e.len(),
{
    if e.len() > 0 {
        let d = e.drop_last();
        let n = e.len();
        let last = e.last();
        lemma_dropping_nops_keeps_expansion(t, d, nops, depth, max, seed);
        lemma_steps_prefix(t, d, e, d.len(), depth, max, seed);
        let live_d = live_steps(d, nops);
        let before = expand_steps(t, e, (n - 1) as nat, depth, max, seed);
        if depth <= max {
            if nops[last as int] {
                assert(t[last as int] == Node::Empty);
                assert(expand(t, last, depth, max, before.1) == (Seq::<u8>::empty(), before.1));
                assert(before.0 + Seq::<u8>::empty() =~= before.0);
            } else {
                let l = live_d.push(last);
                lemma_steps_prefix(t, live_d, l, live_d.len(), depth, max, seed);
            }
        }
        if (forall|k: int| 0 <= k < e.len() ==> nops[#[trigger] e[k] as int]) {
            assert(forall|k: int| 0 <= k < d.len() ==> d[k] == e[k]);
            assert(nops[e[n - 1] as int]);
        }
    }
}

/// Why a grammar could not be compiled into a generator.
#[derive(Clone, Copy, Debug, PartialEq, Eq, Structural)]
pub enum CompileError {
    /// The fragment graph could not be built.
    Build(BuildError),
    /// The depth bound is zero.
    ZeroDepth,
}

/// A compiled grammar, ready to expand: the simplified fragment table, its
/// start fragment, the depth bound and the state of the random generator.
#[derive(Debug)]
pub struct Generator {
    pub fragments: Vec<Fragment>,
    pub start: usize,
    pub max_depth: usize,
    pub seed: u64,
}

/// The output of call `k` (counting from zero) of a stream that starts from
/// state `seed`, together with the state after it.
pub open spec fn stream_call(t: Seq<Node>, start: nat, max: nat, seed: u64, k: nat) -> (Seq<u8>, u64)
    decreases k,
{
    if k == 0 {
        expand(t, start, 0, max, seed)
    } else {
        expand(t, start, 0, max, stream_call(t, start, max, seed, (k - 1) as nat).1)
    }
}

/// Two generation streams over the same table, start fragment and depth
/// bound, started from the same state, produce the same bytes, call for
/// call.
pub proof fn lemma_streams_agree(g1: Generator, g2: Generator, k: nat)
    requires
        g1.nodes() == g2.nodes(),
        g1.start == g2.start,
        g1.max_depth == g2.max_depth,
        g1.seed == g2.seed,
    ensures
        g1.call(k) == g2.call(k),
        k == 0 ==> g1.call(k) == expand(g1.nodes(), g1.start as nat, 0, g1.max_depth as nat, g1.seed),
        k > 0 ==> g1.call(k) == expand(g1.nodes(), g1.start as nat, 0, g1.max_depth as nat, g1.call((k - 1) as nat).1),
{
}

impl Generator {
    pub open spec fn nodes(&self) -> Seq<Node> {
        table_view(self.fragments@)
    }

    /// The output and following state of call `k` of this stream.
    pub open spec fn call(&self, k: nat) -> (Seq<u8>, u64) {
        stream_call(self.nodes(), self.start as nat, self.max_depth as nat, self.seed, k)
    }

    /// The table has no dangling references and the start fragment exists.
    pub open spec fn wf(&self) -> bool {
        &&& table_wf(self.nodes())
        &&& self.start < self.fragments@.len()
    }

    /// Appends the expansion of fragment `id` at depth `depth` to `buf`.
    fn expand_into(&self, id: usize, depth: usize, seed: &mut u64, buf: &mut Vec<u8>)
        requires
            self.wf(),
            id < self.fragments@.len(),
        ensures
            final(buf)@ == old(buf)@ + expand(self.nodes(), id as nat, depth as nat, self.max_depth as nat, *old(seed)).0,
            *final(seed) == expand(self.nodes(), id as nat, depth as nat, self.max_depth as nat, *old(seed)).1,
        decreases self.max_depth - depth,
    {
        let ghost t = self.nodes();
        let ghost max = self.max_depth as nat;
        if depth >= self.max_depth {
            assert(buf@ =~= old(buf)@ + Seq::<u8>::empty());
            return;
        }
        assert(node_in_bounds(t[id as int], t.len()));
        match &self.fragments[id] {
            Fragment::NonTerminal(options) => {
                if options.len() == 0 {
                    assert(buf@ =~= old(buf)@ + Seq::<u8>::empty());
                    return;
                }
                let r = next_rand(seed);
                let pick = (r % (options.len() as u64)) as usize;
                assert(children(t[id as int])[pick as int] == options@[pick as int].0);
                self.expand_into(options[pick].0, depth + 1, seed, buf);
            },
            Fragment::Expression(steps) => {
                let ghost e = children(t[id as int]);
                let ghost seed0 = *old(seed);
                assert(buf@ =~= old(buf)@ + expand_steps(t, e, 0, (depth + 1) as nat, max, seed0).0);
                let mut k: usize = 0;
                while k < steps.len()
                    invariant
                        self.wf(),
                        t == self.nodes(),
                        max == self.max_depth,
                        depth < self.max_depth,
                        id < t.len(),
                        t[id as int] == Node::Steps(e),
                        e.len() == steps@.len(),
                        forall|j: int| 0 <= j < e.len() ==> #[trigger] e[j] == steps@[j].0,
                        k <= steps@.len(),
                        buf@ == old(buf)@ + expand_steps(t, e, k as nat, (depth + 1) as nat, max, seed0).0,
                        *seed == expand_steps(t, e, k as nat, (depth + 1) as nat, max, seed0).1,
                    decreases steps@.len() - k,
                {
                    assert(e[k as int] == steps@[k as int].0);
                    assert(node_in_bounds(t[id as int], t.len()));
                    assert(children(t[id as int])[k as int] < t.len());
                    self.expand_into(steps[k].0, depth + 1, seed, buf);
                    k = k + 1;
                    assert(buf@ =~= old(buf)@ + expand_steps(t, e, k as nat, (depth + 1) as nat, max, seed0).0);
                }
            },
            Fragment::Terminal(bytes) => {
                buf.reserve(bytes.len());
                let mut k: usize = 0;
                while k < bytes.len()
                    invariant
                        k <= bytes@.len(),
                        buf@ == old(buf)@ + bytes@.subrange(0, k as int),
                    decreases bytes@.len() - k,
                {
                    buf.push(bytes[k]);
                    k = k + 1;
                    assert(buf@ =~= old(buf)@ + bytes@.subrange(0, k as int));
                }
                assert(bytes@.subrange(0, k as int) =~= bytes@);
            },
            Fragment::Nop => {
                assert(buf@ =~= old(buf)@ + Seq::<u8>::empty());
            },
        }
    }

    /// Clears `buf` and fills it with one generated string: the expansion of
    /// the start fragment at depth zero.
    pub fn generate_into(&mut self, buf: &mut Vec<u8>)
        requires
            old(self).wf(),
        ensures
            final(self).fragments == old(self).fragments,
            final(self).start == old(self).start,
            final(self).max_depth == old(self).max_depth,
            (final(buf)@, final(self).seed) == old(self).call(0),
    {
        buf.clear();
        let mut seed = self.seed;
        self.expand_into(self.start, 0, &mut seed, buf);
        self.seed = seed;
        assert(buf@ =~= Seq::<u8>::empty() + buf@);
    }

    /// Generates one string: the expansion of the start fragment at depth
    /// zero.
    pub fn generate_one(&mut self) -> (out: Vec<u8>)
        requires
            old(self).wf(),
        ensures
            final(self).fragments == old(self).fragments,
            final(self).start == old(self).start,
            final(self).max_depth == old(self).max_depth,
            (out@, final(self).seed) == old(self).call(0),
    {
        let mut out: Vec<u8> = Vec::new();
        self.generate_into(&mut out);
        out
    }
}


/// Compiles `grammar` into a generator with depth bound `max_depth`: builds
/// the fragment graph, simplifies it, and seeds the random generator with
/// [`SEED`]. The simplified graph produces, from every fragment, the same
/// strings as the graph it was built as. Fails on a repeated production name, then on a missing
/// `<start>` production, then on a zero depth bound.
pub fn compile(grammar: &Vec<Production>, max_depth: usize) -> (r: Result<Generator, CompileError>)
    requires
        fragment_count(grammar@) < usize::MAX,
    ensures
        (r == Err::<Generator, CompileError>(CompileError::Build(BuildError::DuplicateName)))
            <==> !names_distinct(prod_names(grammar@)),
        (r == Err::<Generator, CompileError>(CompileError::Build(BuildError::MissingStart)))
            <==> (names_distinct(prod_names(grammar@)) && !prod_names(grammar@).contains(start_name())),
        (r == Err::<Generator, CompileError>(CompileError::ZeroDepth)) <==> (names_distinct(prod_names(grammar@))
            && prod_names(grammar@).contains(start_name()) && max_depth == 0),
        r matches Ok(gen) ==> {
            &&& gen.wf()
            &&& gen.max_depth == max_depth
            &&& gen.seed == SEED
            &&& exists|g: GrammarRust, k: nat|
                built_from(g, grammar@) && g.start == Some(FragmentId(gen.start))
                    && #[trigger] stops_after(g.nodes(), usize::MAX as nat, k)
                    && run_passes(g.nodes(), no_nops(g.nodes().len()), k).0 == gen.nodes()
                    && forall|x: nat, s: Seq<u8>| #[trigger] in_language(gen.nodes(), x, s) == in_language(g.nodes(), x, s)
        },
{
    match GrammarRust::new(grammar) {
        Err(e) => Err(CompileError::Build(e)),
        Ok(mut g) => {
            if max_depth == 0 {
                return Err(CompileError::ZeroDepth);
            }
            let ghost g0 = g;
            g.optimize();
            let start = match g.start {
                Some(s) => s.0,
                None => 0,
            };
            let gen = Generator { fragments: g.fragments, start, max_depth, seed: SEED };
            proof {
                let k = choose|k: nat|
                    #[trigger] stops_after(g0.nodes(), usize::MAX as nat, k)
                        && run_passes(g0.nodes(), no_nops(g0.nodes().len()), k).0 == gen.nodes();
                assert(built_from(g0, grammar@) && g0.start == Some(FragmentId(gen.start))
                    && stops_after(g0.nodes(), usize::MAX as nat, k)
                    && run_passes(g0.nodes(), no_nops(g0.nodes().len()), k).0 == gen.nodes()
                    && forall|x: nat, s: Seq<u8>| #[trigger] in_language(gen.nodes(), x, s) == in_language(g0.nodes(), x, s));
            }
            Ok(gen)
        },
    }
}

} // verus!
