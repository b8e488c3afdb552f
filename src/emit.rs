//! Emitting a standalone Rust program that expands the fragment graph, one
//! routine per fragment, with a benchmarking driver.
use vstd::prelude::*;
use vstd::string::StringSliceAdditionalSpecFns;
use crate::ir::{Fragment, GrammarRust, Node};

verus! {

/// The decimal digits of `n`, most significant first.
pub open spec fn decimal(n: nat) -> Seq<u8>
    decreases n,
{
    if n < 10 {
        seq![(48 + n) as u8]
    } else {
        decimal(n / 10).push((48 + n % 10) as u8)
    }
}

/// The first `k` bytes of `b`, in decimal, separated by `", "`.
pub open spec fn list_items(b: Seq<u8>, k: nat) -> Seq<u8>
    decreases k,
{
    if k == 0 || k > b.len() {
        Seq::empty()
    } else if k == 1 {
        decimal(b[0] as nat)
    } else {
        list_items(b, (k - 1) as nat) + ", ".spec_bytes() + decimal(b[k - 1] as nat)
    }
}

/// A byte array literal holding `b`, as in `[104, 105]`.
pub open spec fn byte_list(b: Seq<u8>) -> Seq<u8> {
    "[".spec_bytes() + list_items(b, b.len()) + "]".spec_bytes()
}

/// The match arms that dispatch to the first `k` options of a choice.
pub open spec fn choice_arms(o: Seq<nat>, k: nat) -> Seq<u8>
    decreases k,
{
    if k == 0 || k > o.len() {
        Seq::empty()
    } else {
        choice_arms(o, (k - 1) as nat) + "            ".spec_bytes() + decimal((k - 1) as nat)
            + " => self.fragment_".spec_bytes() + decimal(o[k - 1]) + "(depth + 1),\n".spec_bytes()
    }
}

/// The calls to the first `k` steps of an expression, in order.
pub open spec fn step_calls(e: Seq<nat>, k: nat) -> Seq<u8>
    decreases k,
{
    if k == 0 || k > e.len() {
        Seq::empty()
    } else {
        step_calls(e, (k - 1) as nat) + "        self.fragment_".spec_bytes() + decimal(e[k - 1])
            + "(depth + 1);\n".spec_bytes()
    }
}

/// The body of the routine of a fragment, after its depth check. A choice
/// without options, like a no-op, does nothing and draws no number.
pub open spec fn body_text(n: Node) -> Seq<u8> {
    match n {
        Node::Choice(o) => if o.len() == 0 {
            Seq::empty()
        } else {
            "        match self.rand() % ".spec_bytes() + decimal(o.len()) + " {\n".spec_bytes()
                + choice_arms(o, o.len()) + "            _ => unreachable!(),\n        }\n".spec_bytes()
        },
        Node::Steps(e) => step_calls(e, e.len()),
        Node::Bytes(b) => "        let old_size = self.buf.len();\n        let new_size = old_size + ".spec_bytes()
            + decimal(b.len())
            + ";\n        if new_size > self.buf.capacity() {\n            self.buf.reserve(new_size - old_size);\n        }\n        self.buf.extend_from_slice(&".spec_bytes()
            + byte_list(b) + ");\n".spec_bytes(),
        Node::Empty => Seq::empty(),
    }
}

/// The routine of fragment `id`: it returns at once at depth `max` or
/// deeper, and otherwise runs the body of the fragment.
pub open spec fn routine_text(t: Seq<Node>, id: nat, max: nat) -> Seq<u8> {
    "    fn fragment_".spec_bytes() + decimal(id) + "(&mut self, depth: usize) {\n        if depth >= ".spec_bytes()
        + decimal(max) + " { return; }\n".spec_bytes() + body_text(t[id as int]) + "    }\n".spec_bytes()
}

/// The routines of fragments `0..k`, in order.
pub open spec fn routines_text(t: Seq<Node>, k: nat, max: nat) -> Seq<u8>
    decreases k,
{
    if k == 0 {
        Seq::empty()
    } else {
        routines_text(t, (k - 1) as nat, max) + routine_text(t, (k - 1) as nat, max)
    }
}

/// The driver up to the number of the start fragment's routine.
pub open spec fn driver_head() -> Seq<u8> {
    "#![allow(unused)]\nuse std::cell::Cell;\nuse std::time::Instant;\n\nfn main() {\n    let mut fuzzer = Fuzzer {\n        seed:  Cell::new(0x34cc028e11b4f89c),\n        buf:   Vec::new(),\n    };\n\n    let mut generated = 0usize;\n    let it = Instant::now();\n\n    for iters in 1u64.. {\n        fuzzer.buf.clear();\n        fuzzer.fragment_".spec_bytes()
}

/// The rest of the driver, the generator state and the random draw.
pub open spec fn driver_tail() -> Seq<u8> {
    "(0);\n        generated += fuzzer.buf.len();\n\n        // Report throughput every 2^20 strings.\n        if (iters & 0xfffff) == 0 {\n            let elapsed = (Instant::now() - it).as_secs_f64();\n            let bytes_per_sec = generated as f64 / elapsed;\n            print!(\"MiB/sec: {:12.4}\\n\", bytes_per_sec / 1024. / 1024.);\n        }\n    }\n}\n\nstruct Fuzzer {\n    seed:  Cell<usize>,\n    buf:   Vec<u8>,\n}\n\nimpl Fuzzer {\n    fn rand(&self) -> usize {\n        let mut seed = self.seed.get();\n        seed ^= seed << 13;\n        seed ^= seed >> 17;\n        seed ^= seed << 43;\n        self.seed.set(seed);\n        seed\n    }\n".spec_bytes()
}

/// The whole program for table `t`, start fragment `start` and depth bound
/// `max`.
pub open spec fn program_text(t: Seq<Node>, start: nat, max: nat) -> Seq<u8> {
    driver_head() + decimal(start) + driver_tail() + routines_text(t, t.len(), max) + "}\n".spec_bytes()
}

/// Appends the bytes of `s`.
pub fn push_str(out: &mut Vec<u8>, s: &str)
    ensures
        final(out)@ == old(out)@ + s.spec_bytes(),
{
    let b = s.as_bytes();
    let mut i: usize = 0;
    while i < b.len()
        invariant
            i <= b@.len(),
            b@ == s.spec_bytes(),
            out@ == old(out)@ + b@.subrange(0, i as int),
        decreases b@.len() - i,
    {
        out.push(b[i]);
        i = i + 1;
        assert(out@ =~= old(out)@ + b@.subrange(0, i as int));
    }
    assert(b@.subrange(0, i as int) =~= b@);
}

/// Appends `n` in decimal.
pub fn push_decimal(out: &mut Vec<u8>, n: usize)
    ensures
        final(out)@ == old(out)@ + decimal(n as nat),
    decreases n,
{
    if n >= 10 {
        push_decimal(out, n / 10);
    }
    out.push(48u8 + (n % 10) as u8);
    assert(out@ =~= old(out)@ + decimal(n as nat));
}


/// Appends a byte array literal holding `b`.
fn push_byte_list(out: &mut Vec<u8>, b: &Vec<u8>)
    ensures
        final(out)@ == old(out)@ + byte_list(b@),
{
    push_str(out, "[");
    let mut i: usize = 0;
    while i < b.len()
        invariant
            i <= b@.len(),
            out@ == old(out)@ + "[".spec_bytes() + list_items(b@, i as nat),
        decreases b@.len() - i,
    {
        if i > 0 {
            push_str(out, ", ");
        }
        push_decimal(out, b[i] as usize);
        i = i + 1;
        assert(out@ =~= old(out)@ + "[".spec_bytes() + list_items(b@, i as nat));
    }
    push_str(out, "]");
    assert(out@ =~= old(out)@ + byte_list(b@));
}

/// Appends the body of the routine of fragment `f`.
fn push_body(out: &mut Vec<u8>, f: &Fragment)
    ensures
        final(out)@ == old(out)@ + body_text(f@),
{
    match f {
        Fragment::NonTerminal(options) => {
            let ghost o = f@->Choice_0;
            if options.len() == 0 {
                assert(out@ =~= old(out)@ + body_text(f@));
                return;
            }
            push_str(out, "        match self.rand() % ");
            push_decimal(out, options.len());
            push_str(out, " {\n");
            let ghost head = out@;
            let mut k: usize = 0;
            while k < options.len()
                invariant
                    k <= options@.len(),
                    o.len() == options@.len(),
                    forall|j: int| 0 <= j < o.len() ==> #[trigger] o[j] == options@[j].0,
                    out@ == head + choice_arms(o, k as nat),
                decreases options@.len() - k,
            {
                push_str(out, "            ");
                push_decimal(out, k);
                push_str(out, " => self.fragment_");
                push_decimal(out, options[k].0);
                push_str(out, "(depth + 1),\n");
                k = k + 1;
                assert(o[k - 1] == options@[k - 1].0);
                assert(out@ =~= head + choice_arms(o, k as nat));
            }
            push_str(out, "            _ => unreachable!(),\n        }\n");
            assert(out@ =~= old(out)@ + body_text(f@));
        },
        Fragment::Expression(steps) => {
            let ghost e = f@->Steps_0;
            let mut k: usize = 0;
            while k < steps.len()
                invariant
                    k <= steps@.len(),
                    e.len() == steps@.len(),
                    forall|j: int| 0 <= j < e.len() ==> #[trigger] e[j] == steps@[j].0,
                    out@ == old(out)@ + step_calls(e, k as nat),
                decreases steps@.len() - k,
            {
                push_str(out, "        self.fragment_");
                push_decimal(out, steps[k].0);
                push_str(out, "(depth + 1);\n");
                k = k + 1;
                assert(e[k - 1] == steps@[k - 1].0);
                assert(out@ =~= old(out)@ + step_calls(e, k as nat));
            }
        },
        Fragment::Terminal(bytes) => {
            push_str(out, "        let old_size = self.buf.len();\n        let new_size = old_size + ");
            push_decimal(out, bytes.len());
            push_str(out, ";\n        if new_size > self.buf.capacity() {\n            self.buf.reserve(new_size - old_size);\n        }\n        self.buf.extend_from_slice(&");
            push_byte_list(out, bytes);
            push_str(out, ");\n");
            assert(out@ =~= old(out)@ + body_text(f@));
        },
        Fragment::Nop => {
            assert(out@ =~= old(out)@ + body_text(f@));
        },
    }
}

impl GrammarRust {
    /// The source of a standalone Rust program that expands this grammar:
    /// one routine per fragment, each returning at once at depth
    /// `max_depth` or deeper, and a driver that repeatedly generates from
    /// the start fragment with a fixed seed and reports throughput.
    pub fn program(&self, max_depth: usize) -> (text: Vec<u8>)
        requires
            self.wf(),
            self.start is Some,
            max_depth > 0,
        ensures
            text@ == program_text(self.nodes(), self.start->Some_0.0 as nat, max_depth as nat),
    {
        let mut out: Vec<u8> = Vec::new();
        let start = match self.start {
            Some(s) => s.0,
            None => 0,
        };
        push_str(&mut out, "#![allow(unused)]\nuse std::cell::Cell;\nuse std::time::Instant;\n\nfn main() {\n    let mut fuzzer = Fuzzer {\n        seed:  Cell::new(0x34cc028e11b4f89c),\n        buf:   Vec::new(),\n    };\n\n    let mut generated = 0usize;\n    let it = Instant::now();\n\n    for iters in 1u64.. {\n        fuzzer.buf.clear();\n        fuzzer.fragment_");
        push_decimal(&mut out, start);
        push_str(&mut out, "(0);\n        generated += fuzzer.buf.len();\n\n        // Report throughput every 2^20 strings.\n        if (iters & 0xfffff) == 0 {\n            let elapsed = (Instant::now() - it).as_secs_f64();\n            let bytes_per_sec = generated as f64 / elapsed;\n            print!(\"MiB/sec: {:12.4}\\n\", bytes_per_sec / 1024. / 1024.);\n        }\n    }\n}\n\nstruct Fuzzer {\n    seed:  Cell<usize>,\n    buf:   Vec<u8>,\n}\n\nimpl Fuzzer {\n    fn rand(&self) -> usize {\n        let mut seed = self.seed.get();\n        seed ^= seed << 13;\n        seed ^= seed >> 17;\n        seed ^= seed << 43;\n        self.seed.set(seed);\n        seed\n    }\n");
        let ghost head = out@;
        assert(head =~= driver_head() + decimal(start as nat) + driver_tail());
        let ghost t = self.nodes();
        let mut id: usize = 0;
        while id < self.fragments.len()
            invariant
                id <= self.fragments@.len(),
                t == self.nodes(),
                out@ == head + routines_text(t, id as nat, max_depth as nat),
            decreases self.fragments@.len() - id,
        {
            let ghost before = out@;
            push_str(&mut out, "    fn fragment_");
            push_decimal(&mut out, id);
            push_str(&mut out, "(&mut self, depth: usize) {\n        if depth >= ");
            push_decimal(&mut out, max_depth);
            push_str(&mut out, " { return; }\n");
            push_body(&mut out, &self.fragments[id]);
            push_str(&mut out, "    }\n");
            assert(out@ =~= before + routine_text(t, id as nat, max_depth as nat));
            id = id + 1;
            assert(out@ =~= head + routines_text(t, id as nat, max_depth as nat));
        }
        push_str(&mut out, "}\n");
        assert(out@ =~= program_text(t, start as nat, max_depth as nat));
        out
    }
}

} // verus!
