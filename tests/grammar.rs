use std::collections::BTreeSet;

use fzero::builder::{BuildError, Production};
use fzero::generator::{compile, next_rand, CompileError, Generator, SEED};
use fzero::ir::{Fragment, GrammarRust};

fn prod(name: &str, alts: &[&[&str]]) -> Production {
    Production {
        name: name.as_bytes().to_vec(),
        alternatives: alts
            .iter()
            .map(|alt| alt.iter().map(|s| s.as_bytes().to_vec()).collect())
            .collect(),
    }
}

fn recursive_grammar() -> Vec<Production> {
    vec![prod("<start>", &[&["<start>", "a"], &["b"]])]
}

fn outputs(g: &mut Generator, calls: usize) -> BTreeSet<Vec<u8>> {
    let mut seen = BTreeSet::new();
    for _ in 0..calls {
        seen.insert(g.generate_one());
    }
    seen
}

fn unoptimized(grammar: &Vec<Production>, max_depth: usize) -> Generator {
    let g = GrammarRust::new(grammar).unwrap();
    let start = g.start.unwrap().0;
    Generator { fragments: g.fragments, start, max_depth, seed: SEED }
}

#[test]
fn duplicate_name_fails() {
    let grammar = vec![prod("<start>", &[&["x"]]), prod("A", &[&["y"]]), prod("A", &[&["z"]])];
    assert!(matches!(GrammarRust::new(&grammar), Err(BuildError::DuplicateName)));
    assert!(matches!(compile(&grammar, 10), Err(CompileError::Build(BuildError::DuplicateName))));
}

#[test]
fn missing_start_fails() {
    let grammar = vec![prod("A", &[&["y"]])];
    assert!(matches!(GrammarRust::new(&grammar), Err(BuildError::MissingStart)));
    assert!(matches!(compile(&grammar, 10), Err(CompileError::Build(BuildError::MissingStart))));
}

#[test]
fn duplicate_reported_before_missing_start() {
    let grammar = vec![prod("A", &[&["y"]]), prod("A", &[&["z"]])];
    assert!(matches!(GrammarRust::new(&grammar), Err(BuildError::DuplicateName)));
}

#[test]
fn zero_depth_fails() {
    assert!(matches!(compile(&recursive_grammar(), 0), Err(CompileError::ZeroDepth)));
}

#[test]
fn build_allocates_one_fragment_per_symbol() {
    let g = GrammarRust::new(&recursive_grammar()).unwrap();
    assert_eq!(g.fragments.len(), 6);
    assert_eq!(g.names, vec![b"<start>".to_vec()]);
    assert_eq!(g.start.map(|s| s.0), Some(0));
    match &g.fragments[0] {
        Fragment::NonTerminal(o) => assert_eq!(o.iter().map(|f| f.0).collect::<Vec<_>>(), vec![3, 5]),
        other => panic!("unexpected {:?}", other),
    }
    match &g.fragments[1] {
        Fragment::NonTerminal(o) => assert_eq!(o.iter().map(|f| f.0).collect::<Vec<_>>(), vec![0]),
        other => panic!("unexpected {:?}", other),
    }
    match &g.fragments[2] {
        Fragment::Terminal(b) => assert_eq!(b, b"a"),
        other => panic!("unexpected {:?}", other),
    }
    match &g.fragments[3] {
        Fragment::Expression(e) => assert_eq!(e.iter().map(|f| f.0).collect::<Vec<_>>(), vec![1, 2]),
        other => panic!("unexpected {:?}", other),
    }
}

#[test]
fn unknown_symbol_is_literal_text() {
    let grammar = vec![prod("<start>", &[&["<typo>"]])];
    let mut gen = compile(&grammar, 10).unwrap();
    assert_eq!(gen.generate_one(), b"<typo>".to_vec());
}

#[test]
fn allocate_fragment_returns_next_index() {
    let mut g = GrammarRust { fragments: Vec::new(), start: None, names: Vec::new() };
    assert_eq!(g.allocate_fragment(Fragment::Nop).0, 0);
    assert_eq!(g.allocate_fragment(Fragment::Terminal(b"q".to_vec())).0, 1);
    assert_eq!(g.fragments.len(), 2);
}

#[test]
fn optimize_twice_changes_nothing() {
    let grammar = vec![
        prod("<start>", &[&["<a>", "<b>"], &["<b>"]]),
        prod("<a>", &[&["x", "<e>"], &["<b>", "<b>"]]),
        prod("<b>", &[&["y"]]),
        prod("<e>", &[&[]]),
    ];
    let mut g = GrammarRust::new(&grammar).unwrap();
    assert!(g.optimize());
    let first = format!("{:?}", g.fragments);
    assert!(g.optimize());
    assert_eq!(format!("{:?}", g.fragments), first);
}

#[test]
fn optimize_passes_zero_budget_is_not_fixed() {
    let mut g = GrammarRust::new(&recursive_grammar()).unwrap();
    let before = format!("{:?}", g.fragments);
    assert!(!g.optimize_passes(0));
    assert_eq!(format!("{:?}", g.fragments), before);
}

#[test]
fn optimization_keeps_the_language() {
    let grammar = vec![
        prod("<start>", &[&["<num>", "+", "<num>"], &["(", "<num>", ")"]]),
        prod("<num>", &[&["<digit>"], &["<digit>", "<digit>"]]),
        prod("<digit>", &[&["0"], &["1"]]),
    ];
    let mut plain = unoptimized(&grammar, 64);
    let mut opt = compile(&grammar, 64).unwrap();
    let a = outputs(&mut plain, 4000);
    let b = outputs(&mut opt, 4000);
    assert_eq!(a.len(), 42);
    assert_eq!(a, b);
}

#[test]
fn inlined_production_behaves_as_its_body() {
    let inlined = vec![prod("<start>", &[&["<pair>", "!"], &["?"]]), prod("<pair>", &[&["<bit>", "<bit>"]]), prod("<bit>", &[&["0"], &["1"]])];
    let substituted = vec![prod("<start>", &[&["<bit>", "<bit>", "!"], &["?"]]), prod("<bit>", &[&["0"], &["1"]])];
    let mut a = compile(&inlined, 64).unwrap();
    let mut b = compile(&substituted, 64).unwrap();
    let sa = outputs(&mut a, 2000);
    let sb = outputs(&mut b, 2000);
    assert_eq!(sa.len(), 5);
    assert_eq!(sa, sb);
}

#[test]
fn empty_alternative_becomes_nop() {
    let grammar = vec![prod("<start>", &[&["<e>", "<e>"], &["x", "<e>", "y"]]), prod("<e>", &[&[]])];
    let mut g = GrammarRust::new(&grammar).unwrap();
    assert!(g.optimize());
    assert!(matches!(g.fragments[1], Fragment::Nop));
    match &g.fragments[0] {
        Fragment::NonTerminal(o) => {
            assert_eq!(o.len(), 2);
            assert!(matches!(g.fragments[o[0].0], Fragment::Nop));
            match &g.fragments[o[1].0] {
                Fragment::Expression(e) => assert_eq!(e.len(), 2),
                other => panic!("unexpected {:?}", other),
            }
        }
        other => panic!("unexpected {:?}", other),
    }
    let mut gen = compile(&grammar, 10).unwrap();
    let seen = outputs(&mut gen, 200);
    let want: BTreeSet<Vec<u8>> = [Vec::new(), b"xy".to_vec()].into_iter().collect();
    assert_eq!(seen, want);
}

#[test]
fn same_seed_same_stream() {
    let grammar = vec![
        prod("<start>", &[&["<start>", "<start>"], &["a"], &["b", "<start>"]]),
    ];
    let mut a = compile(&grammar, 12).unwrap();
    let mut b = compile(&grammar, 12).unwrap();
    for _ in 0..500 {
        assert_eq!(a.generate_one(), b.generate_one());
    }
    assert_eq!(a.seed, b.seed);
}

#[test]
fn recursive_grammar_terminates_under_depth_bound() {
    let grammar = vec![prod("<start>", &[&["<start>", "<start>"], &["<start>"], &["x"]])];
    for depth in [1usize, 2, 5, 16] {
        let mut gen = compile(&grammar, depth).unwrap();
        for _ in 0..200 {
            let out = gen.generate_one();
            assert!(out.len() <= 1usize << depth);
        }
    }
}

#[test]
fn self_recursive_example_first_strings() {
    let mut gen = compile(&recursive_grammar(), 50).unwrap();
    assert_eq!(gen.generate_one(), b"b".to_vec());
    assert_eq!(gen.generate_one(), b"ba".to_vec());
    assert_eq!(gen.generate_one(), b"baaa".to_vec());
    assert_eq!(gen.generate_one(), b"baaaa".to_vec());
    assert_eq!(gen.generate_one(), b"baa".to_vec());
    for _ in 0..2000 {
        assert!(gen.generate_one().iter().all(|&c| c == b'a' || c == b'b'));
    }
}

#[test]
fn single_chain_optimizes_to_terminal() {
    let grammar = vec![prod("<start>", &[&["A"]]), prod("A", &[&["x"]])];
    let mut g = GrammarRust::new(&grammar).unwrap();
    assert!(g.optimize());
    match &g.fragments[g.start.unwrap().0] {
        Fragment::Terminal(b) => assert_eq!(b, b"x"),
        other => panic!("unexpected {:?}", other),
    }
    let mut gen = compile(&grammar, 10).unwrap();
    assert_eq!(gen.generate_one(), b"x".to_vec());
}

#[test]
fn xorshift_step_values() {
    let mut s = SEED;
    assert_eq!(next_rand(&mut s), 7882393320880291791);
    assert_eq!(s, 7882393320880291791);
    let mut one = 1u64;
    assert_eq!(next_rand(&mut one), 72066390130958337);
}

#[test]
fn generate_into_clears_buffer() {
    let mut gen = compile(&recursive_grammar(), 50).unwrap();
    let mut buf = b"stale".to_vec();
    gen.generate_into(&mut buf);
    assert_eq!(buf, b"b".to_vec());
}

#[test]
fn depth_bound_truncates_output() {
    let grammar = vec![prod("<start>", &[&["<x>", "<x>"]]), prod("<x>", &[&["p", "q"], &["r", "s"]])];
    let mut gen = compile(&grammar, 1).unwrap();
    assert_eq!(gen.generate_one(), Vec::<u8>::new());
}
