use fzero::builder::Production;
use fzero::generator::compile;
use fzero::ir::{Fragment, FragmentId, GrammarRust};

fn prod(name: &str, alts: &[&[&str]]) -> Production {
    Production {
        name: name.as_bytes().to_vec(),
        alternatives: alts
            .iter()
            .map(|alt| alt.iter().map(|s| s.as_bytes().to_vec()).collect())
            .collect(),
    }
}

fn nt(ids: &[usize]) -> Fragment {
    Fragment::NonTerminal(ids.iter().map(|&i| FragmentId(i)).collect())
}

fn ex(ids: &[usize]) -> Fragment {
    Fragment::Expression(ids.iter().map(|&i| FragmentId(i)).collect())
}

fn tm(b: &str) -> Fragment {
    Fragment::Terminal(b.as_bytes().to_vec())
}

fn same(a: &[Fragment], b: &[Fragment]) {
    assert_eq!(format!("{:?}", a), format!("{:?}", b));
}

#[test]
fn build_table_of_recursive_grammar() {
    let g = GrammarRust::new(&vec![prod("<start>", &[&["<start>", "a"], &["b"]])]).unwrap();
    same(&g.fragments, &[nt(&[3, 5]), nt(&[0]), tm("a"), ex(&[1, 2]), tm("b"), ex(&[4])]);
    assert_eq!(g.start.map(|s| s.0), Some(0));
}

#[test]
fn build_table_of_chain_grammar() {
    let g = GrammarRust::new(&vec![prod("<start>", &[&["A"]]), prod("A", &[&["x"]])]).unwrap();
    same(&g.fragments, &[nt(&[3]), nt(&[5]), nt(&[1]), ex(&[2]), tm("x"), ex(&[4])]);
    assert_eq!(g.names, vec![b"<start>".to_vec(), b"A".to_vec()]);
}

#[test]
fn build_table_with_unknown_name() {
    let g = GrammarRust::new(&vec![prod("<start>", &[&["B"]])]).unwrap();
    same(&g.fragments, &[nt(&[2]), tm("B"), ex(&[1])]);
}

#[test]
fn optimized_table_of_recursive_grammar() {
    let mut g = GrammarRust::new(&vec![prod("<start>", &[&["<start>", "a"], &["b"]])]).unwrap();
    assert!(g.optimize());
    same(&g.fragments, &[nt(&[3, 5]), nt(&[3, 5]), tm("a"), ex(&[1, 2]), tm("b"), tm("b")]);
}

#[test]
fn optimized_table_of_chain_grammar() {
    let mut g = GrammarRust::new(&vec![prod("<start>", &[&["A"]]), prod("A", &[&["x"]])]).unwrap();
    assert!(g.optimize());
    same(&g.fragments, &[tm("x"), tm("x"), tm("x"), tm("x"), tm("x"), tm("x")]);
}

#[test]
fn optimized_table_prunes_empty_production() {
    let mut g = GrammarRust::new(&vec![prod("<start>", &[&["E", "y"]]), prod("E", &[&[]])]).unwrap();
    assert!(g.optimize());
    same(&g.fragments, &[tm("y"), Fragment::Nop, Fragment::Nop, tm("y"), tm("y"), Fragment::Nop]);
    let mut gen = compile(&vec![prod("<start>", &[&["E", "y"]]), prod("E", &[&[]])], 10).unwrap();
    assert_eq!(gen.generate_one(), b"y".to_vec());
}

#[test]
fn production_that_is_its_own_alternative_reaches_fixed_point() {
    let mut g = GrammarRust::new(&vec![prod("<start>", &[&["<start>"]])]).unwrap();
    assert!(g.optimize_passes(10));
    same(&g.fragments, &[ex(&[1]), ex(&[1]), ex(&[1])]);
}

#[test]
fn production_without_alternatives_emits_nothing() {
    let grammar = vec![prod("<start>", &[&["x", "<none>"]]), prod("<none>", &[])];
    let mut gen = compile(&grammar, 10).unwrap();
    assert_eq!(gen.generate_one(), b"x".to_vec());
    let mut g = GrammarRust::new(&grammar).unwrap();
    g.optimize();
    let text = String::from_utf8(g.program(10)).unwrap();
    assert!(!text.contains("% 0"));
}
