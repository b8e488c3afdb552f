use fzero::emit::push_decimal;
use fzero::ir::{Fragment, FragmentId, GrammarRust};

#[test]
fn decimal_digits() {
    let mut out = Vec::new();
    push_decimal(&mut out, 0);
    out.push(b' ');
    push_decimal(&mut out, 10);
    out.push(b' ');
    push_decimal(&mut out, 12345);
    assert_eq!(out, b"0 10 12345".to_vec());
}

#[test]
fn program_has_one_routine_per_fragment() {
    let g = GrammarRust {
        fragments: vec![
            Fragment::NonTerminal(vec![FragmentId(1), FragmentId(2)]),
            Fragment::Terminal(b"hi".to_vec()),
            Fragment::Expression(vec![FragmentId(1), FragmentId(3)]),
            Fragment::Nop,
        ],
        start: Some(FragmentId(0)),
        names: vec![b"<start>".to_vec()],
    };
    let text = String::from_utf8(g.program(7)).unwrap();
    assert!(text.starts_with("#![allow(unused)]\n"));
    assert!(text.contains("        fuzzer.fragment_0(0);\n"));
    assert!(text.contains("seed:  Cell::new(0x34cc028e11b4f89c),"));
    let routines = [
        "    fn fragment_0(&mut self, depth: usize) {\n",
        "        if depth >= 7 { return; }\n",
        "        match self.rand() % 2 {\n",
        "            0 => self.fragment_1(depth + 1),\n",
        "            1 => self.fragment_2(depth + 1),\n",
        "            _ => unreachable!(),\n",
        "        }\n",
        "    }\n",
        "    fn fragment_1(&mut self, depth: usize) {\n",
        "        if depth >= 7 { return; }\n",
        "        let old_size = self.buf.len();\n",
        "        let new_size = old_size + 2;\n",
        "        if new_size > self.buf.capacity() {\n",
        "            self.buf.reserve(new_size - old_size);\n",
        "        }\n",
        "        self.buf.extend_from_slice(&[104, 105]);\n",
        "    }\n",
        "    fn fragment_2(&mut self, depth: usize) {\n",
        "        if depth >= 7 { return; }\n",
        "        self.fragment_1(depth + 1);\n",
        "        self.fragment_3(depth + 1);\n",
        "    }\n",
        "    fn fragment_3(&mut self, depth: usize) {\n",
        "        if depth >= 7 { return; }\n",
        "    }\n",
        "}\n",
    ]
    .concat();
    assert!(text.ends_with(&routines), "{}", text);
}
