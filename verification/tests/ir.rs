use lsh::compiler::charset::Charset;
use lsh::compiler::ir::{Condition, HighlightKind, NodeId, Op, Program};
use lsh::runtime::Register;

#[test]
fn interning_dedups() {
    let mut program = Program::new();
    let a = program.intern_string("abc");
    let b = program.intern_string("def");
    assert_ne!(a, b);
    assert_eq!(program.intern_string("abc"), a);
    assert_eq!(program.strings.len(), 2);

    let mut cs = Charset::no();
    cs.set(b'x', true);
    let c1 = program.intern_charset(&cs);
    let c2 = program.intern_charset(&Charset::yes());
    assert_ne!(c1, c2);
    assert_eq!(program.intern_charset(&cs), c1);
    assert_eq!(program.charsets.len(), 2);
}

#[test]
fn interning_highlight_kinds() {
    let mut program = Program::new();
    // "other" exists from the start with value 0.
    assert_eq!(program.intern_highlight_kind("other").value, 0);
    assert_eq!(program.intern_highlight_kind("string").value, 1);
    assert_eq!(program.intern_highlight_kind("comment").value, 2);
    assert_eq!(program.intern_highlight_kind("string").value, 1);
    let names: Vec<&str> = program.highlight_kinds.iter().map(|k| k.identifier.as_str()).collect();
    assert_eq!(names, vec!["comment", "other", "string"]);
}

#[test]
fn registers_and_vregs() {
    let mut program = Program::new();
    let off = program.get_reg(Register::InputOffset);
    assert!(off.is_physical());
    let v1 = program.alloc_vreg();
    let v2 = program.alloc_vreg();
    assert!(!v1.is_physical());
    assert_eq!(v2.0, v1.0 + 1);
}

#[test]
fn chain_builder_links_nodes() {
    let mut program = Program::new();
    let frag = program
        .build_chain()
        .append(Op::MovImm { dst: program_reg(), imm: 1 })
        .append(Op::AwaitInput)
        .append(Op::Return)
        .build();
    let first = program.graph.node(frag.first);
    assert_eq!(first.instr, Op::MovImm { dst: program_reg(), imm: 1 });
    let second = program.graph.node(first.next.unwrap());
    assert_eq!(second.instr, Op::AwaitInput);
    assert_eq!(second.next, Some(frag.last));
    assert_eq!(program.graph.node(frag.last).instr, Op::Return);
    assert_eq!(program.graph.node(frag.last).next, None);
}

fn program_reg() -> lsh::compiler::ir::RegId {
    lsh::compiler::ir::RegId(3)
}

#[test]
fn walker_visits_each_reachable_node_once() {
    let mut program = Program::new();
    let end = program.alloc_iri(Op::Return);
    let then = program.alloc_ir(lsh::compiler::ir::Node { next: Some(end), instr: Op::AwaitInput });
    let cond = program.alloc_ir(lsh::compiler::ir::Node {
        next: Some(end),
        instr: Op::If { condition: Condition::EndOfLine, then },
    });
    let _unreachable = program.alloc_noop();
    let mut walker = program.visit_nodes_from(cond);
    let mut seen = Vec::new();
    while let Some(n) = walker.next(&program.graph) {
        seen.push(n);
    }
    assert_eq!(seen, vec![cond, then, end]);
}

#[test]
fn interesting_charset_follows_next_chain_only() {
    let mut program = Program::new();
    let ab = program.intern_string("ab");
    let x = program.intern_string("x");
    let z = program.intern_string("z");
    let mut digits = Charset::no();
    digits.set_range(b'0'..=b'9', true);
    let digits = program.intern_charset(&digits);

    let inner = program.alloc_iri(Op::If { condition: Condition::Prefix(z), then: NodeId(0) });
    let last = program.alloc_iri(Op::If { condition: Condition::Charset { cs: digits, min: 1, max: 1 }, then: inner });
    let mid = program.alloc_ir(lsh::compiler::ir::Node {
        next: Some(last),
        instr: Op::If { condition: Condition::PrefixInsensitive(x), then: inner },
    });
    let first = program.alloc_ir(lsh::compiler::ir::Node {
        next: Some(mid),
        instr: Op::If { condition: Condition::Prefix(ab), then: inner },
    });

    let cs = program.collect_interesting_charset(first);
    for b in 0u8..=255 {
        let expected = b == b'a' || b == b'x' || b == b'X' || b.is_ascii_digit();
        assert_eq!(cs.get(b), expected, "byte {b}");
    }
}

#[test]
fn camel_case_names() {
    let cases = [("keyword.control", "KeywordControl"), ("other", "Other"), ("markup.list.x", "MarkupListX"), ("", "")];
    for (identifier, expected) in cases {
        let hk = HighlightKind { identifier: identifier.to_string(), value: 0 };
        assert_eq!(hk.fmt_camelcase().to_string(), expected);
    }
}

#[test]
fn finished_walker_keeps_returning_none() {
    let mut program = Program::new();
    let end = program.alloc_iri(Op::Return);
    let start = program.alloc_ir(lsh::compiler::ir::Node { next: Some(end), instr: Op::AwaitInput });
    let mut walker = program.visit_nodes_from(start);
    assert_eq!(walker.next(&program.graph), Some(start));
    assert_eq!(walker.next(&program.graph), Some(end));
    for _ in 0..3 {
        assert_eq!(walker.next(&program.graph), None);
    }
}
