use lsh::compiler::frontend::parse_into;
use lsh::compiler::ir::{Op, Program};
use lsh::compiler::optimizer::optimize;
use lsh::compiler::Compiler;

const DIFF: &str = r#"#[display_name = "Diff"]
#[path = "**/*.diff"]
#[path = "**/*.patch"]
pub fn diff() {
    if /(?:diff|---|\+\+\+).*/ {
        yield meta.header;
    } else if /-.*/ {
        yield markup.deleted;
    } else if /\+.*/ {
        yield markup.inserted;
    }
}
"#;

fn kind_names(program: &Program) -> Vec<String> {
    program.highlight_kinds.iter().map(|k| k.identifier.clone()).collect()
}

#[test]
fn parses_minimal_definition() {
    let mut program = Program::new();
    assert!(parse_into(&mut program, "diff.lsh", DIFF).is_ok());
    assert_eq!(program.functions.len(), 1);
    let f = &program.functions[0];
    assert_eq!(f.name, "diff");
    assert!(f.public);
    assert_eq!(f.attributes.display_name.as_deref(), Some("Diff"));
    assert_eq!(f.attributes.paths, vec!["**/*.diff".to_string(), "**/*.patch".to_string()]);
    // Interned highlight kinds stay sorted by identifier.
    assert_eq!(kind_names(&program), vec!["markup.deleted", "markup.inserted", "meta.header", "other"]);
    let mut values: Vec<u32> = program.highlight_kinds.iter().map(|k| k.value).collect();
    values.sort();
    assert_eq!(values, vec![0, 1, 2, 3]);
}

#[test]
fn optimize_sorts_and_renumbers_kinds() {
    let mut program = Program::new();
    parse_into(&mut program, "diff.lsh", DIFF).unwrap();
    let nodes = program.graph.len();
    let functions = program.functions.len();
    optimize(&mut program);
    // Globals first, `other` first among them, then dotted names by component.
    assert_eq!(kind_names(&program), vec!["other", "markup.deleted", "markup.inserted", "meta.header"]);
    for (i, k) in program.highlight_kinds.iter().enumerate() {
        assert_eq!(k.value as usize, i);
    }
    assert_eq!(program.graph.len(), nodes);
    assert_eq!(program.functions.len(), functions);
    // Every kind loaded by the code is one of the renumbered values.
    for i in 0..program.graph.len() {
        let node = program.graph.node(lsh::compiler::ir::NodeId(i as u32));
        if let Op::MovKind { kind, .. } = node.instr {
            assert!((kind as usize) < program.highlight_kinds.len());
        }
    }
}

#[test]
fn optimize_skips_noops_at_function_entry() {
    let mut program = Program::new();
    parse_into(&mut program, "t.lsh", "pub fn t() { loop { yield comment; await input; } }").unwrap();
    optimize(&mut program);
    let body = program.functions[0].body;
    // The entry no longer is a no-op that merely leads somewhere else.
    let entry = program.graph.node(body);
    assert!(!(matches!(entry.instr, Op::Noop) && entry.next.is_some()));
}

#[test]
fn parses_language_features() {
    let src = r#"
fn helper() {
    if /\w+/ {
        yield variable;
    }
}

pub fn feature_tour() {
    if /\/\*/ {
        loop {
            yield comment;
            await input;
            if /\*\// {
                yield comment;
                break;
            }
        }
    }
    if /([\w:.-]+)\s*=/ {
        yield $1 as variable;
        yield other;
    }
    var indentation = off;
    until /$/ {
        if off <= indentation {
            break;
        }
        helper();
        if /.*/ {}
    }
    loop {
        if /x/ { continue; }
        return;
    }
}
"#;
    let mut program = Program::new();
    let r = parse_into(&mut program, "tour.lsh", src);
    assert!(r.is_ok(), "{:?}", r.err());
    let names: Vec<&str> = program.functions.iter().map(|f| f.name.as_str()).collect();
    assert_eq!(names, vec!["helper", "feature_tour"]);
    assert!(!program.functions[0].public);
    assert!(program.functions[1].public);
    optimize(&mut program);
}

#[test]
fn reports_errors_with_position() {
    let mut program = Program::new();
    let err = parse_into(&mut program, "bad.lsh", "pub fn f() { break; }").unwrap_err();
    assert_eq!(err.path, "bad.lsh");
    assert_eq!(err.line, 1);
    // The position is that of the last token read: the `;` after `break`.
    assert_eq!(err.column, 19);
    assert_eq!(err.message, "loop control statement outside of a loop");

    let mut program = Program::new();
    let err = parse_into(&mut program, "bad.lsh", "pub fn f() {\n  if off <= nowhere {}\n}").unwrap_err();
    assert_eq!(err.line, 2);
    assert_eq!(err.message, "undefined variable 'nowhere'");

    let mut program = Program::new();
    let err = parse_into(&mut program, "bad.lsh", "#[colour = \"x\"]\npub fn f() {}").unwrap_err();
    assert_eq!(err.message, "unknown attribute 'colour'");

    let mut program = Program::new();
    let err = parse_into(&mut program, "bad.lsh", "pub fn f() { var x = off; var x = off; }").unwrap_err();
    assert_eq!(err.message, "variable 'x' already declared");

    let mut program = Program::new();
    let err = parse_into(&mut program, "bad.lsh", "pub fn f() { if /a(b/ {} }").unwrap_err();
    assert_eq!(err.message, "expected ')', found end of pattern");

    let mut program = Program::new();
    let err = parse_into(&mut program, "bad.lsh", "pub fn f() { await more; }").unwrap_err();
    assert_eq!(err.message, "expected 'input' after await");
}

#[test]
fn compiler_collects_several_files() {
    let mut compiler = Compiler::new();
    assert!(compiler.parse("diff.lsh", DIFF).is_ok());
    assert!(compiler.parse("other.lsh", "pub fn other_lang() { yield comment; }").is_ok());
    assert!(compiler.parse("broken.lsh", "pub fn").is_err());
}

#[test]
fn optimize_ends_on_noop_cycles() {
    // `continue` as the whole loop body links no-ops into a cycle.
    let mut program = Program::new();
    parse_into(&mut program, "spin.lsh", "pub fn spin() { loop { continue; } }").unwrap();
    let nodes = program.graph.len();
    optimize(&mut program);
    assert_eq!(program.graph.len(), nodes);
}

#[test]
fn function_headers_come_from_the_source() {
    // Whitespace and comments may stand between the tokens of a header; the last
    // display name wins, paths keep their order, and escapes stay in the raw text.
    let src = "#[display_name = \"First\"]\n#[ path = \"a\\\"b\" ] // note\n#[display_name=\"Second\"]\nfn  inner ( ) {}\npub fn outer() {}\n";
    let mut program = Program::new();
    assert!(parse_into(&mut program, "h.lsh", src).is_ok());
    assert_eq!(program.functions.len(), 2);
    let f = &program.functions[0];
    assert_eq!(f.name, "inner");
    assert!(!f.public);
    assert_eq!(f.attributes.display_name.as_deref(), Some("Second"));
    assert_eq!(f.attributes.paths, vec!["a\\\"b".to_string()]);
    let g = &program.functions[1];
    assert_eq!(g.name, "outer");
    assert!(g.public);
    assert_eq!(g.attributes.display_name, None);
    assert!(g.attributes.paths.is_empty());

    // An attribute without its closing bracket is an error.
    let mut program = Program::new();
    let err = parse_into(&mut program, "h.lsh", "#[path = \"x\"\nfn f() {}").unwrap_err();
    assert_eq!(err.message, "expected ']'");
    assert_eq!(err.line, 2);
}

#[test]
fn blank_sources_define_nothing_and_bad_headers_fail() {
    let mut program = Program::new();
    assert!(parse_into(&mut program, "blank.lsh", "  // only a comment\n\n").is_ok());
    assert!(program.functions.is_empty());

    let mut program = Program::new();
    let err = parse_into(&mut program, "bad.lsh", "\n  pub f() {}").unwrap_err();
    assert_eq!(err.message, "expected 'fn'");
    assert!(program.functions.is_empty());
}

#[test]
fn empty_bodies_parse_with_two_nodes_each() {
    let mut program = Program::new();
    let src = "// two definitions\n#[display_name = \"Diff\"] #[path = \"**/*.diff\"] pub fn diff() {}\nfn helper() { }\n";
    let nodes = program.graph.len();
    assert!(parse_into(&mut program, "t.lsh", src).is_ok());
    assert_eq!(program.functions.len(), 2);
    assert_eq!(program.functions[0].name, "diff");
    assert!(program.functions[0].public);
    assert_eq!(program.functions[1].name, "helper");
    assert!(!program.functions[1].public);
    assert!(program.functions[1].attributes.display_name.is_none());
    assert_eq!(program.graph.len(), nodes + 4);
}

#[test]
fn stray_break_reports_its_semicolon() {
    let mut c = Compiler::new();
    let err = c.parse("t.lsh", "fn f() { break; }").unwrap_err();
    assert_eq!(err.path, "t.lsh");
    assert_eq!((err.line, err.column), (1, 15));
    assert_eq!(err.message, "loop control statement outside of a loop");
    let mut c = Compiler::new();
    let err = c.parse("t.lsh", "// a\nfn f() {\n  continue ;\n}").unwrap_err();
    assert_eq!((err.line, err.column), (3, 12));
}

#[test]
fn undefined_variable_reports_its_position() {
    let mut c = Compiler::new();
    let err = c.parse("t.lsh", "fn f() {\n  if y == off {}\n}").unwrap_err();
    assert_eq!(err.path, "t.lsh");
    assert_eq!((err.line, err.column), (2, 6));
    assert_eq!(err.message, "undefined variable 'y'");
}

#[test]
fn bare_identifier_statement_is_rejected() {
    let mut c = Compiler::new();
    let err = c.parse("t.lsh", "fn f() { x }").unwrap_err();
    assert_eq!((err.line, err.column), (1, 12));
    assert_eq!(err.message, "expected '(', '=' or '+=' after identifier");
}

#[test]
fn optimize_keeps_each_highlight_naming_its_kind() {
    let mut program = Program::new();
    parse_into(&mut program, "diff.lsh", DIFF).unwrap();
    let name_of = |p: &Program, v: u32| {
        p.highlight_kinds.iter().find(|k| k.value == v).map(|k| k.identifier.clone()).unwrap()
    };
    let mut before = Vec::new();
    for i in 0..program.graph.len() {
        if let Op::MovKind { kind, .. } = program.graph.node(lsh::compiler::ir::NodeId(i as u32)).instr {
            before.push((i, name_of(&program, kind)));
        }
    }
    assert!(!before.is_empty());
    optimize(&mut program);
    for (i, name) in before {
        match program.graph.node(lsh::compiler::ir::NodeId(i as u32)).instr {
            Op::MovKind { kind, .. } => assert_eq!(name_of(&program, kind), name),
            _ => panic!("a highlight was lost"),
        }
    }
}

#[test]
fn statements_lower_to_their_nodes() {
    let mut program = Program::new();
    parse_into(&mut program, "t.lsh", "fn f() { return; }").unwrap();
    let body = program.functions[0].body;
    let node = program.graph.node(body);
    assert!(matches!(node.instr, Op::Return));
    assert!(node.next.is_none());

    let mut program = Program::new();
    parse_into(&mut program, "t.lsh", "fn f() { yield comment; }").unwrap();
    let body = program.functions[0].body;
    let first = program.graph.node(body);
    let kind_reg = match first.instr {
        Op::MovKind { dst, kind } => {
            let k = program.highlight_kinds.iter().find(|k| k.value == kind).unwrap();
            assert_eq!(k.identifier, "comment");
            dst
        },
        _ => panic!("yield starts with its kind"),
    };
    let second = program.graph.node(first.next.unwrap());
    assert!(matches!(second.instr, Op::Flush { kind } if kind == kind_reg));
}
