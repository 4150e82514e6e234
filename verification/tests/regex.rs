use lsh::compiler::ir::{Condition, NodeId, Op, Program};
use lsh::compiler::regex::{parse, RegexError};

fn parse_pattern(pattern: &str) -> Result<usize, RegexError> {
    let mut program = Program::new();
    let good = program.alloc_noop();
    let bad = program.alloc_noop();
    parse(&mut program, pattern, good, bad).map(|(_, captures)| captures.len())
}

#[test]
fn regex_accepts_patterns() {
    for pattern in [
        "abc",
        "a|b|c",
        "(?i:select)",
        "[a-zA-Z_][\\w]*",
        "\\d+(\\.\\d*)?",
        "\\x41\\s*=",
        "a{2,4}",
        "(ab){3}",
        "word\\>",
        "[]a-]",
        "[\\>x]",
        ".*",
        "$",
        "[^\"\\\\]*",
    ] {
        assert!(parse_pattern(pattern).is_ok(), "{pattern}");
    }
}

#[test]
fn regex_counts_capture_groups() {
    assert_eq!(parse_pattern("abc"), Ok(0));
    assert_eq!(parse_pattern("(a)(b)"), Ok(2));
    assert_eq!(parse_pattern("(?:a)(b)"), Ok(1));
    assert_eq!(parse_pattern("((a)b)"), Ok(2));
}

#[test]
fn regex_errors() {
    let cases: Vec<(&str, RegexError, &str)> = vec![
        (")", RegexError::UnexpectedChar { ch: ')', pos: 0 }, "unexpected character ')' at position 0"),
        ("a(b", RegexError::ExpectedAtEnd { expected: ')' }, "expected ')', found end of pattern"),
        ("a{x}", RegexError::ExpectedNumber, "expected number"),
        (
            "a{99999999999}",
            RegexError::NumberTooLarge,
            "invalid number: number too large to fit in target type",
        ),
        ("(?x)", RegexError::UnsupportedGroupModifier, "unsupported group modifier"),
        ("[a", RegexError::EndInCharClass, "unexpected end of pattern in character class"),
        (
            "[€]",
            RegexError::NonAsciiInCharClass { ch: '€' },
            "non-ASCII character ''€'' not supported in character class",
        ),
        ("[a-\\w]", RegexError::ClassInRange, "cannot use character class in character class range"),
        ("[z-a]", RegexError::InvalidRange { start: b'z', end: b'a' }, "invalid character range 'z'-'a'"),
        ("\\", RegexError::EndAfterBackslash, "unexpected end of pattern after backslash"),
        ("\\x4", RegexError::InvalidHexEscape, "invalid hex escape sequence"),
        ("\\q", RegexError::UnknownEscape { ch: 'q' }, "unknown escape sequence '\\q'"),
        (
            "(ab)*",
            RegexError::UnboundedRepetition,
            "unbounded repetition on complex patterns are not yet supported (would require loops)",
        ),
    ];
    for (pattern, error, message) in cases {
        let got = parse_pattern(pattern);
        assert_eq!(got, Err(error), "{pattern}");
        assert_eq!(got.unwrap_err().message(), message, "{pattern}");
    }
}

#[test]
fn regex_code_is_wired_to_its_two_exits_without_loops() {
    for pattern in ["abc", "a|b|c", "(a)(b)?", "a{2,4}", "[a-z]+x", "(?i:sel|ins)ert", ".*$", "word\\>"] {
        let mut program = Program::new();
        let good = program.alloc_noop();
        let bad = program.alloc_noop();
        let from = program.graph.len() as u32;
        let (entry, _) = parse(&mut program, pattern, good, bad).unwrap();
        let inside_or_exit = |x: NodeId| x.0 >= from || x == good || x == bad;
        assert!(inside_or_exit(entry), "{pattern}");
        for i in from..program.graph.len() as u32 {
            let node = program.graph.node(NodeId(i));
            // Every edge leads back to an earlier node: the code has no loops.
            if let Some(x) = node.next {
                assert!(inside_or_exit(x) && x.0 < i, "{pattern}: node {i}");
            }
            if let Op::If { then, .. } = node.instr {
                assert!(inside_or_exit(then) && then.0 < i, "{pattern}: node {i}");
            }
        }
    }
}

/// The single node that `pattern` compiles to, with the exits it was wired to.
fn single_node(pattern: &str) -> (Program, Op, Option<NodeId>, NodeId, NodeId) {
    let mut program = Program::new();
    let good = program.alloc_noop();
    let bad = program.alloc_noop();
    let (entry, _) = parse(&mut program, pattern, good, bad).unwrap();
    assert_eq!(program.graph.len(), 3, "{pattern}");
    let node = *program.graph.node(entry);
    (program, node.instr, node.next, good, bad)
}

#[test]
fn regex_translations_of_simple_patterns() {
    // A literal is one prefix check; escapes are fused into it.
    let (program, instr, next, good, bad) = single_node("\\+\\+\\+");
    match instr {
        Op::If { condition: Condition::Prefix(id), then } => {
            assert_eq!(program.strings.get(id), "+++");
            assert_eq!((then, next), (good, Some(bad)));
        }
        other => panic!("{other:?}"),
    }
    // Case-insensitive literals are compared in lower case.
    let (program, instr, _, _, _) = single_node("(?i:FoO)");
    match instr {
        Op::If { condition: Condition::PrefixInsensitive(id), .. } => assert_eq!(program.strings.get(id), "foo"),
        other => panic!("{other:?}"),
    }
    // A repeated class is one counted charset match.
    let (_, instr, _, _, _) = single_node("[a-z]+");
    assert!(matches!(instr, Op::If { condition: Condition::Charset { min: 1, max: u32::MAX, .. }, .. }));
    let (_, instr, next, good, _) = single_node("[a-z]?");
    assert!(matches!(instr, Op::If { condition: Condition::Charset { min: 0, max: 1, .. }, .. }));
    assert_eq!(next, Some(good));
    // `.*` skips to the end of the line.
    let (_, instr, next, good, _) = single_node(".*");
    assert!(matches!(instr, Op::MovImm { imm: u32::MAX, .. }));
    assert_eq!(next, Some(good));
    // `$` tests for the end of the line.
    let (_, instr, next, good, bad) = single_node("$");
    assert_eq!(instr, Op::If { condition: Condition::EndOfLine, then: good });
    assert_eq!(next, Some(bad));
    // `\>` fails where a word byte follows.
    let (_, instr, next, good, bad) = single_node("\\>");
    assert!(matches!(instr, Op::If { condition: Condition::Charset { .. }, then } if then == bad));
    assert_eq!(next, Some(good));
}

#[test]
fn literal_pattern_tests_a_prefix() {
    let mut program = Program::new();
    let good = program.alloc_noop();
    let bad = program.alloc_noop();
    let (entry, captures) = parse(&mut program, "ab", good, bad).unwrap();
    assert!(captures.is_empty());
    let node = program.graph.node(entry);
    assert_eq!(node.next, Some(bad));
    match node.instr {
        Op::If { condition: Condition::Prefix(id), then } => {
            assert_eq!(then, good);
            assert_eq!(program.strings.get(id), "ab");
        },
        _ => panic!("a literal is one prefix test"),
    }
    let mut program = Program::new();
    let good = program.alloc_noop();
    let bad = program.alloc_noop();
    let (entry, _) = parse(&mut program, "", good, bad).unwrap();
    assert_eq!(entry, good);
}

#[test]
fn unrolled_repetition_records_each_copy_of_a_group() {
    assert_eq!(parse_pattern("(ab){3}"), Ok(3));
    assert_eq!(parse_pattern("(a){1,2}"), Ok(2));
    assert_eq!(parse_pattern("(a|(b)){2}"), Ok(4));
    assert_eq!(parse_pattern("x(?:y){0,3}"), Ok(0));
}

#[test]
fn capture_pairs_come_in_order_of_opening_parenthesis() {
    let pairs = |pattern: &str| {
        let mut program = Program::new();
        let good = program.alloc_noop();
        let bad = program.alloc_noop();
        let (_, caps) = parse(&mut program, pattern, good, bad).unwrap();
        caps.iter().map(|(s, e)| (s.0, e.0)).collect::<Vec<(u32, u32)>>()
    };
    assert_eq!(pairs("(a)(b)"), vec![(18, 19), (16, 17)]);
    assert_eq!(pairs("((a)b)"), vec![(16, 17), (18, 19)]);
}
