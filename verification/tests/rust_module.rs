use lsh::compiler::charset::Charset;
use lsh::compiler::ir::HighlightKind;
use lsh::compiler::rust_module::rust_module;
use lsh::render::Entrypoint;
use lsh::runtime::Instruction;

#[test]
fn rust_module_tables() {
    let mut code = Vec::new();
    Instruction::Return.encode(&mut code);
    code.push(0xff);
    let eps = vec![Entrypoint {
        name: "git_commit".to_string(),
        display_name: "Git Commit".to_string(),
        paths: vec!["COMMIT_EDITMSG".to_string()],
        address: 0,
    }];
    let kinds = vec![
        HighlightKind { identifier: "other".to_string(), value: 0 },
        HighlightKind { identifier: "comment.doc".to_string(), value: 1 },
    ];
    let mut cs = Charset::no();
    cs.set(b'a', true);
    let strings = vec!["le\"t".to_string()];
    let out = rust_module(&code, &eps, &kinds, &[cs], &strings);

    let mut expected = String::new();
    expected.push_str("// This file is auto-generated. Do not edit it manually.\n\n");
    expected.push_str("use lsh::runtime::Language;\n\n");
    expected.push_str("#[derive(Debug, Clone, Copy, PartialEq, Eq)]\npub enum HighlightKind {\n");
    expected.push_str("    Other = 0,      // other\n");
    expected.push_str("    CommentDoc = 1, // comment.doc\n");
    expected.push_str("}\n");
    expected.push_str("\nimpl TryFrom<u32> for HighlightKind {\n    type Error = ();\n\n    #[inline]\n");
    expected.push_str("    fn try_from(value: u32) -> Result<Self, Self::Error> {\n");
    expected.push_str("        if value <= Self::CommentDoc as u32 {\n");
    expected.push_str("            Ok(unsafe { std::mem::transmute::<u8, Self>(value as u8) })\n");
    expected.push_str("        } else {\n            Err(())\n        }\n    }\n}\n");
    expected.push_str("\n#[rustfmt::skip] pub static LANGUAGES: &[Language] = &[\n");
    expected.push_str("    Language { id: \"git-commit\", name: \"Git Commit\", entrypoint: 0 },\n");
    expected.push_str("];\n");
    expected.push_str("\n#[rustfmt::skip] pub static FILE_ASSOCIATIONS: &[(&str, &Language)] = &[\n");
    expected.push_str("    (\"COMMIT_EDITMSG\", &LANGUAGES[0]),\n");
    expected.push_str("];\n");
    expected.push_str("\n#[rustfmt::skip] pub static ASSEMBLY: [u8; 19] = [\n");
    expected.push_str("    // git_commit:\n");
    expected.push_str("    0x07, ");
    expected.push_str(&" ".repeat(96));
    expected.push_str("// 0:  ret\n");
    expected.push_str("    0xff, \n");
    expected.push_str("\n    // padding\n");
    for _ in 0..17 {
        expected.push_str("    0xff,\n");
    }
    expected.push_str("];\n");
    expected.push_str("\n#[rustfmt::skip] pub static CHARSETS: [[u16; 16]; 1] = [\n");
    expected.push_str("    [0x0000, 0x0040");
    for _ in 0..14 {
        expected.push_str(", 0x0000");
    }
    expected.push_str("],\n];\n");
    expected.push_str("\n#[rustfmt::skip] pub static STRINGS: [&str; 1] = [\n");
    expected.push_str("    \"le\\\"t\",\n");
    expected.push_str("];\n");
    assert_eq!(out, expected);
}

#[test]
fn rust_module_empty() {
    let out = rust_module(&[], &[], &[], &[], &[]);
    assert!(out.contains("pub enum HighlightKind {\n}\n\n#[rustfmt::skip] pub static LANGUAGES"));
    assert!(!out.contains("TryFrom"));
    assert!(out.contains("pub static ASSEMBLY: [u8; 17] = [\n\n    // padding\n"));
    assert!(out.ends_with("pub static STRINGS: [&str; 0] = [\n];\n"));
}
