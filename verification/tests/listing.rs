use lsh::compiler::charset::Charset;
use lsh::compiler::generator::assembly_listing;
use lsh::render::Entrypoint;
use lsh::runtime::{Instruction, Register};

fn ep(name: &str, address: usize) -> Entrypoint {
    Entrypoint { name: name.to_string(), display_name: name.to_string(), paths: Vec::new(), address }
}

#[test]
fn assembly_listing_plain() {
    let mut code = Vec::new();
    Instruction::JumpIfMatchPrefix { idx: 0, tgt: 9 }.encode(&mut code);
    let second = code.len();
    Instruction::Return.encode(&mut code);
    let strings = vec!["le\"t".to_string()];
    let eps = vec![ep("first", 0), ep("second", second)];
    let listing = assembly_listing(&code, &eps, &[], &strings, false);
    let w = code.len().to_string().len();
    let line1 = format!("{:>w$}:  {:<40} // {:?}\n", 0, "jp     0, 9", "le\"t");
    let line2 = format!("{second:>w$}:  {:<40}\n", "ret");
    assert_eq!(listing, format!("first:\n{line1}\nsecond:\n{line2}"));
}

#[test]
fn assembly_listing_charset_comment_and_colors() {
    let mut code = Vec::new();
    Instruction::JumpIfMatchCharset { idx: 0, min: 1, max: 1, tgt: 0 }.encode(&mut code);
    Instruction::Mov { dst: Register::X3, src: Register::InputOffset }.encode(&mut code);
    let mut cs = Charset::no();
    cs.set(b'a', true);
    let plain = assembly_listing(&code, &[], &[cs], &[], false);
    let w = code.len().to_string().len();
    let expected = format!(
        "{:>w$}:  {:<40} // {}\n{:>w$}:  {:<40}\n",
        0,
        "jc     0, 1, 1, 0",
        cs.debug_string(),
        code.len() - 2,
        "mov    x3, off"
    );
    assert_eq!(plain, expected);
    // With colors the escape sequences take no room in the padding.
    let colored = assembly_listing(&code, &[], &[cs], &[], true);
    assert!(colored.starts_with(&format!("\x1b[90m{:>w$}:  \x1b[33mjc", 0)));
    assert!(colored.contains(" \x1b[32m// "));
}
