use lsh::runtime::{Highlight, Instruction, MnemonicFormattingConfig, Register, Runtime};

fn all_instructions() -> Vec<Instruction> {
    vec![
        Instruction::Mov { dst: Register::X3, src: Register::InputOffset },
        Instruction::Add { dst: Register::X15, src: Register::X4 },
        Instruction::Sub { dst: Register::HighlightStart, src: Register::X7 },
        Instruction::MovImm { dst: Register::ProgramCounter, imm: 0xdead_beef },
        Instruction::AddImm { dst: Register::X9, imm: 1 },
        Instruction::SubImm { dst: Register::X10, imm: u32::MAX },
        Instruction::Call { tgt: 1234 },
        Instruction::Return,
        Instruction::JumpEQ { lhs: Register::X3, rhs: Register::X4, tgt: 7 },
        Instruction::JumpNE { lhs: Register::X5, rhs: Register::X6, tgt: 8 },
        Instruction::JumpLT { lhs: Register::X7, rhs: Register::X8, tgt: 9 },
        Instruction::JumpLE { lhs: Register::X9, rhs: Register::X10, tgt: 10 },
        Instruction::JumpGT { lhs: Register::X11, rhs: Register::X12, tgt: 11 },
        Instruction::JumpGE { lhs: Register::X13, rhs: Register::X14, tgt: 12 },
        Instruction::JumpIfEndOfLine { tgt: 99 },
        Instruction::JumpIfMatchCharset { idx: 1, min: 2, max: u32::MAX, tgt: 3 },
        Instruction::JumpIfMatchPrefix { idx: 4, tgt: 5 },
        Instruction::JumpIfMatchPrefixInsensitive { idx: 6, tgt: 7 },
        Instruction::FlushHighlight { kind: Register::X3 },
        Instruction::AwaitInput,
    ]
}

#[test]
fn encode_decode_round_trip() {
    for instr in all_instructions() {
        let mut bytes = Vec::new();
        instr.encode(&mut bytes);
        assert!(!bytes.is_empty() && bytes.len() <= 17, "{instr:?}");
        // Trailing bytes do not disturb decoding.
        let len = bytes.len();
        bytes.extend_from_slice(&[0xff, 0x00, 0x12]);
        let (decoded, consumed) = Instruction::decode(&bytes);
        assert_eq!(decoded, Some(instr));
        assert_eq!(consumed, len);
    }
}

#[test]
fn decode_rejects_garbage() {
    assert_eq!(Instruction::decode(&[0xff]), (None, 1));
    assert_eq!(Instruction::decode(&[0x14, 0x00]), (None, 1));
}

#[test]
fn address_offset_points_at_target() {
    for instr in all_instructions() {
        let mut bytes = Vec::new();
        instr.encode(&mut bytes);
        if let Some(off) = instr.address_offset() {
            let tgt = u32::from_le_bytes([bytes[off], bytes[off + 1], bytes[off + 2], bytes[off + 3]]);
            let expected = match instr {
                Instruction::MovImm { imm, .. } | Instruction::AddImm { imm, .. } | Instruction::SubImm { imm, .. } => imm,
                Instruction::Call { tgt }
                | Instruction::JumpEQ { tgt, .. }
                | Instruction::JumpNE { tgt, .. }
                | Instruction::JumpLT { tgt, .. }
                | Instruction::JumpLE { tgt, .. }
                | Instruction::JumpGT { tgt, .. }
                | Instruction::JumpGE { tgt, .. }
                | Instruction::JumpIfEndOfLine { tgt }
                | Instruction::JumpIfMatchCharset { tgt, .. }
                | Instruction::JumpIfMatchPrefix { tgt, .. }
                | Instruction::JumpIfMatchPrefixInsensitive { tgt, .. } => tgt,
                _ => unreachable!(),
            };
            assert_eq!(tgt, expected, "{instr:?}");
        } else {
            assert!(matches!(
                instr,
                Instruction::Mov { .. }
                    | Instruction::Add { .. }
                    | Instruction::Sub { .. }
                    | Instruction::Return
                    | Instruction::FlushHighlight { .. }
                    | Instruction::AwaitInput
            ));
        }
    }
}

#[test]
fn register_mnemonics() {
    assert_eq!(Register::InputOffset.mnemonic(), "off");
    assert_eq!(Register::HighlightStart.mnemonic(), "hs");
    assert_eq!(Register::ProgramCounter.mnemonic(), "pc");
    assert_eq!(Register::X15.mnemonic(), "x15");
    assert_eq!(Register::from_usize(4), Register::X4);
}

#[test]
fn instruction_mnemonics_plain() {
    let config = MnemonicFormattingConfig::default();
    let cases = [
        (Instruction::Mov { dst: Register::X3, src: Register::InputOffset }, "mov    x3, off"),
        (Instruction::MovImm { dst: Register::ProgramCounter, imm: 42 }, "movi   pc, 42"),
        (Instruction::MovImm { dst: Register::X4, imm: 7 }, "movi   x4, 7"),
        (Instruction::AddImm { dst: Register::InputOffset, imm: 1 }, "addi   off, 1"),
        (Instruction::Call { tgt: 100 }, "call   100"),
        (Instruction::Return, "ret"),
        (Instruction::JumpGE { lhs: Register::X3, rhs: Register::X4, tgt: 5 }, "jge    x3, x4, 5"),
        (Instruction::JumpIfEndOfLine { tgt: 0 }, "jeol   0"),
        (Instruction::JumpIfMatchCharset { idx: 1, min: 2, max: 3, tgt: 4 }, "jc     1, 2, 3, 4"),
        (Instruction::JumpIfMatchPrefix { idx: 0, tgt: 9 }, "jp     0, 9"),
        (Instruction::JumpIfMatchPrefixInsensitive { idx: 2, tgt: 10 }, "jpi    2, 10"),
        (Instruction::FlushHighlight { kind: Register::X5 }, "flush  x5"),
        (Instruction::AwaitInput, "await"),
    ];
    for (instr, text) in cases {
        assert_eq!(instr.mnemonic(&config), text);
    }
}

#[test]
fn instruction_mnemonics_decorated() {
    let config = MnemonicFormattingConfig {
        instruction_prefix: "<i>",
        instruction_suffix: "</i>",
        register_prefix: "<r>",
        register_suffix: "</r>",
        address_prefix: "<a>",
        address_suffix: "</a>",
        numeric_prefix: "<n>",
        numeric_suffix: "</n>",
    };
    assert_eq!(
        Instruction::MovImm { dst: Register::ProgramCounter, imm: 3 }.mnemonic(&config),
        "<i>movi</i>   <r>pc</r>, <a>3</a>"
    );
    assert_eq!(
        Instruction::MovImm { dst: Register::X3, imm: 3 }.mnemonic(&config),
        "<i>movi</i>   <r>x3</r>, <n>3</n>"
    );
    assert_eq!(
        Instruction::JumpEQ { lhs: Register::X3, rhs: Register::X4, tgt: 12 }.mnemonic(&config),
        "<i>jeq</i>    <r>x3</r>, <r>x4</r>, <a>12</a>"
    );
}

/// Assembles a tiny highlighter: `let` at the cursor gets highlight value 1, any other byte 0.
fn keyword_program() -> Vec<u8> {
    let body = |l1: u32| {
        vec![
            Instruction::JumpIfMatchPrefix { idx: 0, tgt: l1 },
            Instruction::AddImm { dst: Register::InputOffset, imm: 1 },
            Instruction::MovImm { dst: Register::X3, imm: 0 },
            Instruction::FlushHighlight { kind: Register::X3 },
            Instruction::AwaitInput,
            Instruction::MovImm { dst: Register::ProgramCounter, imm: 0 },
            Instruction::MovImm { dst: Register::X3, imm: 1 },
            Instruction::FlushHighlight { kind: Register::X3 },
            Instruction::AwaitInput,
            Instruction::MovImm { dst: Register::ProgramCounter, imm: 0 },
        ]
    };
    let assemble = |instrs: &[Instruction]| {
        let mut bytes = Vec::new();
        let mut addrs = Vec::new();
        for i in instrs {
            addrs.push(bytes.len() as u32);
            i.encode(&mut bytes);
        }
        (bytes, addrs)
    };
    let (_, addrs) = assemble(&body(0));
    assemble(&body(addrs[6])).0
}

#[test]
fn runtime_highlights_keyword() {
    let code = keyword_program();
    let strings = ["let"];
    let mut rt = Runtime::new(&code, &strings, &[], 0);
    let mut res = Vec::new();
    assert!(rt.try_parse_next_line(b"let x", &mut res));
    assert_eq!(
        res,
        vec![
            Highlight { start: 0, kind: 1 },
            Highlight { start: 3, kind: 0 },
            Highlight { start: 5, kind: 0 },
        ]
    );

    // The spans partition every line, ending with one at its length.
    for line in [&b""[..], b"x", b"letlet", b"a let b"] {
        let mut res = Vec::new();
        rt.parse_next_line(line, &mut res);
        assert!(res.len() >= 2);
        assert_eq!(res.first().map(|h| h.start), Some(0));
        assert_eq!(res.last().map(|h| h.start), Some(line.len()));
        if !line.is_empty() {
            assert!(res.windows(2).all(|w| w[0].start < w[1].start));
        }
    }
}

#[test]
fn runtime_rejects_malformed_bytecode() {
    let code = [0xffu8, 0xff];
    let mut rt = Runtime::new(&code, &[], &[], 0);
    let mut res = Vec::new();
    assert!(!rt.try_parse_next_line(b"abc", &mut res));
}

#[test]
fn empty_line_gets_two_spans() {
    // `ret` on an empty stack ends the line at once; the bytecode is padded as generated.
    let mut code = Vec::new();
    Instruction::Return.encode(&mut code);
    code.extend([0xffu8; 17]);
    let mut rt = Runtime::new(&code, &[], &[], 0);
    let mut res = Vec::new();
    rt.parse_next_line(b"", &mut res);
    assert_eq!(res, vec![Highlight { start: 0, kind: 0 }, Highlight { start: 0, kind: 0 }]);
}

#[test]
fn runtime_snapshot_restore() {
    let code = keyword_program();
    let strings = ["let"];
    let mut rt = Runtime::new(&code, &strings, &[], 0);
    let state = rt.snapshot();
    let mut first = Vec::new();
    rt.parse_next_line(b"let let", &mut first);
    rt.restore(&state);
    let mut second = Vec::new();
    rt.parse_next_line(b"let let", &mut second);
    assert_eq!(first, second);
}
