//! LSH bytecode: registers, instructions and their encoding, and the interpreter.
//!
//! ## Instruction encoding
//!
//! Variable-length encoding, 1-17 bytes per instruction: one opcode byte, then
//! register nibbles and little-endian `u32` operands. See [`Instruction::encode`].

use vstd::prelude::*;
use vstd::bytes::spec_u32_to_le_bytes;
use vstd::bytes::spec_u32_from_le_bytes;
use vstd::bytes::lemma_auto_spec_u32_to_from_le_bytes;
use vstd::bytes::u32_to_le_bytes;
use vstd::bytes::u32_from_le_bytes;
use vstd::slice::slice_subrange;
use vstd::string::StringSliceAdditionalSpecFns;
use crate::compiler::charset::word16_has;
use crate::text::{ascii_lower, ascii_upper, to_ascii_lowercase, decimal, decimal_string, join, text};
use vstd::string::StringExecFns;

verus! {

/// The number of registers.
pub const REGISTER_COUNT: usize = 16;

/// The first register that is free for the compiler's use (`x3`).
pub const FIRST_USER_REG: usize = 3;

/// A register of the virtual machine.
#[derive(Debug, Clone, Copy, PartialEq, Eq, Structural, PartialOrd, Ord, Hash)]
pub enum Register {
    // These two registers are shared across function calls...
    InputOffset,
    HighlightStart,
    // ...and the rest is caller-saved.
    ProgramCounter,
    X3,
    X4,
    X5,
    X6,
    X7,
    X8,
    X9,
    X10,
    X11,
    X12,
    X13,
    X14,
    X15,
}

impl Register {
    /// The register's number, 0 to 15.
    pub open spec fn number(self) -> int {
        match self {
            Register::InputOffset => 0,
            Register::HighlightStart => 1,
            Register::ProgramCounter => 2,
            Register::X3 => 3,
            Register::X4 => 4,
            Register::X5 => 5,
            Register::X6 => 6,
            Register::X7 => 7,
            Register::X8 => 8,
            Register::X9 => 9,
            Register::X10 => 10,
            Register::X11 => 11,
            Register::X12 => 12,
            Register::X13 => 13,
            Register::X14 => 14,
            Register::X15 => 15,
        }
    }

    /// The register with number `n`, for `n < 16`.
    pub open spec fn with_number(n: int) -> Register {
        if n == 0 {
            Register::InputOffset
        } else if n == 1 {
            Register::HighlightStart
        } else if n == 2 {
            Register::ProgramCounter
        } else if n == 3 {
            Register::X3
        } else if n == 4 {
            Register::X4
        } else if n == 5 {
            Register::X5
        } else if n == 6 {
            Register::X6
        } else if n == 7 {
            Register::X7
        } else if n == 8 {
            Register::X8
        } else if n == 9 {
            Register::X9
        } else if n == 10 {
            Register::X10
        } else if n == 11 {
            Register::X11
        } else if n == 12 {
            Register::X12
        } else if n == 13 {
            Register::X13
        } else if n == 14 {
            Register::X14
        } else {
            Register::X15
        }
    }

    pub proof fn lemma_number(self)
        ensures
            0 <= self.number() < 16,
            Register::with_number(self.number()) == self,
    {
    }

    /// The register's number.
    pub fn index(self) -> (r: u8)
        ensures
            r == self.number(),
    {
        match self {
            Register::InputOffset => 0,
            Register::HighlightStart => 1,
            Register::ProgramCounter => 2,
            Register::X3 => 3,
            Register::X4 => 4,
            Register::X5 => 5,
            Register::X6 => 6,
            Register::X7 => 7,
            Register::X8 => 8,
            Register::X9 => 9,
            Register::X10 => 10,
            Register::X11 => 11,
            Register::X12 => 12,
            Register::X13 => 13,
            Register::X14 => 14,
            Register::X15 => 15,
        }
    }

    /// The register with number `value`.
    pub fn from_usize(value: usize) -> (r: Register)
        requires
            value < REGISTER_COUNT,
        ensures
            r.number() == value,
            r == Register::with_number(value as int),
    {
        if value == 0 {
            Register::InputOffset
        } else if value == 1 {
            Register::HighlightStart
        } else if value == 2 {
            Register::ProgramCounter
        } else if value == 3 {
            Register::X3
        } else if value == 4 {
            Register::X4
        } else if value == 5 {
            Register::X5
        } else if value == 6 {
            Register::X6
        } else if value == 7 {
            Register::X7
        } else if value == 8 {
            Register::X8
        } else if value == 9 {
            Register::X9
        } else if value == 10 {
            Register::X10
        } else if value == 11 {
            Register::X11
        } else if value == 12 {
            Register::X12
        } else if value == 13 {
            Register::X13
        } else if value == 14 {
            Register::X14
        } else {
            Register::X15
        }
    }

    /// The register's name in assembly listings.
    pub open spec fn mnemonic_spec(self) -> Seq<char> {
        match self {
            Register::InputOffset => seq!['o', 'f', 'f'],
            Register::HighlightStart => seq!['h', 's'],
            Register::ProgramCounter => seq!['p', 'c'],
            Register::X3 => seq!['x', '3'],
            Register::X4 => seq!['x', '4'],
            Register::X5 => seq!['x', '5'],
            Register::X6 => seq!['x', '6'],
            Register::X7 => seq!['x', '7'],
            Register::X8 => seq!['x', '8'],
            Register::X9 => seq!['x', '9'],
            Register::X10 => seq!['x', '1', '0'],
            Register::X11 => seq!['x', '1', '1'],
            Register::X12 => seq!['x', '1', '2'],
            Register::X13 => seq!['x', '1', '3'],
            Register::X14 => seq!['x', '1', '4'],
            Register::X15 => seq!['x', '1', '5'],
        }
    }

    /// The register's name in assembly listings.
    pub fn mnemonic(&self) -> (r: &'static str)
        ensures
            r@ == self.mnemonic_spec(),
    {
        let r = match self {
            Register::InputOffset => "off",
            Register::HighlightStart => "hs",
            Register::ProgramCounter => "pc",
            Register::X3 => "x3",
            Register::X4 => "x4",
            Register::X5 => "x5",
            Register::X6 => "x6",
            Register::X7 => "x7",
            Register::X8 => "x8",
            Register::X9 => "x9",
            Register::X10 => "x10",
            Register::X11 => "x11",
            Register::X12 => "x12",
            Register::X13 => "x13",
            Register::X14 => "x14",
            Register::X15 => "x15",
        };
        proof {
            reveal_strlit("off");
            reveal_strlit("hs");
            reveal_strlit("pc");
            reveal_strlit("x3");
            reveal_strlit("x4");
            reveal_strlit("x5");
            reveal_strlit("x6");
            reveal_strlit("x7");
            reveal_strlit("x8");
            reveal_strlit("x9");
            reveal_strlit("x10");
            reveal_strlit("x11");
            reveal_strlit("x12");
            reveal_strlit("x13");
            reveal_strlit("x14");
            reveal_strlit("x15");
        }
        r
    }
}

/// The sixteen registers of the virtual machine.
#[derive(Clone, Copy, PartialEq, Eq, Structural)]
pub struct Registers {
    pub off: u32,  // x0 = InputOffset
    pub hs: u32,  // x1 = HighlightStart
    pub pc: u32,  // x2 = ProgramCounter
    pub x3: u32,
    pub x4: u32,
    pub x5: u32,
    pub x6: u32,
    pub x7: u32,
    pub x8: u32,
    pub x9: u32,
    pub x10: u32,
    pub x11: u32,
    pub x12: u32,
    pub x13: u32,
    pub x14: u32,
    pub x15: u32,
}

impl Registers {
    /// The register values, indexed by register number.
    pub open spec fn view(&self) -> Seq<u32> {
        seq![
            self.off,
            self.hs,
            self.pc,
            self.x3,
            self.x4,
            self.x5,
            self.x6,
            self.x7,
            self.x8,
            self.x9,
            self.x10,
            self.x11,
            self.x12,
            self.x13,
            self.x14,
            self.x15,
        ]
    }

    /// The registers with the given values.
    pub open spec fn from_seq(v: Seq<u32>) -> Registers {
        Registers {
            off: v[0],
            hs: v[1],
            pc: v[2],
            x3: v[3],
            x4: v[4],
            x5: v[5],
            x6: v[6],
            x7: v[7],
            x8: v[8],
            x9: v[9],
            x10: v[10],
            x11: v[11],
            x12: v[12],
            x13: v[13],
            x14: v[14],
            x15: v[15],
        }
    }

    /// Registers built from 16 values hold those values.
    pub proof fn lemma_from_seq(v: Seq<u32>)
        requires
            v.len() == 16,
        ensures
            Registers::from_seq(v).view() == v,
    {
        assert(Registers::from_seq(v).view() =~= v);
    }

    /// Registers are determined by the 16 values they hold.
    pub proof fn lemma_view_from_seq(r: Registers)
        ensures
            Registers::from_seq(r.view()) == r,
            r.view().len() == 16,
    {
    }

    /// All registers zero, except the program counter, which holds `pc`.
    pub fn with_pc(pc: u32) -> (r: Registers)
        ensures
            r.view() == Seq::<u32>::new(16, |i: int| 0u32).update(2, pc),
    {
        let r = Registers {
            off: 0,
            hs: 0,
            pc,
            x3: 0,
            x4: 0,
            x5: 0,
            x6: 0,
            x7: 0,
            x8: 0,
            x9: 0,
            x10: 0,
            x11: 0,
            x12: 0,
            x13: 0,
            x14: 0,
            x15: 0,
        };
        assert(r.view() =~= Seq::<u32>::new(16, |i: int| 0u32).update(2, pc));
        r
    }

    /// The value of register `reg`.
    pub fn get(&self, reg: Register) -> (r: u32)
        ensures
            r == self.view()[reg.number()],
    {
        match reg {
            Register::InputOffset => self.off,
            Register::HighlightStart => self.hs,
            Register::ProgramCounter => self.pc,
            Register::X3 => self.x3,
            Register::X4 => self.x4,
            Register::X5 => self.x5,
            Register::X6 => self.x6,
            Register::X7 => self.x7,
            Register::X8 => self.x8,
            Register::X9 => self.x9,
            Register::X10 => self.x10,
            Register::X11 => self.x11,
            Register::X12 => self.x12,
            Register::X13 => self.x13,
            Register::X14 => self.x14,
            Register::X15 => self.x15,
        }
    }

    /// Sets register `reg` to `val`.
    pub fn set(&mut self, reg: Register, val: u32)
        ensures
            final(self).view() == old(self).view().update(reg.number(), val),
    {
        match reg {
            Register::InputOffset => self.off = val,
            Register::HighlightStart => self.hs = val,
            Register::ProgramCounter => self.pc = val,
            Register::X3 => self.x3 = val,
            Register::X4 => self.x4 = val,
            Register::X5 => self.x5 = val,
            Register::X6 => self.x6 = val,
            Register::X7 => self.x7 = val,
            Register::X8 => self.x8 = val,
            Register::X9 => self.x9 = val,
            Register::X10 => self.x10 = val,
            Register::X11 => self.x11 = val,
            Register::X12 => self.x12 = val,
            Register::X13 => self.x13 = val,
            Register::X14 => self.x14 = val,
            Register::X15 => self.x15 = val,
        }
        assert(self.view() =~= old(self).view().update(reg.number(), val));
    }

    /// Pushes the caller-saved registers `pc` to `x15` (14 values) onto `vec`.
    pub fn save_registers(&self, vec: &mut Vec<u32>)
        ensures
            final(vec)@ == old(vec)@ + self.view().subrange(2, 16),
    {
        let mut i: usize = 2;
        while i < 16
            invariant
                2 <= i <= 16,
                vec@ == old(vec)@ + self.view().subrange(2, i as int),
            decreases 16 - i,
        {
            let v = self.get(Register::from_usize(i));
            vec.push(v);
            assert(self.view().subrange(2, i + 1) =~= self.view().subrange(2, i as int).push(v));
            i += 1;
        }
    }

    /// Pops the last 14 values of `vec` into the registers `pc` to `x15`.
    /// Returns `false`, and changes nothing, when `vec` holds fewer than 14 values.
    pub fn load_registers(&mut self, vec: &mut Vec<u32>) -> (r: bool)
        ensures
            r == (old(vec)@.len() >= 14),
            r ==> final(self).view() == old(self).view().subrange(0, 2) + old(vec)@.subrange(
                old(vec)@.len() - 14,
                old(vec)@.len() as int,
            ),
            r ==> final(vec)@ == old(vec)@.subrange(0, old(vec)@.len() - 14),
            !r ==> *final(self) == *old(self) && final(vec)@ == old(vec)@,
    {
        let len = vec.len();
        if len < 14 {
            return false;
        }
        let base = len - 14;
        let mut i: usize = 2;
        while i < 16
            invariant
                2 <= i <= 16,
                base + 14 == len,
                len == vec@.len(),
                vec@ == old(vec)@,
                self.view() == old(self).view().subrange(0, 2) + vec@.subrange(base as int, base + i - 2)
                    + old(self).view().subrange(i as int, 16),
            decreases 16 - i,
        {
            let v = vec[base + (i - 2)];
            let ghost before = self.view();
            self.set(Register::from_usize(i), v);
            assert(self.view() =~= old(self).view().subrange(0, 2) + vec@.subrange(
                base as int,
                base + i + 1 - 2,
            ) + old(self).view().subrange(i + 1, 16));
            i += 1;
        }
        vec.truncate(base);
        assert(self.view() =~= old(self).view().subrange(0, 2) + old(vec)@.subrange(
            old(vec)@.len() - 14,
            old(vec)@.len() as int,
        ));
        true
    }
}

impl Default for Registers {
    fn default() -> (r: Registers)
        ensures
            r.view() == Seq::<u32>::new(16, |i: int| 0u32),
    {
        let r = Registers::with_pc(0);
        assert(r.view() =~= Seq::<u32>::new(16, |i: int| 0u32));
        r
    }
}

/// A bytecode instruction.
#[derive(Debug, Clone, Copy, PartialEq, Eq, Structural)]
pub enum Instruction {
    // NOTE: This allows for jumps by manipulating Register::ProgramCounter.
    Mov { dst: Register, src: Register },
    Add { dst: Register, src: Register },
    Sub { dst: Register, src: Register },
    MovImm { dst: Register, imm: u32 },
    AddImm { dst: Register, imm: u32 },
    SubImm { dst: Register, imm: u32 },
    Call { tgt: u32 },
    Return,
    JumpEQ { lhs: Register, rhs: Register, tgt: u32 },  // ==
    JumpNE { lhs: Register, rhs: Register, tgt: u32 },  // !=
    JumpLT { lhs: Register, rhs: Register, tgt: u32 },  // <
    JumpLE { lhs: Register, rhs: Register, tgt: u32 },  // <=
    JumpGT { lhs: Register, rhs: Register, tgt: u32 },  // >
    JumpGE { lhs: Register, rhs: Register, tgt: u32 },  // >=
    // Jumps to `tgt` if we're at the end of the line.
    JumpIfEndOfLine { tgt: u32 },
    // Jumps to `tgt` if the test succeeds.
    // `idx` specifies the charset/string to use.
    JumpIfMatchCharset { idx: u32, min: u32, max: u32, tgt: u32 },
    JumpIfMatchPrefix { idx: u32, tgt: u32 },
    JumpIfMatchPrefixInsensitive { idx: u32, tgt: u32 },
    // Flushes the current HighlightKind to the output.
    FlushHighlight { kind: Register },
    // Awaits more input to be available.
    AwaitInput,
}

/// The longest encoding: one opcode byte and four `u32` operands.
pub const MAX_ENCODED_SIZE: usize = 17;

/// The byte that encodes two registers: `lo` in the low nibble, `hi` in the high nibble.
pub open spec fn reg_pair_byte(lo: Register, hi: Register) -> u8 {
    (hi.number() * 16 + lo.number()) as u8
}

/// The register in the low nibble of `b`.
pub open spec fn reg_lo(b: u8) -> Register {
    Register::with_number(b as int % 16)
}

/// The register in the high nibble of `b`.
pub open spec fn reg_hi(b: u8) -> Register {
    Register::with_number(b as int / 16)
}

/// The encoded length of an instruction with opcode `op`; 1 for invalid opcodes.
pub open spec fn opcode_len(op: u8) -> int {
    if op <= 2 {
        2
    } else if op <= 5 {
        6
    } else if op == 6 {
        5
    } else if op == 7 {
        1
    } else if op <= 13 {
        6
    } else if op == 14 {
        5
    } else if op == 15 {
        17
    } else if op <= 17 {
        9
    } else if op == 18 {
        2
    } else {
        1
    }
}

/// The little-endian `u32` at `b[off..off + 4]`.
pub open spec fn u32_at(b: Seq<u8>, off: int) -> u32 {
    spec_u32_from_le_bytes(b.subrange(off, off + 4))
}

/// Decodes the instruction at the start of `b`: the instruction, or `None` for an
/// invalid opcode, and the number of bytes it takes.
pub open spec fn decode_spec(b: Seq<u8>) -> (Option<Instruction>, int) {
    let op = b[0];
    let len = opcode_len(op);
    let instr = if op == 0 {
        Some(Instruction::Mov { dst: reg_lo(b[1]), src: reg_hi(b[1]) })
    } else if op == 1 {
        Some(Instruction::Add { dst: reg_lo(b[1]), src: reg_hi(b[1]) })
    } else if op == 2 {
        Some(Instruction::Sub { dst: reg_lo(b[1]), src: reg_hi(b[1]) })
    } else if op == 3 {
        Some(Instruction::MovImm { dst: reg_lo(b[1]), imm: u32_at(b, 2) })
    } else if op == 4 {
        Some(Instruction::AddImm { dst: reg_lo(b[1]), imm: u32_at(b, 2) })
    } else if op == 5 {
        Some(Instruction::SubImm { dst: reg_lo(b[1]), imm: u32_at(b, 2) })
    } else if op == 6 {
        Some(Instruction::Call { tgt: u32_at(b, 1) })
    } else if op == 7 {
        Some(Instruction::Return)
    } else if op == 8 {
        Some(Instruction::JumpEQ { lhs: reg_lo(b[1]), rhs: reg_hi(b[1]), tgt: u32_at(b, 2) })
    } else if op == 9 {
        Some(Instruction::JumpNE { lhs: reg_lo(b[1]), rhs: reg_hi(b[1]), tgt: u32_at(b, 2) })
    } else if op == 10 {
        Some(Instruction::JumpLT { lhs: reg_lo(b[1]), rhs: reg_hi(b[1]), tgt: u32_at(b, 2) })
    } else if op == 11 {
        Some(Instruction::JumpLE { lhs: reg_lo(b[1]), rhs: reg_hi(b[1]), tgt: u32_at(b, 2) })
    } else if op == 12 {
        Some(Instruction::JumpGT { lhs: reg_lo(b[1]), rhs: reg_hi(b[1]), tgt: u32_at(b, 2) })
    } else if op == 13 {
        Some(Instruction::JumpGE { lhs: reg_lo(b[1]), rhs: reg_hi(b[1]), tgt: u32_at(b, 2) })
    } else if op == 14 {
        Some(Instruction::JumpIfEndOfLine { tgt: u32_at(b, 1) })
    } else if op == 15 {
        Some(
            Instruction::JumpIfMatchCharset {
                idx: u32_at(b, 1),
                min: u32_at(b, 5),
                max: u32_at(b, 9),
                tgt: u32_at(b, 13),
            },
        )
    } else if op == 16 {
        Some(Instruction::JumpIfMatchPrefix { idx: u32_at(b, 1), tgt: u32_at(b, 5) })
    } else if op == 17 {
        Some(Instruction::JumpIfMatchPrefixInsensitive { idx: u32_at(b, 1), tgt: u32_at(b, 5) })
    } else if op == 18 {
        Some(Instruction::FlushHighlight { kind: reg_lo(b[1]) })
    } else if op == 19 {
        Some(Instruction::AwaitInput)
    } else {
        None
    };
    (instr, len)
}

impl Instruction {
    /// The opcode byte.
    pub open spec fn opcode(self) -> u8 {
        match self {
            Instruction::Mov { .. } => 0,
            Instruction::Add { .. } => 1,
            Instruction::Sub { .. } => 2,
            Instruction::MovImm { .. } => 3,
            Instruction::AddImm { .. } => 4,
            Instruction::SubImm { .. } => 5,
            Instruction::Call { .. } => 6,
            Instruction::Return => 7,
            Instruction::JumpEQ { .. } => 8,
            Instruction::JumpNE { .. } => 9,
            Instruction::JumpLT { .. } => 10,
            Instruction::JumpLE { .. } => 11,
            Instruction::JumpGT { .. } => 12,
            Instruction::JumpGE { .. } => 13,
            Instruction::JumpIfEndOfLine { .. } => 14,
            Instruction::JumpIfMatchCharset { .. } => 15,
            Instruction::JumpIfMatchPrefix { .. } => 16,
            Instruction::JumpIfMatchPrefixInsensitive { .. } => 17,
            Instruction::FlushHighlight { .. } => 18,
            Instruction::AwaitInput => 19,
        }
    }

    /// The bytes that encode the instruction.
    pub open spec fn encoding(self) -> Seq<u8> {
        match self {
            Instruction::Mov { dst, src } => seq![0u8, reg_pair_byte(dst, src)],
            Instruction::Add { dst, src } => seq![1u8, reg_pair_byte(dst, src)],
            Instruction::Sub { dst, src } => seq![2u8, reg_pair_byte(dst, src)],
            Instruction::MovImm { dst, imm } => seq![3u8, dst.number() as u8]
                + spec_u32_to_le_bytes(imm),
            Instruction::AddImm { dst, imm } => seq![4u8, dst.number() as u8]
                + spec_u32_to_le_bytes(imm),
            Instruction::SubImm { dst, imm } => seq![5u8, dst.number() as u8]
                + spec_u32_to_le_bytes(imm),
            Instruction::Call { tgt } => seq![6u8] + spec_u32_to_le_bytes(tgt),
            Instruction::Return => seq![7u8],
            Instruction::JumpEQ { lhs, rhs, tgt } => seq![8u8, reg_pair_byte(lhs, rhs)]
                + spec_u32_to_le_bytes(tgt),
            Instruction::JumpNE { lhs, rhs, tgt } => seq![9u8, reg_pair_byte(lhs, rhs)]
                + spec_u32_to_le_bytes(tgt),
            Instruction::JumpLT { lhs, rhs, tgt } => seq![10u8, reg_pair_byte(lhs, rhs)]
                + spec_u32_to_le_bytes(tgt),
            Instruction::JumpLE { lhs, rhs, tgt } => seq![11u8, reg_pair_byte(lhs, rhs)]
                + spec_u32_to_le_bytes(tgt),
            Instruction::JumpGT { lhs, rhs, tgt } => seq![12u8, reg_pair_byte(lhs, rhs)]
                + spec_u32_to_le_bytes(tgt),
            Instruction::JumpGE { lhs, rhs, tgt } => seq![13u8, reg_pair_byte(lhs, rhs)]
                + spec_u32_to_le_bytes(tgt),
            Instruction::JumpIfEndOfLine { tgt } => seq![14u8] + spec_u32_to_le_bytes(tgt),
            Instruction::JumpIfMatchCharset { idx, min, max, tgt } => seq![15u8]
                + spec_u32_to_le_bytes(idx) + spec_u32_to_le_bytes(min) + spec_u32_to_le_bytes(max)
                + spec_u32_to_le_bytes(tgt),
            Instruction::JumpIfMatchPrefix { idx, tgt } => seq![16u8] + spec_u32_to_le_bytes(idx)
                + spec_u32_to_le_bytes(tgt),
            Instruction::JumpIfMatchPrefixInsensitive { idx, tgt } => seq![17u8]
                + spec_u32_to_le_bytes(idx) + spec_u32_to_le_bytes(tgt),
            Instruction::FlushHighlight { kind } => seq![18u8, kind.number() as u8],
            Instruction::AwaitInput => seq![19u8],
        }
    }

    /// Where in the encoding the jump target (or, for the immediate moves, the
    /// immediate) lives, for the instructions that have one.
    pub open spec fn address_offset_spec(self) -> Option<int> {
        match self {
            Instruction::MovImm { .. } | Instruction::AddImm { .. } | Instruction::SubImm {
                ..
            } => Some(2),
            Instruction::Call { .. } => Some(1),
            Instruction::JumpEQ { .. } | Instruction::JumpNE { .. } | Instruction::JumpLT {
                ..
            } | Instruction::JumpLE { .. } | Instruction::JumpGT { .. } | Instruction::JumpGE {
                ..
            } => Some(2),
            Instruction::JumpIfEndOfLine { .. } => Some(1),
            Instruction::JumpIfMatchCharset { .. } => Some(13),
            Instruction::JumpIfMatchPrefix { .. } | Instruction::JumpIfMatchPrefixInsensitive {
                ..
            } => Some(5),
            _ => None,
        }
    }

    /// The value stored at [`Self::address_offset_spec`].
    pub open spec fn address_value(self) -> u32 {
        match self {
            Instruction::MovImm { imm, .. } => imm,
            Instruction::AddImm { imm, .. } => imm,
            Instruction::SubImm { imm, .. } => imm,
            Instruction::Call { tgt } => tgt,
            Instruction::JumpEQ { tgt, .. } => tgt,
            Instruction::JumpNE { tgt, .. } => tgt,
            Instruction::JumpLT { tgt, .. } => tgt,
            Instruction::JumpLE { tgt, .. } => tgt,
            Instruction::JumpGT { tgt, .. } => tgt,
            Instruction::JumpGE { tgt, .. } => tgt,
            Instruction::JumpIfEndOfLine { tgt } => tgt,
            Instruction::JumpIfMatchCharset { tgt, .. } => tgt,
            Instruction::JumpIfMatchPrefix { tgt, .. } => tgt,
            Instruction::JumpIfMatchPrefixInsensitive { tgt, .. } => tgt,
            _ => 0,
        }
    }

    /// Where within the encoded instruction the jump target lives.
    pub fn address_offset(&self) -> (r: Option<usize>)
        ensures
            r matches Some(k) ==> self.address_offset_spec() == Some(k as int),
            r is None ==> self.address_offset_spec() is None,
    {
        match *self {
            Instruction::MovImm { .. } | Instruction::AddImm { .. } | Instruction::SubImm {
                ..
            } => Some(1 + 1),  // opcode + dst
            Instruction::Call { .. } => Some(1),  // opcode
            Instruction::JumpEQ { .. } | Instruction::JumpNE { .. } | Instruction::JumpLT {
                ..
            } | Instruction::JumpLE { .. } | Instruction::JumpGT { .. } | Instruction::JumpGE {
                ..
            } => Some(1 + 1),  // opcode + lhs/rhs pair
            Instruction::JumpIfEndOfLine { .. } => Some(1),  // opcode
            Instruction::JumpIfMatchCharset { .. } => Some(1 + 3 * 4),  // opcode + idx + min + max
            Instruction::JumpIfMatchPrefix { .. } | Instruction::JumpIfMatchPrefixInsensitive {
                ..
            } => Some(1 + 4),  // opcode + idx
            _ => None,
        }
    }
}

fn push_u32(bytes: &mut Vec<u8>, val: u32)
    ensures
        final(bytes)@ == old(bytes)@ + spec_u32_to_le_bytes(val),
{
    proof {
        lemma_auto_spec_u32_to_from_le_bytes();
    }
    let le = u32_to_le_bytes(val);
    let mut i: usize = 0;
    while i < 4
        invariant
            i <= 4,
            le@.len() == 4,
            le@ == spec_u32_to_le_bytes(val),
            bytes@ == old(bytes)@ + le@.subrange(0, i as int),
        decreases 4 - i,
    {
        bytes.push(le[i]);
        assert(le@.subrange(0, i + 1) =~= le@.subrange(0, i as int).push(le@[i as int]));
        i += 1;
    }
    assert(le@.subrange(0, 4) =~= le@);
}

fn pair_byte(lo: Register, hi: Register) -> (r: u8)
    ensures
        r == reg_pair_byte(lo, hi),
{
    hi.index() * 16 + lo.index()
}

fn dec_reg_single(bytes: &[u8], off: usize) -> (r: Register)
    requires
        off < bytes@.len(),
    ensures
        r == reg_lo(bytes@[off as int]),
{
    let b = bytes[off];
    assert(b & 15u8 == b % 16) by (bit_vector);
    Register::from_usize((b & 15u8) as usize)
}

fn dec_reg_pair(bytes: &[u8], off: usize) -> (r: (Register, Register))
    requires
        off < bytes@.len(),
    ensures
        r.0 == reg_lo(bytes@[off as int]),
        r.1 == reg_hi(bytes@[off as int]),
{
    let b = bytes[off];
    assert(b & 15u8 == b % 16) by (bit_vector);
    assert(b >> 4u8 == b / 16) by (bit_vector);
    let dst = Register::from_usize((b & 15u8) as usize);
    let src = Register::from_usize((b >> 4u8) as usize);
    (dst, src)
}

fn dec_u32(bytes: &[u8], off: usize) -> (r: u32)
    requires
        off + 4 <= bytes.len(),
    ensures
        r == u32_at(bytes@, off as int),
{
    let sub = slice_subrange(bytes, off, off + 4);
    u32_from_le_bytes(sub)
}

impl Instruction {
    /// Appends the encoding of the instruction to `bytes`.
    pub fn encode(&self, bytes: &mut Vec<u8>)
        ensures
            final(bytes)@ == old(bytes)@ + self.encoding(),
    {
        let ghost start = bytes@;
        match *self {
            Instruction::Mov { dst, src } => {
                bytes.push(0);
                bytes.push(pair_byte(dst, src));
            },
            Instruction::Add { dst, src } => {
                bytes.push(1);
                bytes.push(pair_byte(dst, src));
            },
            Instruction::Sub { dst, src } => {
                bytes.push(2);
                bytes.push(pair_byte(dst, src));
            },
            Instruction::MovImm { dst, imm } => {
                bytes.push(3);
                bytes.push(dst.index());
                push_u32(bytes, imm);
            },
            Instruction::AddImm { dst, imm } => {
                bytes.push(4);
                bytes.push(dst.index());
                push_u32(bytes, imm);
            },
            Instruction::SubImm { dst, imm } => {
                bytes.push(5);
                bytes.push(dst.index());
                push_u32(bytes, imm);
            },
            Instruction::Call { tgt } => {
                bytes.push(6);
                push_u32(bytes, tgt);
            },
            Instruction::Return => {
                bytes.push(7);
            },
            Instruction::JumpEQ { lhs, rhs, tgt } => {
                bytes.push(8);
                bytes.push(pair_byte(lhs, rhs));
                push_u32(bytes, tgt);
            },
            Instruction::JumpNE { lhs, rhs, tgt } => {
                bytes.push(9);
                bytes.push(pair_byte(lhs, rhs));
                push_u32(bytes, tgt);
            },
            Instruction::JumpLT { lhs, rhs, tgt } => {
                bytes.push(10);
                bytes.push(pair_byte(lhs, rhs));
                push_u32(bytes, tgt);
            },
            Instruction::JumpLE { lhs, rhs, tgt } => {
                bytes.push(11);
                bytes.push(pair_byte(lhs, rhs));
                push_u32(bytes, tgt);
            },
            Instruction::JumpGT { lhs, rhs, tgt } => {
                bytes.push(12);
                bytes.push(pair_byte(lhs, rhs));
                push_u32(bytes, tgt);
            },
            Instruction::JumpGE { lhs, rhs, tgt } => {
                bytes.push(13);
                bytes.push(pair_byte(lhs, rhs));
                push_u32(bytes, tgt);
            },
            Instruction::JumpIfEndOfLine { tgt } => {
                bytes.push(14);
                push_u32(bytes, tgt);
            },
            Instruction::JumpIfMatchCharset { idx, min, max, tgt } => {
                bytes.push(15);
                push_u32(bytes, idx);
                push_u32(bytes, min);
                push_u32(bytes, max);
                push_u32(bytes, tgt);
            },
            Instruction::JumpIfMatchPrefix { idx, tgt } => {
                bytes.push(16);
                push_u32(bytes, idx);
                push_u32(bytes, tgt);
            },
            Instruction::JumpIfMatchPrefixInsensitive { idx, tgt } => {
                bytes.push(17);
                push_u32(bytes, idx);
                push_u32(bytes, tgt);
            },
            Instruction::FlushHighlight { kind } => {
                bytes.push(18);
                bytes.push(kind.index());
            },
            Instruction::AwaitInput => {
                bytes.push(19);
            },
        }
        assert(bytes@ =~= start + self.encoding());
    }

    /// Decodes the instruction at the start of `bytes`: the instruction, or `None` for
    /// an invalid opcode, and the number of bytes it takes.
    pub fn decode(bytes: &[u8]) -> (r: (Option<Instruction>, usize))
        requires
            bytes@.len() >= 1,
            bytes@.len() >= opcode_len(bytes@[0]),
        ensures
            (r.0, r.1 as int) == decode_spec(bytes@),
    {
        let op = bytes[0];
        let instr = if op == 0 {
            let (dst, src) = dec_reg_pair(bytes, 1);
            Instruction::Mov { dst, src }
        } else if op == 1 {
            let (dst, src) = dec_reg_pair(bytes, 1);
            Instruction::Add { dst, src }
        } else if op == 2 {
            let (dst, src) = dec_reg_pair(bytes, 1);
            Instruction::Sub { dst, src }
        } else if op == 3 {
            Instruction::MovImm { dst: dec_reg_single(bytes, 1), imm: dec_u32(bytes, 2) }
        } else if op == 4 {
            Instruction::AddImm { dst: dec_reg_single(bytes, 1), imm: dec_u32(bytes, 2) }
        } else if op == 5 {
            Instruction::SubImm { dst: dec_reg_single(bytes, 1), imm: dec_u32(bytes, 2) }
        } else if op == 6 {
            Instruction::Call { tgt: dec_u32(bytes, 1) }
        } else if op == 7 {
            Instruction::Return
        } else if op <= 13 {
            let (lhs, rhs) = dec_reg_pair(bytes, 1);
            let tgt = dec_u32(bytes, 2);
            if op == 8 {
                Instruction::JumpEQ { lhs, rhs, tgt }
            } else if op == 9 {
                Instruction::JumpNE { lhs, rhs, tgt }
            } else if op == 10 {
                Instruction::JumpLT { lhs, rhs, tgt }
            } else if op == 11 {
                Instruction::JumpLE { lhs, rhs, tgt }
            } else if op == 12 {
                Instruction::JumpGT { lhs, rhs, tgt }
            } else {
                Instruction::JumpGE { lhs, rhs, tgt }
            }
        } else if op == 14 {
            Instruction::JumpIfEndOfLine { tgt: dec_u32(bytes, 1) }
        } else if op == 15 {
            Instruction::JumpIfMatchCharset {
                idx: dec_u32(bytes, 1),
                min: dec_u32(bytes, 5),
                max: dec_u32(bytes, 9),
                tgt: dec_u32(bytes, 13),
            }
        } else if op == 16 {
            Instruction::JumpIfMatchPrefix { idx: dec_u32(bytes, 1), tgt: dec_u32(bytes, 5) }
        } else if op == 17 {
            Instruction::JumpIfMatchPrefixInsensitive {
                idx: dec_u32(bytes, 1),
                tgt: dec_u32(bytes, 5),
            }
        } else if op == 18 {
            Instruction::FlushHighlight { kind: dec_reg_single(bytes, 1) }
        } else if op == 19 {
            Instruction::AwaitInput
        } else {
            return (None, 1);
        };
        (Some(instr), Self::encoded_len(op))
    }

    fn encoded_len(op: u8) -> (r: usize)
        ensures
            r == opcode_len(op),
    {
        if op <= 2 {
            2
        } else if op <= 5 {
            6
        } else if op == 6 {
            5
        } else if op == 7 {
            1
        } else if op <= 13 {
            6
        } else if op == 14 {
            5
        } else if op == 15 {
            17
        } else if op <= 17 {
            9
        } else if op == 18 {
            2
        } else {
            1
        }
    }
}

proof fn lemma_reg_nibbles(lo: Register, hi: Register)
    ensures
        reg_lo(reg_pair_byte(lo, hi)) == lo,
        reg_hi(reg_pair_byte(lo, hi)) == hi,
        reg_lo(lo.number() as u8) == lo,
{
    lo.lemma_number();
    hi.lemma_number();
    let b = hi.number() * 16 + lo.number();
    assert(0 <= b < 256);
    assert(b % 16 == lo.number()) by (nonlinear_arith)
        requires
            b == hi.number() * 16 + lo.number(),
            0 <= lo.number() < 16,
            0 <= hi.number(),
    ;
    assert(b / 16 == hi.number()) by (nonlinear_arith)
        requires
            b == hi.number() * 16 + lo.number(),
            0 <= lo.number() < 16,
            0 <= hi.number(),
    ;
}

proof fn lemma_u32_at(prefix: Seq<u8>, v: u32, rest: Seq<u8>)
    ensures
        u32_at(prefix + spec_u32_to_le_bytes(v) + rest, prefix.len() as int) == v,
        spec_u32_to_le_bytes(v).len() == 4,
{
    lemma_auto_spec_u32_to_from_le_bytes();
    let b = prefix + spec_u32_to_le_bytes(v) + rest;
    assert(b.subrange(prefix.len() as int, prefix.len() + 4int) =~= spec_u32_to_le_bytes(v));
}

/// Decoding the encoding of an instruction, followed by any bytes, gives back the
/// instruction and the length of its encoding, which is at most [`MAX_ENCODED_SIZE`].
#[verifier::spinoff_prover]
#[verifier::rlimit(40)]
pub proof fn lemma_decode_encode(i: Instruction, rest: Seq<u8>)
    ensures
        decode_spec(i.encoding() + rest) == (Some(i), i.encoding().len() as int),
        i.encoding().len() == opcode_len(i.opcode()),
        i.encoding().len() <= MAX_ENCODED_SIZE,
        i.encoding()[0] == i.opcode(),
{
    lemma_auto_spec_u32_to_from_le_bytes();
    let b = i.encoding() + rest;
    match i {
        Instruction::Mov { dst, src } => lemma_reg_nibbles(dst, src),
        Instruction::Add { dst, src } => lemma_reg_nibbles(dst, src),
        Instruction::Sub { dst, src } => lemma_reg_nibbles(dst, src),
        Instruction::MovImm { dst, imm } => {
            lemma_reg_nibbles(dst, dst);
            lemma_u32_at(seq![3u8, dst.number() as u8], imm, rest);
        },
        Instruction::AddImm { dst, imm } => {
            lemma_reg_nibbles(dst, dst);
            lemma_u32_at(seq![4u8, dst.number() as u8], imm, rest);
        },
        Instruction::SubImm { dst, imm } => {
            lemma_reg_nibbles(dst, dst);
            lemma_u32_at(seq![5u8, dst.number() as u8], imm, rest);
        },
        Instruction::Call { tgt } => lemma_u32_at(seq![6u8], tgt, rest),
        Instruction::Return => {},
        Instruction::JumpEQ { lhs, rhs, tgt } => {
            lemma_reg_nibbles(lhs, rhs);
            lemma_u32_at(seq![8u8, reg_pair_byte(lhs, rhs)], tgt, rest);
        },
        Instruction::JumpNE { lhs, rhs, tgt } => {
            lemma_reg_nibbles(lhs, rhs);
            lemma_u32_at(seq![9u8, reg_pair_byte(lhs, rhs)], tgt, rest);
        },
        Instruction::JumpLT { lhs, rhs, tgt } => {
            lemma_reg_nibbles(lhs, rhs);
            lemma_u32_at(seq![10u8, reg_pair_byte(lhs, rhs)], tgt, rest);
        },
        Instruction::JumpLE { lhs, rhs, tgt } => {
            lemma_reg_nibbles(lhs, rhs);
            lemma_u32_at(seq![11u8, reg_pair_byte(lhs, rhs)], tgt, rest);
        },
        Instruction::JumpGT { lhs, rhs, tgt } => {
            lemma_reg_nibbles(lhs, rhs);
            lemma_u32_at(seq![12u8, reg_pair_byte(lhs, rhs)], tgt, rest);
        },
        Instruction::JumpGE { lhs, rhs, tgt } => {
            lemma_reg_nibbles(lhs, rhs);
            lemma_u32_at(seq![13u8, reg_pair_byte(lhs, rhs)], tgt, rest);
        },
        Instruction::JumpIfEndOfLine { tgt } => lemma_u32_at(seq![14u8], tgt, rest),
        Instruction::JumpIfMatchCharset { idx, min, max, tgt } => {
            let e1 = spec_u32_to_le_bytes(idx);
            let e2 = spec_u32_to_le_bytes(min);
            let e3 = spec_u32_to_le_bytes(max);
            let e4 = spec_u32_to_le_bytes(tgt);
            lemma_u32_at(seq![15u8], idx, e2 + e3 + e4 + rest);
            lemma_u32_at(seq![15u8] + e1, min, e3 + e4 + rest);
            lemma_u32_at(seq![15u8] + e1 + e2, max, e4 + rest);
            lemma_u32_at(seq![15u8] + e1 + e2 + e3, tgt, rest);
            assert(b =~= seq![15u8] + e1 + (e2 + e3 + e4 + rest));
            assert(b =~= seq![15u8] + e1 + e2 + (e3 + e4 + rest));
            assert(b =~= seq![15u8] + e1 + e2 + e3 + (e4 + rest));
            assert(b =~= seq![15u8] + e1 + e2 + e3 + e4 + rest);
        },
        Instruction::JumpIfMatchPrefix { idx, tgt } => {
            let e1 = spec_u32_to_le_bytes(idx);
            let e2 = spec_u32_to_le_bytes(tgt);
            lemma_u32_at(seq![16u8], idx, e2 + rest);
            lemma_u32_at(seq![16u8] + e1, tgt, rest);
            assert(b =~= seq![16u8] + e1 + (e2 + rest));
        },
        Instruction::JumpIfMatchPrefixInsensitive { idx, tgt } => {
            let e1 = spec_u32_to_le_bytes(idx);
            let e2 = spec_u32_to_le_bytes(tgt);
            lemma_u32_at(seq![17u8], idx, e2 + rest);
            lemma_u32_at(seq![17u8] + e1, tgt, rest);
            assert(b =~= seq![17u8] + e1 + (e2 + rest));
        },
        Instruction::FlushHighlight { kind } => lemma_reg_nibbles(kind, kind),
        Instruction::AwaitInput => {},
    }
}

/// The four bytes at an instruction's address offset hold its jump target
/// (or, for the immediate moves, its immediate).
pub proof fn lemma_address_offset(i: Instruction)
    ensures
        i.address_offset_spec() matches Some(k) ==> u32_at(i.encoding(), k) == i.address_value(),
{
    let e = Seq::<u8>::empty();
    assert(i.encoding() + e =~= i.encoding());
    lemma_decode_encode(i, e);
    match i {
        Instruction::JumpIfMatchCharset { idx, min, max, tgt } => {
            let e1 = spec_u32_to_le_bytes(idx);
            let e2 = spec_u32_to_le_bytes(min);
            let e3 = spec_u32_to_le_bytes(max);
            lemma_u32_at(seq![15u8] + e1 + e2 + e3, tgt, e);
        },
        _ => {},
    }
}

/// A highlight span indicating that text from `start` to the next span has the given `kind`.
///
/// Spans are half-open: `[start, next.start)`. The final span in a line extends to EOL.
#[derive(Debug, Clone, Copy, PartialEq, Eq)]
pub struct Highlight<T> {
    /// Byte offset where this highlight begins.
    pub start: usize,
    /// The token/highlight type (e.g., keyword, string, comment).
    pub kind: T,
}

/// A compiled language definition with its bytecode entrypoint.
pub struct Language {
    /// Unique identifier (e.g., "rust", "markdown").
    pub id: &'static str,
    /// Human-readable display name.
    pub name: &'static str,
    /// Bytecode address where execution begins for this language.
    pub entrypoint: u32,
}

/// What the interpreter runs: bytecode, prefix strings, charsets, and the entrypoint.
pub struct VmContext {
    pub code: Seq<u8>,
    pub strings: Seq<Seq<u8>>,
    pub charsets: Seq<[u16; 16]>,
    pub entry: u32,
}

/// The interpreter's state within a line.
pub struct VmState {
    /// Register values by number.
    pub regs: Seq<u32>,
    /// The call stack of saved registers.
    pub stack: Seq<u32>,
    /// The pending span, not yet emitted.
    pub last: Highlight<u32>,
    /// The spans emitted so far.
    pub out: Seq<Highlight<u32>>,
}

/// The outcome of one instruction.
pub enum VmStep {
    /// Execution goes on in this state.
    Next(VmState),
    /// The line is done; this is the final state.
    Done(VmState),
    /// The bytecode is malformed at this point.
    Fault,
}

/// Whether `byte` is in the transposed 16x16 bitmap (see `Charset::serialize`).
pub open spec fn in_set_spec(bitmap: [u16; 16], byte: u8) -> bool {
    word16_has(bitmap[byte as int % 16], (byte / 16) as u16)
}

/// How many bytes of `line`, from `off + i` on and at most `max` in total, are in the bitmap.
pub open spec fn gobble_count(line: Seq<u8>, off: int, cs: [u16; 16], max: int, i: int) -> int
    decreases max - i,
{
    if i < max && off + i < line.len() && in_set_spec(cs, line[off + i]) {
        gobble_count(line, off, cs, max, i + 1)
    } else {
        i
    }
}

/// The offset after matching at least `min` and at most `max` bytes of the
/// bitmap at `off`, or `None` when fewer than `min` match.
pub open spec fn gobble_spec(line: Seq<u8>, off: int, cs: [u16; 16], min: int, max: int) -> Option<
    int,
> {
    let n = gobble_count(line, off, cs, max, 0);
    if n >= min {
        Some(off + n)
    } else {
        None
    }
}

/// Whether `line[off..]` starts with `needle`; never at or past the end of the line.
pub open spec fn prefix_at(line: Seq<u8>, off: int, needle: Seq<u8>) -> bool {
    off < line.len() && line.len() - off >= needle.len() && line.subrange(off, off + needle.len())
        == needle
}

/// Like [`prefix_at`], with the line's bytes lowercased first.
pub open spec fn prefix_at_insensitive(line: Seq<u8>, off: int, needle: Seq<u8>) -> bool {
    off < line.len() && line.len() - off >= needle.len() && forall|k: int|
        0 <= k < needle.len() ==> ascii_lower(#[trigger] line[off + k]) == needle[k]
}

/// Lowercasing a byte after uppercasing it is lowercasing it.
proof fn lemma_lower_of_upper(c: u8)
    ensures
        ascii_lower(ascii_upper(c)) == ascii_lower(c),
{
}

/// A case-insensitive prefix test is the exact test against the line with its ASCII
/// letters lowercased. So it does not see the case of the line: uppercasing the line's
/// letters changes nothing, and a lowercase needle such as `let` is found in `LET`.
pub proof fn lemma_insensitive_prefix_folds_case(line: Seq<u8>, off: int, needle: Seq<u8>)
    requires
        0 <= off,
    ensures
        prefix_at_insensitive(line, off, needle) == prefix_at(line.map_values(|c: u8| ascii_lower(c)), off, needle),
        prefix_at_insensitive(line, off, needle) == prefix_at_insensitive(
            line.map_values(|c: u8| ascii_upper(c)),
            off,
            needle,
        ),
{
    let low = line.map_values(|c: u8| ascii_lower(c));
    let up = line.map_values(|c: u8| ascii_upper(c));
    if off < line.len() && line.len() - off >= needle.len() && 0 <= off {
        if prefix_at_insensitive(line, off, needle) {
            assert forall|k: int| 0 <= k < needle.len() implies #[trigger] low.subrange(off, off + needle.len())[k]
                == needle[k] by {
                assert(low[off + k] == ascii_lower(line[off + k]));
            }
            assert(low.subrange(off, off + needle.len()) =~= needle);
        }
        if prefix_at(low, off, needle) {
            assert forall|k: int| 0 <= k < needle.len() implies ascii_lower(#[trigger] line[off + k]) == needle[k] by {
                assert(low.subrange(off, off + needle.len())[k] == needle[k]);
                assert(low[off + k] == ascii_lower(line[off + k]));
            }
        }
        assert forall|k: int| 0 <= k < needle.len() implies ascii_lower(#[trigger] up[off + k]) == ascii_lower(
            line[off + k],
        ) by {
            lemma_lower_of_upper(line[off + k]);
        }
        if prefix_at_insensitive(up, off, needle) {
            assert forall|k: int| 0 <= k < needle.len() implies ascii_lower(#[trigger] line[off + k]) == needle[k] by {
                assert(ascii_lower(up[off + k]) == ascii_lower(line[off + k]));
            }
        }
    }
}

/// The bytecode's case-insensitive prefix jump behaves as the exact prefix jump on the
/// line with its ASCII letters lowercased, and the same on a line whose letters were
/// uppercased: `JumpIfMatchPrefixInsensitive` with the string `let` jumps on `LET x`.
pub proof fn lemma_insensitive_jump_folds_case(
    c: VmContext,
    line: Seq<u8>,
    s: VmState,
    regs: Seq<u32>,
    idx: u32,
    tgt: u32,
)
    requires
        regs.len() == 16,
    ensures
        vm_exec(c, line, s, Instruction::JumpIfMatchPrefixInsensitive { idx, tgt }, regs) == vm_exec(
            c,
            line.map_values(|b: u8| ascii_lower(b)),
            s,
            Instruction::JumpIfMatchPrefix { idx, tgt },
            regs,
        ),
        vm_exec(c, line, s, Instruction::JumpIfMatchPrefixInsensitive { idx, tgt }, regs) == vm_exec(
            c,
            line.map_values(|b: u8| ascii_upper(b)),
            s,
            Instruction::JumpIfMatchPrefixInsensitive { idx, tgt },
            regs,
        ),
{
    if idx < c.strings.len() {
        lemma_insensitive_prefix_folds_case(line, regs[0] as int, c.strings[idx as int]);
    }
}

/// All registers zero, except the program counter, which holds `pc`.
pub open spec fn reset_regs(pc: u32) -> Seq<u32> {
    Seq::<u32>::new(16, |i: int| 0u32).update(2, pc)
}

/// The value `jump ? tgt : pc` of the program counter after a conditional jump.
pub open spec fn jump_if(regs: Seq<u32>, cond: bool, tgt: u32) -> Seq<u32> {
    if cond {
        regs.update(2, tgt)
    } else {
        regs
    }
}

/// Executes the instruction `instr`, whose encoding has already been skipped by the
/// program counter in `regs`.
pub open spec fn vm_exec(c: VmContext, line: Seq<u8>, s: VmState, instr: Instruction, regs: Seq<
    u32,
>) -> VmStep {
    let off = regs[0];
    match instr {
        Instruction::Mov { dst, src } => VmStep::Next(
            VmState { regs: regs.update(dst.number(), regs[src.number()]), ..s },
        ),
        Instruction::Add { dst, src } => VmStep::Next(
            VmState {
                regs: regs.update(
                    dst.number(),
                    regs[dst.number()].saturating_add(regs[src.number()]),
                ),
                ..s
            },
        ),
        Instruction::Sub { dst, src } => VmStep::Next(
            VmState {
                regs: regs.update(
                    dst.number(),
                    regs[dst.number()].saturating_sub(regs[src.number()]),
                ),
                ..s
            },
        ),
        Instruction::MovImm { dst, imm } => VmStep::Next(
            VmState { regs: regs.update(dst.number(), imm), ..s },
        ),
        Instruction::AddImm { dst, imm } => VmStep::Next(
            VmState { regs: regs.update(dst.number(), regs[dst.number()].saturating_add(imm)), ..s },
        ),
        Instruction::SubImm { dst, imm } => VmStep::Next(
            VmState { regs: regs.update(dst.number(), regs[dst.number()].saturating_sub(imm)), ..s },
        ),
        Instruction::Call { tgt } => VmStep::Next(
            VmState { regs: regs.update(2, tgt), stack: s.stack + regs.subrange(2, 16), ..s },
        ),
        Instruction::Return => if s.stack.len() < 14 {
            VmStep::Done(VmState { regs: reset_regs(c.entry), ..s })
        } else {
            VmStep::Next(
                VmState {
                    regs: regs.subrange(0, 2) + s.stack.subrange(
                        s.stack.len() - 14,
                        s.stack.len() as int,
                    ),
                    stack: s.stack.subrange(0, s.stack.len() - 14),
                    ..s
                },
            )
        },
        Instruction::JumpEQ { lhs, rhs, tgt } => VmStep::Next(
            VmState { regs: jump_if(regs, regs[lhs.number()] == regs[rhs.number()], tgt), ..s },
        ),
        Instruction::JumpNE { lhs, rhs, tgt } => VmStep::Next(
            VmState { regs: jump_if(regs, regs[lhs.number()] != regs[rhs.number()], tgt), ..s },
        ),
        Instruction::JumpLT { lhs, rhs, tgt } => VmStep::Next(
            VmState { regs: jump_if(regs, regs[lhs.number()] < regs[rhs.number()], tgt), ..s },
        ),
        Instruction::JumpLE { lhs, rhs, tgt } => VmStep::Next(
            VmState { regs: jump_if(regs, regs[lhs.number()] <= regs[rhs.number()], tgt), ..s },
        ),
        Instruction::JumpGT { lhs, rhs, tgt } => VmStep::Next(
            VmState { regs: jump_if(regs, regs[lhs.number()] > regs[rhs.number()], tgt), ..s },
        ),
        Instruction::JumpGE { lhs, rhs, tgt } => VmStep::Next(
            VmState { regs: jump_if(regs, regs[lhs.number()] >= regs[rhs.number()], tgt), ..s },
        ),
        Instruction::JumpIfEndOfLine { tgt } => VmStep::Next(
            VmState { regs: jump_if(regs, off >= line.len(), tgt), ..s },
        ),
        Instruction::JumpIfMatchCharset { idx, min, max, tgt } => if idx >= c.charsets.len() {
            VmStep::Fault
        } else {
            match gobble_spec(line, off as int, c.charsets[idx as int], min as int, max as int) {
                Some(o) => VmStep::Next(VmState { regs: regs.update(0, o as u32).update(2, tgt), ..s }),
                None => VmStep::Next(VmState { regs, ..s }),
            }
        },
        Instruction::JumpIfMatchPrefix { idx, tgt } => if idx >= c.strings.len() {
            VmStep::Fault
        } else {
            let str = c.strings[idx as int];
            if prefix_at(line, off as int, str) {
                VmStep::Next(
                    VmState { regs: regs.update(0, (off + str.len()) as u32).update(2, tgt), ..s },
                )
            } else {
                VmStep::Next(VmState { regs, ..s })
            }
        },
        Instruction::JumpIfMatchPrefixInsensitive { idx, tgt } => if idx >= c.strings.len() {
            VmStep::Fault
        } else {
            let str = c.strings[idx as int];
            if prefix_at_insensitive(line, off as int, str) {
                VmStep::Next(
                    VmState { regs: regs.update(0, (off + str.len()) as u32).update(2, tgt), ..s },
                )
            } else {
                VmStep::Next(VmState { regs, ..s })
            }
        },
        Instruction::FlushHighlight { kind } => {
            let k = regs[kind.number()];
            let start = if regs[1] < line.len() {
                regs[1] as int
            } else {
                line.len() as int
            };
            let regs2 = regs.update(1, off);
            if s.last.start == start || s.last.kind == k {
                VmStep::Next(
                    VmState { regs: regs2, last: Highlight { start: s.last.start, kind: k }, ..s },
                )
            } else {
                VmStep::Next(
                    VmState {
                        regs: regs2,
                        last: Highlight { start: start as usize, kind: k },
                        out: s.out.push(s.last),
                        ..s
                    },
                )
            }
        },
        Instruction::AwaitInput => if off >= line.len() {
            VmStep::Done(VmState { regs, ..s })
        } else {
            VmStep::Next(VmState { regs, ..s })
        },
    }
}

/// Decodes and executes the instruction at the program counter.
pub open spec fn vm_step(c: VmContext, line: Seq<u8>, s: VmState) -> VmStep {
    let pc = s.regs[2] as int;
    if pc >= c.code.len() {
        VmStep::Fault
    } else {
        let op = c.code[pc];
        let len = opcode_len(op);
        if op > 19 || pc + len > c.code.len() || pc + len > u32::MAX {
            VmStep::Fault
        } else {
            let instr = decode_spec(c.code.subrange(pc, c.code.len() as int)).0.unwrap();
            vm_exec(c, line, s, instr, s.regs.update(2, (pc + len) as u32))
        }
    }
}

/// Runs at most `fuel` instructions: the final state, or `None` on a fault. When the
/// fuel runs out, the line ends in the state reached.
pub open spec fn vm_run(c: VmContext, line: Seq<u8>, s: VmState, fuel: nat) -> Option<VmState>
    decreases fuel,
{
    if fuel == 0 {
        Some(s)
    } else {
        match vm_step(c, line, s) {
            VmStep::Fault => None,
            VmStep::Done(t) => Some(t),
            VmStep::Next(t) => vm_run(c, line, t, (fuel - 1) as nat),
        }
    }
}

/// The spans of a finished line: those emitted, the pending one, and a sentinel span
/// at `line.len()` unless the pending one already starts there on a non-empty line (an
/// empty line always gets its sentinel, so that it has a span at 0 and one at its end).
pub open spec fn line_spans(line_len: int, s: VmState) -> Seq<Highlight<u32>> {
    if s.last.start < line_len || line_len == 0 {
        s.out.push(s.last).push(Highlight { start: line_len as usize, kind: 0u32 })
    } else {
        s.out.push(s.last)
    }
}

/// Whether the executed outcome `r`, with final state `t`, is the outcome `step`.
pub open spec fn step_matches(step: VmStep, r: StepKind, t: VmState) -> bool {
    match step {
        VmStep::Fault => r == StepKind::Fault,
        VmStep::Next(u) => r == StepKind::Next && t == u,
        VmStep::Done(u) => r == StepKind::Done && t == u,
    }
}

/// The outcome of executing one instruction.
#[derive(Debug, Clone, Copy, PartialEq, Eq, Structural)]
pub enum StepKind {
    Next,
    Done,
    Fault,
}

/// The number of instructions after which a line ends even if the bytecode has not
/// returned or awaited input by then.
pub const VM_FUEL: u64 = 0xffff_ffff_ffff_ffff;

/// The bytecode interpreter for syntax highlighting.
#[derive(Clone)]
pub struct Runtime<'pa, 'ps, 'pc> {
    assembly: &'pa [u8],
    strings: &'ps [&'ps str],
    charsets: &'pc [[u16; 16]],
    entrypoint: u32,
    stack: Vec<u32>,
    registers: Registers,
}

/// Snapshot of the runtime state for incremental re-highlighting.
#[derive(Clone)]
pub struct RuntimeState {
    stack: Vec<u32>,
    registers: Registers,
}

impl RuntimeState {
    /// The saved call stack.
    pub closed spec fn stack(&self) -> Seq<u32> {
        self.stack@
    }

    /// The saved registers.
    pub closed spec fn regs(&self) -> Seq<u32> {
        self.registers.view()
    }
}

/// The interpreter context for the given bytecode, strings, charsets and entrypoint.
pub open spec fn context_of(assembly: &[u8], strings: &[&str], charsets: &[[u16; 16]], entrypoint: u32) -> VmContext {
    VmContext {
        code: assembly@,
        strings: Seq::new(strings@.len(), |i: int| strings@[i].spec_bytes()),
        charsets: charsets@,
        entry: entrypoint,
    }
}

/// The state in which a line starts: `off` and `hs` cleared, no span emitted yet
/// besides `out`, and a pending span at offset 0 with highlight value 0.
pub open spec fn line_start(regs: Seq<u32>, stack: Seq<u32>, out: Seq<Highlight<u32>>) -> VmState {
    VmState {
        regs: regs.update(0, 0u32).update(1, 0u32),
        stack,
        last: Highlight { start: 0, kind: 0u32 },
        out,
    }
}

fn in_set(bitmap: &[u16; 16], byte: u8) -> (r: bool)
    ensures
        r == in_set_spec(*bitmap, byte),
{
    let lo_nibble = byte & 15u8;
    let hi_nibble = byte >> 4u8;
    assert(byte & 15u8 == byte % 16) by (bit_vector);
    assert(byte >> 4u8 == byte / 16) by (bit_vector);
    let bitset = bitmap[lo_nibble as usize];
    let hi = hi_nibble as u16;
    let bitmask = 1u16 << hi;
    assert((bitset & (1u16 << hi) != 0u16) == ((bitset >> hi) & 1u16 == 1u16)) by (bit_vector)
        requires
            hi < 16,
    ;
    (bitset & bitmask) != 0
}

// Matches at least `min` and at most `max` bytes of the charset at `off`.
fn charset_gobble(haystack: &[u8], off: usize, cs: &[u16; 16], min: usize, max: usize) -> (r:
    Option<usize>)
    ensures
        match r {
            Some(o) => gobble_spec(haystack@, off as int, *cs, min as int, max as int) == Some(
                o as int,
            ),
            None => gobble_spec(haystack@, off as int, *cs, min as int, max as int) is None,
        },
{
    let mut i: usize = 0;
    while i < max
        invariant
            i <= max,
            i == 0 || off + i <= haystack.len(),
            gobble_count(haystack@, off as int, *cs, max as int, 0) == gobble_count(
                haystack@,
                off as int,
                *cs,
                max as int,
                i as int,
            ),
        ensures
            gobble_count(haystack@, off as int, *cs, max as int, 0) == i,
            i == 0 || off + i <= haystack.len(),
        decreases max - i,
    {
        if off >= haystack.len() || i >= haystack.len() - off || !in_set(cs, haystack[off + i]) {
            assert(gobble_count(haystack@, off as int, *cs, max as int, i as int) == i);
            break;
        }
        i += 1;
    }
    if i >= min {
        Some(off + i)
    } else {
        None
    }
}

/// A mini prefix comparison for short needles.
/// Compares the `haystack` at `off` with the `needle`.
fn inlined_memeq(haystack: &[u8], off: usize, needle: &[u8]) -> (r: bool)
    ensures
        r == prefix_at(haystack@, off as int, needle@),
{
    if off >= haystack.len() || haystack.len() - off < needle.len() {
        return false;
    }
    let mut i: usize = 0;
    while i < needle.len()
        invariant
            i <= needle@.len(),
            off + needle@.len() <= haystack.len(),
            forall|k: int| 0 <= k < i ==> haystack@[off + k] == needle@[k],
        decreases needle@.len() - i,
    {
        if haystack[off + i] != needle[i] {
            assert(haystack@.subrange(off as int, off + needle@.len())[i as int] != needle@[i as int]);
            return false;
        }
        i += 1;
    }
    assert(haystack@.subrange(off as int, off + needle@.len()) =~= needle@);
    true
}

/// Like `inlined_memeq`, but with the haystack's bytes lowercased.
fn inlined_memieq(haystack: &[u8], off: usize, needle: &[u8]) -> (r: bool)
    ensures
        r == prefix_at_insensitive(haystack@, off as int, needle@),
{
    if off >= haystack.len() || haystack.len() - off < needle.len() {
        return false;
    }
    let mut i: usize = 0;
    while i < needle.len()
        invariant
            i <= needle@.len(),
            off + needle@.len() <= haystack.len(),
            forall|k: int| 0 <= k < i ==> ascii_lower(#[trigger] haystack@[off + k]) == needle@[k],
        decreases needle@.len() - i,
    {
        // str in PrefixInsensitive(str) is expected to be lowercase, printable ASCII.
        if to_ascii_lowercase(haystack[off + i]) != needle[i] {
            return false;
        }
        i += 1;
    }
    true
}

impl<'pa, 'ps, 'pc> Runtime<'pa, 'ps, 'pc> {
    /// The bytecode, strings, charsets and entrypoint being run.
    pub closed spec fn context(&self) -> VmContext {
        context_of(self.assembly, self.strings, self.charsets, self.entrypoint)
    }

    /// The registers.
    pub closed spec fn regs(&self) -> Seq<u32> {
        self.registers.view()
    }

    /// The call stack of saved registers.
    pub closed spec fn stack(&self) -> Seq<u32> {
        self.stack@
    }

    /// A runtime at the entrypoint, with an empty call stack.
    pub fn new(
        assembly: &'pa [u8],
        strings: &'ps [&'ps str],
        charsets: &'pc [[u16; 16]],
        entrypoint: u32,
    ) -> (r: Self)
        ensures
            r.context() == context_of(assembly, strings, charsets, entrypoint),
            r.regs() == reset_regs(entrypoint),
            r.stack() == Seq::<u32>::empty(),
    {
        Runtime {
            assembly,
            strings,
            charsets,
            entrypoint,
            stack: Vec::new(),
            registers: Registers::with_pc(entrypoint),
        }
    }

    /// A copy of the registers and the call stack.
    pub fn snapshot(&self) -> (r: RuntimeState)
        ensures
            r.stack() == self.stack(),
            r.regs() == self.regs(),
    {
        RuntimeState { stack: self.stack.clone(), registers: self.registers }
    }

    /// Sets the registers and the call stack to those of `state`.
    pub fn restore(&mut self, state: &RuntimeState)
        ensures
            final(self).stack() == state.stack(),
            final(self).regs() == state.regs(),
            final(self).context() == old(self).context(),
    {
        self.stack = state.stack.clone();
        self.registers = state.registers;
    }

    /// Re-highlighting from a snapshot: a runtime that was restored to a snapshot of
    /// `taken` runs any line exactly as `taken` would have, with the same spans and the
    /// same state afterwards.
    pub proof fn lemma_snapshot_replays(
        taken: &Self,
        snapshot: RuntimeState,
        restored: &Self,
        line: Seq<u8>,
        out: Seq<Highlight<u32>>,
    )
        requires
            snapshot.regs() == taken.regs(),
            snapshot.stack() == taken.stack(),
            restored.context() == taken.context(),
            restored.regs() == snapshot.regs(),
            restored.stack() == snapshot.stack(),
        ensures
            vm_run(restored.context(), line, line_start(restored.regs(), restored.stack(), out), VM_FUEL as nat)
                == vm_run(taken.context(), line, line_start(taken.regs(), taken.stack(), out), VM_FUEL as nat),
    {
    }

    /// The state of the interpreter within a line.
    pub closed spec fn vm_state(&self, last: Highlight<u32>, out: Seq<Highlight<u32>>) -> VmState {
        VmState { regs: self.registers.view(), stack: self.stack@, last, out }
    }

    proof fn lemma_strings(&self, idx: int)
        requires
            0 <= idx < self.strings@.len(),
        ensures
            self.context().strings[idx] == self.strings@[idx].spec_bytes(),
            self.context().strings.len() == self.strings@.len(),
    {
    }

    /// Executes the instruction at the program counter.
    fn exec_step(&mut self, line: &[u8], last: &mut Highlight<u32>, res: &mut Vec<Highlight<u32>>) -> (r: StepKind)
        ensures
            final(self).context() == old(self).context(),
            step_matches(
                vm_step(old(self).context(), line@, old(self).vm_state(*old(last), old(res)@)),
                r,
                final(self).vm_state(*final(last), final(res)@),
            ),
    {
        let ghost s = self.vm_state(*last, res@);
        let assembly = self.assembly;
        let pc = self.registers.pc as usize;
        if pc >= assembly.len() {
            return StepKind::Fault;
        }
        let op = assembly[pc];
        if op > 19 {
            return StepKind::Fault;
        }
        let len = Instruction::encoded_len(op);
        if len > assembly.len() - pc || len as u64 > 0xffff_ffffu64 - pc as u64 {
            return StepKind::Fault;
        }
        let code = slice_subrange(assembly, pc, assembly.len());
        let (decoded, _) = Instruction::decode(code);
        let instr = match decoded {
            Some(i) => i,
            None => {
                return StepKind::Fault;
            },
        };
        self.registers.pc = (pc + len) as u32;
        assert(self.registers.view() =~= s.regs.update(2, (pc + len) as u32));
        self.exec_instr(line, last, res, instr)
    }

    /// Executes `instr`, whose encoding the program counter has already skipped.
    fn exec_instr(
        &mut self,
        line: &[u8],
        last: &mut Highlight<u32>,
        res: &mut Vec<Highlight<u32>>,
        instr: Instruction,
    ) -> (r: StepKind)
        ensures
            final(self).context() == old(self).context(),
            step_matches(
                vm_exec(
                    old(self).context(),
                    line@,
                    old(self).vm_state(*old(last), old(res)@),
                    instr,
                    old(self).regs(),
                ),
                r,
                final(self).vm_state(*final(last), final(res)@),
            ),
    {
        match instr {
            Instruction::Mov { .. } | Instruction::Add { .. } | Instruction::Sub { .. }
            | Instruction::MovImm { .. } | Instruction::AddImm { .. } | Instruction::SubImm {
                ..
            } => {
                self.exec_arith(instr);
                StepKind::Next
            },
            Instruction::Call { .. } | Instruction::Return => self.exec_call(instr),
            Instruction::JumpEQ { .. } | Instruction::JumpNE { .. } | Instruction::JumpLT { .. }
            | Instruction::JumpLE { .. } | Instruction::JumpGT { .. } | Instruction::JumpGE { .. }
            | Instruction::JumpIfEndOfLine { .. } => {
                self.exec_jump(line, instr);
                StepKind::Next
            },
            Instruction::JumpIfMatchCharset { .. } | Instruction::JumpIfMatchPrefix { .. }
            | Instruction::JumpIfMatchPrefixInsensitive { .. } => self.exec_match(line, instr),
            Instruction::FlushHighlight { .. } | Instruction::AwaitInput => self.exec_output(
                line,
                last,
                res,
                instr,
            ),
        }
    }

    fn exec_arith(&mut self, instr: Instruction)
        requires
            instr is Mov || instr is Add || instr is Sub || instr is MovImm || instr is AddImm
                || instr is SubImm,
        ensures
            final(self).context() == old(self).context(),
            final(self).stack() == old(self).stack(),
            forall|l: Seq<u8>, last: Highlight<u32>, out: Seq<Highlight<u32>>|
                #[trigger] vm_exec(old(self).context(), l, old(self).vm_state(last, out), instr, old(self).regs())
                    == VmStep::Next(final(self).vm_state(last, out)),
    {
        match instr {
            Instruction::Mov { dst, src } => {
                let v = self.registers.get(src);
                self.registers.set(dst, v);
            },
            Instruction::Add { dst, src } => {
                let d = self.registers.get(dst);
                let v = self.registers.get(src);
                self.registers.set(dst, d.saturating_add(v));
            },
            Instruction::Sub { dst, src } => {
                let d = self.registers.get(dst);
                let v = self.registers.get(src);
                self.registers.set(dst, d.saturating_sub(v));
            },
            Instruction::MovImm { dst, imm } => {
                self.registers.set(dst, imm);
            },
            Instruction::AddImm { dst, imm } => {
                let d = self.registers.get(dst);
                self.registers.set(dst, d.saturating_add(imm));
            },
            Instruction::SubImm { dst, imm } => {
                let d = self.registers.get(dst);
                self.registers.set(dst, d.saturating_sub(imm));
            },
            _ => {},
        }
    }

    fn exec_call(&mut self, instr: Instruction) -> (r: StepKind)
        requires
            instr is Call || instr is Return,
        ensures
            final(self).context() == old(self).context(),
            forall|l: Seq<u8>, last: Highlight<u32>, out: Seq<Highlight<u32>>|
                step_matches(
                    #[trigger] vm_exec(old(self).context(), l, old(self).vm_state(last, out), instr, old(self).regs()),
                    r,
                    final(self).vm_state(last, out),
                ),
    {
        let ghost regs = self.registers.view();
        match instr {
            Instruction::Call { tgt } => {
                // PC already points to the next instruction (= return address)
                self.registers.save_registers(&mut self.stack);
                self.registers.pc = tgt;
                assert(self.registers.view() =~= regs.update(2, tgt));
                StepKind::Next
            },
            _ => {
                if !self.registers.load_registers(&mut self.stack) {
                    self.registers = Registers::with_pc(self.entrypoint);
                    StepKind::Done
                } else {
                    StepKind::Next
                }
            },
        }
    }

    fn exec_jump(&mut self, line: &[u8], instr: Instruction)
        requires
            instr is JumpEQ || instr is JumpNE || instr is JumpLT || instr is JumpLE
                || instr is JumpGT || instr is JumpGE || instr is JumpIfEndOfLine,
        ensures
            final(self).context() == old(self).context(),
            final(self).stack() == old(self).stack(),
            forall|last: Highlight<u32>, out: Seq<Highlight<u32>>|
                #[trigger] vm_exec(old(self).context(), line@, old(self).vm_state(last, out), instr, old(self).regs())
                    == VmStep::Next(final(self).vm_state(last, out)),
    {
        let ghost regs = self.registers.view();
        let taken = match instr {
            Instruction::JumpEQ { lhs, rhs, .. } => self.registers.get(lhs) == self.registers.get(rhs),
            Instruction::JumpNE { lhs, rhs, .. } => self.registers.get(lhs) != self.registers.get(rhs),
            Instruction::JumpLT { lhs, rhs, .. } => self.registers.get(lhs) < self.registers.get(rhs),
            Instruction::JumpLE { lhs, rhs, .. } => self.registers.get(lhs) <= self.registers.get(rhs),
            Instruction::JumpGT { lhs, rhs, .. } => self.registers.get(lhs) > self.registers.get(rhs),
            Instruction::JumpGE { lhs, rhs, .. } => self.registers.get(lhs) >= self.registers.get(rhs),
            _ => self.registers.off as usize >= line.len(),
        };
        let tgt = match instr {
            Instruction::JumpEQ { tgt, .. } => tgt,
            Instruction::JumpNE { tgt, .. } => tgt,
            Instruction::JumpLT { tgt, .. } => tgt,
            Instruction::JumpLE { tgt, .. } => tgt,
            Instruction::JumpGT { tgt, .. } => tgt,
            Instruction::JumpGE { tgt, .. } => tgt,
            Instruction::JumpIfEndOfLine { tgt } => tgt,
            _ => 0,
        };
        if taken {
            self.registers.pc = tgt;
            assert(self.registers.view() =~= regs.update(2, tgt));
        }
    }

    fn exec_match(&mut self, line: &[u8], instr: Instruction) -> (r: StepKind)
        requires
            instr is JumpIfMatchCharset || instr is JumpIfMatchPrefix
                || instr is JumpIfMatchPrefixInsensitive,
        ensures
            final(self).context() == old(self).context(),
            forall|last: Highlight<u32>, out: Seq<Highlight<u32>>|
                step_matches(
                    #[trigger] vm_exec(old(self).context(), line@, old(self).vm_state(last, out), instr, old(self).regs()),
                    r,
                    final(self).vm_state(last, out),
                ),
    {
        let ghost regs = self.registers.view();
        let off = self.registers.off;
        match instr {
            Instruction::JumpIfMatchCharset { idx, min, max, tgt } => {
                if idx as usize >= self.charsets.len() {
                    return StepKind::Fault;
                }
                let cs = &self.charsets[idx as usize];
                if let Some(o) = charset_gobble(line, off as usize, cs, min as usize, max as usize) {
                    self.registers.off = o as u32;
                    self.registers.pc = tgt;
                    assert(self.registers.view() =~= regs.update(0, o as u32).update(2, tgt));
                }
            },
            Instruction::JumpIfMatchPrefix { idx, tgt } => {
                if idx as usize >= self.strings.len() {
                    return StepKind::Fault;
                }
                let str = self.strings[idx as usize].as_bytes();
                proof {
                    self.lemma_strings(idx as int);
                }
                if inlined_memeq(line, off as usize, str) {
                    assert(off + str@.len() <= line.len());
                    self.registers.off = (off as usize + str.len()) as u32;
                    self.registers.pc = tgt;
                    assert(self.registers.view() =~= regs.update(0, (off + str@.len()) as u32).update(2, tgt));
                }
            },
            Instruction::JumpIfMatchPrefixInsensitive { idx, tgt } => {
                if idx as usize >= self.strings.len() {
                    return StepKind::Fault;
                }
                let str = self.strings[idx as usize].as_bytes();
                proof {
                    self.lemma_strings(idx as int);
                }
                if inlined_memieq(line, off as usize, str) {
                    assert(off + str@.len() <= line.len());
                    self.registers.off = (off as usize + str.len()) as u32;
                    self.registers.pc = tgt;
                    assert(self.registers.view() =~= regs.update(0, (off + str@.len()) as u32).update(2, tgt));
                }
            },
            _ => {},
        }
        StepKind::Next
    }

    fn exec_output(
        &mut self,
        line: &[u8],
        last: &mut Highlight<u32>,
        res: &mut Vec<Highlight<u32>>,
        instr: Instruction,
    ) -> (r: StepKind)
        requires
            instr is FlushHighlight || instr is AwaitInput,
        ensures
            final(self).context() == old(self).context(),
            step_matches(
                vm_exec(
                    old(self).context(),
                    line@,
                    old(self).vm_state(*old(last), old(res)@),
                    instr,
                    old(self).regs(),
                ),
                r,
                final(self).vm_state(*final(last), final(res)@),
            ),
    {
        let ghost regs = self.registers.view();
        let off = self.registers.off;
        match instr {
            Instruction::FlushHighlight { kind } => {
                let k = self.registers.get(kind);
                let hs = self.registers.hs as usize;
                let start = if hs < line.len() {
                    hs
                } else {
                    line.len()
                };
                if last.start == start || last.kind == k {
                    last.kind = k;
                } else {
                    res.push(*last);
                    *last = Highlight { start, kind: k };
                }
                self.registers.hs = off;
                assert(self.registers.view() =~= regs.update(1, off));
                StepKind::Next
            },
            _ => {
                if off as usize >= line.len() {
                    StepKind::Done
                } else {
                    StepKind::Next
                }
            },
        }
    }

    /// Runs the bytecode over `line` and appends its highlight spans to `res`.
    ///
    /// Executes instructions until a `Return` with an empty call stack resets the VM
    /// to its entrypoint, or an `AwaitInput` finds the line consumed, or [`VM_FUEL`]
    /// instructions have run. The spans partition the line: the last one starts at
    /// `line.len()`. Returns `false` when the bytecode is malformed on the way (an
    /// invalid or truncated instruction, or a charset or string index out of range);
    /// `res` and the runtime's state are then unspecified.
    pub fn try_parse_next_line(&mut self, line: &[u8], res: &mut Vec<Highlight<u32>>) -> (ok: bool)
        ensures
            final(self).context() == old(self).context(),
            match vm_run(
                old(self).context(),
                line@,
                line_start(old(self).regs(), old(self).stack(), old(res)@),
                VM_FUEL as nat,
            ) {
                None => !ok,
                Some(t) => {
                    &&& ok
                    &&& final(res)@ == line_spans(line@.len() as int, t)
                    &&& final(self).regs() == t.regs
                    &&& final(self).stack() == t.stack
                },
            },
    {
        let ghost c = self.context();
        let ghost init = line_start(self.regs(), self.stack(), res@);
        self.registers.off = 0;
        self.registers.hs = 0;

        // By default, any line starts with highlight value 0 (`other`).
        // If the bytecode yields anything, this will be overwritten.
        let mut last = Highlight { start: 0, kind: 0u32 };
        assert(self.vm_state(last, res@) == init) by {
            assert(self.registers.view() =~= init.regs);
        }
        let mut fuel: u64 = VM_FUEL;
        loop
            invariant_except_break
                vm_run(c, line@, init, VM_FUEL as nat) == vm_run(
                    c,
                    line@,
                    self.vm_state(last, res@),
                    fuel as nat,
                ),
            invariant
                self.context() == c,
                c == old(self).context(),
                init == line_start(old(self).regs(), old(self).stack(), old(res)@),
            ensures
                self.context() == c,
                vm_run(c, line@, init, VM_FUEL as nat) == Some(self.vm_state(last, res@)),
            decreases fuel,
        {
            if fuel == 0 {
                break;
            }
            let ghost before = self.vm_state(last, res@);
            match self.exec_step(line, &mut last, res) {
                StepKind::Next => {
                    fuel -= 1;
                },
                StepKind::Done => {
                    break;
                },
                StepKind::Fault => {
                    assert(vm_run(c, line@, before, fuel as nat) is None);
                    return false;
                },
            }
        }

        // Ensure that there's a past-the-end highlight.
        // An empty line gets both spans too: one at 0, and the sentinel at its length.
        let needs_sentinel = last.start < line.len() || line.len() == 0;
        res.push(last);
        if needs_sentinel {
            res.push(Highlight { start: line.len(), kind: 0 });
        }
        true
    }

    /// Runs the bytecode over `line` and appends its highlight spans to `res`, for
    /// bytecode that is well-formed along the way (see [`Self::try_parse_next_line`]).
    pub fn parse_next_line(&mut self, line: &[u8], res: &mut Vec<Highlight<u32>>)
        requires
            vm_run(
                old(self).context(),
                line@,
                line_start(old(self).regs(), old(self).stack(), old(res)@),
                VM_FUEL as nat,
            ) is Some,
        ensures
            final(self).context() == old(self).context(),
            ({
                let t = vm_run(
                    old(self).context(),
                    line@,
                    line_start(old(self).regs(), old(self).stack(), old(res)@),
                    VM_FUEL as nat,
                ).unwrap();
                final(res)@ == line_spans(line@.len() as int, t) && final(self).regs() == t.regs
                    && final(self).stack() == t.stack
            }),
    {
        self.try_parse_next_line(line, res);
    }
}

/// A sink that takes one item at a time.
pub trait ExtendOne<A> {
    /// Adds `value` at the end.
    fn extend_one(&mut self, value: A);
}

impl<A> ExtendOne<A> for Vec<A> {
    fn extend_one(&mut self, value: A)
        ensures
            final(self)@ == old(self)@.push(value),
    {
        self.push(value);
    }
}

/// How an instruction listing decorates its parts, for example with terminal colors:
/// each kind of part is put between a prefix and a suffix.
pub struct MnemonicFormattingConfig<'a> {
    // Color used for highlighting the instruction.
    pub instruction_prefix: &'a str,
    pub instruction_suffix: &'a str,
    // Color used for highlighting a register name.
    pub register_prefix: &'a str,
    pub register_suffix: &'a str,
    // Color used for highlighting an address.
    pub address_prefix: &'a str,
    pub address_suffix: &'a str,
    // Color used for highlighting an immediate value.
    pub numeric_prefix: &'a str,
    pub numeric_suffix: &'a str,
}

impl<'a> Default for MnemonicFormattingConfig<'a> {
    /// No decoration at all.
    fn default() -> (r: Self)
        ensures
            r.instruction_prefix@ == Seq::<char>::empty(),
            r.instruction_suffix@ == Seq::<char>::empty(),
            r.register_prefix@ == Seq::<char>::empty(),
            r.register_suffix@ == Seq::<char>::empty(),
            r.address_prefix@ == Seq::<char>::empty(),
            r.address_suffix@ == Seq::<char>::empty(),
            r.numeric_prefix@ == Seq::<char>::empty(),
            r.numeric_suffix@ == Seq::<char>::empty(),
    {
        proof {
            reveal_strlit("");
        }
        MnemonicFormattingConfig {
            instruction_prefix: "",
            instruction_suffix: "",
            register_prefix: "",
            register_suffix: "",
            address_prefix: "",
            address_suffix: "",
            numeric_prefix: "",
            numeric_suffix: "",
        }
    }
}

impl<'a> MnemonicFormattingConfig<'a> {
    /// An instruction name, decorated, then padded.
    pub open spec fn ins(&self, name: Seq<char>, pad: Seq<char>) -> Seq<char> {
        self.instruction_prefix@ + name + self.instruction_suffix@ + pad
    }

    /// A register operand, decorated.
    pub open spec fn reg(&self, r: Register) -> Seq<char> {
        self.register_prefix@ + r.mnemonic_spec() + self.register_suffix@
    }

    /// An address operand in decimal, decorated.
    pub open spec fn addr(&self, n: u32) -> Seq<char> {
        self.address_prefix@ + decimal(n as nat) + self.address_suffix@
    }

    /// A numeric operand in decimal, decorated.
    pub open spec fn num(&self, n: u32) -> Seq<char> {
        self.numeric_prefix@ + decimal(n as nat) + self.numeric_suffix@
    }
}

/// The decorated instruction name and its padding.
fn ins_string(c: &MnemonicFormattingConfig, name: &str, pad: &str) -> (r: String)
    ensures
        r@ == c.ins(name@, pad@),
{
    let s = text(c.instruction_prefix);
    let s = join(s, name);
    let s = join(s, c.instruction_suffix);
    join(s, pad)
}

/// `s` followed by the decorated register name.
fn push_reg(s: String, c: &MnemonicFormattingConfig, reg: Register) -> (r: String)
    ensures
        r@ == s@ + c.reg(reg),
{
    let s0 = s;
    let s = join(s0, c.register_prefix);
    let s = join(s, reg.mnemonic());
    let r = join(s, c.register_suffix);
    assert(r@ =~= s0@ + c.reg(reg));
    r
}

/// `s` followed by `n` in decimal between `prefix` and `suffix`.
fn push_num(s: String, prefix: &str, n: u32, suffix: &str) -> (r: String)
    ensures
        r@ == s@ + prefix@ + decimal(n as nat) + suffix@,
{
    let s0 = s;
    let s = join(s0, prefix);
    let d = decimal_string(n as usize);
    let s = join(s, d.as_str());
    let r = join(s, suffix);
    assert(r@ =~= s0@ + prefix@ + decimal(n as nat) + suffix@);
    r
}

impl Instruction {
    /// The instruction's line in an assembly listing.
    pub open spec fn mnemonic_spec(self, c: MnemonicFormattingConfig) -> Seq<char> {
        match self {
            Instruction::Mov { dst, src } => c.ins("mov"@, "    "@) + c.reg(dst) + ", "@ + c.reg(src),
            Instruction::Add { dst, src } => c.ins("add"@, "    "@) + c.reg(dst) + ", "@ + c.reg(src),
            Instruction::Sub { dst, src } => c.ins("sub"@, "    "@) + c.reg(dst) + ", "@ + c.reg(src),
            Instruction::MovImm { dst, imm } => c.ins("movi"@, "   "@) + c.reg(dst) + ", "@ + (if dst == Register::ProgramCounter { c.addr(imm) } else { c.num(imm) }),
            Instruction::AddImm { dst, imm } => c.ins("addi"@, "   "@) + c.reg(dst) + ", "@ + c.num(imm),
            Instruction::SubImm { dst, imm } => c.ins("subi"@, "   "@) + c.reg(dst) + ", "@ + c.num(imm),
            Instruction::Call { tgt } => c.ins("call"@, "   "@) + c.addr(tgt),
            Instruction::Return => c.ins("ret"@, ""@),
            Instruction::JumpEQ { lhs, rhs, tgt } => c.ins("jeq"@, "    "@) + c.reg(lhs) + ", "@ + c.reg(rhs) + ", "@ + c.addr(tgt),
            Instruction::JumpNE { lhs, rhs, tgt } => c.ins("jne"@, "    "@) + c.reg(lhs) + ", "@ + c.reg(rhs) + ", "@ + c.addr(tgt),
            Instruction::JumpLT { lhs, rhs, tgt } => c.ins("jlt"@, "    "@) + c.reg(lhs) + ", "@ + c.reg(rhs) + ", "@ + c.addr(tgt),
            Instruction::JumpLE { lhs, rhs, tgt } => c.ins("jle"@, "    "@) + c.reg(lhs) + ", "@ + c.reg(rhs) + ", "@ + c.addr(tgt),
            Instruction::JumpGT { lhs, rhs, tgt } => c.ins("jgt"@, "    "@) + c.reg(lhs) + ", "@ + c.reg(rhs) + ", "@ + c.addr(tgt),
            Instruction::JumpGE { lhs, rhs, tgt } => c.ins("jge"@, "    "@) + c.reg(lhs) + ", "@ + c.reg(rhs) + ", "@ + c.addr(tgt),
            Instruction::JumpIfEndOfLine { tgt } => c.ins("jeol"@, "   "@) + c.addr(tgt),
            Instruction::JumpIfMatchCharset { idx, min, max, tgt } => c.ins("jc"@, "     "@) + c.num(idx) + ", "@ + c.num(min) + ", "@ + c.num(max) + ", "@ + c.addr(tgt),
            Instruction::JumpIfMatchPrefix { idx, tgt } => c.ins("jp"@, "     "@) + c.num(idx) + ", "@ + c.addr(tgt),
            Instruction::JumpIfMatchPrefixInsensitive { idx, tgt } => c.ins("jpi"@, "    "@) + c.num(idx) + ", "@ + c.addr(tgt),
            Instruction::FlushHighlight { kind } => c.ins("flush"@, "  "@) + c.reg(kind),
            Instruction::AwaitInput => c.ins("await"@, ""@),
        }
    }

    /// The instruction in assembly syntax, decorated as `config` says.
    pub fn mnemonic(&self, config: &MnemonicFormattingConfig) -> (r: String)
        ensures
            r@ == self.mnemonic_spec(*config),
    {
        let c = config;
        match *self {
            Instruction::Mov { dst, src } => fmt_rr(c, "mov", "    ", dst, src),
            Instruction::Add { dst, src } => fmt_rr(c, "add", "    ", dst, src),
            Instruction::Sub { dst, src } => fmt_rr(c, "sub", "    ", dst, src),
            Instruction::MovImm { dst, imm } => fmt_rn(c, "movi", "   ", dst, imm, dst == Register::ProgramCounter),
            Instruction::AddImm { dst, imm } => fmt_rn(c, "addi", "   ", dst, imm, false),
            Instruction::SubImm { dst, imm } => fmt_rn(c, "subi", "   ", dst, imm, false),
            Instruction::Call { tgt } => fmt_a(c, "call", "   ", tgt),
            Instruction::Return => ins_string(c, "ret", ""),
            Instruction::JumpEQ { lhs, rhs, tgt } => fmt_rra(c, "jeq", "    ", lhs, rhs, tgt),
            Instruction::JumpNE { lhs, rhs, tgt } => fmt_rra(c, "jne", "    ", lhs, rhs, tgt),
            Instruction::JumpLT { lhs, rhs, tgt } => fmt_rra(c, "jlt", "    ", lhs, rhs, tgt),
            Instruction::JumpLE { lhs, rhs, tgt } => fmt_rra(c, "jle", "    ", lhs, rhs, tgt),
            Instruction::JumpGT { lhs, rhs, tgt } => fmt_rra(c, "jgt", "    ", lhs, rhs, tgt),
            Instruction::JumpGE { lhs, rhs, tgt } => fmt_rra(c, "jge", "    ", lhs, rhs, tgt),
            Instruction::JumpIfEndOfLine { tgt } => fmt_a(c, "jeol", "   ", tgt),
            Instruction::JumpIfMatchCharset { idx, min, max, tgt } => {
                let s = ins_string(c, "jc", "     ");
                let s = push_num(s, c.numeric_prefix, idx, c.numeric_suffix);
                let s = join(s, ", ");
                let s = push_num(s, c.numeric_prefix, min, c.numeric_suffix);
                let s = join(s, ", ");
                let s = push_num(s, c.numeric_prefix, max, c.numeric_suffix);
                let s = join(s, ", ");
                push_num(s, c.address_prefix, tgt, c.address_suffix)
            },
            Instruction::JumpIfMatchPrefix { idx, tgt } => fmt_na(c, "jp", "     ", idx, tgt),
            Instruction::JumpIfMatchPrefixInsensitive { idx, tgt } => fmt_na(c, "jpi", "    ", idx, tgt),
            Instruction::FlushHighlight { kind } => {
                let s = ins_string(c, "flush", "  ");
                push_reg(s, c, kind)
            },
            Instruction::AwaitInput => ins_string(c, "await", ""),
        }
    }
}

/// An instruction with two register operands.
fn fmt_rr(c: &MnemonicFormattingConfig, name: &str, pad: &str, a: Register, b: Register) -> (r: String)
    ensures
        r@ == c.ins(name@, pad@) + c.reg(a) + ", "@ + c.reg(b),
{
    let s = ins_string(c, name, pad);
    let s = push_reg(s, c, a);
    let s = join(s, ", ");
    push_reg(s, c, b)
}

/// An instruction with a register and a number, shown as an address if `is_addr`.
fn fmt_rn(c: &MnemonicFormattingConfig, name: &str, pad: &str, a: Register, n: u32, is_addr: bool) -> (r: String)
    ensures
        r@ == c.ins(name@, pad@) + c.reg(a) + ", "@ + (if is_addr { c.addr(n) } else { c.num(n) }),
{
    let s = ins_string(c, name, pad);
    let s = push_reg(s, c, a);
    let s = join(s, ", ");
    if is_addr {
        push_num(s, c.address_prefix, n, c.address_suffix)
    } else {
        push_num(s, c.numeric_prefix, n, c.numeric_suffix)
    }
}

/// An instruction with an address operand.
fn fmt_a(c: &MnemonicFormattingConfig, name: &str, pad: &str, t: u32) -> (r: String)
    ensures
        r@ == c.ins(name@, pad@) + c.addr(t),
{
    let s = ins_string(c, name, pad);
    push_num(s, c.address_prefix, t, c.address_suffix)
}

/// An instruction with two register operands and an address.
fn fmt_rra(c: &MnemonicFormattingConfig, name: &str, pad: &str, a: Register, b: Register, t: u32) -> (r: String)
    ensures
        r@ == c.ins(name@, pad@) + c.reg(a) + ", "@ + c.reg(b) + ", "@ + c.addr(t),
{
    let s = fmt_rr(c, name, pad, a, b);
    let s = join(s, ", ");
    push_num(s, c.address_prefix, t, c.address_suffix)
}

/// An instruction with a number and an address.
fn fmt_na(c: &MnemonicFormattingConfig, name: &str, pad: &str, n: u32, t: u32) -> (r: String)
    ensures
        r@ == c.ins(name@, pad@) + c.num(n) + ", "@ + c.addr(t),
{
    let s = ins_string(c, name, pad);
    let s = push_num(s, c.numeric_prefix, n, c.numeric_suffix);
    let s = join(s, ", ");
    push_num(s, c.address_prefix, t, c.address_suffix)
}

} // verus!
