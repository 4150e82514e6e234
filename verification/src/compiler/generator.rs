//! Front door of the compiler for whole definition sets: collects the files that are
//! read, one after another, into one compiler.

use vstd::prelude::*;
use super::{CompileResult, Compiler};
use super::frontend::{
    defined_in, defined_in_order, empty_definitions, first_body_stray, first_body_undefined, first_body_bad_ident,
    stray_loop_control, undefined_variable, bad_identifier_statement, skip_spec, header_at,
};
use vstd::string::StringSliceAdditionalSpecFns;
use super::charset::{Charset, runs_text};
use crate::render::Entrypoint;
use crate::runtime::{Instruction, MnemonicFormattingConfig, decode_spec, opcode_len};
use crate::text::{chars_of, decimal, decimal_string, push_char, join};

verus! {

/// Collects definitions files into one compiler.
pub struct Generator {
    compiler: Compiler,
}

impl Generator {
    /// The compiler that the definitions go to.
    pub closed spec fn compiler(&self) -> Compiler {
        self.compiler
    }

    /// The generator's invariant: its compiler's.
    pub open spec fn wf(&self) -> bool {
        self.compiler().wf()
    }

    /// A generator with no definitions yet.
    pub fn new() -> (r: Self)
        ensures
            r.wf(),
            r.compiler().program().functions@.len() == 0,
            r.compiler().program().graph.view().len() == 0,
    {
        Generator { compiler: Compiler::new() }
    }

    /// Compiles the definitions `src`, which were read from the file at `path`.
    pub fn read_source(&mut self, path: &str, src: &str) -> (r: CompileResult<()>)
        requires
            old(self).wf(),
            src.spec_bytes().len() < usize::MAX,
        ensures
            final(self).wf(),
            final(self).compiler().program().functions@.take(old(self).compiler().program().functions@.len() as int)
                == old(self).compiler().program().functions@,
            final(self).compiler().program().functions@.len() >= old(self).compiler().program().functions@.len(),
            forall|i: int|
                old(self).compiler().program().functions@.len() <= i < final(self).compiler().program().functions@.len()
                    ==> defined_in(src.spec_bytes(), #[trigger] final(self).compiler().program().functions@[i]),
            r is Ok ==> defined_in_order(
                src.spec_bytes(),
                0,
                final(self).compiler().program().functions@.skip(old(self).compiler().program().functions@.len() as int),
            ),
            skip_spec(src.spec_bytes(), 0) >= src.spec_bytes().len() ==> r is Ok && final(self).compiler().program().functions == old(self).compiler().program().functions,
            skip_spec(src.spec_bytes(), 0) < src.spec_bytes().len() && header_at(src.spec_bytes(), skip_spec(src.spec_bytes(), 0)) is None
                ==> r is Err,
            r matches Err(e) ==> e.path@ == path@ && e.line >= 1 && e.column >= 1,
            empty_definitions(src.spec_bytes(), 0) matches Some(n) && old(self).compiler().program().graph.view().len()
                + 2 * n <= 0xffff_ffff ==> r is Ok,
            first_body_stray(src.spec_bytes(), 0) matches Some(s) ==> (r matches Err(e) && stray_loop_control(
                src.spec_bytes(),
                s,
                e,
            )),
            first_body_undefined(src.spec_bytes(), 0) matches Some(s) ==> (r matches Err(e) && undefined_variable(
                src.spec_bytes(),
                s,
                e,
            )),
            first_body_bad_ident(src.spec_bytes(), 0) matches Some(s) ==> (r matches Err(e)
                && bad_identifier_statement(src.spec_bytes(), s, e)),
    {
        self.compiler.parse(path, src)
    }
}

/// The mnemonic colors of a listing: ANSI colors for a terminal, or none.
pub open spec fn listing_config(vt: bool) -> MnemonicFormattingConfig<'static> {
    if vt {
        MnemonicFormattingConfig {
            instruction_prefix: "\x1b[33m",
            instruction_suffix: "\x1b[39m",
            register_prefix: "\x1b[32m",
            register_suffix: "\x1b[39m",
            address_prefix: "\x1b[90m",
            address_suffix: "\x1b[39m",
            numeric_prefix: "\x1b[36m",
            numeric_suffix: "\x1b[39m",
        }
    } else {
        MnemonicFormattingConfig {
            instruction_prefix: "",
            instruction_suffix: "",
            register_prefix: "",
            register_suffix: "",
            address_prefix: "",
            address_suffix: "",
            numeric_prefix: "",
            numeric_suffix: "",
        }
    }
}

/// The decorations of a listing's labels, line numbers and comments: the prefix and
/// suffix of a label, the line number's prefix, and a comment's prefix and suffix.
pub open spec fn listing_marks(vt: bool) -> (Seq<char>, Seq<char>, Seq<char>, Seq<char>, Seq<char>) {
    if vt {
        ("\x1b[4;94m"@, "\x1b[m"@, "\x1b[90m"@, "\x1b[32m"@, "\x1b[39m"@)
    } else {
        (""@, ""@, ""@, ""@, ""@)
    }
}

/// The name of the last entry point among the first `n` of `eps` that starts at `off`.
pub open spec fn label_at(eps: Seq<Entrypoint>, n: int, off: int) -> Option<Seq<char>>
    decreases n,
{
    if n <= 0 || n > eps.len() {
        None
    } else if eps[n - 1].address == off {
        Some(eps[n - 1].name@)
    } else {
        label_at(eps, n - 1, off)
    }
}

/// How many characters of `m` from `i` on a terminal shows: an escape sequence, from ESC
/// up to and including an ASCII letter, takes no room.
pub open spec fn visible_from(m: Seq<char>, i: int, esc: bool) -> nat
    decreases m.len() - i,
{
    if i < 0 || i >= m.len() {
        0
    } else if esc {
        visible_from(m, i + 1, !(('a' <= m[i] && m[i] <= 'z') || ('A' <= m[i] && m[i] <= 'Z')))
    } else if m[i] == '\x1b' {
        visible_from(m, i + 1, true)
    } else {
        1 + visible_from(m, i + 1, false)
    }
}

/// `n` spaces.
pub open spec fn spaces(n: int) -> Seq<char> {
    Seq::new(if n > 0 { n as nat } else { 0 }, |i: int| ' ')
}

/// The text of `s` as `Debug` writes it: quoted, with escapes.
pub uninterp spec fn str_debug_text(s: Seq<char>) -> Seq<char>;

/// The comment after an instruction: the charset or string that it tests, as `Debug`
/// writes them.
pub open spec fn listing_comment(i: Instruction, charsets: Seq<Charset>, strings: Seq<String>, vt: bool) -> Seq<char> {
    let (_, _, _, cp, cs) = listing_marks(vt);
    match i {
        Instruction::JumpIfMatchCharset { idx, .. } => " "@ + cp + "// "@ + ("["@ + runs_text(
            charsets[idx as int]@,
            0,
            true,
        ) + "]"@) + cs,
        Instruction::JumpIfMatchPrefix { idx, .. } => " "@ + cp + "// "@ + str_debug_text(strings[idx as int]@) + cs,
        Instruction::JumpIfMatchPrefixInsensitive { idx, .. } => " "@ + cp + "// "@ + str_debug_text(
            strings[idx as int]@,
        ) + cs,
        _ => Seq::empty(),
    }
}

/// Whether the charset or string that `i` tests exists.
pub open spec fn comment_ok(i: Instruction, ncs: int, nstr: int) -> bool {
    match i {
        Instruction::JumpIfMatchCharset { idx, .. } => idx < ncs,
        Instruction::JumpIfMatchPrefix { idx, .. } => idx < nstr,
        Instruction::JumpIfMatchPrefixInsensitive { idx, .. } => idx < nstr,
        _ => true,
    }
}

/// Whether the listing from `off` on reads no instruction past the end of `ins` and
/// names no missing charset or string.
pub open spec fn listing_ok(ins: Seq<u8>, ncs: int, nstr: int, off: int) -> bool
    decreases ins.len() - off,
{
    if off < 0 || off >= ins.len() {
        true
    } else {
        &&& ins.len() - off >= opcode_len(ins[off])
        &&& match decode_spec(ins.skip(off)) {
            (Some(i), len) => comment_ok(i, ncs, nstr) && (0 < len && off + len <= ins.len() ==> listing_ok(
                ins,
                ncs,
                nstr,
                off + len,
            )),
            (None, _) => true,
        }
    }
}

/// The label line before offset `off`, where an entry point starts there.
pub open spec fn label_text(eps: Seq<Entrypoint>, vt: bool, off: int) -> Seq<char> {
    let (lp, ls, _, _, _) = listing_marks(vt);
    match label_at(eps, eps.len() as int, off) {
        Some(l) => (if off != 0 { seq!['\n'] } else { Seq::empty() }) + lp + l + seq![':'] + ls + seq!['\n'],
        None => Seq::empty(),
    }
}

/// The line of instruction `i` at offset `off`.
pub open spec fn instruction_text(
    i: Instruction,
    charsets: Seq<Charset>,
    strings: Seq<String>,
    vt: bool,
    width: int,
    off: int,
) -> Seq<char> {
    let (_, _, np, _, _) = listing_marks(vt);
    let m = i.mnemonic_spec(listing_config(vt));
    let d = decimal(off as nat);
    np + spaces(width - d.len()) + d + ":  "@ + m + spaces(40 - visible_from(m, 0, false)) + listing_comment(
        i,
        charsets,
        strings,
        vt,
    ) + seq!['\n']
}

/// The listing from offset `off` on: before each entry point's address its label, then
/// per instruction a line with its address (right-aligned to `width`), its mnemonic
/// padded to 40 visible characters, and a comment naming what it tests. It stops at an
/// invalid instruction.
#[verifier::opaque]
pub open spec fn listing_from(
    ins: Seq<u8>,
    eps: Seq<Entrypoint>,
    charsets: Seq<Charset>,
    strings: Seq<String>,
    vt: bool,
    width: int,
    off: int,
) -> Seq<char>
    decreases ins.len() - off,
{
    if off < 0 || off >= ins.len() {
        Seq::empty()
    } else {
        let label = label_text(eps, vt, off);
        match decode_spec(ins.skip(off)) {
            (Some(i), len) => label + instruction_text(i, charsets, strings, vt, width, off) + (if 0 < len && off
                + len <= ins.len() {
                listing_from(ins, eps, charsets, strings, vt, width, off + len)
            } else {
                Seq::empty()
            }),
            (None, _) => label,
        }
    }
}

/// One step of the listing: at an offset inside the instructions, the label, then the
/// instruction's line and the rest, or nothing more at an invalid instruction.
proof fn lemma_listing_step(
    ins: Seq<u8>,
    eps: Seq<Entrypoint>,
    charsets: Seq<Charset>,
    strings: Seq<String>,
    vt: bool,
    width: int,
    off: int,
)
    requires
        0 <= off < ins.len(),
    ensures
        listing_from(ins, eps, charsets, strings, vt, width, off) == label_text(eps, vt, off) + match decode_spec(
            ins.skip(off),
        ) {
            (Some(i), len) => instruction_text(i, charsets, strings, vt, width, off) + (if 0 < len && off + len
                <= ins.len() {
                listing_from(ins, eps, charsets, strings, vt, width, off + len)
            } else {
                Seq::empty()
            }),
            (None, _) => Seq::empty(),
        },
{
    reveal(listing_from);
    match decode_spec(ins.skip(off)) {
        (Some(i), len) => {},
        (None, _) => {
            assert(label_text(eps, vt, off) + Seq::<char>::empty() =~= label_text(eps, vt, off));
        },
    }
}

/// Past the end, the listing is empty.
proof fn lemma_listing_end(
    ins: Seq<u8>,
    eps: Seq<Entrypoint>,
    charsets: Seq<Charset>,
    strings: Seq<String>,
    vt: bool,
    width: int,
    off: int,
)
    requires
        off >= ins.len(),
    ensures
        listing_from(ins, eps, charsets, strings, vt, width, off) == Seq::<char>::empty(),
{
    reveal(listing_from);
}

/// Writes `s` as `Debug` does, through `format!`.
#[verifier::external_body]
pub(crate) fn str_debug(s: &str) -> (r: String)
    ensures
        r@ == str_debug_text(s@),
{
    format!("{:?}", s)
}

/// `s` followed by `n` spaces.
pub(crate) fn push_spaces(s: &mut String, n: usize)
    ensures
        final(s)@ == old(s)@ + spaces(n as int),
{
    let mut i: usize = 0;
    let ghost s0 = s@;
    while i < n
        invariant
            i <= n,
            s@ == s0 + spaces(i as int),
        decreases n - i,
    {
        push_char(s, ' ');
        i += 1;
        assert(s@ =~= s0 + spaces(i as int));
    }
}

/// How many characters of `m` a terminal shows.
fn visible_len(m: &str) -> (r: usize)
    ensures
        r == visible_from(m@, 0, false),
{
    let cs = chars_of(m);
    let mut count: usize = 0;
    let mut esc = false;
    let mut i: usize = 0;
    while i < cs.len()
        invariant
            cs@ == m@,
            i <= cs@.len(),
            count <= i,
            count + visible_from(m@, i as int, esc) == visible_from(m@, 0, false),
        decreases cs@.len() - i,
    {
        let c = cs[i];
        if esc {
            if ('a' <= c && c <= 'z') || ('A' <= c && c <= 'Z') {
                esc = false;
            }
        } else if c == '\x1b' {
            esc = true;
        } else {
            count += 1;
        }
        i += 1;
    }
    count
}

/// The label of the last entry point that starts at `off`.
pub(crate) fn find_label(eps: &[Entrypoint], off: usize) -> (r: Option<&str>)
    ensures
        match r {
            Some(l) => label_at(eps@, eps@.len() as int, off as int) == Some(l@),
            None => label_at(eps@, eps@.len() as int, off as int) is None,
        },
{
    let mut n = eps.len();
    while n > 0
        invariant
            n <= eps@.len(),
            label_at(eps@, eps@.len() as int, off as int) == label_at(eps@, n as int, off as int),
        decreases n,
    {
        if eps[n - 1].address == off {
            return Some(eps[n - 1].name.as_str());
        }
        n -= 1;
    }
    None
}

/// The label line before offset `off`, where an entry point starts there.
fn label_line(entrypoints: &[Entrypoint], vt: bool, off: usize) -> (r: String)
    ensures
        r@ == label_text(entrypoints@, vt, off as int),
{
    let (label_prefix, label_suffix) = if vt {
        ("\x1b[4;94m", "\x1b[m")
    } else {
        ("", "")
    };
    let mut output = String::new();
    match find_label(entrypoints, off) {
        Some(label) => {
            if off != 0 {
                push_char(&mut output, '\n');
            }
            output = join(output, label_prefix);
            output = join(output, label);
            push_char(&mut output, ':');
            output = join(output, label_suffix);
            push_char(&mut output, '\n');
        },
        None => {},
    }
    output
}

/// The comment after instruction `instr`.
fn comment_text(instr: Instruction, charsets: &[Charset], strings: &[String], vt: bool) -> (r: String)
    requires
        comment_ok(instr, charsets@.len() as int, strings@.len() as int),
    ensures
        r@ == listing_comment(instr, charsets@, strings@, vt),
{
    let (comment_prefix, comment_suffix) = if vt {
        ("\x1b[32m", "\x1b[39m")
    } else {
        ("", "")
    };
    let mut output = String::new();
    match instr {
        Instruction::JumpIfMatchCharset { idx, .. } => {
            output = join(output, " ");
            output = join(output, comment_prefix);
            output = join(output, "// ");
            let dbg = charsets[idx as usize].debug_string();
            output = join(output, dbg.as_str());
            output = join(output, comment_suffix);
        },
        Instruction::JumpIfMatchPrefix { idx, .. } | Instruction::JumpIfMatchPrefixInsensitive { idx, .. } => {
            output = join(output, " ");
            output = join(output, comment_prefix);
            output = join(output, "// ");
            let dbg = str_debug(strings[idx as usize].as_str());
            output = join(output, dbg.as_str());
            output = join(output, comment_suffix);
        },
        _ => {},
    }
    output
}

/// The line of instruction `instr` at offset `off`.
fn instruction_line(
    instr: Instruction,
    charsets: &[Charset],
    strings: &[String],
    vt: bool,
    width: usize,
    off: usize,
) -> (r: String)
    requires
        comment_ok(instr, charsets@.len() as int, strings@.len() as int),
    ensures
        r@ == instruction_text(instr, charsets@, strings@, vt, width as int, off as int),
{
    let config = if vt {
        MnemonicFormattingConfig {
            instruction_prefix: "\x1b[33m",
            instruction_suffix: "\x1b[39m",
            register_prefix: "\x1b[32m",
            register_suffix: "\x1b[39m",
            address_prefix: "\x1b[90m",
            address_suffix: "\x1b[39m",
            numeric_prefix: "\x1b[36m",
            numeric_suffix: "\x1b[39m",
        }
    } else {
        MnemonicFormattingConfig {
            instruction_prefix: "",
            instruction_suffix: "",
            register_prefix: "",
            register_suffix: "",
            address_prefix: "",
            address_suffix: "",
            numeric_prefix: "",
            numeric_suffix: "",
        }
    };
    let line_prefix = if vt {
        "\x1b[90m"
    } else {
        ""
    };
    let mnemonic = instr.mnemonic(&config);
    let mut output = String::new();
    output = join(output, line_prefix);
    let d = decimal_string(off);
    let d_len = chars_of(d.as_str()).len();
    if d_len < width {
        push_spaces(&mut output, width - d_len);
    }
    output = join(output, d.as_str());
    output = join(output, ":  ");
    output = join(output, mnemonic.as_str());
    let text_chars = visible_len(mnemonic.as_str());
    if text_chars < 40 {
        push_spaces(&mut output, 40 - text_chars);
    }
    let comment = comment_text(instr, charsets, strings, vt);
    output = join(output, comment.as_str());
    push_char(&mut output, '\n');
    proof {
        let d_spec = decimal(off as nat);
        if !(d_len < width) {
            assert(spaces(width - d_spec.len()) =~= Seq::<char>::empty());
        }
        if !(text_chars < 40) {
            assert(spaces(40 - text_chars) =~= Seq::<char>::empty());
        }
    }
    output
}

/// The assembly listing of `instructions`, as `lshc assembly` shows it: each entry point's
/// label before its first instruction, and per instruction its address, its mnemonic and
/// the charset or string it tests; with ANSI colors where `vt` is set.
pub fn assembly_listing(
    instructions: &[u8],
    entrypoints: &[Entrypoint],
    charsets: &[Charset],
    strings: &[String],
    vt: bool,
) -> (r: String)
    requires
        listing_ok(instructions@, charsets@.len() as int, strings@.len() as int, 0),
    ensures
        r@ == listing_from(
            instructions@,
            entrypoints@,
            charsets@,
            strings@,
            vt,
            decimal(instructions@.len() as nat).len() as int,
            0,
        ),
{
    let ghost ins = instructions@;
    let ghost eps = entrypoints@;
    let ghost width = decimal(ins.len() as nat).len() as int;
    let width_s = decimal_string(instructions.len());
    let line_num_width = chars_of(width_s.as_str()).len();
    let mut output = String::new();
    let mut off: usize = 0;
    let len = instructions.len();
    proof {
        if len == 0 {
            lemma_listing_end(ins, eps, charsets@, strings@, vt, width, 0);
        }
    }
    while off < len
        invariant_except_break
            output@ + listing_from(ins, eps, charsets@, strings@, vt, width, off as int) == listing_from(
                ins,
                eps,
                charsets@,
                strings@,
                vt,
                width,
                0,
            ),
        invariant
            len == ins.len(),
            ins == instructions@,
            eps == entrypoints@,
            line_num_width == width,
            listing_ok(ins, charsets@.len() as int, strings@.len() as int, off as int),
            off >= len ==> listing_from(ins, eps, charsets@, strings@, vt, width, off as int) == Seq::<char>::empty(),
        ensures
            output@ == listing_from(ins, eps, charsets@, strings@, vt, width, 0),
        decreases len - off,
    {
        let ghost o0 = output@;
        let ghost whole = listing_from(ins, eps, charsets@, strings@, vt, width, off as int);
        proof {
            lemma_listing_step(ins, eps, charsets@, strings@, vt, width, off as int);
        }
        let label = label_line(entrypoints, vt, off);
        output = join(output, label.as_str());
        let rest = vstd::slice::slice_subrange(instructions, off, len);
        assert(rest@ =~= ins.skip(off as int));
        let (instr, n) = Instruction::decode(rest);
        let instr = match instr {
            Some(i) => i,
            None => {
                assert(output@ =~= o0 + whole);
                break;
            },
        };
        proof {
            reveal_with_fuel(listing_ok, 1);
        }
        let line = instruction_line(instr, charsets, strings, vt, line_num_width, off);
        output = join(output, line.as_str());
        if n == 0 || n > len - off {
            assert(output@ =~= o0 + whole);
            break;
        }
        off += n;
        assert(o0 + whole =~= output@ + listing_from(ins, eps, charsets@, strings@, vt, width, off as int));
        proof {
            if off >= len {
                lemma_listing_end(ins, eps, charsets@, strings@, vt, width, off as int);
            }
        }
    }
    output
}

} // verus!
