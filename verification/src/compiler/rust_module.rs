//! Rust source for a compiled set of definitions: the highlight kinds as an enum, the
//! languages and their file associations, and the bytecode, charsets and strings as
//! static tables.

use vstd::prelude::*;
use vstd::string::StringSliceAdditionalSpecFns;
use vstd::utf8::encode_utf8;
use super::charset::{Charset, word16_has};
use super::ir::{HighlightKind, camel_case};
use super::generator::{find_label, label_at, listing_config, push_spaces, spaces, str_debug, str_debug_text};
use crate::render::{Entrypoint, dashed};
use crate::runtime::{Instruction, MnemonicFormattingConfig, decode_spec, opcode_len};
use crate::text::{chars_of, decimal, decimal_string, join, push_char, text};

verus! {

/// The start of the module, up to the members of the highlight kind enum.
pub const RUST_HEADER: &'static str = "// This file is auto-generated. Do not edit it manually.\n\nuse lsh::runtime::Language;\n\n#[derive(Debug, Clone, Copy, PartialEq, Eq)]\npub enum HighlightKind {\n";

/// The conversion from `u32` up to the name of the last highlight kind.
pub const TRY_FROM_HEAD: &'static str = "\nimpl TryFrom<u32> for HighlightKind {\n    type Error = ();\n\n    #[inline]\n    fn try_from(value: u32) -> Result<Self, Self::Error> {\n        if value <= Self::";

/// The conversion from `u32` after the name of the last highlight kind.
pub const TRY_FROM_TAIL: &'static str = " as u32 {\n            Ok(unsafe { std::mem::transmute::<u8, Self>(value as u8) })\n        } else {\n            Err(())\n        }\n    }\n}\n";

/// The start of the language table.
pub const LANGUAGES_HEAD: &'static str = "\n#[rustfmt::skip] pub static LANGUAGES: &[Language] = &[\n";

/// The start of the file association table.
pub const ASSOCIATIONS_HEAD: &'static str = "\n#[rustfmt::skip] pub static FILE_ASSOCIATIONS: &[(&str, &Language)] = &[\n";

/// The start of the bytecode table, up to its length.
pub const ASSEMBLY_HEAD: &'static str = "\n#[rustfmt::skip] pub static ASSEMBLY: [u8; ";

/// The start of the charset table, up to its length.
pub const CHARSETS_HEAD: &'static str = "\n#[rustfmt::skip] pub static CHARSETS: [[u16; 16]; ";

/// The start of the string table, up to its length.
pub const STRINGS_HEAD: &'static str = "\n#[rustfmt::skip] pub static STRINGS: [&str; ";

/// The end of a table's type, before its rows.
pub const TABLE_OPEN: &'static str = "] = [\n";

/// The end of a table.
pub const TABLE_CLOSE: &'static str = "];\n";

/// A highlight kind as an enum member: its name in CamelCase, `=` and its value.
pub open spec fn kind_member(k: HighlightKind) -> Seq<char> {
    camel_case(k.identifier@, true) + " = "@ + decimal(k.value as nat) + ","@
}

/// The longest member of the first `n` kinds, in UTF-8 bytes.
pub open spec fn member_width(ks: Seq<HighlightKind>, n: int) -> nat
    decreases n,
{
    if n <= 0 || n > ks.len() {
        0
    } else {
        let w = encode_utf8(kind_member(ks[n - 1])).len();
        let rest = member_width(ks, n - 1);
        if w > rest {
            w
        } else {
            rest
        }
    }
}

/// A member's line: the member padded with spaces to `width` characters, then the
/// identifier in a comment.
pub open spec fn kind_line(k: HighlightKind, width: int) -> Seq<char> {
    let m = kind_member(k);
    "    "@ + m + spaces(width - m.len()) + " // "@ + k.identifier@ + "\n"@
}

/// The lines of the first `n` kinds.
pub open spec fn kind_lines(ks: Seq<HighlightKind>, n: int, width: int) -> Seq<char>
    decreases n,
{
    if n <= 0 || n > ks.len() {
        Seq::empty()
    } else {
        kind_lines(ks, n - 1, width) + kind_line(ks[n - 1], width)
    }
}

/// The conversion from `u32`, which accepts values up to the last kind's; nothing where
/// there is no kind.
pub open spec fn try_from_text(ks: Seq<HighlightKind>) -> Seq<char> {
    if ks.len() == 0 {
        Seq::empty()
    } else {
        TRY_FROM_HEAD@ + camel_case(ks.last().identifier@, true) + TRY_FROM_TAIL@
    }
}

/// A language's row: its id (its name with `-` for `_`), its display name and its
/// entry address.
pub open spec fn language_line(ep: Entrypoint) -> Seq<char> {
    "    Language { id: "@ + str_debug_text(dashed(ep.name@)) + ", name: "@ + str_debug_text(ep.display_name@)
        + ", entrypoint: "@ + decimal(ep.address as nat) + " },\n"@
}

/// The rows of the first `n` languages.
pub open spec fn language_lines(eps: Seq<Entrypoint>, n: int) -> Seq<char>
    decreases n,
{
    if n <= 0 || n > eps.len() {
        Seq::empty()
    } else {
        language_lines(eps, n - 1) + language_line(eps[n - 1])
    }
}

/// The association rows of the first `n` path patterns of language `idx`.
pub open spec fn path_lines(paths: Seq<String>, idx: int, n: int) -> Seq<char>
    decreases n,
{
    if n <= 0 || n > paths.len() {
        Seq::empty()
    } else {
        path_lines(paths, idx, n - 1) + "    ("@ + str_debug_text(paths[n - 1]@) + ", &LANGUAGES["@ + decimal(
            idx as nat,
        ) + "]),\n"@
    }
}

/// The association rows of the first `n` languages, one per path pattern.
pub open spec fn association_lines(eps: Seq<Entrypoint>, n: int) -> Seq<char>
    decreases n,
{
    if n <= 0 || n > eps.len() {
        Seq::empty()
    } else {
        association_lines(eps, n - 1) + path_lines(eps[n - 1].paths@, n - 1, eps[n - 1].paths@.len() as int)
    }
}

/// The row of the file association table that sends path pattern `path` to the
/// language in row `i` of the language table.
pub open spec fn association_row(path: Seq<char>, i: int) -> Seq<char> {
    "    ("@ + str_debug_text(path) + ", &LANGUAGES["@ + decimal(i as nat) + "]),\n"@
}

proof fn lemma_path_lines_rows(paths: Seq<String>, idx: int, n: int)
    requires
        0 <= n <= paths.len(),
    ensures
        path_lines(paths, idx, n) == Seq::new(n as nat, |j: int| association_row(paths[j]@, idx)).flatten(),
    decreases n,
{
    let rows = Seq::new(n as nat, |j: int| association_row(paths[j]@, idx));
    if n == 0 {
        assert(rows =~= Seq::<Seq<char>>::empty());
    } else {
        lemma_path_lines_rows(paths, idx, n - 1);
        let prev = Seq::new((n - 1) as nat, |j: int| association_row(paths[j]@, idx));
        assert(rows =~= prev.push(association_row(paths[n - 1]@, idx)));
        prev.lemma_flatten_push(association_row(paths[n - 1]@, idx));
        assert(path_lines(paths, idx, n) =~= path_lines(paths, idx, n - 1) + association_row(paths[n - 1]@, idx));
    }
}

proof fn lemma_association_lines_rows(eps: Seq<Entrypoint>, n: int)
    requires
        0 <= n <= eps.len(),
    ensures
        association_lines(eps, n) == Seq::new(
            n as nat,
            |i: int| Seq::new(eps[i].paths@.len(), |j: int| association_row(eps[i].paths@[j]@, i)).flatten(),
        ).flatten(),
        language_lines(eps, n) == Seq::new(n as nat, |i: int| language_line(eps[i])).flatten(),
    decreases n,
{
    let f = |i: int| Seq::new(eps[i].paths@.len(), |j: int| association_row(eps[i].paths@[j]@, i)).flatten();
    let g = |i: int| language_line(eps[i]);
    if n == 0 {
        assert(Seq::new(0nat, f) =~= Seq::<Seq<char>>::empty());
        assert(Seq::new(0nat, g) =~= Seq::<Seq<char>>::empty());
    } else {
        lemma_association_lines_rows(eps, n - 1);
        lemma_path_lines_rows(eps[n - 1].paths@, n - 1, eps[n - 1].paths@.len() as int);
        assert(Seq::new(n as nat, f) =~= Seq::new((n - 1) as nat, f).push(f(n - 1)));
        Seq::new((n - 1) as nat, f).lemma_flatten_push(f(n - 1));
        assert(Seq::new(n as nat, g) =~= Seq::new((n - 1) as nat, g).push(g(n - 1)));
        Seq::new((n - 1) as nat, g).lemma_flatten_push(g(n - 1));
    }
}

/// Each file association names the language it came from: the table holds, language
/// by language in the order of the language table and path by path within each, the
/// row `(pattern, &LANGUAGES[i])` where `i` is the row of that same definition in the
/// language table, which holds one row per definition, in order.
pub proof fn lemma_associations_name_their_language(eps: Seq<Entrypoint>)
    ensures
        association_lines(eps, eps.len() as int) == Seq::new(
            eps.len(),
            |i: int| Seq::new(eps[i].paths@.len(), |j: int| association_row(eps[i].paths@[j]@, i)).flatten(),
        ).flatten(),
        language_lines(eps, eps.len() as int) == Seq::new(eps.len(), |i: int| language_line(eps[i])).flatten(),
{
    lemma_association_lines_rows(eps, eps.len() as int);
}

/// A lowercase hexadecimal digit.
pub open spec fn hex_lower(d: int) -> char {
    if d < 10 {
        (48 + d) as char
    } else {
        (87 + d) as char
    }
}

/// A byte as a table entry: `0x`, two lowercase hexadecimal digits and `, `.
pub open spec fn byte_entry(b: u8) -> Seq<char> {
    seq!['0', 'x', hex_lower(b as int / 16), hex_lower(b as int % 16), ',', ' ']
}

/// The entries of the `n` bytes of `ins` from `off` on.
pub open spec fn byte_entries(ins: Seq<u8>, off: int, n: int) -> Seq<char>
    decreases n,
{
    if n <= 0 {
        Seq::empty()
    } else {
        byte_entries(ins, off, n - 1) + byte_entry(ins[off + n - 1])
    }
}

/// Whether each instruction from `off` on can be decoded within `ins`.
pub open spec fn decodes_in_bounds(ins: Seq<u8>, off: int) -> bool
    decreases ins.len() - off,
{
    if off < 0 || off >= ins.len() {
        true
    } else {
        proof {
            assert(opcode_len(ins[off]) >= 1);
        }
        ins.len() - off >= opcode_len(ins[off]) && decodes_in_bounds(ins, off + opcode_len(ins[off]))
    }
}

/// The comment line before the instruction at `off` that starts an entry point.
pub open spec fn asm_label(eps: Seq<Entrypoint>, off: int) -> Seq<char> {
    match label_at(eps, eps.len() as int, off) {
        Some(l) => (if off != 0 {
            "\n"@
        } else {
            Seq::empty()
        }) + "    // "@ + l + ":\n"@,
        None => Seq::empty(),
    }
}

/// The row of the instruction at `off`: its bytes, then, where it is valid, its address
/// right-aligned to `width` and its mnemonic in a comment that lines up across rows.
pub open spec fn asm_row(ins: Seq<u8>, width: int, off: int) -> Seq<char> {
    let (instr, len) = decode_spec(ins.skip(off));
    "    "@ + byte_entries(ins, off, len) + match instr {
        Some(i) => spaces((17 - len) * 6) + "// "@ + spaces(width - decimal(off as nat).len()) + decimal(
            off as nat,
        ) + ":  "@ + i.mnemonic_spec(listing_config(false)) + "\n"@,
        None => "\n"@,
    }
}

/// The rows of the bytecode from `off` on, each entry point's label before its first
/// instruction.
#[verifier::opaque]
pub open spec fn asm_rows(ins: Seq<u8>, eps: Seq<Entrypoint>, width: int, off: int) -> Seq<char>
    decreases ins.len() - off,
{
    if off < 0 || off >= ins.len() {
        Seq::empty()
    } else {
        let len = opcode_len(ins[off]);
        asm_label(eps, off) + asm_row(ins, width, off) + if len > 0 && off + len <= ins.len() {
            asm_rows(ins, eps, width, off + len)
        } else {
            Seq::empty()
        }
    }
}

/// `n` rows of invalid opcodes.
pub open spec fn padding_rows(n: int) -> Seq<char>
    decreases n,
{
    if n <= 0 {
        Seq::empty()
    } else {
        padding_rows(n - 1) + "    0xff,\n"@
    }
}

/// Whether byte `b` is in `s`, as 1 or 0.
pub open spec fn member_bit(s: Set<u8>, b: int) -> int {
    if s.contains(b as u8) {
        1
    } else {
        0
    }
}

/// Hexadecimal digit `k` (counting from the lowest) of the serialized word `lo` of
/// the set `s`, whose bit `hi` says whether byte `hi * 16 + lo` is in `s`.
pub open spec fn word_nibble(s: Set<u8>, lo: int, k: int) -> int {
    member_bit(s, (4 * k) * 16 + lo) + 2 * member_bit(s, (4 * k + 1) * 16 + lo) + 4 * member_bit(
        s,
        (4 * k + 2) * 16 + lo,
    ) + 8 * member_bit(s, (4 * k + 3) * 16 + lo)
}

/// Serialized word `lo` of `s` as `0x` and four lowercase hexadecimal digits.
pub open spec fn word_text(s: Set<u8>, lo: int) -> Seq<char> {
    seq![
        '0',
        'x',
        hex_lower(word_nibble(s, lo, 3)),
        hex_lower(word_nibble(s, lo, 2)),
        hex_lower(word_nibble(s, lo, 1)),
        hex_lower(word_nibble(s, lo, 0)),
    ]
}

/// The first `n` serialized words of `s`, separated by `, `.
pub open spec fn words_text(s: Set<u8>, n: int) -> Seq<char>
    decreases n,
{
    if n <= 0 {
        Seq::empty()
    } else if n == 1 {
        word_text(s, 0)
    } else {
        words_text(s, n - 1) + ", "@ + word_text(s, n - 1)
    }
}

/// The rows of the first `n` charsets, each its sixteen serialized words.
pub open spec fn charset_rows(css: Seq<Charset>, n: int) -> Seq<char>
    decreases n,
{
    if n <= 0 || n > css.len() {
        Seq::empty()
    } else {
        charset_rows(css, n - 1) + "    ["@ + words_text(css[n - 1]@, 16) + "],\n"@
    }
}

/// The rows of the first `n` strings, each as `Debug` writes it.
pub open spec fn string_rows(strings: Seq<String>, n: int) -> Seq<char>
    decreases n,
{
    if n <= 0 || n > strings.len() {
        Seq::empty()
    } else {
        string_rows(strings, n - 1) + "    "@ + str_debug_text(strings[n - 1]@) + ",\n"@
    }
}

/// The Rust module for a compiled set of definitions.
pub open spec fn rust_module_spec(
    ins: Seq<u8>,
    eps: Seq<Entrypoint>,
    kinds: Seq<HighlightKind>,
    charsets: Seq<Charset>,
    strings: Seq<String>,
) -> Seq<char> {
    RUST_HEADER@ + kind_lines(kinds, kinds.len() as int, member_width(kinds, kinds.len() as int) as int) + "}\n"@
        + try_from_text(kinds) + LANGUAGES_HEAD@ + language_lines(eps, eps.len() as int) + TABLE_CLOSE@
        + ASSOCIATIONS_HEAD@ + association_lines(eps, eps.len() as int) + TABLE_CLOSE@ + ASSEMBLY_HEAD@ + decimal(
        (ins.len() + 17) as nat,
    ) + TABLE_OPEN@ + asm_rows(ins, eps, decimal(ins.len() as nat).len() as int, 0) + "\n    // padding\n"@
        + padding_rows(17) + TABLE_CLOSE@ + CHARSETS_HEAD@ + decimal(charsets.len() as nat) + TABLE_OPEN@
        + charset_rows(charsets, charsets.len() as int) + TABLE_CLOSE@ + STRINGS_HEAD@ + decimal(
        strings.len() as nat,
    ) + TABLE_OPEN@ + string_rows(strings, strings.len() as int) + TABLE_CLOSE@
}

/// A highlight kind as an enum member.
fn member_string(k: &HighlightKind) -> (r: String)
    ensures
        r@ == kind_member(*k),
{
    let c = k.fmt_camelcase().to_string();
    let s = join(c, " = ");
    let d = decimal_string(k.value as usize);
    let s = join(s, d.as_str());
    join(s, ",")
}

/// The members of the highlight kind enum, one line each, padded to the longest.
fn kind_section(kinds: &[HighlightKind]) -> (r: String)
    ensures
        r@ == kind_lines(kinds@, kinds@.len() as int, member_width(kinds@, kinds@.len() as int) as int),
{
    let mut members: Vec<String> = Vec::new();
    let mut width: usize = 0;
    let mut i: usize = 0;
    while i < kinds.len()
        invariant
            i <= kinds@.len(),
            members@.len() == i,
            forall|j: int| 0 <= j < i ==> #[trigger] members@[j]@ == kind_member(kinds@[j]),
            width as nat == member_width(kinds@, i as int),
        decreases kinds@.len() - i,
    {
        let m = member_string(&kinds[i]);
        let n = m.as_str().as_bytes().len();
        if n > width {
            width = n;
        }
        members.push(m);
        i += 1;
    }
    let mut out = String::new();
    let mut i: usize = 0;
    while i < kinds.len()
        invariant
            i <= kinds@.len(),
            members@.len() == kinds@.len(),
            forall|j: int| 0 <= j < kinds@.len() ==> #[trigger] members@[j]@ == kind_member(kinds@[j]),
            out@ == kind_lines(kinds@, i as int, width as int),
        decreases kinds@.len() - i,
    {
        let ghost o0 = out@;
        let member = members[i].as_str();
        out = join(out, "    ");
        out = join(out, member);
        let n = chars_of(member).len();
        if n < width {
            push_spaces(&mut out, width - n);
        }
        out = join(out, " // ");
        out = join(out, kinds[i].identifier.as_str());
        out = join(out, "\n");
        proof {
            if !(n < width) {
                assert(spaces(width - n) =~= Seq::<char>::empty());
            }
        }
        assert(out@ =~= o0 + kind_line(kinds@[i as int], width as int));
        i += 1;
    }
    out
}

/// The conversion from `u32` to a highlight kind.
fn try_from_section(kinds: &[HighlightKind]) -> (r: String)
    ensures
        r@ == try_from_text(kinds@),
{
    if kinds.len() == 0 {
        return String::new();
    }
    let c = kinds[kinds.len() - 1].fmt_camelcase().to_string();
    let s = join(text(TRY_FROM_HEAD), c.as_str());
    join(s, TRY_FROM_TAIL)
}

/// `s` with every `_` written as `-`.
fn dashed_string(s: &str) -> (r: String)
    ensures
        r@ == dashed(s@),
{
    let cs = chars_of(s);
    let mut out = String::new();
    let mut i: usize = 0;
    while i < cs.len()
        invariant
            cs@ == s@,
            i <= cs@.len(),
            out@ == dashed(s@).take(i as int),
        decreases cs@.len() - i,
    {
        let c = if cs[i] == '_' {
            '-'
        } else {
            cs[i]
        };
        push_char(&mut out, c);
        i += 1;
        assert(out@ =~= dashed(s@).take(i as int));
    }
    assert(dashed(s@).take(cs@.len() as int) =~= dashed(s@));
    out
}

/// The rows of the language table.
fn language_section(eps: &[Entrypoint]) -> (r: String)
    ensures
        r@ == language_lines(eps@, eps@.len() as int),
{
    let mut out = String::new();
    let mut i: usize = 0;
    while i < eps.len()
        invariant
            i <= eps@.len(),
            out@ == language_lines(eps@, i as int),
        decreases eps@.len() - i,
    {
        let ghost o0 = out@;
        let ep = &eps[i];
        out = join(out, "    Language { id: ");
        let id = dashed_string(ep.name.as_str());
        let id = str_debug(id.as_str());
        out = join(out, id.as_str());
        out = join(out, ", name: ");
        let name = str_debug(ep.display_name.as_str());
        out = join(out, name.as_str());
        out = join(out, ", entrypoint: ");
        let addr = decimal_string(ep.address);
        out = join(out, addr.as_str());
        out = join(out, " },\n");
        assert(out@ =~= o0 + language_line(eps@[i as int]));
        i += 1;
    }
    out
}

/// The rows of the file association table.
fn association_section(eps: &[Entrypoint]) -> (r: String)
    ensures
        r@ == association_lines(eps@, eps@.len() as int),
{
    let mut out = String::new();
    let mut i: usize = 0;
    while i < eps.len()
        invariant
            i <= eps@.len(),
            out@ == association_lines(eps@, i as int),
        decreases eps@.len() - i,
    {
        let ghost o0 = out@;
        let paths = &eps[i].paths;
        let idx = decimal_string(i);
        let mut j: usize = 0;
        while j < paths.len()
            invariant
                i < eps@.len(),
                *paths == eps@[i as int].paths,
                j <= paths@.len(),
                idx@ == decimal(i as nat),
                out@ == o0 + path_lines(paths@, i as int, j as int),
            decreases paths@.len() - j,
        {
            let ghost o1 = out@;
            out = join(out, "    (");
            let p = str_debug(paths[j].as_str());
            out = join(out, p.as_str());
            out = join(out, ", &LANGUAGES[");
            out = join(out, idx.as_str());
            out = join(out, "]),\n");
            assert(out@ =~= o0 + path_lines(paths@, i as int, j + 1));
            j += 1;
        }
        i += 1;
    }
    out
}

/// `out` followed by byte `b` as a table entry.
fn push_byte_entry(out: &mut String, b: u8)
    ensures
        final(out)@ == old(out)@ + byte_entry(b),
{
    let ghost o0 = out@;
    let hi = b / 16;
    let lo = b % 16;
    push_char(out, '0');
    push_char(out, 'x');
    push_char(out, if hi < 10 { (48 + hi) as char } else { (87 + hi) as char });
    push_char(out, if lo < 10 { (48 + lo) as char } else { (87 + lo) as char });
    push_char(out, ',');
    push_char(out, ' ');
    assert(out@ =~= o0 + byte_entry(b));
}

/// The label line before the instruction at `off`.
fn asm_label_line(eps: &[Entrypoint], off: usize) -> (r: String)
    ensures
        r@ == asm_label(eps@, off as int),
{
    let mut out = String::new();
    match find_label(eps, off) {
        Some(label) => {
            if off != 0 {
                out = join(out, "\n");
            }
            out = join(out, "    // ");
            out = join(out, label);
            out = join(out, ":\n");
        },
        None => {},
    }
    out
}

/// The row of the instruction at `off`, and the length of the instruction.
#[verifier::spinoff_prover]
#[verifier::rlimit(30)]
fn asm_row_line(instructions: &[u8], width: usize, off: usize) -> (r: (String, usize))
    requires
        off < instructions@.len(),
        instructions@.len() - off >= opcode_len(instructions@[off as int]),
    ensures
        r.0@ == asm_row(instructions@, width as int, off as int),
        r.1 == opcode_len(instructions@[off as int]),
{
    let ghost ins = instructions@;
    let rest = vstd::slice::slice_subrange(instructions, off, instructions.len());
    assert(rest@ =~= ins.skip(off as int));
    let (instr, n) = Instruction::decode(rest);
    let mut out = String::new();
    out = join(out, "    ");
    let mut k: usize = 0;
    while k < n
        invariant
            ins == instructions@,
            ins.len() == instructions.len(),
            n == opcode_len(ins[off as int]),
            off + n <= ins.len(),
            k <= n,
            out@ == "    "@ + byte_entries(ins, off as int, k as int),
        decreases n - k,
    {
        push_byte_entry(&mut out, instructions[off + k]);
        k += 1;
    }
    match instr {
        Some(i) => {
            let ghost o1 = out@;
            let pad = if n < 17 { (17 - n) * 6 } else { 0 };
            push_spaces(&mut out, pad);
            out = join(out, "// ");
            let d = decimal_string(off);
            let d_len = chars_of(d.as_str()).len();
            if d_len < width {
                push_spaces(&mut out, width - d_len);
            }
            out = join(out, d.as_str());
            out = join(out, ":  ");
            let config = MnemonicFormattingConfig {
                instruction_prefix: "",
                instruction_suffix: "",
                register_prefix: "",
                register_suffix: "",
                address_prefix: "",
                address_suffix: "",
                numeric_prefix: "",
                numeric_suffix: "",
            };
            let mnemonic = i.mnemonic(&config);
            out = join(out, mnemonic.as_str());
            out = join(out, "\n");
            proof {
                if !(n < 17) {
                    assert(spaces((17 - n) * 6) =~= Seq::<char>::empty());
                    assert(spaces(0) =~= Seq::<char>::empty());
                }
                if !(d_len < width) {
                    assert(spaces(width - d_len) =~= Seq::<char>::empty());
                }
            }
            assert(out@ =~= asm_row(ins, width as int, off as int));
        },
        None => {
            out = join(out, "\n");
        },
    }
    (out, n)
}

/// One step of the bytecode rows.
proof fn lemma_asm_step(ins: Seq<u8>, eps: Seq<Entrypoint>, width: int, off: int)
    requires
        0 <= off < ins.len(),
        ins.len() - off >= opcode_len(ins[off]),
    ensures
        asm_rows(ins, eps, width, off) == asm_label(eps, off) + asm_row(ins, width, off) + asm_rows(
            ins,
            eps,
            width,
            off + opcode_len(ins[off]),
        ),
{
    reveal(asm_rows);
}

/// Past the end there are no rows.
proof fn lemma_asm_end(ins: Seq<u8>, eps: Seq<Entrypoint>, width: int, off: int)
    requires
        off >= ins.len(),
    ensures
        asm_rows(ins, eps, width, off) == Seq::<char>::empty(),
{
    reveal(asm_rows);
}

/// The rows of the bytecode table.
fn asm_section(instructions: &[u8], entrypoints: &[Entrypoint]) -> (r: String)
    requires
        decodes_in_bounds(instructions@, 0),
    ensures
        r@ == asm_rows(instructions@, entrypoints@, decimal(instructions@.len() as nat).len() as int, 0),
{
    let ghost ins = instructions@;
    let ghost eps = entrypoints@;
    let ghost width = decimal(ins.len() as nat).len() as int;
    let width_s = decimal_string(instructions.len());
    let line_num_width = chars_of(width_s.as_str()).len();
    let len = instructions.len();
    let mut out = String::new();
    let mut off: usize = 0;
    while off < len
        invariant
            len == ins.len(),
            ins == instructions@,
            eps == entrypoints@,
            line_num_width == width,
            decodes_in_bounds(ins, off as int),
            out@ + asm_rows(ins, eps, width, off as int) == asm_rows(ins, eps, width, 0),
        decreases len - off,
    {
        proof {
            reveal_with_fuel(decodes_in_bounds, 1);
            lemma_asm_step(ins, eps, width, off as int);
        }
        let ghost o0 = out@;
        let label = asm_label_line(entrypoints, off);
        out = join(out, label.as_str());
        let (row, n) = asm_row_line(instructions, line_num_width, off);
        out = join(out, row.as_str());
        off += n;
        assert(out@ =~= o0 + asm_label(eps, off - n) + asm_row(ins, width, off - n));
    }
    proof {
        lemma_asm_end(ins, eps, width, off as int);
    }
    assert(out@ =~= out@ + Seq::<char>::empty());
    out
}

/// The rows of invalid opcodes after the bytecode.
fn padding_section() -> (r: String)
    ensures
        r@ == padding_rows(17),
{
    let mut out = String::new();
    let mut k: usize = 0;
    while k < 17
        invariant
            k <= 17,
            out@ == padding_rows(k as int),
        decreases 17 - k,
    {
        out = join(out, "    0xff,\n");
        k += 1;
    }
    out
}

/// Word `w` as `0x` and four lowercase hexadecimal digits.
pub open spec fn word16_text(w: u16) -> Seq<char> {
    seq![
        '0',
        'x',
        hex_lower(((w >> 12u16) & 0xfu16) as int),
        hex_lower(((w >> 8u16) & 0xfu16) as int),
        hex_lower(((w >> 4u16) & 0xfu16) as int),
        hex_lower((w & 0xfu16) as int),
    ]
}

/// A lowercase hexadecimal digit.
fn hex_char(d: u16) -> (r: char)
    requires
        d < 16,
    ensures
        r == hex_lower(d as int),
{
    let d = d as u8;
    if d < 10 {
        (48 + d) as char
    } else {
        (87 + d) as char
    }
}

/// `out` followed by word `w` in hexadecimal.
fn push_word(out: &mut String, w: u16)
    ensures
        final(out)@ == old(out)@ + word16_text(w),
{
    let ghost o0 = out@;
    push_char(out, '0');
    push_char(out, 'x');
    assert(((w >> 12u16) & 0xfu16) < 16) by (bit_vector);
    assert(((w >> 8u16) & 0xfu16) < 16) by (bit_vector);
    assert(((w >> 4u16) & 0xfu16) < 16) by (bit_vector);
    assert((w & 0xfu16) < 16) by (bit_vector);
    push_char(out, hex_char((w >> 12u16) & 0xfu16));
    push_char(out, hex_char((w >> 8u16) & 0xfu16));
    push_char(out, hex_char((w >> 4u16) & 0xfu16));
    push_char(out, hex_char(w & 0xfu16));
    assert(out@ =~= o0 + word16_text(w));
}

/// Each hexadecimal digit of a word is the sum of its four bits.
proof fn lemma_nibbles(w: u16)
    by (bit_vector)
    ensures
        (w & 0xfu16) == ((w >> 0u16) & 1u16) + 2 * ((w >> 1u16) & 1u16) + 4 * ((w >> 2u16) & 1u16) + 8 * ((w
            >> 3u16) & 1u16),
        ((w >> 4u16) & 0xfu16) == ((w >> 4u16) & 1u16) + 2 * ((w >> 5u16) & 1u16) + 4 * ((w >> 6u16) & 1u16)
            + 8 * ((w >> 7u16) & 1u16),
        ((w >> 8u16) & 0xfu16) == ((w >> 8u16) & 1u16) + 2 * ((w >> 9u16) & 1u16) + 4 * ((w >> 10u16) & 1u16)
            + 8 * ((w >> 11u16) & 1u16),
        ((w >> 12u16) & 0xfu16) == ((w >> 12u16) & 1u16) + 2 * ((w >> 13u16) & 1u16) + 4 * ((w >> 14u16)
            & 1u16) + 8 * ((w >> 15u16) & 1u16),
{
}

/// A bit is 0 or 1.
proof fn lemma_bit(w: u16, i: u16)
    by (bit_vector)
    ensures
        (w >> i) & 1u16 <= 1u16,
{
}

/// A serialized word, written in hexadecimal, shows which bytes are in the set.
proof fn lemma_word_text(w: u16, s: Set<u8>, lo: u16)
    requires
        lo < 16,
        forall|hi: u16| hi < 16 ==> #[trigger] word16_has(w, hi) == s.contains((hi * 16 + lo) as u8),
    ensures
        word16_text(w) == word_text(s, lo as int),
{
    assert forall|i: u16| i < 16 implies (#[trigger] ((w >> i) & 1u16)) as int == member_bit(
        s,
        i * 16 + lo,
    ) by {
        lemma_bit(w, i);
        assert(word16_has(w, i) == s.contains((i * 16 + lo) as u8));
    }
    lemma_nibbles(w);
    assert(word16_text(w) =~= word_text(s, lo as int));
}

/// The rows of the charset table.
fn charset_section(charsets: &[Charset]) -> (r: String)
    ensures
        r@ == charset_rows(charsets@, charsets@.len() as int),
{
    let mut out = String::new();
    let mut i: usize = 0;
    while i < charsets.len()
        invariant
            i <= charsets@.len(),
            out@ == charset_rows(charsets@, i as int),
        decreases charsets@.len() - i,
    {
        let ghost o0 = out@;
        let ghost set = charsets@[i as int]@;
        let words = charsets[i].serialize();
        out = join(out, "    [");
        let mut lo: usize = 0;
        while lo < 16
            invariant
                lo <= 16,
                i < charsets@.len(),
                set == charsets@[i as int]@,
                forall|l: u16, h: u16| l < 16 && h < 16 ==> #[trigger] word16_has(words[l as int], h)
                    == set.contains((h * 16 + l) as u8),
                out@ == o0 + "    ["@ + words_text(set, lo as int),
            decreases 16 - lo,
        {
            let ghost o1 = out@;
            if lo != 0 {
                out = join(out, ", ");
            }
            let w = words[lo];
            proof {
                let l = lo as u16;
                assert forall|hi: u16| hi < 16 implies #[trigger] word16_has(w, hi) == set.contains(
                    (hi * 16 + l) as u8,
                ) by {
                    assert(word16_has(words[l as int], hi) == set.contains((hi * 16 + l) as u8));
                }
                lemma_word_text(w, set, l);
            }
            push_word(&mut out, w);
            assert(out@ =~= o0 + "    ["@ + words_text(set, lo + 1));
            lo += 1;
        }
        out = join(out, "],\n");
        assert(out@ =~= o0 + ("    ["@ + words_text(set, 16) + "],\n"@));
        i += 1;
    }
    out
}

/// The rows of the string table.
fn string_section(strings: &[String]) -> (r: String)
    ensures
        r@ == string_rows(strings@, strings@.len() as int),
{
    let mut out = String::new();
    let mut i: usize = 0;
    while i < strings.len()
        invariant
            i <= strings@.len(),
            out@ == string_rows(strings@, i as int),
        decreases strings@.len() - i,
    {
        let ghost o0 = out@;
        out = join(out, "    ");
        let d = str_debug(strings[i].as_str());
        out = join(out, d.as_str());
        out = join(out, ",\n");
        assert(out@ =~= o0 + "    "@ + str_debug_text(strings@[i as int]@) + ",\n"@);
        i += 1;
    }
    out
}

/// The Rust module that `lshc compile` writes for a compiled set of definitions: the
/// highlight kinds as an enum with a conversion from `u32`, the languages and the file
/// patterns that select them, and the bytecode (each row commented with its address and
/// mnemonic, then padded with invalid opcodes), the charsets and the strings as static
/// tables.
pub fn rust_module(
    instructions: &[u8],
    entrypoints: &[Entrypoint],
    highlight_kinds: &[HighlightKind],
    charsets: &[Charset],
    strings: &[String],
) -> (r: String)
    requires
        decodes_in_bounds(instructions@, 0),
        instructions@.len() + 17 <= usize::MAX,
    ensures
        r@ == rust_module_spec(instructions@, entrypoints@, highlight_kinds@, charsets@, strings@),
{
    let mut out = text(RUST_HEADER);
    let kinds = kind_section(highlight_kinds);
    out = join(out, kinds.as_str());
    out = join(out, "}\n");
    let conv = try_from_section(highlight_kinds);
    out = join(out, conv.as_str());
    out = join(out, LANGUAGES_HEAD);
    let langs = language_section(entrypoints);
    out = join(out, langs.as_str());
    out = join(out, TABLE_CLOSE);
    out = join(out, ASSOCIATIONS_HEAD);
    let assoc = association_section(entrypoints);
    out = join(out, assoc.as_str());
    out = join(out, TABLE_CLOSE);
    out = join(out, ASSEMBLY_HEAD);
    let total = decimal_string(instructions.len() + 17);
    out = join(out, total.as_str());
    out = join(out, TABLE_OPEN);
    let rows = asm_section(instructions, entrypoints);
    out = join(out, rows.as_str());
    out = join(out, "\n    // padding\n");
    let padding = padding_section();
    out = join(out, padding.as_str());
    out = join(out, TABLE_CLOSE);
    out = join(out, CHARSETS_HEAD);
    let ncs = decimal_string(charsets.len());
    out = join(out, ncs.as_str());
    out = join(out, TABLE_OPEN);
    let css = charset_section(charsets);
    out = join(out, css.as_str());
    out = join(out, TABLE_CLOSE);
    out = join(out, STRINGS_HEAD);
    let nstr = decimal_string(strings.len());
    out = join(out, nstr.as_str());
    out = join(out, TABLE_OPEN);
    let strs = string_section(strings);
    out = join(out, strs.as_str());
    out = join(out, TABLE_CLOSE);
    assert(out@ =~= rust_module_spec(instructions@, entrypoints@, highlight_kinds@, charsets@, strings@));
    out
}

} // verus!
