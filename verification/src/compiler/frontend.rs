//! Frontend: DSL source code -> IR graph.
//!
//! - Variables are in SSA-ish form: `var x = off; x = x + 1;` creates a new vreg for the
//!   second `x`. But the variable *name* still maps to the new vreg, so later reads see it.
//! - Physical registers (off, etc.) don't follow SSA. Reading them doesn't create a vreg;
//!   `parse_expression` copies them to a fresh vreg.
//! - Errors are reported at the position last marked as the start of a token.

use vstd::prelude::*;
use vstd::string::StringSliceAdditionalSpecFns;
use vstd::utf8::{char_is_scalar, valid_utf8, is_char_boundary, is_continuation_byte, encode_utf8_valid_utf8,
    is_char_boundary_iff_not_is_continuation_byte, is_char_boundary_start_end_of_seq,
    length_of_first_scalar, pop_first_scalar, valid_utf8_split, encode_utf8};
use super::CompileError;
use super::charset::Charset;
use super::index_vec::IndexType;
use super::ir::{Program, HighlightKind, Node, NodeId, RegId, Op, Condition, ComparisonOp, Fragment, Function,
    FunctionAttributes, id_ok, grows, lemma_grows_trans, kinds_sorted};
use super::regex;
use crate::runtime::{Register, REGISTER_COUNT};
use crate::text::{text, join, str_eq, decimal_string, push_char};

verus! {

/// Whether `x` is ASCII whitespace as `trim_ascii_start` sees it.
pub open spec fn is_ws(x: u8) -> bool {
    x == 32 || x == 9 || x == 10 || x == 12 || x == 13
}

/// The position after the whitespace at `i`.
pub open spec fn ws_end(b: Seq<u8>, i: int) -> int
    decreases b.len() - i,
{
    if 0 <= i < b.len() && is_ws(b[i]) {
        ws_end(b, i + 1)
    } else {
        i
    }
}

/// The position of the first line feed at or after `i`, or the end.
pub open spec fn line_end(b: Seq<u8>, i: int) -> int
    decreases b.len() - i,
{
    if 0 <= i < b.len() && b[i] != 10 {
        line_end(b, i + 1)
    } else if i < 0 {
        i
    } else {
        if i < b.len() { i } else { b.len() as int }
    }
}

/// The position after the whitespace and `//` comments at `i`.
pub open spec fn skip_spec(b: Seq<u8>, i: int) -> int
    decreases b.len() - i,
{
    let t = ws_end(b, i);
    if 0 <= i <= t && t + 1 < b.len() && b[t] == 47 && b[t + 1] == 47 {
        let n = line_end(b, t + 2);
        if t < n <= b.len() {
            skip_spec(b, n)
        } else {
            n
        }
    } else {
        t
    }
}

/// Whether `x` can start an identifier.
pub open spec fn is_ident_start(x: u8) -> bool {
    (65 <= x <= 90) || (97 <= x <= 122) || x == 95
}

/// Whether `x` can continue an identifier.
pub open spec fn is_ident_char(x: u8) -> bool {
    is_ident_start(x) || (48 <= x <= 57) || x == 46
}

/// The position after the identifier characters at `i`.
pub open spec fn ident_end(b: Seq<u8>, i: int) -> int
    decreases b.len() - i,
{
    if 0 <= i < b.len() && is_ident_char(b[i]) {
        ident_end(b, i + 1)
    } else {
        i
    }
}

/// The position after the ASCII digits at `i`.
pub open spec fn digits_end(b: Seq<u8>, i: int) -> int
    decreases b.len() - i,
{
    if 0 <= i < b.len() && 48 <= b[i] <= 57 {
        digits_end(b, i + 1)
    } else {
        i
    }
}

/// The position of the first `d` at or after `i` that no backslash escapes, or the end.
pub open spec fn delim_end(b: Seq<u8>, i: int, d: u8) -> int
    decreases b.len() + 1 - i,
{
    if i < 0 || i >= b.len() {
        b.len() as int
    } else if b[i] == 92 {
        delim_end(b, i + 2, d)
    } else if b[i] == d {
        i
    } else {
        delim_end(b, i + 1, d)
    }
}

/// The number of line feeds in `b`.
pub open spec fn newlines(b: Seq<u8>) -> nat
    decreases b.len(),
{
    if b.len() == 0 {
        0
    } else {
        newlines(b.drop_last()) + if b.last() == 10 { 1nat } else { 0nat }
    }
}

/// The number of bytes after the last line feed of `b`, or all of them.
pub open spec fn line_tail(b: Seq<u8>) -> nat
    decreases b.len(),
{
    if b.len() == 0 {
        0
    } else if b.last() == 10 {
        0
    } else {
        line_tail(b.drop_last()) + 1
    }
}

/// Whether position `i` of `b` is the end or holds an ASCII byte.
pub open spec fn ascii_at(b: Seq<u8>, i: int) -> bool {
    i == b.len() || (0 <= i < b.len() && b[i] < 128)
}

proof fn lemma_boundary_ascii(b: Seq<u8>, i: int)
    requires
        valid_utf8(b),
        ascii_at(b, i),
    ensures
        is_char_boundary(b, i),
{
    if i == b.len() {
        is_char_boundary_start_end_of_seq(b);
    } else {
        is_char_boundary_iff_not_is_continuation_byte(b, i);
    }
}

proof fn lemma_boundary_after_ascii(b: Seq<u8>, i: int)
    requires
        valid_utf8(b),
        0 < i <= b.len(),
        b[i - 1] < 128,
    ensures
        is_char_boundary(b, i),
{
    lemma_boundary_ascii(b, i - 1);
    lemma_boundary_after_ascii_rec(b, i);
}

proof fn lemma_boundary_after_ascii_rec(b: Seq<u8>, i: int)
    requires
        valid_utf8(b),
        0 < i <= b.len(),
        b[i - 1] < 128,
        is_char_boundary(b, i - 1),
    ensures
        is_char_boundary(b, i),
    decreases b.len(),
{
    reveal_with_fuel(is_char_boundary, 2);
    reveal_with_fuel(valid_utf8, 2);
    let l = length_of_first_scalar(b);
    let p = pop_first_scalar(b);
    if i - 1 == 0 {
        assert(l == 1);
        assert(is_char_boundary(p, 0));
    } else {
        assert(1 <= l <= 4);
        assert(p.len() == b.len() - l);
        assert(is_char_boundary(p, i - 1 - l));
        assert(i - 1 - l >= 0);
        assert(p[i - 1 - l] == b[i - 1]);
        lemma_boundary_after_ascii_rec(p, i - l);
    }
}

/// The first bytes of the keywords that start statements up to `if`, which tell them
/// apart.
proof fn lemma_statement_keywords()
    ensures
        "var".spec_bytes().len() == 3 && "var".spec_bytes()[0] == 118,
        "loop".spec_bytes().len() == 4 && "loop".spec_bytes()[0] == 108,
        "until".spec_bytes().len() == 5 && "until".spec_bytes()[0] == 117,
        "break".spec_bytes().len() == 5 && "break".spec_bytes()[0] == 98,
        "continue".spec_bytes().len() == 8 && "continue".spec_bytes()[0] == 99,
        "return".spec_bytes().len() == 6 && "return".spec_bytes()[0] == 114,
        "if".spec_bytes().len() == 2 && "if".spec_bytes()[0] == 105,
{
    broadcast use vstd::string::is_ascii_spec_bytes;

    reveal_strlit("var");
    reveal_strlit("loop");
    reveal_strlit("until");
    reveal_strlit("break");
    reveal_strlit("continue");
    reveal_strlit("return");
    reveal_strlit("if");
    assert(vstd::string::is_ascii("return"));
    assert(vstd::string::is_ascii("if"));
    assert(vstd::string::is_ascii("var"));
    assert(vstd::string::is_ascii("loop"));
    assert(vstd::string::is_ascii("until"));
    assert(vstd::string::is_ascii("break"));
    assert(vstd::string::is_ascii("continue"));
}

/// A `break` or `continue` starts with `b` or `c`.
proof fn lemma_loop_control_first(b: Seq<u8>, t: int)
    requires
        0 <= t,
        loop_control_at(b, t) is Some,
    ensures
        t < b.len(),
        b[t] == 98 || b[t] == 99,
{
    lemma_statement_keywords();
    if keyword_at(b, t, "break".spec_bytes()) {
        assert(b.subrange(t, t + 5)[0] == b[t]);
    } else {
        assert(b.subrange(t, t + 8)[0] == b[t]);
    }
}

/// The characters from `i` up to the end of the identifier there are identifier
/// characters.
proof fn lemma_ident_chars(b: Seq<u8>, i: int, k: int)
    requires
        0 <= i <= k < ident_end(b, i),
    ensures
        k < b.len(),
        is_ident_char(b[k]),
    decreases b.len() - i,
{
    if 0 <= i < b.len() && is_ident_char(b[i]) {
        if k > i {
            lemma_ident_chars(b, i + 1, k);
        }
    }
}

/// An identifier ends at or after where it starts, and within the text.
proof fn lemma_ident_end_bounds(b: Seq<u8>, i: int)
    requires
        0 <= i <= b.len(),
    ensures
        i <= ident_end(b, i) <= b.len(),
    decreases b.len() - i,
{
    if i < b.len() && is_ident_char(b[i]) {
        lemma_ident_end_bounds(b, i + 1);
    }
}

/// The text of an identifier whose bytes a string holds is that string.
proof fn lemma_ident_text(b: Seq<u8>, t: int, name: Seq<char>)
    requires
        0 <= t <= b.len(),
        encode_utf8(name) == b.subrange(t, ident_end(b, t)),
    ensures
        name == ident_text(b, t),
{
    lemma_ident_end_bounds(b, t);
    let bs = b.subrange(t, ident_end(b, t));
    let cs = ident_text(b, t);
    assert forall|i: int| 0 <= i < cs.len() implies '\0' <= #[trigger] cs[i] <= '\u{7f}' by {
        lemma_ident_chars(b, t, t + i);
        assert(cs[i] == (b[t + i] as char));
    }
    vstd::utf8::is_ascii_chars_encode_utf8(cs);
    assert(encode_utf8(cs) =~= bs);
    crate::text::lemma_utf8_injective(name, cs);
}

/// An `if` starts with `i`.
proof fn lemma_if_first(b: Seq<u8>, vars: Seq<(&str, RegId)>, t: int)
    requires
        0 <= t,
        if_unknown_at(b, vars, t) is Some,
    ensures
        t < b.len(),
        b[t] == 105,
{
    lemma_statement_keywords();
    assert(b.subrange(t, t + 2)[0] == b[t]);
}

/// The bytes of the operators that follow an identifier in a statement.
proof fn lemma_operator_bytes()
    ensures
        "==".spec_bytes() == seq![61u8, 61u8],
        "+=".spec_bytes() == seq![43u8, 61u8],
{
    broadcast use vstd::string::is_ascii_spec_bytes;

    reveal_strlit("==");
    reveal_strlit("+=");
    assert(vstd::string::is_ascii("=="));
    assert(vstd::string::is_ascii("+="));
    assert("==".spec_bytes() =~= seq![61u8, 61u8]);
    assert("+=".spec_bytes() =~= seq![43u8, 61u8]);
}

/// Where no variable from `i` on before `k` has the name, the search from `i` goes on
/// to `k`.
proof fn lemma_variable_index_skip(vars: Seq<(&str, RegId)>, name: Seq<char>, i: int, k: int)
    requires
        0 <= i <= k <= vars.len(),
        forall|j: int| i <= j < k ==> (#[trigger] vars[j]).0@ != name,
    ensures
        variable_index(vars, name, i) == variable_index(vars, name, k),
    decreases k - i,
{
    if i < k {
        lemma_variable_index_skip(vars, name, i + 1, k);
    }
}

/// Where the search from `i` finds a variable at `k`, none before it has the name.
proof fn lemma_variable_index_found(vars: Seq<(&str, RegId)>, name: Seq<char>, i: int)
    requires
        0 <= i <= vars.len(),
    ensures
        i <= variable_index(vars, name, i) <= vars.len(),
        forall|j: int| i <= j < variable_index(vars, name, i) ==> (#[trigger] vars[j]).0@ != name,
        variable_index(vars, name, i) < vars.len() ==> vars[variable_index(vars, name, i)].0@ == name,
    decreases vars.len() - i,
{
    if i < vars.len() && vars[i].0@ != name {
        lemma_variable_index_found(vars, name, i + 1);
    }
}

/// A variable just bound names the register it was bound to.
proof fn lemma_bind_variable(vars: Seq<(&str, RegId)>, name: &str, reg: RegId)
    ensures
        variable_of(bind_variable(vars, name, reg), name@) == Some(reg),
{
    let i = variable_index(vars, name@, 0);
    lemma_variable_index_found(vars, name@, 0);
    let w = bind_variable(vars, name, reg);
    assert forall|j: int| 0 <= j < i implies (#[trigger] w[j]).0@ != name@ by {
        assert(w[j] == vars[j]);
    }
    lemma_variable_index_skip(w, name@, 0, i);
}

/// The bytes of the comparison operators.
proof fn lemma_comparison_bytes()
    ensures
        "==".spec_bytes() == seq![61u8, 61u8],
        "!=".spec_bytes() == seq![33u8, 61u8],
        "<=".spec_bytes() == seq![60u8, 61u8],
        ">=".spec_bytes() == seq![62u8, 61u8],
        "<".spec_bytes() == seq![60u8],
        ">".spec_bytes() == seq![62u8],
{
    broadcast use vstd::string::is_ascii_spec_bytes;

    reveal_strlit("==");
    reveal_strlit("!=");
    reveal_strlit("<=");
    reveal_strlit(">=");
    reveal_strlit("<");
    reveal_strlit(">");
    assert(vstd::string::is_ascii("=="));
    assert(vstd::string::is_ascii("!="));
    assert(vstd::string::is_ascii("<="));
    assert(vstd::string::is_ascii(">="));
    assert(vstd::string::is_ascii("<"));
    assert(vstd::string::is_ascii(">"));
    assert("==".spec_bytes() =~= seq![61u8, 61u8]);
    assert("!=".spec_bytes() =~= seq![33u8, 61u8]);
    assert("<=".spec_bytes() =~= seq![60u8, 61u8]);
    assert(">=".spec_bytes() =~= seq![62u8, 61u8]);
    assert("<".spec_bytes() =~= seq![60u8]);
    assert(">".spec_bytes() =~= seq![62u8]);
}

/// A nonempty text has nonempty bytes.
proof fn lemma_nonempty_bytes(s: &str)
    requires
        s@.len() > 0,
    ensures
        s.spec_bytes().len() > 0,
{
    char_is_scalar(s@[0]);
}

/// The part of `s` between the byte offsets `start` and `end`, which lie on
/// character boundaries.
fn substr<'a>(s: &'a str, start: usize, end: usize) -> (r: &'a str)
    requires
        start <= end <= s.spec_bytes().len(),
        is_char_boundary(s.spec_bytes(), start as int),
        is_char_boundary(s.spec_bytes(), end as int),
    ensures
        r.spec_bytes() == s.spec_bytes().subrange(start as int, end as int),
{
    proof {
        encode_utf8_valid_utf8(s@);
    }
    let (_, tail) = s.split_at(start);
    let ghost b = s.spec_bytes();
    let ghost t = b.subrange(start as int, b.len() as int);
    proof {
        valid_utf8_split(b, start as int);
        if end < b.len() {
            is_char_boundary_iff_not_is_continuation_byte(b, end as int);
            is_char_boundary_iff_not_is_continuation_byte(t, end - start);
            assert(t[end - start] == b[end as int]);
        } else {
            is_char_boundary_start_end_of_seq(t);
        }
    }
    let (mid, _) = tail.split_at(end - start);
    assert(mid.spec_bytes() =~= b.subrange(start as int, end as int));
    mid
}

/// A regex condition: its entry node, the nodes it leads to on a match and on a
/// failure, and its capture groups.
struct RegexSpan {
    src: NodeId,
    dst_good: NodeId,
    dst_bad: NodeId,
    capture_groups: Vec<(RegId, RegId)>,
}

/// Whether `new` keeps every id of `old`: nodes, charsets, strings and registers are
/// only added, and the functions are the same.
pub open spec fn keeps(old: Program, new: Program) -> bool {
    &&& old.graph.view().len() <= new.graph.view().len()
    &&& old.charsets.view().len() <= new.charsets.view().len()
    &&& old.strings.view().len() <= new.strings.view().len()
    &&& old.register_count <= new.register_count
    &&& new.functions == old.functions
}

/// What the statements of a block can refer to: the enclosing loop, and the capture
/// groups of the enclosing regex condition.
struct Context {
    loop_start: Option<NodeId>,
    loop_exit: Option<NodeId>,
    capture_groups: Vec<(RegId, RegId)>,
}

/// The parser of one definitions file, which adds its functions to a program.
pub struct Parser<'c, 'src> {
    program: &'c mut Program,
    path: &'src str,
    src: &'src str,
    pos: usize,
    token_start: usize,
    context: Vec<Context>,
    variables: Vec<(&'src str, RegId)>,
}

/// Whether the ids and registers of `ctx` exist in `p`.
spec fn context_ok(p: Program, ctx: Context) -> bool {
    &&& (ctx.loop_start matches Some(n) ==> id_ok(n, p.graph.view().len()))
    &&& (ctx.loop_exit matches Some(n) ==> id_ok(n, p.graph.view().len()))
    &&& forall|i: int| 0 <= i < ctx.capture_groups@.len() ==> p.reg_ok((#[trigger] ctx.capture_groups@[i]).0)
        && p.reg_ok(ctx.capture_groups@[i].1)
}

impl<'c, 'src> Parser<'c, 'src> {
    /// The source text's bytes.
    pub closed spec fn bytes(&self) -> Seq<u8> {
        self.src.spec_bytes()
    }

    /// The current byte offset.
    pub closed spec fn position_spec(&self) -> nat {
        self.pos as nat
    }

    /// The program being added to.
    pub closed spec fn program_spec(&self) -> Program {
        *self.program
    }

    /// The path the source was read from.
    pub closed spec fn path_spec(&self) -> Seq<char> {
        self.path@
    }

    /// The reference to the program being added to.
    /// Where the identifier after the current position stands, if it names no variable.
    pub closed spec fn unknown_ident_at(&self) -> Option<int> {
        let b = self.bytes();
        let t = skip_spec(b, self.pos as int);
        if unknown_ident(b, self.variables@, t) {
            Some(t)
        } else {
            None
        }
    }

    /// The position reached, as an integer.
    pub closed spec fn pos_int(&self) -> int {
        self.pos as int
    }

    /// The position of the last token read.
    pub closed spec fn token_pos(&self) -> int {
        self.token_start as int
    }

    pub closed spec fn outside_loops(&self) -> bool {
        self.context@.len() == 0
    }

    pub closed spec fn program_ref(&self) -> &'c mut Program {
        self.program
    }

    /// The parser's invariant.
    pub closed spec fn wf(&self) -> bool {
        &&& self.pos <= self.bytes().len()
        &&& self.token_start <= self.bytes().len()
        &&& self.bytes().len() < usize::MAX
        &&& self.program.wf()
        &&& kinds_sorted(self.program.highlight_kinds@)
        &&& forall|i: int| 0 <= i < self.context@.len() ==> context_ok(*self.program, #[trigger] self.context@[i])
        &&& forall|i: int| 0 <= i < self.variables@.len() ==> self.program.reg_ok((#[trigger] self.variables@[i]).1)
    }

    /// Whether `new` is `old` further on in the same source, adding to the same
    /// program, in the same contexts.
    pub closed spec fn same_frame(old: &Self, new: &Self) -> bool {
        &&& new.src == old.src
        &&& new.path == old.path
        &&& new.context@ == old.context@
        &&& keeps(*old.program, *new.program)
        &&& old.pos <= new.pos
    }

    /// A parser for `src`, read from `path`, that adds to `program`.
    pub fn new(program: &'c mut Program, path: &'src str, src: &'src str) -> (r: Self)
        requires
            old(program).wf(),
            kinds_sorted(old(program).highlight_kinds@),
            src.spec_bytes().len() < usize::MAX,
        ensures
            r.wf(),
            r.bytes() == src.spec_bytes(),
            r.position_spec() == 0,
            r.program_spec() == *old(program),
            r.path_spec() == path@,
            r.outside_loops(),
            *final(program) == *final(r.program_ref()),
    {
        Self { program, path, src, pos: 0, token_start: 0, context: Vec::new(), variables: Vec::new() }
    }

    //
    // Tokenization helpers.
    //

    fn skip_whitespace_comments(&mut self)
        requires
            old(self).wf(),
        ensures
            final(self).wf(),
            Self::same_frame(old(self), final(self)),
            *final(self).program == *old(self).program,
            *final(final(self).program) == *final(old(self).program),
            final(self).variables == old(self).variables,
            final(self).token_start == old(self).token_start,
            final(self).pos == skip_spec(old(self).bytes(), old(self).pos as int),
    {
        let b = self.src.as_bytes();
        let ghost init = self.pos as int;
        let mut pos = self.pos;
        loop
            invariant
                b@ == self.bytes(),
                pos <= b@.len(),
                skip_spec(b@, init) == skip_spec(b@, pos as int),
            ensures
                pos == skip_spec(b@, init),
                pos <= b@.len(),
            decreases b@.len() - pos,
        {
            let ghost p0 = pos as int;
            while pos < b.len() && (b[pos] == 32 || b[pos] == 9 || b[pos] == 10 || b[pos] == 12
                || b[pos] == 13)
                invariant
                    p0 <= pos <= b@.len(),
                    ws_end(b@, p0) == ws_end(b@, pos as int),
                decreases b@.len() - pos,
            {
                pos += 1;
            }
            let t = pos;
            if b.len() - t >= 2 && b[t] == 47 && b[t + 1] == 47 {
                pos = t + 2;
                let ghost q0 = pos as int;
                while pos < b.len() && b[pos] != 10
                    invariant
                        q0 <= pos <= b@.len(),
                        line_end(b@, q0) == line_end(b@, pos as int),
                    decreases b@.len() - pos,
                {
                    pos += 1;
                }
                assert(line_end(b@, pos as int) == pos);
            } else {
                break;
            }
        }
        proof {
            lemma_skip_spec_bounds(b@, init);
        }
        self.pos = pos;
    }

    /// The first byte of the next token, if any: whitespace and comments are skipped.
    fn peek(&mut self) -> (r: Option<u8>)
        requires
            old(self).wf(),
        ensures
            final(self).wf(),
            Self::same_frame(old(self), final(self)),
            *final(self).program == *old(self).program,
            *final(final(self).program) == *final(old(self).program),
            final(self).variables == old(self).variables,
            final(self).token_start == old(self).token_start,
            final(self).pos == skip_spec(old(self).bytes(), old(self).pos as int),
            r == (if final(self).pos < final(self).bytes().len() {
                Some(final(self).bytes()[final(self).pos as int])
            } else {
                None::<u8>
            }),
    {
        self.skip_whitespace_comments();
        let b = self.src.as_bytes();
        if self.pos < b.len() {
            Some(b[self.pos])
        } else {
            None
        }
    }

    /// Whether the text at the current position starts with `s`.
    fn is_str(&self, s: &str) -> (r: bool)
        requires
            self.wf(),
        ensures
            r == (self.pos + s.spec_bytes().len() <= self.bytes().len() && self.bytes().subrange(
                self.pos as int,
                self.pos + s.spec_bytes().len(),
            ) == s.spec_bytes()),
    {
        let b = self.src.as_bytes();
        let t = s.as_bytes();
        if b.len() - self.pos < t.len() {
            return false;
        }
        let mut i: usize = 0;
        while i < t.len()
            invariant
                i <= t@.len(),
                self.pos + t@.len() <= b@.len(),
                b@.len() <= usize::MAX,
                b@ == self.bytes(),
                t@ == s.spec_bytes(),
                forall|k: int| 0 <= k < i ==> b@[self.pos + k] == t@[k],
            decreases t@.len() - i,
        {
            if b[self.pos + i] != t[i] {
                assert(b@.subrange(self.pos as int, self.pos + t@.len())[i as int] != t@[i as int]);
                return false;
            }
            i += 1;
        }
        assert(b@.subrange(self.pos as int, self.pos + t@.len()) =~= t@);
        true
    }

    fn is_at_eof(&mut self) -> (r: bool)
        requires
            old(self).wf(),
        ensures
            final(self).wf(),
            Self::same_frame(old(self), final(self)),
            *final(self).program == *old(self).program,
            *final(final(self).program) == *final(old(self).program),
            final(self).variables == old(self).variables,
            final(self).token_start == old(self).token_start,
            final(self).pos == skip_spec(old(self).bytes(), old(self).pos as int),
            r == (final(self).pos >= final(self).bytes().len()),
    {
        self.skip_whitespace_comments();
        self.pos >= self.src.as_bytes().len()
    }

    /// Mark current position for error reporting.
    fn mark(&mut self)
        requires
            old(self).wf(),
        ensures
            final(self).wf(),
            Self::same_frame(old(self), final(self)),
            *final(self).program == *old(self).program,
            *final(final(self).program) == *final(old(self).program),
            final(self).variables == old(self).variables,
            final(self).pos == skip_spec(old(self).bytes(), old(self).pos as int),
            final(self).token_start == final(self).pos,
    {
        self.skip_whitespace_comments();
        self.token_start = self.pos;
    }

    /// The 1-based line and column of the marked position.
    fn position(&self) -> (r: (usize, usize))
        requires
            self.wf(),
        ensures
            r.0 == newlines(self.bytes().take(self.token_start as int)) + 1,
            r.1 == line_tail(self.bytes().take(self.token_start as int)) + 1,
    {
        let b = self.src.as_bytes();
        let mut line: usize = 1;
        let mut column: usize = 1;
        let mut i: usize = 0;
        while i < self.token_start
            invariant
                b@ == self.bytes(),
                i <= self.token_start <= b@.len() < usize::MAX,
                line == newlines(b@.take(i as int)) + 1,
                column == line_tail(b@.take(i as int)) + 1,
                newlines(b@.take(i as int)) <= i,
                line_tail(b@.take(i as int)) <= i,
            decreases self.token_start - i,
        {
            assert(b@.take(i + 1).drop_last() =~= b@.take(i as int));
            if b[i] == 10 {
                line += 1;
                column = 1;
            } else {
                column += 1;
            }
            i += 1;
        }
        (line, column)
    }

    /// Whether `e` reports a position in this parser's file: its path, and a line and
    /// column counted from 1.
    pub open spec fn err_ok(p: &Self, e: CompileError) -> bool {
        &&& e.path@ == p.path_spec()
        &&& e.line >= 1
        &&& e.column >= 1
    }

    /// An error at the marked position.
    fn error(&self, message: String) -> (r: CompileError)
        requires
            self.wf(),
        ensures
            Self::err_ok(self, r),
            r.path@ == self.path@,
            r.line == newlines(self.bytes().take(self.token_start as int)) + 1,
            r.column == line_tail(self.bytes().take(self.token_start as int)) + 1,
            r.message == message,
    {
        let (line, column) = self.position();
        CompileError { path: text(self.path), line, column, message }
    }
}

/// `a`, then `item`, then `b`.
fn msg3(a: &str, item: &str, b: &str) -> (r: String)
    ensures
        r@ == a@ + item@ + b@,
{
    let s = join(text(a), item);
    join(s, b)
}

/// `a`, then the ASCII character `c`, then `b`.
fn msg_char(a: &str, c: u8, b: &str) -> (r: String)
    requires
        c < 128,
    ensures
        r@ == a@.push(c as char) + b@,
{
    let mut s = text(a);
    push_char(&mut s, c as char);
    join(s, b)
}

impl<'c, 'src> Parser<'c, 'src> {
    fn expect(&mut self, ch: u8) -> (r: Result<(), CompileError>)
        requires
            old(self).wf(),
            ch < 128,
        ensures
            final(self).wf(),
            Self::same_frame(old(self), final(self)),
            *final(self).program == *old(self).program,
            *final(final(self).program) == *final(old(self).program),
            final(self).variables == old(self).variables,
            final(self).token_start == skip_spec(old(self).bytes(), old(self).pos as int),
            r is Ok ==> old(self).pos < final(self).pos,
            ({
                let t = skip_spec(old(self).bytes(), old(self).pos as int);
                if t < old(self).bytes().len() && old(self).bytes()[t] == ch {
                    r is Ok && final(self).pos == t + 1
                } else {
                    r is Err && final(self).pos == t
                }
            }),
            r matches Err(e) ==> Self::err_ok(old(self), e),
    {
        self.mark();
        let b = self.src.as_bytes();
        if self.pos < b.len() && b[self.pos] == ch {
            self.pos += 1;
            Ok(())
        } else {
            Err(self.error(msg_char("expected '", ch, "'")))
        }
    }

    fn keyword_here(&self, kw: &str) -> (r: bool)
        requires
            self.wf(),
        ensures
            r == keyword_at(self.bytes(), self.pos as int, kw.spec_bytes()),
    {
        if !self.is_str(kw) {
            return false;
        }
        let b = self.src.as_bytes();
        let n = kw.as_bytes().len();
        let end = self.pos + n;
        if end < b.len() {
            let x = b[end];
            !((65 <= x && x <= 90) || (97 <= x && x <= 122) || x == 95 || (48 <= x && x <= 57) || x == 46)
        } else {
            true
        }
    }

    fn expect_keyword(&mut self, kw: &str) -> (r: Result<(), CompileError>)
        requires
            old(self).wf(),
        ensures
            final(self).wf(),
            Self::same_frame(old(self), final(self)),
            *final(self).program == *old(self).program,
            *final(final(self).program) == *final(old(self).program),
            final(self).variables == old(self).variables,
            final(self).token_start == skip_spec(old(self).bytes(), old(self).pos as int),
            r is Ok ==> old(self).pos + kw.spec_bytes().len() <= final(self).pos,
            ({
                let t = skip_spec(old(self).bytes(), old(self).pos as int);
                if keyword_at(old(self).bytes(), t, kw.spec_bytes()) {
                    r is Ok && final(self).pos == t + kw.spec_bytes().len()
                } else {
                    r is Err && final(self).pos == t
                }
            }),
            r matches Err(e) ==> Self::err_ok(old(self), e),
    {
        self.mark();
        if self.keyword_here(kw) {
            self.pos += kw.as_bytes().len();
            Ok(())
        } else {
            Err(self.error(msg3("expected '", kw, "'")))
        }
    }

    /// Check if next token is keyword (without consuming).
    fn is_keyword(&mut self, kw: &str) -> (r: bool)
        requires
            old(self).wf(),
        ensures
            final(self).wf(),
            Self::same_frame(old(self), final(self)),
            *final(self).program == *old(self).program,
            *final(final(self).program) == *final(old(self).program),
            final(self).variables == old(self).variables,
            final(self).token_start == old(self).token_start,
            final(self).pos == skip_spec(old(self).bytes(), old(self).pos as int),
            r == keyword_at(final(self).bytes(), final(self).pos as int, kw.spec_bytes()),
    {
        self.skip_whitespace_comments();
        self.keyword_here(kw)
    }

    fn read_identifier(&mut self) -> (r: Result<&'src str, CompileError>)
        requires
            old(self).wf(),
        ensures
            final(self).wf(),
            Self::same_frame(old(self), final(self)),
            *final(self).program == *old(self).program,
            *final(final(self).program) == *final(old(self).program),
            final(self).variables == old(self).variables,
            final(self).token_start == skip_spec(old(self).bytes(), old(self).pos as int),
            r is Ok ==> old(self).pos < final(self).pos,
            ({
                let t = skip_spec(old(self).bytes(), old(self).pos as int);
                let b = old(self).bytes();
                if t < b.len() && is_ident_start(b[t]) {
                    &&& r matches Ok(name) && name.spec_bytes() == b.subrange(t, ident_end(b, t))
                    &&& final(self).pos == ident_end(b, t)
                } else {
                    r is Err && final(self).pos == t
                }
            }),
            r matches Err(e) ==> Self::err_ok(old(self), e),
    {
        self.mark();
        let b = self.src.as_bytes();
        let start = self.pos;
        if !(start < b.len() && ((65 <= b[start] && b[start] <= 90) || (97 <= b[start] && b[start] <= 122) || b[start] == 95)) {
            return Err(self.error(text("expected identifier")));
        }
        let mut end = start;
        while end < b.len() && ((65 <= b[end] && b[end] <= 90) || (97 <= b[end] && b[end] <= 122)
            || b[end] == 95 || (48 <= b[end] && b[end] <= 57) || b[end] == 46)
            invariant
                start <= end <= b@.len(),
                ident_end(b@, start as int) == ident_end(b@, end as int),
                end == start || b@[end - 1] < 128,
            decreases b@.len() - end,
        {
            end += 1;
        }
        proof {
            encode_utf8_valid_utf8(self.src@);
            lemma_boundary_ascii(b@, start as int);
            if end < b@.len() {
                lemma_boundary_after_ascii(b@, end as int);
            } else {
                lemma_boundary_ascii(b@, end as int);
            }
        }
        self.pos = end;
        Ok(substr(self.src, start, end))
    }

    /// The decimal number at the current position.
    fn read_integer(&mut self) -> (r: Result<u32, CompileError>)
        requires
            old(self).wf(),
        ensures
            final(self).wf(),
            Self::same_frame(old(self), final(self)),
            *final(self).program == *old(self).program,
            *final(final(self).program) == *final(old(self).program),
            final(self).variables == old(self).variables,
            final(self).token_start == skip_spec(old(self).bytes(), old(self).pos as int),
            final(self).pos == digits_end(old(self).bytes(), skip_spec(old(self).bytes(), old(self).pos as int)),
            r is Ok ==> old(self).pos < final(self).pos,
            r matches Ok(v) ==> final(self).pos > final(self).token_start && v == decimal_value(
                old(self).bytes().subrange(final(self).token_start as int, final(self).pos as int),
            ),
            r is Err <==> final(self).pos == final(self).token_start || decimal_value(
                old(self).bytes().subrange(final(self).token_start as int, final(self).pos as int),
            ) > u32::MAX,
            r matches Err(e) ==> Self::err_ok(old(self), e),
    {
        self.mark();
        let b = self.src.as_bytes();
        let start = self.pos;
        let mut end = start;
        let mut value: u64 = 0;
        while end < b.len() && 48 <= b[end] && b[end] <= 57
            invariant
                start <= end <= b@.len(),
                digits_end(b@, start as int) == digits_end(b@, end as int),
                value == if decimal_value(b@.subrange(start as int, end as int)) > u32::MAX {
                    u32::MAX as nat + 1
                } else {
                    decimal_value(b@.subrange(start as int, end as int))
                },
            decreases b@.len() - end,
        {
            let d = (b[end] - 48) as u64;
            assert(b@.subrange(start as int, end + 1) =~= b@.subrange(start as int, end as int).push(b@[end as int]));
            assert(b@.subrange(start as int, end + 1).drop_last() =~= b@.subrange(start as int, end as int));
            if value <= 0xffff_ffffu64 {
                value = value * 10 + d;
                if value > 0xffff_ffffu64 {
                    value = 0x1_0000_0000u64;
                }
            }
            end += 1;
        }
        self.pos = end;
        if start == end {
            return Err(self.error(text("expected integer")));
        }
        if value > 0xffff_ffffu64 {
            return Err(self.error(text("invalid integer")));
        }
        Ok(value as u32)
    }

    /// Find unescaped closing delimiter (handles `\x` escapes).
    fn find_closing_delimiter(&self, delim: u8) -> (r: usize)
        requires
            self.wf(),
        ensures
            r == delim_end(self.bytes(), self.pos as int, delim),
    {
        let b = self.src.as_bytes();
        let mut i = self.pos;
        while i < b.len()
            invariant
                b@ == self.bytes(),
                b@.len() < usize::MAX,
                delim_end(b@, self.pos as int, delim) == delim_end(b@, i as int, delim),
                self.pos <= i <= b@.len() + 1,
            decreases b@.len() + 1 - i,
        {
            if b[i] == 92 {
                i += 2;
            } else if b[i] == delim {
                return i;
            } else {
                i += 1;
            }
        }
        b.len()
    }

    /// The text up to the closing `delim`, after an opening `delim`.
    fn read_delimited(&mut self, delim: u8) -> (r: Result<&'src str, CompileError>)
        requires
            old(self).wf(),
            delim < 128,
        ensures
            r is Ok ==> old(self).pos < final(self).pos,
            match delimited_at(old(self).bytes(), old(self).pos as int, delim) {
                Some((s, e, n)) => r matches Ok(x) && x.spec_bytes() == old(self).bytes().subrange(s, e)
                    && final(self).pos == n,
                None => r is Err,
            },
            final(self).wf(),
            Self::same_frame(old(self), final(self)),
            *final(self).program == *old(self).program,
            *final(final(self).program) == *final(old(self).program),
            final(self).variables == old(self).variables,
            r matches Err(e) ==> Self::err_ok(old(self), e),
    {
        proof {
            lemma_skip_spec_bounds(old(self).bytes(), old(self).pos as int);
            lemma_skip_idem(old(self).bytes(), old(self).pos as int);
        }
        self.mark();
        match self.expect(delim) {
            Ok(()) => {},
            Err(e) => {
                return Err(e);
            },
        }
        let start = self.pos;
        let end = self.find_closing_delimiter(delim);
        self.pos = end;
        proof {
            lemma_delim_end_bounds(self.bytes(), start as int, delim);
        }
        let ghost skipped = skip_spec(self.bytes(), end as int);
        proof {
            lemma_skip_spec_bounds(self.bytes(), end as int);
        }
        match self.expect(delim) {
            Ok(()) => {},
            Err(e) => {
                return Err(e);
            },
        }
        proof {
            let b = self.bytes();
            encode_utf8_valid_utf8(self.src@);
            lemma_boundary_after_ascii(b, start as int);
            lemma_boundary_ascii(b, end as int);
        }
        Ok(substr(self.src, start, end))
    }

    fn read_string(&mut self) -> (r: Result<&'src str, CompileError>)
        requires
            old(self).wf(),
        ensures
            r is Ok ==> old(self).pos < final(self).pos,
            match delimited_at(old(self).bytes(), old(self).pos as int, 34) {
                Some((s, e, n)) => r matches Ok(x) && x.spec_bytes() == old(self).bytes().subrange(s, e)
                    && final(self).pos == n,
                None => r is Err,
            },
            final(self).wf(),
            Self::same_frame(old(self), final(self)),
            *final(self).program == *old(self).program,
            *final(final(self).program) == *final(old(self).program),
            final(self).variables == old(self).variables,
            r matches Err(e) ==> Self::err_ok(old(self), e),
    {
        self.mark();
        proof {
            lemma_skip_spec_bounds(old(self).bytes(), old(self).pos as int);
            lemma_skip_idem(old(self).bytes(), old(self).pos as int);
        }
        self.read_delimited(34)
    }

    fn read_regex(&mut self) -> (r: Result<&'src str, CompileError>)
        requires
            old(self).wf(),
        ensures
            r is Ok ==> old(self).pos < final(self).pos,
            match delimited_at(old(self).bytes(), old(self).pos as int, 47) {
                Some((s, e, n)) => r matches Ok(x) && x.spec_bytes() == old(self).bytes().subrange(s, e)
                    && final(self).pos == n,
                None => r is Err,
            },
            final(self).wf(),
            Self::same_frame(old(self), final(self)),
            *final(self).program == *old(self).program,
            *final(final(self).program) == *final(old(self).program),
            final(self).variables == old(self).variables,
            r matches Err(e) ==> Self::err_ok(old(self), e),
    {
        self.mark();
        proof {
            lemma_skip_spec_bounds(old(self).bytes(), old(self).pos as int);
            lemma_skip_idem(old(self).bytes(), old(self).pos as int);
        }
        self.read_delimited(47)
    }
}

/// The position of the first variable named `name` in `vars` at or after `i`, or the
/// length of `vars`.
pub open spec fn variable_index(vars: Seq<(&str, RegId)>, name: Seq<char>, i: int) -> int
    decreases vars.len() - i,
{
    if i < 0 || i >= vars.len() {
        vars.len() as int
    } else if vars[i].0@ == name {
        i
    } else {
        variable_index(vars, name, i + 1)
    }
}

/// The register that the first variable named `name` in `vars` stands for.
pub open spec fn variable_of(vars: Seq<(&str, RegId)>, name: Seq<char>) -> Option<RegId> {
    let i = variable_index(vars, name, 0);
    if 0 <= i < vars.len() {
        Some(vars[i].1)
    } else {
        None
    }
}

/// `vars` with `name` bound to `reg`: the first variable of that name rebound in place,
/// or a new one at the end.
pub open spec fn bind_variable<'a>(vars: Seq<(&'a str, RegId)>, name: &'a str, reg: RegId) -> Seq<(&'a str, RegId)> {
    let i = variable_index(vars, name@, 0);
    if 0 <= i < vars.len() {
        vars.update(i, (name, reg))
    } else {
        vars.push((name, reg))
    }
}

/// Whether the keyword `kw` stands at `i`: its bytes, not followed by an identifier byte.
pub open spec fn keyword_at(b: Seq<u8>, i: int, kw: Seq<u8>) -> bool {
    &&& i + kw.len() <= b.len()
    &&& b.subrange(i, i + kw.len()) == kw
    &&& !(i + kw.len() < b.len() && is_ident_char(b[i + kw.len()]))
}

/// The attribute `#[key = "value"]` whose `#` stands at `t`: the key, the value, and
/// the position after the `]`; `None` where it is malformed.
pub open spec fn attribute_at(b: Seq<u8>, t: int) -> Option<(Seq<u8>, Seq<u8>, int)> {
    let open = skip_spec(b, t + 1);
    let k = skip_spec(b, open + 1);
    let ke = ident_end(b, k);
    let eq = skip_spec(b, ke);
    if !(open < b.len() && b[open] == 91) || !(k < b.len() && is_ident_start(b[k])) || !(eq < b.len()
        && b[eq] == 61) {
        None
    } else {
        match delimited_at(b, eq + 1, 34) {
            Some((s, e, n)) => {
                let close = skip_spec(b, n);
                if close < b.len() && b[close] == 93 {
                    Some((b.subrange(k, ke), b.subrange(s, e), close + 1))
                } else {
                    None
                }
            },
            None => None,
        }
    }
}

/// The attributes from `pos` on, after the display name `dn` and the paths `paths`
/// already read: the display name (the last one given), the paths in order, and where
/// the attributes end; `None` where one is malformed or has a key other than
/// `display_name` and `path`.
pub open spec fn attributes_at(b: Seq<u8>, pos: int, dn: Option<Seq<u8>>, paths: Seq<Seq<u8>>) -> Option<
    (Option<Seq<u8>>, Seq<Seq<u8>>, int),
>
    decreases b.len() - pos,
{
    let t = skip_spec(b, pos);
    if !(0 <= t < b.len() && b[t] == 35) {
        Some((dn, paths, t))
    } else {
        match attribute_at(b, t) {
            Some((key, value, n)) => {
                if !(pos < n <= b.len()) {
                    None
                } else if key == "display_name".spec_bytes() {
                    attributes_at(b, n, Some(value), paths)
                } else if key == "path".spec_bytes() {
                    attributes_at(b, n, dn, paths.push(value))
                } else {
                    None
                }
            },
            None => None,
        }
    }
}

/// The header of the function definition at `pos`, `attributes [pub] fn name()`: its
/// display name, its paths, whether it is public, its name, and the position after `)`.
pub open spec fn header_at(b: Seq<u8>, pos: int) -> Option<(Option<Seq<u8>>, Seq<Seq<u8>>, bool, Seq<u8>, int)> {
    match attributes_at(b, pos, None, Seq::empty()) {
        None => None,
        Some((dn, paths, a)) => {
            let p = skip_spec(b, a);
            let public = keyword_at(b, p, "pub".spec_bytes());
            let q = if public { p + "pub".spec_bytes().len() } else { p };
            let f = skip_spec(b, q);
            let k = skip_spec(b, f + "fn".spec_bytes().len());
            let ke = ident_end(b, k);
            let o = skip_spec(b, ke);
            let c = skip_spec(b, o + 1);
            if keyword_at(b, f, "fn".spec_bytes()) && k < b.len() && is_ident_start(b[k]) && o < b.len()
                && b[o] == 40 && c < b.len() && b[c] == 41 {
                Some((dn, paths, public, b.subrange(k, ke), c + 1))
            } else {
                None
            }
        },
    }
}

/// How many definitions with empty bodies, `attributes [pub] fn name() {}` each, follow
/// `pos` up to the end of the source; `None` where anything else follows.
pub open spec fn empty_definitions(b: Seq<u8>, pos: int) -> Option<nat>
    decreases b.len() - pos,
{
    let t = skip_spec(b, pos);
    if t >= b.len() {
        Some(0)
    } else {
        match header_at(b, t) {
            Some((_, _, _, _, e)) => {
                let o = skip_spec(b, e);
                let c = skip_spec(b, o + 1);
                if o < b.len() && b[o] == 123 && c < b.len() && b[c] == 125 && pos < c + 1 {
                    match empty_definitions(b, c + 1) {
                        Some(n) => Some(n + 1),
                        None => None,
                    }
                } else {
                    None
                }
            },
            None => None,
        }
    }
}

/// Where a `break` or `continue` stands at `t` and is followed by `;`: the position of
/// the `;`.
pub open spec fn loop_control_at(b: Seq<u8>, t: int) -> Option<int> {
    let kw = if keyword_at(b, t, "break".spec_bytes()) {
        Some("break".spec_bytes())
    } else if keyword_at(b, t, "continue".spec_bytes()) {
        Some("continue".spec_bytes())
    } else {
        None
    };
    match kw {
        Some(k) => {
            let s = skip_spec(b, t + k.len());
            if s < b.len() && b[s] == 59 {
                Some(s)
            } else {
                None
            }
        },
        None => None,
    }
}

/// Whether `e` reports a `break` or `continue` outside of any loop, at the `;` at `s`.
pub open spec fn stray_loop_control(b: Seq<u8>, s: int, e: CompileError) -> bool {
    &&& e.message@ == "loop control statement outside of a loop"@
    &&& e.line == newlines(b.take(s)) + 1
    &&& e.column == line_tail(b.take(s)) + 1
}

/// Where the first definition from `pos` on has a well-formed header and its body
/// starts with a `break` or `continue` followed by `;`: the position of the `;`.
pub open spec fn first_body_stray(b: Seq<u8>, pos: int) -> Option<int> {
    match header_at(b, skip_spec(b, pos)) {
        Some((_, _, _, _, e)) => {
            let t = skip_spec(b, e);
            if t < b.len() && b[t] == 123 {
                loop_control_at(b, skip_spec(b, t + 1))
            } else {
                None
            }
        },
        None => None,
    }
}

/// The identifier at `t`, as text.
pub open spec fn ident_text(b: Seq<u8>, t: int) -> Seq<char> {
    b.subrange(t, ident_end(b, t)).map_values(|x: u8| x as char)
}

/// Whether the identifier at `t` names none of `vars`.
pub open spec fn unknown_ident(b: Seq<u8>, vars: Seq<(&str, RegId)>, t: int) -> bool {
    0 <= t < b.len() && is_ident_start(b[t]) && variable_of(vars, ident_text(b, t)) is None
}

/// Where an `if` stands at `t` and the identifier after it names none of `vars`: the
/// position of that identifier.
pub open spec fn if_unknown_at(b: Seq<u8>, vars: Seq<(&str, RegId)>, t: int) -> Option<int> {
    let s = skip_spec(b, t + "if".spec_bytes().len());
    if keyword_at(b, t, "if".spec_bytes()) && unknown_ident(b, vars, s) {
        Some(s)
    } else {
        None
    }
}

/// Where an `if` stands at `t` and the identifier after it is not `off`, the one
/// variable that a function starts with: the position of that identifier.
pub open spec fn if_undefined_at(b: Seq<u8>, t: int) -> Option<int> {
    let s = skip_spec(b, t + "if".spec_bytes().len());
    if keyword_at(b, t, "if".spec_bytes()) && 0 <= s < b.len() && is_ident_start(b[s]) && ident_text(b, s) != "off"@ {
        Some(s)
    } else {
        None
    }
}

/// Where the statement from `pos` on starts with an identifier: its position.
pub open spec fn stmt_ident(b: Seq<u8>, pos: int) -> Option<int> {
    let t = skip_spec(b, pos);
    if 0 <= t < b.len() && is_ident_start(b[t]) {
        Some(t)
    } else {
        None
    }
}

/// Whether, where the statement at `pos` is a call `name();`, its IR is one `Call` node
/// naming a string that holds `name`.
pub open spec fn call_lowered(b: Seq<u8>, pos: int, g0: Seq<Node>, g1: Seq<Node>, strings: Seq<String>, f: Fragment) -> bool {
    match stmt_ident(b, pos) {
        Some(t) => byte_is(b, after_ident(b, t), 40) ==> exists|id: super::ir::StringId|
            id.idx() < strings.len() && strings[id.idx() as int]@ == ident_text(b, t) && #[trigger] chained(
                g0,
                g1,
                f,
                seq![Op::Call { name: id }],
            ),
        None => true,
    }
}

/// Whether, where the statement at `pos` is `name += n;`, its IR is one `AddImm` node
/// adding to the register of the variable `name` in `vars`.
pub open spec fn add_lowered(b: Seq<u8>, pos: int, vars: Seq<(&str, RegId)>, g0: Seq<Node>, g1: Seq<Node>, f: Fragment) -> bool {
    match stmt_ident(b, pos) {
        Some(t) => byte_is(b, after_ident(b, t), 43) && byte_is(b, after_ident(b, t) + 1, 61) ==> exists|
            reg: RegId,
            imm: u32,
        |
            variable_of(vars, ident_text(b, t)) == Some(reg) && #[trigger] chained(
                g0,
                g1,
                f,
                seq![Op::AddImm { dst: reg, imm }],
            ),
        None => true,
    }
}

/// Whether no keyword that starts a statement stands at `t`.
pub open spec fn no_keyword_at(b: Seq<u8>, t: int) -> bool {
    &&& !keyword_at(b, t, "var".spec_bytes())
    &&& !keyword_at(b, t, "loop".spec_bytes())
    &&& !keyword_at(b, t, "until".spec_bytes())
    &&& !keyword_at(b, t, "break".spec_bytes())
    &&& !keyword_at(b, t, "continue".spec_bytes())
    &&& !keyword_at(b, t, "return".spec_bytes())
    &&& !keyword_at(b, t, "if".spec_bytes())
    &&& !keyword_at(b, t, "await".spec_bytes())
    &&& !keyword_at(b, t, "yield".spec_bytes())
}

/// Where the statement at `t` starts with an identifier that is no keyword and goes on
/// with none of the forms such a statement takes: where the error is reported.
pub open spec fn bad_ident_statement_at(b: Seq<u8>, t: int) -> Option<int> {
    if 0 <= t < b.len() && is_ident_start(b[t]) && no_keyword_at(b, t) && no_statement_after_ident(b, t) {
        Some(after_ident(b, t))
    } else {
        None
    }
}

/// Where the first token after the identifier at `t` starts.
pub open spec fn after_ident(b: Seq<u8>, t: int) -> int {
    skip_spec(b, ident_end(b, t))
}

/// Whether the byte at `i` is `c`.
pub open spec fn byte_is(b: Seq<u8>, i: int, c: u8) -> bool {
    0 <= i < b.len() && b[i] == c
}

/// Whether the identifier at `t` is followed by none of `(`, `=` (but not `==`) and `+=`,
/// the forms that a statement starting with an identifier takes.
pub open spec fn no_statement_after_ident(b: Seq<u8>, t: int) -> bool {
    let s = after_ident(b, t);
    &&& !byte_is(b, s, 40)
    &&& !(byte_is(b, s, 61) && !byte_is(b, s + 1, 61))
    &&& !(byte_is(b, s, 43) && byte_is(b, s + 1, 61))
}

/// Whether `e` reports, at `s`, a statement that starts with an identifier and goes on
/// with none of the forms it can take.
pub open spec fn bad_identifier_statement(b: Seq<u8>, s: int, e: CompileError) -> bool {
    &&& e.message@ == "expected '(', '=' or '+=' after identifier"@
    &&& e.line == newlines(b.take(s)) + 1
    &&& e.column == line_tail(b.take(s)) + 1
}

/// Whether `e` reports that the identifier at `t` names no variable.
pub open spec fn undefined_variable(b: Seq<u8>, t: int, e: CompileError) -> bool {
    &&& e.message@ == "undefined variable '"@ + ident_text(b, t) + "'"@
    &&& e.line == newlines(b.take(t)) + 1
    &&& e.column == line_tail(b.take(t)) + 1
}

/// Where the first definition from `pos` on has a well-formed header and its body
/// starts with an `if` whose left-hand identifier is not `off`: the position of that
/// identifier.
pub open spec fn first_body_undefined(b: Seq<u8>, pos: int) -> Option<int> {
    match header_at(b, skip_spec(b, pos)) {
        Some((_, _, _, _, e)) => {
            let t = skip_spec(b, e);
            if t < b.len() && b[t] == 123 {
                if_undefined_at(b, skip_spec(b, t + 1))
            } else {
                None
            }
        },
        None => None,
    }
}

/// Where the first definition from `pos` on has a well-formed header and its body
/// starts with an identifier, not a keyword, followed by none of `(`, `=` and `+=`:
/// where the error is reported.
pub open spec fn first_body_bad_ident(b: Seq<u8>, pos: int) -> Option<int> {
    match header_at(b, skip_spec(b, pos)) {
        Some((_, _, _, _, e)) => {
            let t = skip_spec(b, e);
            if t < b.len() && b[t] == 123 {
                bad_ident_statement_at(b, skip_spec(b, t + 1))
            } else {
                None
            }
        },
        None => None,
    }
}

/// The attributes as bytes: the display name and the paths.
pub open spec fn attribute_bytes(a: FunctionAttributes) -> (Option<Seq<u8>>, Seq<Seq<u8>>) {
    (
        match a.display_name {
            Some(s) => Some(encode_utf8(s@)),
            None => None,
        },
        a.paths@.map_values(|s: String| encode_utf8(s@)),
    )
}

/// Whether `f` has the header that the definition at `pos` declares: its attributes,
/// whether it is public, and its name.
pub open spec fn defined_at(b: Seq<u8>, pos: int, f: Function) -> bool {
    match header_at(b, pos) {
        Some((dn, paths, public, name, _)) => {
            &&& attribute_bytes(f.attributes) == (dn, paths)
            &&& f.public == public
            &&& encode_utf8(f.name@) == name
        },
        None => false,
    }
}

/// Whether `starts` are positions in `b`, in increasing order, at which the definitions
/// of `fs` stand, one for each, the first at the first token from `pos` on.
pub open spec fn starts_ok(b: Seq<u8>, pos: int, fs: Seq<Function>, starts: Seq<int>) -> bool {
    &&& starts.len() == fs.len()
    &&& starts.len() > 0 ==> starts[0] == skip_spec(b, pos)
    &&& forall|i: int, j: int| 0 <= i < j < starts.len() ==> #[trigger] starts[i] < #[trigger] starts[j]
    &&& forall|i: int|
        #![trigger starts[i]]
        0 <= i < starts.len() ==> 0 <= starts[i] <= b.len() && defined_at(b, starts[i], fs[i])
}

/// Whether the definitions of `fs` stand in `b` in this order, from the first token
/// after `pos` on; with no definitions, nothing but whitespace and comments follows `pos`.
pub open spec fn defined_in_order(b: Seq<u8>, pos: int, fs: Seq<Function>) -> bool {
    &&& fs.len() == 0 ==> skip_spec(b, pos) == b.len()
    &&& exists|starts: Seq<int>| #[trigger] starts_ok(b, pos, fs, starts)
}

/// Whether `f` has the header of a definition somewhere in `b`.
pub open spec fn defined_in(b: Seq<u8>, f: Function) -> bool {
    exists|p: int| 0 <= p <= b.len() && #[trigger] defined_at(b, p, f)
}

/// The text of the next token if it is delimited by `d` on both ends, as
/// `(start, end, after)`: the text is `b[start..end]` and `after` follows the closing `d`.
/// A backslash escapes the byte after it; the closing `d` is looked for as the next
/// token after the text, so whitespace and comments may come before it.
pub open spec fn delimited_at(b: Seq<u8>, pos: int, d: u8) -> Option<(int, int, int)> {
    let t = skip_spec(b, pos);
    if 0 <= t < b.len() && b[t] == d {
        let e = delim_end(b, t + 1, d);
        let c = skip_spec(b, e);
        if 0 <= c < b.len() && b[c] == d {
            Some((t + 1, e, c + 1))
        } else {
            None
        }
    } else {
        None
    }
}

/// The decimal value of a run of ASCII digit bytes.
pub open spec fn decimal_value(d: Seq<u8>) -> nat
    decreases d.len(),
{
    if d.len() == 0 {
        0
    } else {
        decimal_value(d.drop_last()) * 10 + (d.last() - 48) as nat
    }
}

proof fn lemma_delim_end_bounds(b: Seq<u8>, i: int, d: u8)
    requires
        0 <= i,
    ensures
        i <= delim_end(b, i, d) <= b.len() || (i > b.len() && delim_end(b, i, d) == b.len()),
        delim_end(b, i, d) < b.len() ==> b[delim_end(b, i, d)] == d,
    decreases b.len() + 1 - i,
{
    if 0 <= i < b.len() {
        if b[i] == 92 {
            lemma_delim_end_bounds(b, i + 2, d);
        } else if b[i] != d {
            lemma_delim_end_bounds(b, i + 1, d);
        }
    }
}

proof fn lemma_skip_spec_bounds(b: Seq<u8>, i: int)
    requires
        0 <= i <= b.len(),
    ensures
        i <= skip_spec(b, i) <= b.len(),
    decreases b.len() - i,
{
    lemma_ws_end_bounds(b, i);
    let t = ws_end(b, i);
    if t + 1 < b.len() && b[t] == 47 && b[t + 1] == 47 {
        lemma_line_end_bounds(b, t + 2);
        let n = line_end(b, t + 2);
        if t < n <= b.len() {
            lemma_skip_spec_bounds(b, n);
        }
    }
}

/// Skipping is idempotent: nothing is left to skip where skipping stopped.
proof fn lemma_skip_idem(b: Seq<u8>, i: int)
    requires
        0 <= i <= b.len(),
    ensures
        skip_spec(b, skip_spec(b, i)) == skip_spec(b, i),
    decreases b.len() - i,
{
    lemma_ws_end_bounds(b, i);
    lemma_ws_end_idem(b, i);
    let t = ws_end(b, i);
    if t + 1 < b.len() && b[t] == 47 && b[t + 1] == 47 {
        lemma_line_end_bounds(b, t + 2);
        let n = line_end(b, t + 2);
        lemma_skip_idem(b, n);
    }
}

proof fn lemma_ws_end_idem(b: Seq<u8>, i: int)
    requires
        0 <= i <= b.len(),
    ensures
        ws_end(b, ws_end(b, i)) == ws_end(b, i),
    decreases b.len() - i,
{
    if i < b.len() && is_ws(b[i]) {
        lemma_ws_end_idem(b, i + 1);
    }
}

proof fn lemma_ws_end_bounds(b: Seq<u8>, i: int)
    requires
        0 <= i <= b.len(),
    ensures
        i <= ws_end(b, i) <= b.len(),
    decreases b.len() - i,
{
    if i < b.len() && is_ws(b[i]) {
        lemma_ws_end_bounds(b, i + 1);
    }
}

proof fn lemma_line_end_bounds(b: Seq<u8>, i: int)
    requires
        0 <= i <= b.len(),
    ensures
        i <= line_end(b, i) <= b.len(),
    decreases b.len() - i,
{
    if i < b.len() && b[i] != 10 {
        lemma_line_end_bounds(b, i + 1);
    }
}


/// Whether `g1` is `g0` with the nodes of `ops` added after it as a straight chain,
/// each the successor of the one before and the last with none, and `f` spans them.
pub open spec fn chained(g0: Seq<Node>, g1: Seq<Node>, f: Fragment, ops: Seq<Op>) -> bool {
    &&& g1.len() == g0.len() + ops.len()
    &&& g1.take(g0.len() as int) == g0
    &&& f.first.idx() == g0.len()
    &&& f.last.idx() == g1.len() - 1
    &&& forall|k: int|
        #![trigger g1[g0.len() + k]]
        0 <= k < ops.len() ==> {
            &&& g1[g0.len() + k].instr == ops[k]
            &&& if k + 1 < ops.len() {
                g1[g0.len() + k].next matches Some(x) && x.idx() == g0.len() + k + 1
            } else {
                g1[g0.len() + k].next is None
            }
        }
}

/// One new node without a successor is a chain of its instruction.
proof fn lemma_chained_single(g0: Seq<Node>, g1: Seq<Node>, f: Fragment, op: Op)
    requires
        g1 == g0.push(Node { next: None, instr: op }),
        f.first.idx() == g0.len(),
        f.last.idx() == g0.len(),
    ensures
        chained(g0, g1, f, seq![op]),
{
    assert(g1.take(g0.len() as int) =~= g0);
    assert(g1[g0.len() + 0int] == Node { next: None, instr: op });
}

/// Where a `yield` at the first token from `pos` names a highlight kind directly: the
/// position of that name; `None` where a capture group reference (`$`) follows.
pub open spec fn yield_target(b: Seq<u8>, pos: int) -> Option<int> {
    let t = skip_spec(b, skip_spec(b, pos) + "yield".spec_bytes().len());
    if t < b.len() && b[t] == 36 {
        None
    } else {
        Some(t)
    }
}

/// The IR of `yield kind;`: the kind's value into a fresh register, then a flush of it.
pub open spec fn yield_ops(v: RegId, k: u32) -> Seq<Op> {
    seq![Op::MovKind { dst: v, kind: k }, Op::Flush { kind: v }]
}

/// The IR of `yield $n as kind;`: the offset saved to `v`, the capture group's range
/// `cs..ce` made the highlight span, the kind flushed through `w`, the offset restored.
pub open spec fn capture_yield_ops(v: RegId, w: RegId, hs: RegId, off: RegId, cs: RegId, ce: RegId, k: u32) -> Seq<
    Op,
> {
    seq![
        Op::Mov { dst: v, src: off },
        Op::Mov { dst: hs, src: cs },
        Op::Mov { dst: off, src: ce },
        Op::MovKind { dst: w, kind: k },
        Op::Flush { kind: w },
        Op::Mov { dst: off, src: v },
    ]
}

/// The number written with the digits at `t`.
pub open spec fn number_at(b: Seq<u8>, t: int) -> nat {
    decimal_value(b.subrange(t, digits_end(b, t)))
}

/// Where the operand at `t`, a number or an identifier, ends.
pub open spec fn operand_end(b: Seq<u8>, t: int) -> int {
    if 0 <= t < b.len() && 48 <= b[t] <= 57 {
        digits_end(b, t)
    } else {
        ident_end(b, t)
    }
}

/// Whether `+ number` (and not `+=`) follows the operand at `t`.
pub open spec fn plus_after(b: Seq<u8>, t: int) -> bool {
    let s = skip_spec(b, operand_end(b, t));
    byte_is(b, s, 43) && !byte_is(b, s + 1, 61)
}

/// The number added by the `+ number` after the operand at `t`.
pub open spec fn plus_value(b: Seq<u8>, t: int) -> nat {
    number_at(b, skip_spec(b, skip_spec(b, operand_end(b, t)) + 1))
}

/// The IR of a number `n` put into `v`, with `k` added where `plus` holds.
pub open spec fn number_ops(v: RegId, n: u32, plus: bool, k: u32) -> Seq<Op> {
    if plus {
        seq![Op::MovImm { dst: v, imm: n }, Op::AddImm { dst: v, imm: k }]
    } else {
        seq![Op::MovImm { dst: v, imm: n }]
    }
}

/// Whether the expression from `pos` on, compiled with the variables `vars` and `rc`
/// registers in use, added the code `f` to `g0` (giving `g1`) and left its value in `reg`:
/// a number goes into a fresh register (with the added number added to it); a variable
/// stays in its register behind a `Noop` (with the added number added to that register),
/// except that a machine register is copied into a fresh one.
pub open spec fn expr_lowered(
    b: Seq<u8>,
    pos: int,
    vars: Seq<(&str, RegId)>,
    rc: nat,
    g0: Seq<Node>,
    g1: Seq<Node>,
    f: Fragment,
    reg: RegId,
) -> bool {
    let t = skip_spec(b, pos);
    if 0 <= t < b.len() && 48 <= b[t] <= 57 {
        &&& reg.idx() == rc
        &&& chained(g0, g1, f, number_ops(reg, number_at(b, t) as u32, plus_after(b, t), plus_value(b, t) as u32))
    } else {
        match variable_of(vars, ident_text(b, t)) {
            Some(r0) => if plus_after(b, t) {
                reg == r0 && chained(g0, g1, f, seq![Op::Noop, Op::AddImm { dst: r0, imm: plus_value(b, t) as u32 }])
            } else if r0.idx() < REGISTER_COUNT {
                &&& reg.idx() == rc
                &&& g1.len() == g0.len() + 2
                &&& g1.take(g0.len() as int) == g0
                &&& g1[g0.len() as int] == Node { next: None, instr: Op::Noop }
                &&& g1[g0.len() + 1int] == Node { next: None, instr: Op::Mov { dst: reg, src: r0 } }
                &&& f.first == f.last
                &&& f.first.idx() == g0.len() + 1
            } else {
                reg == r0 && chained(g0, g1, f, seq![Op::Noop])
            },
            None => false,
        }
    }
}

/// Two new nodes, the first leading to the second, are a chain of their instructions.
proof fn lemma_chained_pair(g0: Seq<Node>, g2: Seq<Node>, f: Fragment, op1: Op, op2: Op, id2: NodeId)
    requires
        g2 == g0.push(Node { next: None, instr: op1 }).push(Node { next: None, instr: op2 }).update(
            g0.len() as int,
            Node { next: Some(id2), instr: op1 },
        ),
        id2.idx() == g0.len() + 1,
        f.first.idx() == g0.len(),
        f.last == id2,
    ensures
        chained(g0, g2, f, seq![op1, op2]),
{
    assert(g2.take(g0.len() as int) =~= g0);
    assert(g2[g0.len() + 0int] == Node { next: Some(id2), instr: op1 });
    assert(g2[g0.len() + 1int] == Node { next: None, instr: op2 });
}

/// Whether a binding of the identifier at `t` to the expression from `p` on compiled to
/// the expression's code, and left the identifier naming, in `vars1`, the register that
/// holds the value.
pub open spec fn binding_lowered(
    b: Seq<u8>,
    t: int,
    p: int,
    vars0: Seq<(&str, RegId)>,
    vars1: Seq<(&str, RegId)>,
    rc: nat,
    g0: Seq<Node>,
    g1: Seq<Node>,
    f: Fragment,
) -> bool {
    exists|reg: RegId|
        #[trigger] expr_lowered(b, p, vars0, rc, g0, g1, f, reg) && variable_of(vars1, ident_text(b, t)) == Some(reg)
}

/// Where the name of the variable declared from `pos` on stands.
pub open spec fn var_name_at(b: Seq<u8>, pos: int) -> int {
    skip_spec(b, skip_spec(b, pos) + "var".spec_bytes().len())
}

/// Whether, where the statement at `pos` is an assignment `name = expr;`, it compiled to
/// the expression's code and rebound `name`.
pub open spec fn assignment_lowered(
    b: Seq<u8>,
    pos: int,
    vars0: Seq<(&str, RegId)>,
    vars1: Seq<(&str, RegId)>,
    rc: nat,
    g0: Seq<Node>,
    g1: Seq<Node>,
    f: Fragment,
) -> bool {
    match stmt_ident(b, pos) {
        Some(t) => byte_is(b, after_ident(b, t), 61) && !byte_is(b, after_ident(b, t) + 1, 61) ==> binding_lowered(
            b,
            t,
            after_ident(b, t) + 1,
            vars0,
            vars1,
            rc,
            g0,
            g1,
            f,
        ),
        None => true,
    }
}

/// Whether `g1` keeps every node of `g0` as it was, and adds nodes after them.
pub open spec fn prefix_kept(g0: Seq<Node>, g1: Seq<Node>) -> bool {
    &&& g0.len() <= g1.len()
    &&& forall|i: int| 0 <= i < g0.len() ==> #[trigger] g1[i] == g0[i]
}

/// The comparison operator at `s` and its length in bytes, the longer one first.
pub open spec fn comparison_at(b: Seq<u8>, s: int) -> Option<(ComparisonOp, int)> {
    if byte_is(b, s, 61) && byte_is(b, s + 1, 61) {
        Some((ComparisonOp::Eq, 2))
    } else if byte_is(b, s, 33) && byte_is(b, s + 1, 61) {
        Some((ComparisonOp::Ne, 2))
    } else if byte_is(b, s, 60) && byte_is(b, s + 1, 61) {
        Some((ComparisonOp::Le, 2))
    } else if byte_is(b, s, 62) && byte_is(b, s + 1, 61) {
        Some((ComparisonOp::Ge, 2))
    } else if byte_is(b, s, 60) {
        Some((ComparisonOp::Lt, 1))
    } else if byte_is(b, s, 62) {
        Some((ComparisonOp::Gt, 1))
    } else {
        None
    }
}

/// Whether `t` is one of the comparison operators of the language.
pub open spec fn comparison_token(t: Seq<u8>) -> bool {
    ||| t == "=="@.map_values(|c: char| c as u8)
    ||| t == "!="@.map_values(|c: char| c as u8)
    ||| t == "<="@.map_values(|c: char| c as u8)
    ||| t == ">="@.map_values(|c: char| c as u8)
    ||| t == "<"@.map_values(|c: char| c as u8)
    ||| t == ">"@.map_values(|c: char| c as u8)
}

/// What the comparison written `t` says of its left value `x` and right value `y`.
pub open spec fn written_relation(t: Seq<u8>, x: int, y: int) -> bool {
    if t == "=="@.map_values(|c: char| c as u8) {
        x == y
    } else if t == "!="@.map_values(|c: char| c as u8) {
        x != y
    } else if t == "<="@.map_values(|c: char| c as u8) {
        x <= y
    } else if t == ">="@.map_values(|c: char| c as u8) {
        x >= y
    } else if t == "<"@.map_values(|c: char| c as u8) {
        x < y
    } else if t == ">"@.map_values(|c: char| c as u8) {
        x > y
    } else {
        false
    }
}

/// Each comparison operator in the source lowers to the operator that means what is
/// written: the operator read at `s` is a whole token there, the longest one that
/// starts at `s` (`<=` is not read as `<`), and the `Cmp` condition it gives holds
/// between two values exactly when the written comparison does (`off <= x` is taken
/// when the two are equal).
pub proof fn lemma_comparison_means_what_is_written(b: Seq<u8>, s: int)
    requires
        0 <= s,
    ensures
        comparison_at(b, s) matches Some((op, len)) ==> {
            &&& s + len <= b.len()
            &&& comparison_token(b.subrange(s, s + len))
            &&& forall|x: int, y: int| #[trigger] op.holds(x, y) == written_relation(b.subrange(s, s + len), x, y)
        },
        forall|len: int|
            0 <= len && s + len <= b.len() && #[trigger] comparison_token(b.subrange(s, s + len)) ==> (comparison_at(
                b,
                s,
            ) matches Some((_, l)) && l >= len),
{
    reveal_strlit("==");
    reveal_strlit("!=");
    reveal_strlit("<=");
    reveal_strlit(">=");
    reveal_strlit("<");
    reveal_strlit(">");
    let eq = "=="@.map_values(|c: char| c as u8);
    let ne = "!="@.map_values(|c: char| c as u8);
    let le = "<="@.map_values(|c: char| c as u8);
    let ge = ">="@.map_values(|c: char| c as u8);
    let lt = "<"@.map_values(|c: char| c as u8);
    let gt = ">"@.map_values(|c: char| c as u8);
    assert(eq =~= seq![61u8, 61u8]);
    assert(ne =~= seq![33u8, 61u8]);
    assert(le =~= seq![60u8, 61u8]);
    assert(ge =~= seq![62u8, 61u8]);
    assert(lt =~= seq![60u8]);
    assert(gt =~= seq![62u8]);
    assert(eq[0] == 61 && ne[0] == 33 && le[0] == 60 && ge[0] == 62 && lt[0] == 60 && gt[0] == 62);
    assert(eq.len() == 2 && ne.len() == 2 && le.len() == 2 && ge.len() == 2 && lt.len() == 1 && gt.len() == 1);
    if s + 2 <= b.len() {
        assert(b.subrange(s, s + 2) =~= seq![b[s], b[s + 1]]);
    }
    if s + 1 <= b.len() {
        assert(b.subrange(s, s + 1) =~= seq![b[s]]);
    }
    assert forall|len: int|
        0 <= len && s + len <= b.len() && #[trigger] comparison_token(b.subrange(s, s + len)) implies (comparison_at(
        b,
        s,
    ) matches Some((_, l)) && l >= len) by {
        assert(b.subrange(s, s + len).len() == len);
        if len == 2 {
            assert(b.subrange(s, s + 2)[0] == b[s] && b.subrange(s, s + 2)[1] == b[s + 1]);
        } else if len == 1 {
            assert(b.subrange(s, s + 1)[0] == b[s]);
        }
    }
}

/// Whether an `if` with the condition `cond` added, after `g0`, the node that goes to
/// the `then` branch (first) and the one that goes to the `else` branch or past the
/// statement (second), both `Noop`s with a successor, then the `If` node testing `cond`
/// that enters the statement, and ends at a `Noop`.
pub open spec fn if_lowered(g0: Seq<Node>, g1: Seq<Node>, f: Fragment, cond: Condition) -> bool {
    let n0 = g0.len() as int;
    &&& g1.len() > n0 + 2
    &&& f.first.idx() == n0 + 2
    &&& g1[n0 + 2].instr matches Op::If { condition, then } && condition == cond && then.idx() == n0
    &&& g1[n0 + 2].next matches Some(x) && x.idx() == n0 + 1
    &&& g1[n0].instr is Noop && g1[n0].next is Some
    &&& g1[n0 + 1].instr is Noop && g1[n0 + 1].next is Some
    &&& g1[f.last.idx() as int].instr is Noop
}

/// Whether `if a OP b { .. }` from `pos` on compiled, with the variables `vars`, to an
/// `If` node comparing the registers of `a` and `b` with `OP` (see [`if_lowered`]).
pub open spec fn comparison_lowered(b: Seq<u8>, pos: int, vars: Seq<(&str, RegId)>, g0: Seq<Node>, g1: Seq<Node>, f: Fragment) -> bool {
    let t = skip_spec(b, pos);
    let s = after_ident(b, t);
    match comparison_at(b, s) {
        Some((op, n)) => match (variable_of(vars, ident_text(b, t)), variable_of(vars, ident_text(b, skip_spec(b, s + n)))) {
            (Some(lhs), Some(rhs)) => if_lowered(g0, g1, f, Condition::Cmp { lhs, rhs, op }),
            _ => false,
        },
        None => false,
    }
}

/// Whether a loop entered at `f.first` and left at `f.last` has the frame that keeps it
/// from getting stuck: the entry saves the input offset into the fresh register `saved`
/// (number `rc`) and goes to `loop_start`; after the body a check compares the offset
/// with the saved one and, where it did not move, steps it by one; both go back to the
/// entry.
pub open spec fn loop_frame(g: Seq<Node>, f: Fragment, loop_start: NodeId, rc: nat) -> bool {
    exists|saved: RegId, off: RegId, adv: NodeId, check: NodeId|
        #![trigger saved.idx(), off.idx(), g[adv.idx() as int], g[check.idx() as int]]
        {
            &&& saved.idx() == rc
            &&& off.idx() == Register::InputOffset.number()
            &&& adv.idx() < g.len() && check.idx() < g.len()
            &&& g[f.first.idx() as int] == Node { next: Some(loop_start), instr: Op::Mov { dst: saved, src: off } }
            &&& g[adv.idx() as int] == Node { next: Some(f.first), instr: Op::AddImm { dst: off, imm: 1 } }
            &&& g[check.idx() as int] == Node {
                next: Some(f.first),
                instr: Op::If { condition: Condition::Cmp { lhs: off, rhs: saved, op: ComparisonOp::Eq }, then: adv },
            }
        }
}

/// Whether a highlight kind in `ks` has the identifier `name` and the value `v`.
pub open spec fn kind_named(ks: Seq<HighlightKind>, name: Seq<char>, v: u32) -> bool {
    exists|i: int| 0 <= i < ks.len() && (#[trigger] ks[i]).identifier@ == name && ks[i].value == v
}

/// Whether the fragment's ends are nodes of `p`.
pub open spec fn frag_ok(p: Program, f: Fragment) -> bool {
    id_ok(f.first, p.graph.view().len()) && id_ok(f.last, p.graph.view().len())
}

impl<'c, 'src> Parser<'c, 'src> {
    /// Adds `node`, or fails when the graph has no free id left.
    fn alloc_node(&mut self, node: Node) -> (r: Result<NodeId, CompileError>)
        requires
            old(self).wf(),
            old(self).program.node_ok(node),
        ensures
            final(self).wf(),
            Self::same_frame(old(self), final(self)),
            *final(final(self).program) == *final(old(self).program),
            final(self).variables == old(self).variables,
            final(self).pos == old(self).pos,
            r matches Ok(id) ==> id.idx() == old(self).program.graph.view().len()
                && final(self).program.graph.view() == old(self).program.graph.view().push(node)
                && final(self).program.register_count == old(self).program.register_count,
            old(self).program.graph.view().len() <= 0xffff_ffff ==> r is Ok,
            final(self).program.register_count == old(self).program.register_count,
            final(self).program.highlight_kinds == old(self).program.highlight_kinds,
            r is Err ==> final(self).program.graph == old(self).program.graph,
            final(self).program.strings == old(self).program.strings,
            final(self).program.charsets == old(self).program.charsets,
            r matches Err(e) ==> Self::err_ok(old(self), e),
    {
        if self.program.graph.len() > 0xffff_ffffusize {
            return Err(self.error(text("index exceeds u32::MAX")));
        }
        let ghost p0 = *self.program;
        let id = self.program.alloc_ir(node);
        assert forall|i: int| 0 <= i < self.program.graph.view().len() implies self.program.node_ok(#[trigger] self.program.graph.view()[i]) by {
            if i < p0.graph.view().len() {
                assert(p0.node_ok(p0.graph.view()[i]));
            }
        }
        assert forall|i: int| 0 <= i < self.context@.len() implies context_ok(*self.program, #[trigger] self.context@[i]) by {
            assert(context_ok(p0, self.context@[i]));
        }
        Ok(id)
    }

    fn alloc_op(&mut self, instr: Op) -> (r: Result<NodeId, CompileError>)
        requires
            old(self).wf(),
            old(self).program.op_ok(instr),
        ensures
            final(self).wf(),
            Self::same_frame(old(self), final(self)),
            *final(final(self).program) == *final(old(self).program),
            final(self).variables == old(self).variables,
            final(self).pos == old(self).pos,
            r matches Ok(id) ==> id.idx() == old(self).program.graph.view().len()
                && final(self).program.graph.view() == old(self).program.graph.view().push(Node { next: None, instr })
                && final(self).program.register_count == old(self).program.register_count,
            old(self).program.graph.view().len() <= 0xffff_ffff ==> r is Ok,
            final(self).program.register_count == old(self).program.register_count,
            final(self).program.highlight_kinds == old(self).program.highlight_kinds,
            r is Err ==> final(self).program.graph == old(self).program.graph,
            final(self).program.strings == old(self).program.strings,
            final(self).program.charsets == old(self).program.charsets,
            r matches Err(e) ==> Self::err_ok(old(self), e),
    {
        self.alloc_node(Node { next: None, instr })
    }

    fn alloc_noop(&mut self) -> (r: Result<NodeId, CompileError>)
        requires
            old(self).wf(),
        ensures
            final(self).wf(),
            Self::same_frame(old(self), final(self)),
            *final(final(self).program) == *final(old(self).program),
            final(self).variables == old(self).variables,
            final(self).pos == old(self).pos,
            r matches Ok(id) ==> id.idx() == old(self).program.graph.view().len()
                && final(self).program.graph.view() == old(self).program.graph.view().push(Node { next: None, instr: Op::Noop })
                && final(self).program.register_count == old(self).program.register_count,
            old(self).program.graph.view().len() <= 0xffff_ffff ==> r is Ok,
            final(self).program.register_count == old(self).program.register_count,
            final(self).program.highlight_kinds == old(self).program.highlight_kinds,
            r is Err ==> final(self).program.graph == old(self).program.graph,
            final(self).program.strings == old(self).program.strings,
            final(self).program.charsets == old(self).program.charsets,
            r matches Err(e) ==> Self::err_ok(old(self), e),
    {
        self.alloc_op(Op::Noop)
    }

    /// A fresh virtual register, or a failure when none is left.
    fn alloc_vreg(&mut self) -> (r: Result<RegId, CompileError>)
        requires
            old(self).wf(),
        ensures
            final(self).wf(),
            Self::same_frame(old(self), final(self)),
            *final(final(self).program) == *final(old(self).program),
            final(self).variables == old(self).variables,
            final(self).pos == old(self).pos,
            r matches Ok(reg) ==> final(self).program.reg_ok(reg) && !(reg.idx() < REGISTER_COUNT),
            r matches Ok(reg) ==> reg.idx() == old(self).program.register_count && final(self).program.register_count
                == old(self).program.register_count + 1,
            final(self).program.graph == old(self).program.graph,
            final(self).program.highlight_kinds == old(self).program.highlight_kinds,
            r matches Err(e) ==> Self::err_ok(old(self), e),
    {
        if self.program.register_count > 0xffff_fffeusize {
            return Err(self.error(text("too many registers")));
        }
        let ghost p0 = *self.program;
        let reg = self.program.alloc_vreg();
        assert forall|i: int| 0 <= i < self.program.graph.view().len() implies self.program.node_ok(#[trigger] self.program.graph.view()[i]) by {
            assert(p0.node_ok(p0.graph.view()[i]));
        }
        assert forall|i: int| 0 <= i < self.context@.len() implies context_ok(*self.program, #[trigger] self.context@[i]) by {
            assert(context_ok(p0, self.context@[i]));
        }
        Ok(reg)
    }

    /// Makes `next` the successor of `node`.
    fn link(&mut self, node: NodeId, next: NodeId)
        requires
            old(self).wf(),
            id_ok(node, old(self).program.graph.view().len()),
            id_ok(next, old(self).program.graph.view().len()),
        ensures
            final(self).wf(),
            Self::same_frame(old(self), final(self)),
            *final(final(self).program) == *final(old(self).program),
            final(self).variables == old(self).variables,
            final(self).pos == old(self).pos,
            final(self).program.graph.view().len() == old(self).program.graph.view().len(),
            final(self).program.register_count == old(self).program.register_count,
            final(self).program.highlight_kinds == old(self).program.highlight_kinds,
            final(self).program.graph.view() == old(self).program.graph.view().update(
                node.idx() as int,
                Node { next: Some(next), ..old(self).program.graph.view()[node.idx() as int] },
            ),
            final(self).token_start == old(self).token_start,
    {
        let ghost p0 = *self.program;
        self.program.graph.node_mut(node).set_next(next);
        assert forall|i: int| 0 <= i < self.program.graph.view().len() implies self.program.node_ok(#[trigger] self.program.graph.view()[i]) by {
            assert(p0.node_ok(p0.graph.view()[i]));
        }
        assert forall|i: int| 0 <= i < self.context@.len() implies context_ok(*self.program, #[trigger] self.context@[i]) by {
            assert(context_ok(p0, self.context@[i]));
        }
    }

    /// Whether `node` wants a successor.
    fn wants_next(&self, node: NodeId) -> (r: bool)
        requires
            self.wf(),
            id_ok(node, self.program_spec().graph.view().len()),
        ensures
            r == self.program_spec().graph.view()[node.idx() as int].wants_next_spec(),
    {
        self.program.graph.node(node).wants_next()
    }

    /// The register a variable name stands for.
    fn get_variable(&self, name: &str) -> (r: Result<RegId, CompileError>)
        requires
            self.wf(),
        ensures
            r matches Ok(reg) ==> self.program_spec().reg_ok(reg),
            r matches Err(e) ==> Self::err_ok(self, e),
            match variable_of(self.variables@, name@) {
                Some(reg) => r == Ok::<RegId, CompileError>(reg),
                None => r matches Err(e) && e.message@ == "undefined variable '"@ + name@ + "'"@
                    && e.line == newlines(self.bytes().take(self.token_start as int)) + 1
                    && e.column == line_tail(self.bytes().take(self.token_start as int)) + 1,
            },
    {
        let mut i: usize = 0;
        while i < self.variables.len()
            invariant
                self.wf(),
                i <= self.variables@.len(),
                variable_index(self.variables@, name@, 0) == variable_index(self.variables@, name@, i as int),
            decreases self.variables@.len() - i,
        {
            let (n, reg) = self.variables[i];
            if str_eq(n, name) {
                return Ok(reg);
            }
            i += 1;
        }
        Err(self.error(msg3("undefined variable '", name, "'")))
    }

    /// Whether a variable named `name` exists.
    fn has_variable(&self, name: &str) -> (r: bool)
        requires
            self.wf(),
        ensures
            r == variable_of(self.variables@, name@) is Some,
    {
        let mut i: usize = 0;
        while i < self.variables.len()
            invariant
                i <= self.variables@.len(),
                variable_index(self.variables@, name@, 0) == variable_index(self.variables@, name@, i as int),
            decreases self.variables@.len() - i,
        {
            if str_eq(self.variables[i].0, name) {
                return true;
            }
            i += 1;
        }
        false
    }

    /// Binds `name` to `reg`, replacing any earlier binding.
    fn set_variable(&mut self, name: &'src str, reg: RegId)
        requires
            old(self).wf(),
            old(self).program.reg_ok(reg),
        ensures
            final(self).wf(),
            Self::same_frame(old(self), final(self)),
            *final(self).program == *old(self).program,
            *final(final(self).program) == *final(old(self).program),
            final(self).pos == old(self).pos,
            final(self).token_start == old(self).token_start,
            final(self).variables@ == bind_variable(old(self).variables@, name, reg),
    {
        let mut i: usize = 0;
        let n = self.variables.len();
        while i < n
            invariant
                i <= n,
                n == self.variables@.len(),
                self.variables@ == old(self).variables@,
                variable_index(self.variables@, name@, 0) == variable_index(self.variables@, name@, i as int),
            ensures
                i <= n,
                self.variables@ == old(self).variables@,
                variable_index(self.variables@, name@, 0) == i as int,
            decreases n - i,
        {
            if str_eq(self.variables[i].0, name) {
                break;
            }
            i += 1;
        }
        if i < n {
            self.variables.set(i, (name, reg));
        } else {
            self.variables.push((name, reg));
        }
    }
}

impl<'c, 'src> Parser<'c, 'src> {
    #[verifier::spinoff_prover]
    #[verifier::rlimit(30)]
    fn parse_block(&mut self) -> (r: Result<Fragment, CompileError>)
        requires
            old(self).wf(),
        ensures
            prefix_kept(old(self).program.graph.view(), final(self).program.graph.view()),
            r matches Ok(f) ==> f.first.idx() >= old(self).program.graph.view().len() && f.last.idx() >= old(self).program.graph.view().len(),
            final(self).wf(),
            Self::same_frame(old(self), final(self)),
            *final(final(self).program) == *final(old(self).program),
            r matches Ok(f) ==> frag_ok(*final(self).program, f),
            r matches Err(e) ==> Self::err_ok(old(self), e),
            ({
                let b = old(self).bytes();
                let t = skip_spec(b, old(self).pos as int);
                let u = skip_spec(b, t + 1);
                t < b.len() && b[t] == 123 && u < b.len() && b[u] == 125 && old(self).program.graph.view().len()
                    <= 0xffff_ffff ==> {
                    &&& r matches Ok(f) && f.first == f.last && f.first.idx() == old(self).program.graph.view().len()
                    &&& final(self).pos == u + 1
                    &&& final(self).program.graph.view() == old(self).program.graph.view().push(
                        Node { next: None, instr: Op::Noop },
                    )
                }
            }),
            ({
                let b = old(self).bytes();
                let t = skip_spec(b, old(self).pos as int);
                t < b.len() && b[t] == 123 && old(self).context@.len() == 0 ==> (loop_control_at(b, skip_spec(b, t + 1))
                    matches Some(s) ==> (r matches Err(e) && stray_loop_control(b, s, e)))
            }),
            ({
                let b = old(self).bytes();
                let t = skip_spec(b, old(self).pos as int);
                t < b.len() && b[t] == 123 ==> (if_unknown_at(b, old(self).variables@, skip_spec(b, t + 1)) matches Some(
                    s,
                ) ==> (r matches Err(e) && undefined_variable(b, s, e)))
            }),
            ({
                let b = old(self).bytes();
                let t = skip_spec(b, old(self).pos as int);
                t < b.len() && b[t] == 123 ==> (bad_ident_statement_at(b, skip_spec(b, t + 1)) matches Some(s) ==> (
                r matches Err(e) && bad_identifier_statement(b, s, e)))
            }),
        decreases old(self).bytes().len() - old(self).pos, 4nat,
    {
        match self.expect(123) {
            Ok(()) => {},
            Err(e) => {
                return Err(e);
            },
        }
        let ghost entry = *self;
        let ghost b = old(self).bytes();
        let ghost empty = {
            let t = skip_spec(b, old(self).pos as int);
            let u = skip_spec(b, t + 1);
            t < b.len() && b[t] == 123 && u < b.len() && b[u] == 125
        };
        let ghost u = skip_spec(b, skip_spec(b, old(self).pos as int) + 1);
        let ghost stray = skip_spec(b, old(self).pos as int) < b.len() && b[skip_spec(b, old(self).pos as int)] == 123
            && old(self).context@.len() == 0 && loop_control_at(b, u) is Some;
        let ghost undef = skip_spec(b, old(self).pos as int) < b.len() && b[skip_spec(b, old(self).pos as int)] == 123
            && if_unknown_at(b, old(self).variables@, u) is Some;
        let ghost badid = skip_spec(b, old(self).pos as int) < b.len() && b[skip_spec(b, old(self).pos as int)] == 123
            && bad_ident_statement_at(b, u) is Some;
        proof {
            lemma_skip_spec_bounds(b, old(self).pos as int);
            if stray || undef || badid {
                lemma_skip_idem(b, skip_spec(b, old(self).pos as int) + 1);
                lemma_skip_spec_bounds(b, skip_spec(b, old(self).pos as int) + 1);
            }
            if stray {
                lemma_loop_control_first(b, u);
            }
            if undef {
                lemma_if_first(b, old(self).variables@, u);
            }
        }
        // A noop node is allocated for every block, even where it stays unused.
        let mut result: Option<Fragment> = None;
        loop
            invariant_except_break
                empty ==> result is None && self.pos == entry.pos && *self.program == *entry.program,
                stray ==> self.pos == entry.pos,
                undef ==> self.pos == entry.pos && self.variables@ == old(self).variables@,
                badid ==> self.pos == entry.pos,
            invariant
                prefix_kept(old(self).program.graph.view(), self.program.graph.view()),
                result matches Some(f) ==> f.first.idx() >= old(self).program.graph.view().len() && f.last.idx()
                    >= old(self).program.graph.view().len(),
                badid == (skip_spec(b, old(self).pos as int) < b.len() && b[skip_spec(b, old(self).pos as int)] == 123
                    && bad_ident_statement_at(b, u) is Some),
                badid ==> skip_spec(b, entry.pos as int) == u && skip_spec(b, u) == u && u < b.len() && is_ident_start(b[u]),
                undef == (skip_spec(b, old(self).pos as int) < b.len() && b[skip_spec(b, old(self).pos as int)] == 123
                    && if_unknown_at(b, old(self).variables@, u) is Some),
                undef ==> skip_spec(b, entry.pos as int) == u && skip_spec(b, u) == u && u < b.len() && b[u] == 105,
                stray == (skip_spec(b, old(self).pos as int) < b.len() && b[skip_spec(b, old(self).pos as int)] == 123
                    && old(self).context@.len() == 0 && loop_control_at(b, u) is Some),
                stray ==> skip_spec(b, entry.pos as int) == u && skip_spec(b, u) == u && u < b.len() && (b[u] == 98
                    || b[u] == 99) && self.context@.len() == 0,
                empty ==> skip_spec(b, entry.pos as int) == u && u < b.len() && b[u] == 125,
                u == skip_spec(b, skip_spec(b, old(self).pos as int) + 1),
                empty == (skip_spec(b, old(self).pos as int) < b.len() && b[skip_spec(b, old(self).pos as int)] == 123
                    && u < b.len() && b[u] == 125),
                self.wf(),
                Self::same_frame(&entry, self),
                *final(self.program) == *final(old(self).program),
                Self::same_frame(old(self), self),
                result matches Some(f) ==> frag_ok(*self.program, f),
                b == self.bytes(),
            ensures
                prefix_kept(old(self).program.graph.view(), self.program.graph.view()),
                result matches Some(f) ==> f.first.idx() >= old(self).program.graph.view().len() && f.last.idx()
                    >= old(self).program.graph.view().len(),
                self.wf(),
                Self::same_frame(&entry, self),
                *final(self.program) == *final(old(self).program),
                Self::same_frame(old(self), self),
                result matches Some(f) ==> frag_ok(*self.program, f),
                b == self.bytes(),
                empty ==> result is None && self.pos == u && *self.program == *entry.program,
                !stray,
                !undef,
                !badid,
            decreases self.bytes().len() - self.pos,
        {
            let next = self.peek();
            if next == Some(125u8) || next.is_none() {
                break;
            }
            let st = match self.parse_statement() {
                Ok(st) => st,
                Err(e) => {
                    return Err(e);
                },
            };
            match result {
                Some(span) => {
                    self.link(span.last, st.first);
                    result = Some(Fragment { first: span.first, last: st.last });
                },
                None => {
                    result = Some(st);
                },
            }
        }
        proof {
            if empty {
                lemma_skip_idem(b, skip_spec(b, old(self).pos as int) + 1);
            }
        }
        match self.expect(125) {
            Ok(()) => {},
            Err(e) => {
                return Err(e);
            },
        }
        match result {
            Some(span) => Ok(span),
            None => {
                let n = match self.alloc_noop() {
                    Ok(n) => n,
                    Err(e) => {
                        return Err(e);
                    },
                };
                Ok(Fragment::single(n))
            },
        }
    }
}

impl<'c, 'src> Parser<'c, 'src> {
    fn parse_statement(&mut self) -> (r: Result<Fragment, CompileError>)
        requires
            old(self).wf(),
        ensures
            prefix_kept(old(self).program.graph.view(), final(self).program.graph.view()),
            r matches Ok(f) ==> f.first.idx() >= old(self).program.graph.view().len() && f.last.idx() >= old(self).program.graph.view().len(),
            final(self).wf(),
            Self::same_frame(old(self), final(self)),
            *final(final(self).program) == *final(old(self).program),
            r matches Ok(f) ==> frag_ok(*final(self).program, f) && old(self).pos < final(self).pos,
            r matches Err(e) ==> Self::err_ok(old(self), e),
            loop_control_at(old(self).bytes(), skip_spec(old(self).bytes(), old(self).pos as int)) matches Some(s) ==> (
            old(self).context@.len() == 0 ==> (r matches Err(e) && stray_loop_control(old(self).bytes(), s, e))),
            if_unknown_at(old(self).bytes(), old(self).variables@, skip_spec(old(self).bytes(), old(self).pos as int))
                matches Some(s) ==> (r matches Err(e) && undefined_variable(old(self).bytes(), s, e)),
            bad_ident_statement_at(old(self).bytes(), skip_spec(old(self).bytes(), old(self).pos as int)) matches Some(
                s,
            ) ==> (r matches Err(e) && bad_identifier_statement(old(self).bytes(), s, e)),
        decreases old(self).bytes().len() - old(self).pos, 3nat,
    {
        proof {
            lemma_statement_keywords();
        }
        if self.is_keyword("var") {
            self.parse_var_declaration()
        } else if self.is_keyword("loop") {
            self.parse_loop()
        } else if self.is_keyword("until") {
            self.parse_until()
        } else if self.is_keyword("break") {
            self.parse_loop_control(true)
        } else if self.is_keyword("continue") {
            self.parse_loop_control(false)
        } else if self.is_keyword("return") {
            self.parse_return()
        } else if self.is_keyword("if") {
            self.parse_if()
        } else if self.is_keyword("await") {
            self.parse_await()
        } else if self.is_keyword("yield") {
            self.parse_yield()
        } else {
            match self.peek() {
                Some(c) => {
                    if (65 <= c && c <= 90) || (97 <= c && c <= 122) || c == 95 {
                        return self.parse_identifier_stmt();
                    }
                },
                None => {},
            }
            self.mark();
            Err(self.error(text("unexpected token")))
        }
    }

    #[verifier::spinoff_prover]
    #[verifier::rlimit(30)]
    fn parse_loop(&mut self) -> (r: Result<Fragment, CompileError>)
        requires
            old(self).wf(),
        ensures
            prefix_kept(old(self).program.graph.view(), final(self).program.graph.view()),
            r matches Ok(f) ==> f.first.idx() >= old(self).program.graph.view().len() && f.last.idx() >= old(self).program.graph.view().len(),
            final(self).wf(),
            Self::same_frame(old(self), final(self)),
            *final(final(self).program) == *final(old(self).program),
            r matches Ok(f) ==> frag_ok(*final(self).program, f) && old(self).pos < final(self).pos,
            r matches Err(e) ==> Self::err_ok(old(self), e),
            r matches Ok(f) ==> {
                let (g0, g1) = (old(self).program.graph.view(), final(self).program.graph.view());
                &&& f.last.idx() == g0.len() + 1
                &&& g1[g0.len() as int].instr is Noop
                &&& g1[g0.len() as int].next is Some
                &&& exists|start: NodeId|
                    start.idx() == g0.len() && #[trigger] loop_frame(g1, f, start, old(self).program.register_count as nat)
            },
        decreases old(self).bytes().len() - old(self).pos, 2nat,
    {
        match { proof { reveal_strlit("loop"); lemma_nonempty_bytes("loop"); } self.expect_keyword("loop") } {
            Ok(_) => {},
            Err(e) => {
                return Err(e);
            },
        };
        let loop_start = match self.alloc_noop() {
            Ok(x) => x,
            Err(e) => {
                return Err(e);
            },
        };
        let loop_exit = match self.alloc_noop() {
            Ok(x) => x,
            Err(e) => {
                return Err(e);
            },
        };
        self.parse_until_impl(loop_start, loop_start, loop_exit)
    }

    fn parse_until(&mut self) -> (r: Result<Fragment, CompileError>)
        requires
            old(self).wf(),
        ensures
            prefix_kept(old(self).program.graph.view(), final(self).program.graph.view()),
            r matches Ok(f) ==> f.first.idx() >= old(self).program.graph.view().len() && f.last.idx() >= old(self).program.graph.view().len(),
            final(self).wf(),
            Self::same_frame(old(self), final(self)),
            *final(final(self).program) == *final(old(self).program),
            r matches Ok(f) ==> frag_ok(*final(self).program, f) && old(self).pos < final(self).pos,
            r matches Err(e) ==> Self::err_ok(old(self), e),
        decreases old(self).bytes().len() - old(self).pos, 2nat,
    {
        match { proof { reveal_strlit("until"); lemma_nonempty_bytes("until"); } self.expect_keyword("until") } {
            Ok(_) => {},
            Err(e) => {
                return Err(e);
            },
        };
        let re = match self.parse_if_regex() {
            Ok(x) => x,
            Err(e) => {
                return Err(e);
            },
        };
        let loop_exit = match self.alloc_noop() {
            Ok(x) => x,
            Err(e) => {
                return Err(e);
            },
        };
        self.link(re.dst_good, loop_exit);
        self.parse_until_impl(re.src, re.dst_bad, loop_exit)
    }

    #[verifier::spinoff_prover]
    #[verifier::rlimit(30)]
    fn parse_until_impl(&mut self, loop_start: NodeId, loop_good: NodeId, loop_exit: NodeId) -> (r: Result<Fragment, CompileError>)
        requires
            old(self).wf(),
            id_ok(loop_start, old(self).program.graph.view().len()),
            id_ok(loop_good, old(self).program.graph.view().len()),
            id_ok(loop_exit, old(self).program.graph.view().len()),
        ensures
            old(self).program.graph.view().len() <= final(self).program.graph.view().len(),
            forall|i: int|
                0 <= i < old(self).program.graph.view().len() && i != loop_good.idx()
                    ==> #[trigger] final(self).program.graph.view()[i] == old(self).program.graph.view()[i],
            final(self).wf(),
            Self::same_frame(old(self), final(self)),
            *final(final(self).program) == *final(old(self).program),
            r matches Ok(f) ==> frag_ok(*final(self).program, f),
            r matches Ok(f) ==> {
                let g = final(self).program.graph.view();
                &&& f.last == loop_exit
                &&& f.first.idx() >= old(self).program.graph.view().len()
                &&& g[f.first.idx() as int].next == Some(loop_start)
                &&& g[loop_good.idx() as int].next is Some
            },
            r matches Err(e) ==> Self::err_ok(old(self), e),
            r matches Ok(f) ==> loop_frame(
                final(self).program.graph.view(),
                f,
                loop_start,
                old(self).program.register_count as nat,
            ),
            final(self).program.graph.view()[loop_good.idx() as int].instr == old(self).program.graph.view()[loop_good.idx() as int].instr,
        decreases old(self).bytes().len() - old(self).pos, 5nat,
    {
        let ghost len0 = self.program.graph.view().len();
        // First, save the current input offset.
        // This is used to detect if the loop made any progress.
        let saved_offset = match self.alloc_vreg() {
            Ok(x) => x,
            Err(e) => {
                return Err(e);
            },
        };
        let off = self.program.get_reg(Register::InputOffset);
        let first = match self.alloc_op(Op::Mov { dst: saved_offset, src: off }) {
            Ok(x) => x,
            Err(e) => {
                return Err(e);
            },
        };
        let ghost ctx0 = self.context@;
        self.context.push(Context { loop_start: Some(loop_start), loop_exit: Some(loop_exit), capture_groups: Vec::new() });
        let block = self.parse_block();
        self.context.pop();
        assert(self.context@ =~= ctx0);
        let block = match block {
            Ok(x) => x,
            Err(e) => {
                return Err(e);
            },
        };

        // Force advance the input offset by 1 if it got stuck in the loop iteration.
        //   if input_offset == saved_offset {
        //       input_offset += 1;
        //   }
        let advance = match self.alloc_node(Node { next: Some(first), instr: Op::AddImm { dst: off, imm: 1 } }) {
            Ok(x) => x,
            Err(e) => {
                return Err(e);
            },
        };
        let advance_check = match self.alloc_node(Node { next: Some(first), instr: Op::If { condition: Condition::Cmp { lhs: off, rhs: saved_offset, op: ComparisonOp::Eq }, then: advance } }) {
            Ok(x) => x,
            Err(e) => {
                return Err(e);
            },
        };

        // The block must be connected to the loop before the interesting charset is
        // collected: the until statement's regex is not part of the loop but still
        // counts, for the purpose of skipping uninteresting characters.
        self.link(first, loop_start);
        self.link(loop_good, block.first);
        assert(first.idx() >= len0);
        assert(self.program.graph.view()[first.idx() as int].next == Some(loop_start));
        assert(self.program.graph.view()[loop_good.idx() as int].next is Some);
        let ghost g1 = self.program.graph.view();

        // Skip any uninteresting characters before the next loop iteration.
        //   if /.*?/ {}
        let interesting = self.program.collect_interesting_charset(loop_start);
        let fast_skip = if interesting.covers_all() {
            advance_check
        } else {
            let mut skip_charset = interesting;
            skip_charset.invert();
            let cs = match self.intern_charset(&skip_charset) {
                Ok(x) => x,
                Err(e) => {
                    return Err(e);
                },
            };
            match self.alloc_node(Node { next: Some(advance_check), instr: Op::If { condition: Condition::Charset { cs, min: 1, max: u32::MAX }, then: advance_check } }) {
                Ok(x) => x,
                Err(e) => {
                    return Err(e);
                },
            }
        };
        assert(self.program.graph.view().len() >= g1.len());
        assert(self.program.graph.view()[first.idx() as int] == g1[first.idx() as int]);
        assert(self.program.graph.view()[loop_good.idx() as int] == g1[loop_good.idx() as int]);
        let ghost g2 = self.program.graph.view();
        if self.wants_next(block.last) {
            self.link(block.last, fast_skip);
        }
        let f = Fragment { first, last: loop_exit };
        proof {
            let g = self.program.graph.view();
            assert(g[first.idx() as int] == g2[first.idx() as int]);
            assert(g[advance.idx() as int] == g2[advance.idx() as int]);
            assert(g[advance_check.idx() as int] == g2[advance_check.idx() as int]);
            assert(g[f.first.idx() as int] == Node { next: Some(loop_start), instr: Op::Mov { dst: saved_offset, src: off } });
        }
        Ok(f)
    }

    /// `break;` (leaves the innermost loop) or `continue;` (restarts it).
    fn parse_loop_control(&mut self, is_break: bool) -> (r: Result<Fragment, CompileError>)
        requires
            old(self).wf(),
        ensures
            prefix_kept(old(self).program.graph.view(), final(self).program.graph.view()),
            r matches Ok(f) ==> f.first.idx() >= old(self).program.graph.view().len() && f.last.idx() >= old(self).program.graph.view().len(),
            final(self).wf(),
            Self::same_frame(old(self), final(self)),
            *final(final(self).program) == *final(old(self).program),
            r matches Ok(f) ==> frag_ok(*final(self).program, f) && old(self).pos < final(self).pos,
            r matches Ok(f) ==> {
                &&& old(self).context@.len() > 0
                &&& f.first == f.last
                &&& f.first.idx() == old(self).program.graph.view().len()
                &&& final(self).program.graph.view() == old(self).program.graph.view().push(
                    Node {
                        next: if is_break {
                            old(self).context@.last().loop_exit
                        } else {
                            old(self).context@.last().loop_start
                        },
                        instr: Op::Noop,
                    },
                )
                &&& final(self).program.graph.view().last().next is Some
            },
            r matches Err(e) ==> Self::err_ok(old(self), e),
            ({
                let b = old(self).bytes();
                let kw = if is_break {
                    "break".spec_bytes()
                } else {
                    "continue".spec_bytes()
                };
                let t = skip_spec(b, old(self).pos as int);
                let s = skip_spec(b, t + kw.len());
                keyword_at(b, t, kw) && s < b.len() && b[s] == 59 && old(self).context@.len() == 0 ==> (r matches Err(
                    e,
                ) && stray_loop_control(b, s, e))
            }),
        decreases old(self).bytes().len() - old(self).pos, 2nat,
    {
        if is_break {
            match { proof { reveal_strlit("break"); lemma_nonempty_bytes("break"); } self.expect_keyword("break") } {
                Ok(_) => {},
                Err(e) => {
                    return Err(e);
                },
            };
        } else {
            match { proof { reveal_strlit("continue"); lemma_nonempty_bytes("continue"); } self.expect_keyword("continue") } {
                Ok(_) => {},
                Err(e) => {
                    return Err(e);
                },
            };
        }
        match self.expect(59) {
            Ok(_) => {},
            Err(e) => {
                return Err(e);
            },
        };
        let target = match self.context.last() {
            Some(ctx) => if is_break {
                ctx.loop_exit
            } else {
                ctx.loop_start
            },
            None => None,
        };
        match target {
            Some(t) => {
                let ir = match self.alloc_noop() {
                    Ok(x) => x,
                    Err(e) => {
                        return Err(e);
                    },
                };
                self.link(ir, t);
                Ok(Fragment::single(ir))
            },
            None => Err(self.error(text("loop control statement outside of a loop"))),
        }
    }

    fn parse_return(&mut self) -> (r: Result<Fragment, CompileError>)
        requires
            old(self).wf(),
        ensures
            prefix_kept(old(self).program.graph.view(), final(self).program.graph.view()),
            r matches Ok(f) ==> f.first.idx() >= old(self).program.graph.view().len() && f.last.idx() >= old(self).program.graph.view().len(),
            final(self).wf(),
            Self::same_frame(old(self), final(self)),
            *final(final(self).program) == *final(old(self).program),
            r matches Ok(f) ==> frag_ok(*final(self).program, f) && old(self).pos < final(self).pos,
            r matches Ok(f) ==> chained(old(self).program.graph.view(), final(self).program.graph.view(), f, seq![Op::Return]),
            r matches Err(e) ==> Self::err_ok(old(self), e),
        decreases old(self).bytes().len() - old(self).pos, 2nat,
    {
        match { proof { reveal_strlit("return"); lemma_nonempty_bytes("return"); } self.expect_keyword("return") } {
            Ok(_) => {},
            Err(e) => {
                return Err(e);
            },
        };
        match self.expect(59) {
            Ok(_) => {},
            Err(e) => {
                return Err(e);
            },
        };
        let ghost g0 = self.program.graph.view();
        let ir = match self.alloc_op(Op::Return) {
            Ok(x) => x,
            Err(e) => {
                return Err(e);
            },
        };
        let f = Fragment::single(ir);
        proof {
            lemma_chained_single(g0, self.program.graph.view(), f, Op::Return);
        }
        Ok(f)
    }

    fn parse_if(&mut self) -> (r: Result<Fragment, CompileError>)
        requires
            old(self).wf(),
        ensures
            prefix_kept(old(self).program.graph.view(), final(self).program.graph.view()),
            r matches Ok(f) ==> f.first.idx() >= old(self).program.graph.view().len() && f.last.idx() >= old(self).program.graph.view().len(),
            final(self).wf(),
            Self::same_frame(old(self), final(self)),
            *final(final(self).program) == *final(old(self).program),
            r matches Ok(f) ==> frag_ok(*final(self).program, f) && old(self).pos < final(self).pos,
            r matches Err(e) ==> Self::err_ok(old(self), e),
            ({
                let b = old(self).bytes();
                let t = skip_spec(b, old(self).pos as int);
                let s = skip_spec(b, t + "if".spec_bytes().len());
                keyword_at(b, t, "if".spec_bytes()) && unknown_ident(b, old(self).variables@, s) ==> (r matches Err(e)
                    && undefined_variable(b, s, e))
            }),
        decreases old(self).bytes().len() - old(self).pos, 2nat,
    {
        match { proof { reveal_strlit("if"); lemma_nonempty_bytes("if"); } self.expect_keyword("if") } {
            Ok(_) => {},
            Err(e) => {
                return Err(e);
            },
        };
        proof {
            lemma_skip_idem(self.bytes(), self.pos as int);
        }
        if self.peek() == Some(47u8) {
            self.parse_if_regex_chain()
        } else {
            self.parse_if_comparison()
        }
    }

    #[verifier::spinoff_prover]
    #[verifier::rlimit(60)]
    fn parse_if_regex_chain(&mut self) -> (r: Result<Fragment, CompileError>)
        requires
            old(self).wf(),
        ensures
            prefix_kept(old(self).program.graph.view(), final(self).program.graph.view()),
            r matches Ok(f) ==> f.first.idx() >= old(self).program.graph.view().len() && f.last.idx() >= old(self).program.graph.view().len(),
            final(self).wf(),
            Self::same_frame(old(self), final(self)),
            *final(final(self).program) == *final(old(self).program),
            r matches Ok(f) ==> frag_ok(*final(self).program, f) && old(self).pos < final(self).pos,
            r matches Err(e) ==> Self::err_ok(old(self), e),
            r matches Ok(f) ==> exists|save: RegId, off: RegId, entry: NodeId|
                #![trigger save.idx(), off.idx(), entry.idx()]
                {
                    &&& save.idx() == old(self).program.register_count
                    &&& off.idx() == Register::InputOffset.number()
                    &&& entry.idx() >= old(self).program.graph.view().len()
                    &&& final(self).program.graph.view()[f.first.idx() as int] == (Node {
                        next: Some(entry),
                        instr: Op::Mov { dst: save, src: off },
                    })
                    &&& final(self).program.graph.view()[f.last.idx() as int].instr is Noop
                },
        decreases old(self).bytes().len() - old(self).pos, 5nat,
    {
        let mut prev: Option<NodeId> = None;
        // First, save the current input offset.
        // This is used to restore the position on failed matches.
        let save_reg = match self.alloc_vreg() {
            Ok(x) => x,
            Err(e) => {
                return Err(e);
            },
        };
        let off = self.program.get_reg(Register::InputOffset);
        let first = match self.alloc_op(Op::Mov { dst: save_reg, src: off }) {
            Ok(x) => x,
            Err(e) => {
                return Err(e);
            },
        };
        let last = match self.alloc_noop() {
            Ok(x) => x,
            Err(e) => {
                return Err(e);
            },
        };
        let ghost start = *self;
        let ghost mut entry0: Option<NodeId> = None;
        let ghost rc0 = old(self).program.register_count;
        loop
            invariant
                self.wf(),
                Self::same_frame(old(self), self),
                Self::same_frame(&start, self),
                *final(self.program) == *final(old(self).program),
                self.program.reg_ok(save_reg),
                id_ok(first, self.program.graph.view().len()),
                id_ok(last, self.program.graph.view().len()),
                prev matches Some(p) ==> id_ok(p, self.program.graph.view().len()),
                off.idx() == 0,
                prefix_kept(old(self).program.graph.view(), self.program.graph.view()),
                first.idx() >= old(self).program.graph.view().len(),
                last.idx() >= old(self).program.graph.view().len(),
                prev matches Some(p) ==> p.idx() >= old(self).program.graph.view().len(),
                save_reg.idx() == rc0,
                rc0 == old(self).program.register_count,
                first.idx() < self.program.graph.view().len(),
                last.idx() < self.program.graph.view().len(),
                first != last,
                self.program.graph.view()[last.idx() as int].instr is Noop,
                prev is Some ==> entry0 is Some,
                prev matches Some(p) ==> p.idx() > first.idx() && p.idx() > last.idx(),
                entry0 is None ==> self.program.graph.view()[first.idx() as int] == (Node {
                    next: None,
                    instr: Op::Mov { dst: save_reg, src: off },
                }),
                entry0 matches Some(e) ==> e.idx() >= old(self).program.graph.view().len()
                    && self.program.graph.view()[first.idx() as int] == (Node {
                    next: Some(e),
                    instr: Op::Mov { dst: save_reg, src: off },
                }),
            ensures
                entry0 matches Some(e) ==> e.idx() >= old(self).program.graph.view().len()
                    && self.program.graph.view()[first.idx() as int] == (Node {
                    next: Some(e),
                    instr: Op::Mov { dst: save_reg, src: off },
                }),
                entry0 is Some,
                self.program.graph.view()[last.idx() as int].instr is Noop,
                prefix_kept(old(self).program.graph.view(), self.program.graph.view()),
                first.idx() >= old(self).program.graph.view().len(),
                last.idx() >= old(self).program.graph.view().len(),
                self.wf(),
                Self::same_frame(old(self), self),
                *final(self.program) == *final(old(self).program),
                id_ok(first, self.program.graph.view().len()),
                id_ok(last, self.program.graph.view().len()),
                old(self).pos < self.pos,
            decreases self.bytes().len() - self.pos,
        {
            let ghost before = self.pos;
            let re = match self.parse_if_regex() {
                Ok(x) => x,
                Err(e) => {
                    return Err(e);
                },
            };
            // Push context with capture groups for the block
            let (loop_start, loop_exit) = match self.context.last() {
                Some(ctx) => (ctx.loop_start, ctx.loop_exit),
                None => (None, None),
            };
            let ghost ctx0 = self.context@;
            self.context.push(Context { loop_start, loop_exit, capture_groups: re.capture_groups });
            let bl = self.parse_block();
            self.context.pop();
            assert(self.context@ =~= ctx0);
            let bl = match bl {
                Ok(x) => x,
                Err(e) => {
                    return Err(e);
                },
            };

            // Connect the previous else branch to form an "else if".
            // If there's no previous one, we're in the first iteration,
            // and so we connect it to the instruction that saves the position.
            let from = match prev {
                Some(p) => p,
                None => first,
            };
            self.link(from, re.src);
            proof {
                if prev is None {
                    entry0 = Some(re.src);
                }
            }
            // Connect the if to the {}.
            self.link(re.dst_good, bl.first);
            // Connect the end of the {} to the end of the if/else chain.
            if self.wants_next(bl.last) {
                self.link(bl.last, last);
            }
            // The "else" branch of the if needs to restore the position.
            let dst_bad = match self.alloc_op(Op::Mov { dst: off, src: save_reg }) {
                Ok(x) => x,
                Err(e) => {
                    return Err(e);
                },
            };
            self.link(re.dst_bad, dst_bad);

            // No else branch? dst_bad (= no hit) means we're done, so make that connection.
            let kw = "else";
            if !self.is_keyword(kw) {
                self.link(dst_bad, last);
                break;
            }
            // Gobble the "else" keyword.
            self.pos += kw.as_bytes().len();

            // The else branch has a block? That's our dst_bad.
            if !self.is_keyword("if") {
                let bl = match self.parse_block() {
                    Ok(x) => x,
                    Err(e) => {
                        return Err(e);
                    },
                };
                self.link(dst_bad, bl.first);
                // Connect the end of the {} to the end of the if/else chain.
                if self.wants_next(bl.last) {
                    self.link(bl.last, last);
                }
                break;
            }
            // Otherwise, we expect an "if" in the next iteration to form an "else if".
            match { proof { reveal_strlit("if"); lemma_nonempty_bytes("if"); } self.expect_keyword("if") } {
                Ok(_) => {},
                Err(e) => {
                    return Err(e);
                },
            };
            prev = Some(dst_bad);
        }
        let f = Fragment { first, last };
        proof {
            let e = entry0->0;
            assert(save_reg.idx() == rc0 && off.idx() == Register::InputOffset.number() && e.idx() >= old(self).program.graph.view().len());
        }
        Ok(f)
    }

}

impl<'c, 'src> Parser<'c, 'src> {
    #[verifier::spinoff_prover]
    #[verifier::rlimit(30)]
    fn parse_if_comparison(&mut self) -> (r: Result<Fragment, CompileError>)
        requires
            old(self).wf(),
        ensures
            prefix_kept(old(self).program.graph.view(), final(self).program.graph.view()),
            r matches Ok(f) ==> f.first.idx() >= old(self).program.graph.view().len() && f.last.idx() >= old(self).program.graph.view().len(),
            final(self).wf(),
            Self::same_frame(old(self), final(self)),
            *final(final(self).program) == *final(old(self).program),
            r matches Ok(f) ==> frag_ok(*final(self).program, f) && old(self).pos < final(self).pos,
            r matches Err(e) ==> Self::err_ok(old(self), e),
            old(self).unknown_ident_at() matches Some(t) ==> (r matches Err(e) && undefined_variable(
                old(self).bytes(),
                t,
                e,
            )),
            r matches Ok(f) ==> comparison_lowered(
                old(self).bytes(),
                old(self).pos_int(),
                old(self).variables@,
                old(self).program.graph.view(),
                final(self).program.graph.view(),
                f,
            ),
        decreases old(self).bytes().len() - old(self).pos, 5nat,
    {
        let ghost b = self.bytes();
        let ghost g0 = self.program.graph.view();
        let ghost n0: int = g0.len() + 0int;
        let ghost vars0 = self.variables@;
        let ghost t = skip_spec(b, self.pos_int());
        // Parse: if var1 OP var2 { block } where OP is ==, !=, <, >, <=, >=
        let lhs_name = match self.read_identifier() {
            Ok(x) => x,
            Err(e) => {
                return Err(e);
            },
        };
        proof {
            let b = self.bytes();
            let t = self.token_pos();
            if t < b.len() && is_ident_start(b[t]) {
                lemma_ident_text(b, t, lhs_name@);
            }
        }
        let lhs_vreg = match self.get_variable(lhs_name) {
            Ok(x) => x,
            Err(e) => {
                return Err(e);
            },
        };
        self.mark();
        let ghost s0 = self.pos_int();
        proof {
            lemma_comparison_bytes();
            if s0 + 2 <= b.len() {
                assert(b.subrange(s0, s0 + 2)[0] == b[s0]);
                assert(b.subrange(s0, s0 + 2)[1] == b[s0 + 1]);
                if byte_is(b, s0, 61) && byte_is(b, s0 + 1, 61) {
                    assert(b.subrange(s0, s0 + 2) =~= "==".spec_bytes());
                }
                if byte_is(b, s0, 33) && byte_is(b, s0 + 1, 61) {
                    assert(b.subrange(s0, s0 + 2) =~= "!=".spec_bytes());
                }
                if byte_is(b, s0, 60) && byte_is(b, s0 + 1, 61) {
                    assert(b.subrange(s0, s0 + 2) =~= "<=".spec_bytes());
                }
                if byte_is(b, s0, 62) && byte_is(b, s0 + 1, 61) {
                    assert(b.subrange(s0, s0 + 2) =~= ">=".spec_bytes());
                }
            }
            if s0 + 1 <= b.len() {
                assert(b.subrange(s0, s0 + 1)[0] == b[s0]);
                if byte_is(b, s0, 60) {
                    assert(b.subrange(s0, s0 + 1) =~= "<".spec_bytes());
                }
                if byte_is(b, s0, 62) {
                    assert(b.subrange(s0, s0 + 1) =~= ">".spec_bytes());
                }
            }
        }
        let (op, len) = if self.is_str("==") {
            (ComparisonOp::Eq, "==".as_bytes().len())
        } else if self.is_str("!=") {
            (ComparisonOp::Ne, "!=".as_bytes().len())
        } else if self.is_str("<=") {
            (ComparisonOp::Le, "<=".as_bytes().len())
        } else if self.is_str(">=") {
            (ComparisonOp::Ge, ">=".as_bytes().len())
        } else if self.is_str("<") {
            (ComparisonOp::Lt, "<".as_bytes().len())
        } else if self.is_str(">") {
            (ComparisonOp::Gt, ">".as_bytes().len())
        } else {
            return Err(self.error(text("expected comparison operator (==, !=, <, >, <=, >=)")));
        };
        self.pos += len;
        assert(comparison_at(b, s0) == Some((op, s0 + len - s0)));
        let rhs_name = match self.read_identifier() {
            Ok(x) => x,
            Err(e) => {
                return Err(e);
            },
        };
        proof {
            lemma_ident_text(b, self.token_pos(), rhs_name@);
        }
        let rhs_vreg = match self.get_variable(rhs_name) {
            Ok(x) => x,
            Err(e) => {
                return Err(e);
            },
        };

        let dst_good = match self.alloc_noop() {
            Ok(x) => x,
            Err(e) => {
                return Err(e);
            },
        };
        let dst_bad = match self.alloc_noop() {
            Ok(x) => x,
            Err(e) => {
                return Err(e);
            },
        };
        let cmp_node = match self.alloc_node(Node { next: Some(dst_bad), instr: Op::If { condition: Condition::Cmp { lhs: lhs_vreg, rhs: rhs_vreg, op }, then: dst_good } }) {
            Ok(x) => x,
            Err(e) => {
                return Err(e);
            },
        };
        let ghost g3 = self.program.graph.view();
        assert(g3[n0 + 2] == Node { next: Some(dst_bad), instr: Op::If { condition: Condition::Cmp { lhs: lhs_vreg, rhs: rhs_vreg, op }, then: dst_good } });

        let bl = match self.parse_block() {
            Ok(x) => x,
            Err(e) => {
                return Err(e);
            },
        };
        self.link(dst_good, bl.first);
        let end = match self.alloc_noop() {
            Ok(x) => x,
            Err(e) => {
                return Err(e);
            },
        };

        // Handle optional else branch
        let kw = "else";
        let next = if self.is_keyword(kw) {
            self.pos += kw.as_bytes().len();
            let else_bl = if self.is_keyword("if") {
                self.parse_if()
            } else {
                self.parse_block()
            };
            let else_bl = match else_bl {
                Ok(x) => x,
                Err(e) => {
                    return Err(e);
                },
            };
            if self.wants_next(else_bl.last) {
                self.link(else_bl.last, end);
            }
            else_bl.first
        } else {
            end
        };
        self.link(dst_bad, next);
        if self.wants_next(bl.last) {
            self.link(bl.last, end);
        }
        let f = Fragment { first: cmp_node, last: end };
        proof {
            let g = self.program.graph.view();
            assert(g[n0 + 2] == g3[n0 + 2]);
            assert(if_lowered(g0, g, f, Condition::Cmp { lhs: lhs_vreg, rhs: rhs_vreg, op }));
        }
        Ok(f)
    }

    #[verifier::spinoff_prover]
    #[verifier::rlimit(30)]
    fn parse_if_regex(&mut self) -> (r: Result<RegexSpan, CompileError>)
        requires
            old(self).wf(),
        ensures
            r matches Ok(re) ==> re.dst_good.idx() == old(self).program.graph.view().len() && re.dst_bad.idx()
                == old(self).program.graph.view().len() + 1 && re.src.idx() >= old(self).program.graph.view().len(),
            prefix_kept(old(self).program.graph.view(), final(self).program.graph.view()),
            final(self).wf(),
            Self::same_frame(old(self), final(self)),
            *final(final(self).program) == *final(old(self).program),
            r matches Ok(re) ==> {
                &&& id_ok(re.src, final(self).program.graph.view().len())
                &&& id_ok(re.dst_good, final(self).program.graph.view().len())
                &&& id_ok(re.dst_bad, final(self).program.graph.view().len())
                &&& forall|i: int| 0 <= i < re.capture_groups@.len() ==> final(self).program.reg_ok((#[trigger] re.capture_groups@[i]).0)
                    && final(self).program.reg_ok(re.capture_groups@[i].1)
            },
            r is Ok ==> old(self).pos < final(self).pos,
            r matches Err(e) ==> Self::err_ok(old(self), e),
    {
        let pattern = match self.read_regex() {
            Ok(x) => x,
            Err(e) => {
                return Err(e);
            },
        };
        let dst_good = match self.alloc_noop() {
            Ok(x) => x,
            Err(e) => {
                return Err(e);
            },
        };
        let dst_bad = match self.alloc_noop() {
            Ok(x) => x,
            Err(e) => {
                return Err(e);
            },
        };
        let ghost p0 = *self.program;
        let result = regex::parse(self.program, pattern, dst_good, dst_bad);
        proof {
            let g = self.program.graph.view();
            assert forall|i: int| 0 <= i < old(self).program.graph.view().len() implies #[trigger] g[i]
                == old(self).program.graph.view()[i] by {
                assert(g[i] == p0.graph.view()[i]);
            }
            assert forall|i: int| 0 <= i < self.context@.len() implies context_ok(*self.program, #[trigger] self.context@[i]) by {
                assert(context_ok(p0, self.context@[i]));
            }
        }
        match result {
            Ok((src, capture_groups)) => Ok(RegexSpan { src, dst_good, dst_bad, capture_groups }),
            Err(err) => Err(self.error(err.message())),
        }
    }

}

impl<'c, 'src> Parser<'c, 'src> {
    fn intern_charset(&mut self, cs: &Charset) -> (r: Result<super::ir::CharsetId, CompileError>)
        requires
            old(self).wf(),
        ensures
            final(self).wf(),
            Self::same_frame(old(self), final(self)),
            *final(final(self).program) == *final(old(self).program),
            final(self).pos == old(self).pos,
            final(self).variables == old(self).variables,
            final(self).program.graph == old(self).program.graph,
            final(self).program.register_count == old(self).program.register_count,
            r matches Ok(id) ==> id.idx() < final(self).program.charsets.view().len(),
            r matches Err(e) ==> Self::err_ok(old(self), e),
    {
        if self.program.charsets.len() > 0xffff_ffffusize {
            return Err(self.error(text("index exceeds u32::MAX")));
        }
        let ghost p0 = *self.program;
        let id = self.program.intern_charset(cs);
        assert forall|i: int| 0 <= i < self.program.graph.view().len() implies self.program.node_ok(#[trigger] self.program.graph.view()[i]) by {
            assert(p0.node_ok(p0.graph.view()[i]));
        }
        assert forall|i: int| 0 <= i < self.context@.len() implies context_ok(*self.program, #[trigger] self.context@[i]) by {
            assert(context_ok(p0, self.context@[i]));
        }
        Ok(id)
    }

    fn intern_string(&mut self, v: &str) -> (r: Result<super::ir::StringId, CompileError>)
        requires
            old(self).wf(),
        ensures
            final(self).wf(),
            Self::same_frame(old(self), final(self)),
            *final(final(self).program) == *final(old(self).program),
            final(self).pos == old(self).pos,
            final(self).variables == old(self).variables,
            final(self).program.graph == old(self).program.graph,
            final(self).program.register_count == old(self).program.register_count,
            r matches Ok(id) ==> id.idx() < final(self).program.strings.view().len(),
            r matches Ok(id) ==> final(self).program.strings.view()[id.idx() as int]@ == v@,
            r matches Err(e) ==> Self::err_ok(old(self), e),
    {
        if self.program.strings.len() > 0xffff_ffffusize {
            return Err(self.error(text("index exceeds u32::MAX")));
        }
        let ghost p0 = *self.program;
        let id = self.program.intern_string(v);
        assert forall|i: int| 0 <= i < self.program.graph.view().len() implies self.program.node_ok(#[trigger] self.program.graph.view()[i]) by {
            assert(p0.node_ok(p0.graph.view()[i]));
        }
        assert forall|i: int| 0 <= i < self.context@.len() implies context_ok(*self.program, #[trigger] self.context@[i]) by {
            assert(context_ok(p0, self.context@[i]));
        }
        Ok(id)
    }

    fn parse_await(&mut self) -> (r: Result<Fragment, CompileError>)
        requires
            old(self).wf(),
        ensures
            prefix_kept(old(self).program.graph.view(), final(self).program.graph.view()),
            r matches Ok(f) ==> f.first.idx() >= old(self).program.graph.view().len() && f.last.idx() >= old(self).program.graph.view().len(),
            final(self).wf(),
            Self::same_frame(old(self), final(self)),
            *final(final(self).program) == *final(old(self).program),
            r matches Ok(f) ==> frag_ok(*final(self).program, f) && old(self).pos < final(self).pos,
            r matches Ok(f) ==> chained(old(self).program.graph.view(), final(self).program.graph.view(), f, seq![Op::AwaitInput]),
            r matches Err(e) ==> Self::err_ok(old(self), e),
        decreases old(self).bytes().len() - old(self).pos, 2nat,
    {
        match { proof { reveal_strlit("await"); lemma_nonempty_bytes("await"); } self.expect_keyword("await") } {
            Ok(_) => {},
            Err(e) => {
                return Err(e);
            },
        };
        let ident = match self.read_identifier() {
            Ok(x) => x,
            Err(e) => {
                return Err(e);
            },
        };
        if !str_eq(ident, "input") {
            return Err(self.error(text("expected 'input' after await")));
        }
        match self.expect(59) {
            Ok(_) => {},
            Err(e) => {
                return Err(e);
            },
        };
        let ghost g0 = self.program.graph.view();
        let ir = match self.alloc_op(Op::AwaitInput) {
            Ok(x) => x,
            Err(e) => {
                return Err(e);
            },
        };
        let f = Fragment::single(ir);
        proof {
            lemma_chained_single(g0, self.program.graph.view(), f, Op::AwaitInput);
        }
        Ok(f)
    }

    /// A straight chain of new nodes holding `ops`, each the successor of the one before.
    fn chain(&mut self, ops: &[Op]) -> (r: Result<Fragment, CompileError>)
        requires
            old(self).wf(),
            ops@.len() > 0,
            forall|k: int| 0 <= k < ops@.len() ==> old(self).program.op_ok(#[trigger] ops@[k]),
        ensures
            prefix_kept(old(self).program.graph.view(), final(self).program.graph.view()),
            r matches Ok(f) ==> f.first.idx() >= old(self).program.graph.view().len() && f.last.idx() >= old(self).program.graph.view().len(),
            final(self).wf(),
            Self::same_frame(old(self), final(self)),
            *final(final(self).program) == *final(old(self).program),
            final(self).pos == old(self).pos,
            final(self).variables == old(self).variables,
            r matches Ok(f) ==> frag_ok(*final(self).program, f),
            r matches Ok(f) ==> chained(old(self).program.graph.view(), final(self).program.graph.view(), f, ops@),
            final(self).program.register_count == old(self).program.register_count,
            final(self).program.highlight_kinds == old(self).program.highlight_kinds,
            r matches Err(e) ==> Self::err_ok(old(self), e),
    {
        let ghost g0 = self.program.graph.view();
        let ghost base = g0.len();
        let first = match self.alloc_op(ops[0]) {
            Ok(n) => n,
            Err(e) => {
                return Err(e);
            },
        };
        let mut last = first;
        let mut k: usize = 1;
        proof {
            let g = self.program.graph.view();
            assert(g.take(base as int) =~= g0);
            assert(g[base as int] == Node { next: None, instr: ops@[0] });
        }
        while k < ops.len()
            invariant
                self.wf(),
                Self::same_frame(old(self), self),
                *final(self.program) == *final(old(self).program),
                self.pos == old(self).pos,
                self.variables == old(self).variables,
                1 <= k <= ops@.len(),
                forall|j: int| 0 <= j < ops@.len() ==> old(self).program.op_ok(#[trigger] ops@[j]),
                id_ok(first, self.program.graph.view().len()),
                id_ok(last, self.program.graph.view().len()),
                g0 == old(self).program.graph.view(),
                base == g0.len(),
                self.program.register_count == old(self).program.register_count,
                self.program.highlight_kinds == old(self).program.highlight_kinds,
                chained(g0, self.program.graph.view(), Fragment { first, last }, ops@.take(k as int)),
            decreases ops@.len() - k,
        {
            let ghost gk = self.program.graph.view();
            let op = ops[k];
            assert(old(self).program.op_ok(op));
            let node = match self.alloc_op(op) {
                Ok(n) => n,
                Err(e) => {
                    return Err(e);
                },
            };
            self.link(last, node);
            proof {
                let g = self.program.graph.view();
                let ops1 = ops@.take(k + 1);
                assert forall|j: int| #![trigger g[base + j]] 0 <= j < ops1.len() implies {
                    &&& g[base + j].instr == ops1[j]
                    &&& if j + 1 < ops1.len() {
                        g[base + j].next matches Some(x) && x.idx() == base + j + 1
                    } else {
                        g[base + j].next is None
                    }
                } by {
                    if j < k {
                        assert(gk[base + j].instr == ops@.take(k as int)[j]);
                    }
                }
                assert(g.take(base as int) =~= g0) by {
                    assert forall|j: int| 0 <= j < base implies g[j] == g0[j] by {
                        assert(gk.take(base as int)[j] == g0[j]);
                    }
                }
            }
            last = node;
            k += 1;
        }
        assert(ops@.take(k as int) =~= ops@);
        Ok(Fragment { first, last })
    }

    /// The value of the highlight kind `name`, interning it.
    fn highlight_kind(&mut self, name: &str) -> (r: u32)
        requires
            old(self).wf(),
        ensures
            final(self).wf(),
            Self::same_frame(old(self), final(self)),
            *final(final(self).program) == *final(old(self).program),
            final(self).pos == old(self).pos,
            final(self).variables == old(self).variables,
            final(self).program.graph == old(self).program.graph,
            final(self).program.register_count == old(self).program.register_count,
            ({
                let (k0, k1) = (old(self).program.highlight_kinds@, final(self).program.highlight_kinds@);
                if exists|i: int| 0 <= i < k0.len() && (#[trigger] k0[i]).identifier@ == name@ {
                    &&& k1 == k0
                    &&& exists|i: int| 0 <= i < k0.len() && (#[trigger] k0[i]).identifier@ == name@ && k0[i].value == r
                } else {
                    &&& r == k0.len() as u32
                    &&& exists|p: int|
                        0 <= p <= k0.len() && k1 == k0.insert(p, k1[p]) && (#[trigger] k1[p]).identifier@ == name@
                            && k1[p].value == r
                }
            }),
    {
        let ghost p0 = *self.program;
        let kind = self.program.intern_highlight_kind(name);
        let v = kind.value;
        let ghost kr = *kind;
        proof {
            let (k0, k1) = (p0.highlight_kinds@, self.program.highlight_kinds@);
            if exists|i: int| 0 <= i < k0.len() && (#[trigger] k0[i]).identifier@ == name@ {
                let i = choose|i: int| 0 <= i < k0.len() && kr == #[trigger] k0[i];
                assert(k0[i].identifier@ == name@ && k0[i].value == v);
            } else {
                let p = choose|p: int| 0 <= p <= k0.len() && k1 == k0.insert(p, kr);
                assert(k1[p] == kr);
            }
        }
        assert forall|i: int| 0 <= i < self.program.graph.view().len() implies self.program.node_ok(#[trigger] self.program.graph.view()[i]) by {
            assert(p0.node_ok(p0.graph.view()[i]));
        }
        assert forall|i: int| 0 <= i < self.context@.len() implies context_ok(*self.program, #[trigger] self.context@[i]) by {
            assert(context_ok(p0, self.context@[i]));
        }
        v
    }

    #[verifier::spinoff_prover]
    fn parse_yield(&mut self) -> (r: Result<Fragment, CompileError>)
        requires
            old(self).wf(),
        ensures
            prefix_kept(old(self).program.graph.view(), final(self).program.graph.view()),
            r matches Ok(f) ==> f.first.idx() >= old(self).program.graph.view().len() && f.last.idx() >= old(self).program.graph.view().len(),
            final(self).wf(),
            Self::same_frame(old(self), final(self)),
            *final(final(self).program) == *final(old(self).program),
            r matches Ok(f) ==> frag_ok(*final(self).program, f) && old(self).pos < final(self).pos,
            yield_target(old(self).bytes(), old(self).pos as int) matches Some(t) ==> (r matches Ok(f) ==> exists|
                v: RegId,
                k: u32,
            |
                {
                    &&& v.idx() == old(self).program.register_count
                    &&& kind_named(final(self).program.highlight_kinds@, ident_text(old(self).bytes(), t), k)
                    &&& #[trigger] chained(
                        old(self).program.graph.view(),
                        final(self).program.graph.view(),
                        f,
                        yield_ops(v, k),
                    )
                }),
            yield_target(old(self).bytes(), old(self).pos as int) is None ==> (r matches Ok(f) ==> exists|
                v: RegId,
                w: RegId,
                hs: RegId,
                off: RegId,
                cs: RegId,
                ce: RegId,
                k: u32,
            |
                {
                    &&& v.idx() == old(self).program.register_count && w.idx() == old(self).program.register_count + 1
                    &&& hs.idx() == Register::HighlightStart.number()
                    &&& off.idx() == Register::InputOffset.number()
                    &&& old(self).context@.len() > 0
                    &&& old(self).context@.last().capture_groups@.contains((cs, ce))
                    &&& #[trigger] chained(
                        old(self).program.graph.view(),
                        final(self).program.graph.view(),
                        f,
                        capture_yield_ops(v, w, hs, off, cs, ce, k),
                    )
                }),
            r matches Err(e) ==> Self::err_ok(old(self), e),
        decreases old(self).bytes().len() - old(self).pos, 2nat,
    {
        match { proof { reveal_strlit("yield"); lemma_nonempty_bytes("yield"); } self.expect_keyword("yield") } {
            Ok(_) => {},
            Err(e) => {
                return Err(e);
            },
        };
        let ghost b = self.bytes();
        let ghost g0 = self.program.graph.view();
        let ghost n0 = self.program.register_count;
        proof {
            lemma_skip_idem(b, self.pos as int);
        }
        // Check if this is a capture group reference: yield $n as color
        if self.peek() == Some(36u8) {
            self.pos += 1;
            let n = match self.read_integer() {
                Ok(x) => x,
                Err(e) => {
                    return Err(e);
                },
            };
            let capture_index = (n as usize).wrapping_sub(1);
            // Expect "as"
            let kw = match self.read_identifier() {
                Ok(x) => x,
                Err(e) => {
                    return Err(e);
                },
            };
            if !str_eq(kw, "as") {
                return Err(self.error(text("expected 'as' after capture group reference")));
            }
            let color = match self.read_identifier() {
                Ok(x) => x,
                Err(e) => {
                    return Err(e);
                },
            };
            let kind = self.highlight_kind(color);
            match self.expect(59) {
                Ok(_) => {},
                Err(e) => {
                    return Err(e);
                },
            };
            let (start_vreg, end_vreg) = match self.context.last() {
                Some(ctx) => {
                    if capture_index < ctx.capture_groups.len() {
                        ctx.capture_groups[capture_index]
                    } else {
                        let s = join(text("capture group $"), decimal_string(capture_index.wrapping_add(1)).as_str());
                        return Err(self.error(join(s, " not found in current context")));
                    }
                },
                None => {
                    return Err(self.error(text("no regex context available for capture group reference")));
                },
            };
            let hs_preg = self.program.get_reg(Register::HighlightStart);
            let off_preg = self.program.get_reg(Register::InputOffset);
            let off_vreg = match self.alloc_vreg() {
                Ok(x) => x,
                Err(e) => {
                    return Err(e);
                },
            };
            let kind_vreg = match self.alloc_vreg() {
                Ok(x) => x,
                Err(e) => {
                    return Err(e);
                },
            };
            let ops = [
                // Save offset
                Op::Mov { dst: off_vreg, src: off_preg },
                // Set start/end temporarily
                Op::Mov { dst: hs_preg, src: start_vreg },
                Op::Mov { dst: off_preg, src: end_vreg },
                // Highlight!
                Op::MovKind { dst: kind_vreg, kind },
                Op::Flush { kind: kind_vreg },
                // Restore offset
                Op::Mov { dst: off_preg, src: off_vreg },
            ];
            let r = self.chain(&ops);
            proof {
                assert(ops@ =~= capture_yield_ops(off_vreg, kind_vreg, hs_preg, off_preg, start_vreg, end_vreg, kind));
                assert(self.context@.last().capture_groups@[capture_index as int] == (start_vreg, end_vreg));
                assert(self.context@ == old(self).context@);
                assert(old(self).context@.last().capture_groups@.contains((start_vreg, end_vreg)));
                assert(off_vreg.idx() == n0);
                assert(kind_vreg.idx() == n0 + 1);
                assert(g0 == old(self).program.graph.view());
                let t = skip_spec(b, skip_spec(b, old(self).pos as int) + "yield".spec_bytes().len());
                assert(t < b.len() && b[t] == 36);
                if let Ok(f) = r {
                    assert(chained(g0, self.program.graph.view(), f, capture_yield_ops(off_vreg, kind_vreg, hs_preg, off_preg, start_vreg, end_vreg, kind)));
                }
            }
            r
        } else {
            // Normal yield: yield color;
            let color = match self.read_identifier() {
                Ok(x) => x,
                Err(e) => {
                    return Err(e);
                },
            };
            proof {
                let t = self.token_pos();
                lemma_ident_text(b, t, color@);
            }
            let kind = self.highlight_kind(color);
            match self.expect(59) {
                Ok(_) => {},
                Err(e) => {
                    return Err(e);
                },
            };
            let vreg = match self.alloc_vreg() {
                Ok(x) => x,
                Err(e) => {
                    return Err(e);
                },
            };
            let ops = [Op::MovKind { dst: vreg, kind }, Op::Flush { kind: vreg }];
            let r = self.chain(&ops);
            proof {
                assert(ops@ =~= yield_ops(vreg, kind));
                let t = skip_spec(b, skip_spec(b, old(self).pos as int) + "yield".spec_bytes().len());
                assert(!(t < b.len() && b[t] == 36));
                assert(kind_named(self.program.highlight_kinds@, ident_text(b, t), kind));
                assert(vreg.idx() == n0);
                assert(g0 == old(self).program.graph.view());
                if let Ok(f) = r {
                    assert(chained(g0, self.program.graph.view(), f, yield_ops(vreg, kind)));
                    assert(exists|v: RegId, k: u32|
                        {
                            &&& v.idx() == n0
                            &&& kind_named(self.program.highlight_kinds@, ident_text(b, t), k)
                            &&& #[trigger] chained(g0, self.program.graph.view(), f, yield_ops(v, k))
                        });
                }
            }
            r
        }
    }

}

impl<'c, 'src> Parser<'c, 'src> {
    fn parse_var_declaration(&mut self) -> (r: Result<Fragment, CompileError>)
        requires
            old(self).wf(),
        ensures
            prefix_kept(old(self).program.graph.view(), final(self).program.graph.view()),
            r matches Ok(f) ==> f.first.idx() >= old(self).program.graph.view().len() && f.last.idx() >= old(self).program.graph.view().len(),
            final(self).wf(),
            Self::same_frame(old(self), final(self)),
            *final(final(self).program) == *final(old(self).program),
            r matches Ok(f) ==> frag_ok(*final(self).program, f) && old(self).pos < final(self).pos,
            r matches Ok(f) ==> binding_lowered(
                old(self).bytes(),
                var_name_at(old(self).bytes(), old(self).pos as int),
                after_ident(old(self).bytes(), var_name_at(old(self).bytes(), old(self).pos as int)) + 1,
                old(self).variables@,
                final(self).variables@,
                old(self).program.register_count as nat,
                old(self).program.graph.view(),
                final(self).program.graph.view(),
                f,
            ),
            r matches Err(e) ==> Self::err_ok(old(self), e),
        decreases old(self).bytes().len() - old(self).pos, 2nat,
    {
        match { proof { reveal_strlit("var"); lemma_nonempty_bytes("var"); } self.expect_keyword("var") } {
            Ok(_) => {},
            Err(e) => {
                return Err(e);
            },
        };
        let ghost b = self.bytes();
        let ghost g0 = self.program.graph.view();
        let name = match self.read_identifier() {
            Ok(x) => x,
            Err(e) => {
                return Err(e);
            },
        };
        proof {
            lemma_ident_text(b, self.token_pos(), name@);
        }
        match self.expect(61) {
            Ok(_) => {},
            Err(e) => {
                return Err(e);
            },
        };
        let (expr, vreg) = match self.parse_expression() {
            Ok(x) => x,
            Err(e) => {
                return Err(e);
            },
        };
        match self.expect(59) {
            Ok(_) => {},
            Err(e) => {
                return Err(e);
            },
        };
        if self.has_variable(name) {
            return Err(self.error(msg3("variable '", name, "' already declared")));
        }
        let ghost vars0 = self.variables@;
        self.set_variable(name, vreg);
        proof {
            lemma_bind_variable(vars0, name, vreg);
        }
        Ok(expr)
    }

    #[verifier::spinoff_prover]
    fn parse_identifier_stmt(&mut self) -> (r: Result<Fragment, CompileError>)
        requires
            old(self).wf(),
        ensures
            prefix_kept(old(self).program.graph.view(), final(self).program.graph.view()),
            r matches Ok(f) ==> f.first.idx() >= old(self).program.graph.view().len() && f.last.idx() >= old(self).program.graph.view().len(),
            final(self).wf(),
            Self::same_frame(old(self), final(self)),
            *final(final(self).program) == *final(old(self).program),
            r matches Ok(f) ==> frag_ok(*final(self).program, f) && old(self).pos < final(self).pos,
            stmt_ident(old(self).bytes(), old(self).pos as int) matches Some(t) ==> (no_statement_after_ident(
                old(self).bytes(),
                t,
            ) ==> (r matches Err(e) && bad_identifier_statement(old(self).bytes(), after_ident(old(self).bytes(), t), e))),
            r matches Ok(f) ==> call_lowered(
                old(self).bytes(),
                old(self).pos as int,
                old(self).program.graph.view(),
                final(self).program.graph.view(),
                final(self).program.strings.view(),
                f,
            ),
            r matches Ok(f) ==> add_lowered(
                old(self).bytes(),
                old(self).pos as int,
                old(self).variables@,
                old(self).program.graph.view(),
                final(self).program.graph.view(),
                f,
            ),
            r matches Ok(f) ==> assignment_lowered(
                old(self).bytes(),
                old(self).pos as int,
                old(self).variables@,
                final(self).variables@,
                old(self).program.register_count as nat,
                old(self).program.graph.view(),
                final(self).program.graph.view(),
                f,
            ),
            r matches Err(e) ==> Self::err_ok(old(self), e),
        decreases old(self).bytes().len() - old(self).pos, 2nat,
    {
        let ghost b = self.bytes();
        let ghost g0 = self.program.graph.view();
        let name = match self.read_identifier() {
            Ok(x) => x,
            Err(e) => {
                return Err(e);
            },
        };
        proof {
            lemma_ident_text(b, self.token_pos(), name@);
            lemma_skip_idem(b, self.pos as int);
        }
        let ghost t = skip_spec(b, old(self).pos as int);
        assert(stmt_ident(b, old(self).pos as int) == Some(t));
        let next = self.peek();
        assert(self.pos == after_ident(b, t));
        if next == Some(40u8) {
            // foo();
            self.pos += 1;
            match self.expect(41) {
                Ok(_) => {},
                Err(e) => {
                    return Err(e);
                },
            };
            match self.expect(59) {
                Ok(_) => {},
                Err(e) => {
                    return Err(e);
                },
            };
            let id = match self.intern_string(name) {
                Ok(x) => x,
                Err(e) => {
                    return Err(e);
                },
            };
            let ir = match self.alloc_op(Op::Call { name: id }) {
                Ok(x) => x,
                Err(e) => {
                    return Err(e);
                },
            };
            let f = Fragment::single(ir);
            proof {
                lemma_chained_single(g0, self.program.graph.view(), f, Op::Call { name: id });
                let t = skip_spec(b, old(self).pos as int);
                assert(name@ == ident_text(b, t));
                assert(self.program.strings.view()[id.idx() as int]@ == ident_text(b, t));
                assert(exists|i: super::ir::StringId|
                    i.idx() < self.program.strings.view().len() && self.program.strings.view()[i.idx() as int]@
                        == ident_text(b, t) && #[trigger] chained(g0, self.program.graph.view(), f, seq![Op::Call { name: i }]));
            }
            Ok(f)
        } else if next == Some(61u8) && !self.is_str("==") {
            // foo = expr;
            proof {
                let b = self.bytes();
                let s = self.pos as int;
                lemma_operator_bytes();
                if byte_is(b, s + 1, 61) {
                    assert(b.subrange(s, s + 2) =~= "==".spec_bytes());
                }
            }
            self.pos += 1;
            let (expr, vreg) = match self.parse_expression() {
                Ok(x) => x,
                Err(e) => {
                    return Err(e);
                },
            };
            match self.expect(59) {
                Ok(_) => {},
                Err(e) => {
                    return Err(e);
                },
            };
            let ghost vars0 = self.variables@;
            self.set_variable(name, vreg);
            proof {
                lemma_bind_variable(vars0, name, vreg);
            }
            assert(!byte_is(b, after_ident(b, t), 40));
            assert(!byte_is(b, after_ident(b, t), 43));
            Ok(expr)
        } else if next == Some(43u8) && self.is_str("+=") {
            proof {
                let b = self.bytes();
                let s = self.pos as int;
                lemma_operator_bytes();
                assert(b.subrange(s, s + 2)[1] == b[s + 1]);
            }
            // foo += expr;
            let lhs_vreg = match self.get_variable(name) {
                Ok(x) => x,
                Err(e) => {
                    return Err(e);
                },
            };
            self.pos += "+=".as_bytes().len();
            let val = match self.read_integer() {
                Ok(x) => x,
                Err(e) => {
                    return Err(e);
                },
            };
            match self.expect(59) {
                Ok(_) => {},
                Err(e) => {
                    return Err(e);
                },
            };
            let ir = match self.alloc_op(Op::AddImm { dst: lhs_vreg, imm: val }) {
                Ok(x) => x,
                Err(e) => {
                    return Err(e);
                },
            };
            let f = Fragment::single(ir);
            proof {
                lemma_chained_single(g0, self.program.graph.view(), f, Op::AddImm { dst: lhs_vreg, imm: val });
            }
            self.set_variable(name, lhs_vreg);
            assert(!byte_is(b, after_ident(b, t), 40));
            assert(exists|reg: RegId, imm: u32|
                variable_of(old(self).variables@, ident_text(b, t)) == Some(reg) && #[trigger] chained(
                    g0,
                    self.program.graph.view(),
                    f,
                    seq![Op::AddImm { dst: reg, imm }],
                ));
            Ok(f)
        } else {
            self.mark();
            Err(self.error(text("expected '(', '=' or '+=' after identifier")))
        }
    }

    #[verifier::spinoff_prover]
    #[verifier::rlimit(30)]
    fn parse_expression(&mut self) -> (r: Result<(Fragment, RegId), CompileError>)
        requires
            old(self).wf(),
        ensures
            prefix_kept(old(self).program.graph.view(), final(self).program.graph.view()),
            r matches Ok((f, _)) ==> f.first.idx() >= old(self).program.graph.view().len() && f.last.idx() >= old(self).program.graph.view().len(),
            final(self).wf(),
            Self::same_frame(old(self), final(self)),
            *final(final(self).program) == *final(old(self).program),
            r matches Ok((f, reg)) ==> frag_ok(*final(self).program, f) && final(self).program.reg_ok(reg) && old(self).pos < final(self).pos,
            r matches Err(e) ==> Self::err_ok(old(self), e),
            r matches Ok((f, reg)) ==> expr_lowered(
                old(self).bytes(),
                old(self).pos as int,
                old(self).variables@,
                old(self).program.register_count as nat,
                old(self).program.graph.view(),
                final(self).program.graph.view(),
                f,
                reg,
            ),
    {
        let ghost b = self.bytes();
        let ghost g0 = self.program.graph.view();
        let ghost rc = self.program.register_count as nat;
        let ghost t = skip_spec(b, old(self).pos as int);
        proof {
            lemma_skip_idem(b, old(self).pos as int);
            lemma_operator_bytes();
        }
        self.mark();
        let next = self.peek();
        let (lhs_span, lhs_vreg) = match next {
            Some(c) => {
                if 48 <= c && c <= 57 {
                    let val = match self.read_integer() {
                        Ok(x) => x,
                        Err(e) => {
                            return Err(e);
                        },
                    };
                    let vreg = match self.alloc_vreg() {
                        Ok(x) => x,
                        Err(e) => {
                            return Err(e);
                        },
                    };
                    let ir = match self.alloc_op(Op::MovImm { dst: vreg, imm: val }) {
                        Ok(x) => x,
                        Err(e) => {
                            return Err(e);
                        },
                    };
                    assert(val == number_at(b, t) as u32);
                    (Fragment::single(ir), vreg)
                } else if (65 <= c && c <= 90) || (97 <= c && c <= 122) || c == 95 {
                    let name = match self.read_identifier() {
                        Ok(x) => x,
                        Err(e) => {
                            return Err(e);
                        },
                    };
                    proof {
                        lemma_ident_text(b, t, name@);
                    }
                    let vreg = match self.get_variable(name) {
                        Ok(x) => x,
                        Err(e) => {
                            return Err(e);
                        },
                    };
                    let n = match self.alloc_noop() {
                        Ok(x) => x,
                        Err(e) => {
                            return Err(e);
                        },
                    };
                    (Fragment::single(n), vreg)
                } else {
                    return Err(self.error(text("expected integer or identifier in expression")));
                }
            },
            None => {
                return Err(self.error(text("expected integer or identifier in expression")));
            },
        };
        let ghost g1 = self.program.graph.view();
        let ghost first_op = g1[g0.len() as int].instr;
        assert(self.pos == operand_end(b, t));
        assert(g1 == g0.push(Node { next: None, instr: first_op }));
        assert(lhs_span.first == lhs_span.last && lhs_span.first.idx() == g0.len());
        // Check for binary operator
        if self.peek() == Some(43u8) && !self.is_str("+=") {
            proof {
                let s0 = self.pos as int;
                if byte_is(b, s0 + 1, 61) {
                    assert(b.subrange(s0, s0 + 2) =~= "+=".spec_bytes());
                }
            }
            self.pos += 1;
            // Parse right-hand side - only integer literals supported
            let val = match self.read_integer() {
                Ok(x) => x,
                Err(e) => {
                    return Err(e);
                },
            };
            let add_ir = match self.alloc_op(Op::AddImm { dst: lhs_vreg, imm: val }) {
                Ok(x) => x,
                Err(e) => {
                    return Err(e);
                },
            };
            self.link(lhs_span.last, add_ir);
            let f = Fragment { first: lhs_span.first, last: add_ir };
            proof {
                lemma_chained_pair(g0, self.program.graph.view(), f, first_op, Op::AddImm { dst: lhs_vreg, imm: val }, add_ir);
            }
            assert(expr_lowered(b, old(self).pos as int, old(self).variables@, rc, g0, self.program.graph.view(), f, lhs_vreg));
            Ok((f, lhs_vreg))
        } else if lhs_vreg.is_physical() {
            // For expressions of type `var virtual = physical;`, we need to ensure
            // that we actually copy the physical register into a new virtual one.
            // The remaining code assumes single assignment form, while physical registers are permanent.
            let dst = match self.alloc_vreg() {
                Ok(x) => x,
                Err(e) => {
                    return Err(e);
                },
            };
            let node = match self.alloc_op(Op::Mov { dst, src: lhs_vreg }) {
                Ok(x) => x,
                Err(e) => {
                    return Err(e);
                },
            };
            let f = Fragment::single(node);
            proof {
                let g2 = self.program.graph.view();
                assert(g2.take(g0.len() as int) =~= g0);
                assert(g2[g0.len() as int] == Node { next: None, instr: Op::Noop });
                assert(!plus_after(b, t));
            }
            assert(expr_lowered(b, old(self).pos as int, old(self).variables@, rc, g0, self.program.graph.view(), f, dst));
            Ok((f, dst))
        } else {
            proof {
                lemma_chained_single(g0, self.program.graph.view(), lhs_span, first_op);
            }
            assert(expr_lowered(b, old(self).pos as int, old(self).variables@, rc, g0, self.program.graph.view(), lhs_span, lhs_vreg));
            Ok((lhs_span, lhs_vreg))
        }
    }

    fn parse_attributes(&mut self) -> (r: Result<FunctionAttributes, CompileError>)
        requires
            old(self).wf(),
        ensures
            final(self).wf(),
            Self::same_frame(old(self), final(self)),
            *final(self).program == *old(self).program,
            final(self).variables == old(self).variables,
            *final(final(self).program) == *final(old(self).program),
            match attributes_at(old(self).bytes(), old(self).pos as int, None, Seq::empty()) {
                Some((dn, paths, n)) => r matches Ok(a) && attribute_bytes(a) == (dn, paths)
                    && final(self).pos == n,
                None => r is Err,
            },
            r matches Err(e) ==> Self::err_ok(old(self), e),
    {
        let ghost b = self.bytes();
        let ghost goal = attributes_at(b, self.pos as int, None, Seq::empty());
        let mut attributes = FunctionAttributes { display_name: None, paths: Vec::new() };
        proof {
            assert(attributes.paths@.map_values(|s: String| encode_utf8(s@)) =~= Seq::<Seq<u8>>::empty());
        }
        loop
            invariant
                self.wf(),
                Self::same_frame(old(self), self),
                *self.program == *old(self).program,
                self.variables == old(self).variables,
                *final(self.program) == *final(old(self).program),
                b == self.bytes(),
                goal == attributes_at(old(self).bytes(), old(self).pos as int, None, Seq::empty()),
                ({
                    let (dn, paths) = attribute_bytes(attributes);
                    attributes_at(b, self.pos as int, dn, paths) == goal
                }),
            ensures
                self.wf(),
                Self::same_frame(old(self), self),
                *self.program == *old(self).program,
                self.variables == old(self).variables,
                *final(self.program) == *final(old(self).program),
                ({
                    let (dn, paths) = attribute_bytes(attributes);
                    goal == Some((dn, paths, self.pos as int))
                }),
            decreases self.bytes().len() - self.pos,
        {
            let ghost p0 = self.pos as int;
            let ghost (dn0, paths0) = attribute_bytes(attributes);
            proof {
                lemma_skip_spec_bounds(b, p0);
            }
            if self.peek() != Some(35u8) {
                proof {
                    lemma_skip_idem(b, p0);
                }
                break;
            }
            let ghost t = self.pos as int;
            self.pos += 1;
            match self.expect(91) {
                Ok(_) => {},
                Err(e) => {
                    return Err(e);
                },
            };
            let key = match self.read_identifier() {
                Ok(x) => x,
                Err(e) => {
                    return Err(e);
                },
            };
            match self.expect(61) {
                Ok(_) => {},
                Err(e) => {
                    return Err(e);
                },
            };
            let ghost eq1 = self.pos as int;
            let value = text(
                match self.read_string() {
                    Ok(x) => x,
                    Err(e) => {
                        return Err(e);
                    },
                },
            );
            match self.expect(93) {
                Ok(_) => {},
                Err(e) => {
                    return Err(e);
                },
            };
            proof {
                crate::text::lemma_utf8_injective(key@, "display_name"@);
                crate::text::lemma_utf8_injective(key@, "path"@);
            }
            if str_eq(key, "display_name") {
                attributes.display_name = Some(value);
            } else if str_eq(key, "path") {
                let ghost ps = attributes.paths@;
                attributes.paths.push(value);
                proof {
                    assert(attributes.paths@.map_values(|s: String| encode_utf8(s@)) =~= ps.map_values(
                        |s: String| encode_utf8(s@),
                    ).push(encode_utf8(value@)));
                }
            } else {
                return Err(self.error(msg3("unknown attribute '", key, "'")));
            }
        }
        Ok(attributes)
    }

    #[verifier::spinoff_prover]
    #[verifier::rlimit(40)]
    fn parse_function(&mut self) -> (r: Result<Function, CompileError>)
        requires
            old(self).wf(),
        ensures
            final(self).wf(),
            Self::same_frame(old(self), final(self)),
            *final(final(self).program) == *final(old(self).program),
            r matches Ok(f) ==> id_ok(f.body, final(self).program.graph.view().len()),
            r matches Ok(f) ==> defined_at(old(self).bytes(), old(self).pos as int, f),
            r is Ok ==> old(self).pos < final(self).pos,
            r matches Err(e) ==> Self::err_ok(old(self), e),
            header_at(old(self).bytes(), old(self).pos as int) matches Some((_, _, _, _, e)) ==> ({
                let b = old(self).bytes();
                let t = skip_spec(b, e);
                let u = skip_spec(b, t + 1);
                t < b.len() && b[t] == 123 && u < b.len() && b[u] == 125 && old(self).program.graph.view().len() + 1
                    <= 0xffff_ffff ==> {
                    &&& r is Ok
                    &&& final(self).pos == u + 1
                    &&& final(self).program.graph.view().len() == old(self).program.graph.view().len() + 2
                }
            }),
            header_at(old(self).bytes(), old(self).pos as int) matches Some((_, _, _, _, e)) ==> ({
                let b = old(self).bytes();
                let t = skip_spec(b, e);
                t < b.len() && b[t] == 123 && old(self).context@.len() == 0 ==> (loop_control_at(b, skip_spec(b, t + 1))
                    matches Some(s) ==> (r matches Err(err) && stray_loop_control(b, s, err)))
            }),
            header_at(old(self).bytes(), old(self).pos as int) matches Some((_, _, _, _, e)) ==> ({
                let b = old(self).bytes();
                let t = skip_spec(b, e);
                t < b.len() && b[t] == 123 ==> (if_undefined_at(b, skip_spec(b, t + 1)) matches Some(s) ==> (r matches Err(
                    err,
                ) && undefined_variable(b, s, err)))
            }),
            header_at(old(self).bytes(), old(self).pos as int) matches Some((_, _, _, _, e)) ==> ({
                let b = old(self).bytes();
                let t = skip_spec(b, e);
                t < b.len() && b[t] == 123 ==> (bad_ident_statement_at(b, skip_spec(b, t + 1)) matches Some(s) ==> (
                r matches Err(err) && bad_identifier_statement(b, s, err)))
            }),
    {
        // Reset symbol table for new function
        let off = self.program.get_reg(Register::InputOffset);
        self.variables = Vec::new();
        self.variables.push(("off", off));
        proof {
            reveal_strlit("off");
            let vars = self.variables@;
            assert forall|u: int| #[trigger] if_undefined_at(self.bytes(), u) is Some implies if_unknown_at(
                self.bytes(),
                vars,
                u,
            ) is Some by {
                let s = skip_spec(self.bytes(), u + "if".spec_bytes().len());
                assert(variable_index(vars, ident_text(self.bytes(), s), 1) == 1);
            }
        }
        let attributes = match self.parse_attributes() {
            Ok(x) => x,
            Err(e) => {
                return Err(e);
            },
        };
        let kw = "pub";
        let public = if self.is_keyword(kw) {
            self.pos += kw.as_bytes().len();
            true
        } else {
            false
        };
        match { proof { reveal_strlit("fn"); lemma_nonempty_bytes("fn"); } self.expect_keyword("fn") } {
            Ok(_) => {},
            Err(e) => {
                return Err(e);
            },
        };
        let name = text(
            match self.read_identifier() {
                Ok(x) => x,
                Err(e) => {
                    return Err(e);
                },
            },
        );
        match self.expect(40) {
            Ok(_) => {},
            Err(e) => {
                return Err(e);
            },
        };
        match self.expect(41) {
            Ok(_) => {},
            Err(e) => {
                return Err(e);
            },
        };
        let span = match self.parse_block() {
            Ok(x) => x,
            Err(e) => {
                return Err(e);
            },
        };
        if self.wants_next(span.last) {
            let end = match self.alloc_op(Op::Return) {
                Ok(x) => x,
                Err(e) => {
                    return Err(e);
                },
            };
            self.link(span.last, end);
        }
        Ok(Function { name, attributes, body: span.first, public })
    }

    /// The functions after the first `f0.len()` were each defined at a position in `b`,
    /// given the positions `starts` in order.
    proof fn lemma_defined_somewhere(p: &Self, f0: Seq<Function>, b: Seq<u8>, starts: Seq<int>)
        requires
            starts.len() == p.program_spec().functions@.len() - f0.len(),
            forall|i: int|
                #![trigger starts[i]]
                0 <= i < starts.len() ==> 0 <= starts[i] <= b.len() && defined_at(
                    b,
                    starts[i],
                    p.program_spec().functions@[f0.len() + i],
                ),
        ensures
            forall|i: int|
                f0.len() <= i < p.program_spec().functions@.len() ==> defined_in(
                    b,
                    #[trigger] p.program_spec().functions@[i],
                ),
    {
        assert forall|i: int|
            f0.len() <= i < p.program_spec().functions@.len() implies defined_in(
                b,
                #[trigger] p.program_spec().functions@[i],
            ) by {
            let k = i - f0.len();
            assert(f0.len() + k == i);
            assert(0 <= starts[k] <= b.len() && defined_at(b, starts[k], p.program_spec().functions@[i]));
        }
    }

    /// Parses the whole source and adds its functions to the program, in order.
    #[verifier::spinoff_prover]
    #[verifier::rlimit(80)]
    pub fn run(&mut self) -> (r: Result<(), CompileError>)
        requires
            old(self).wf(),
        ensures
            final(self).wf(),
            *final(final(self).program_ref()) == *final(old(self).program_ref()),
            final(self).program_spec().wf(),
            kinds_sorted(final(self).program_spec().highlight_kinds@),
            final(self).program_spec().functions@.len() >= old(self).program_spec().functions@.len(),
            final(self).program_spec().functions@.take(old(self).program_spec().functions@.len() as int)
                == old(self).program_spec().functions@,
            forall|i: int|
                old(self).program_spec().functions@.len() <= i < final(self).program_spec().functions@.len()
                    ==> defined_in(old(self).bytes(), #[trigger] final(self).program_spec().functions@[i]),
            r is Ok ==> final(self).position_spec() == final(self).bytes().len(),
            r is Ok ==> defined_in_order(
                old(self).bytes(),
                old(self).position_spec() as int,
                final(self).program_spec().functions@.skip(old(self).program_spec().functions@.len() as int),
            ),
            skip_spec(old(self).bytes(), old(self).position_spec() as int) >= old(self).bytes().len() ==> r is Ok
                && final(self).program_spec().functions == old(self).program_spec().functions,
            skip_spec(old(self).bytes(), old(self).position_spec() as int) < old(self).bytes().len() && header_at(
                old(self).bytes(),
                skip_spec(old(self).bytes(), old(self).position_spec() as int),
            ) is None ==> r is Err,
            r matches Err(e) ==> Self::err_ok(old(self), e),
            empty_definitions(old(self).bytes(), old(self).position_spec() as int) matches Some(n)
                && old(self).program_spec().graph.view().len() + 2 * n <= 0xffff_ffff ==> r is Ok,
            first_body_stray(old(self).bytes(), old(self).position_spec() as int) matches Some(s) ==> (
            old(self).outside_loops() ==> (r matches Err(e) && stray_loop_control(old(self).bytes(), s, e))),
            first_body_undefined(old(self).bytes(), old(self).position_spec() as int) matches Some(s) ==> (r matches Err(
                e,
            ) && undefined_variable(old(self).bytes(), s, e)),
            first_body_bad_ident(old(self).bytes(), old(self).position_spec() as int) matches Some(s) ==> (r matches Err(
                e,
            ) && bad_identifier_statement(old(self).bytes(), s, e)),
    {
        let ghost f0 = self.program.functions@;
        let ghost pos0 = self.pos as int;
        let ghost fits = empty_definitions(self.bytes(), pos0) matches Some(n) && self.program.graph.view().len() + 2 * n
            <= 0xffff_ffff;
        let ghost stray = self.context@.len() == 0 && first_body_stray(self.bytes(), pos0) is Some;
        let ghost undef = first_body_undefined(self.bytes(), pos0) is Some;
        let ghost badid = first_body_bad_ident(self.bytes(), pos0) is Some;
        proof {
            lemma_skip_spec_bounds(self.bytes(), pos0);
        }
        let ghost b = self.bytes();
        let ghost mut starts: Seq<int> = Seq::empty();
        loop
            invariant_except_break
                starts.len() == 0 ==> self.pos == pos0,
                starts.len() > 0 ==> starts.last() < self.pos,
            invariant
                self.wf(),
                *final(self.program) == *final(old(self).program),
                self.path == old(self).path,
                f0 == old(self).program.functions@,
                self.program.functions@.len() >= f0.len(),
                self.program.functions@.take(f0.len() as int) == f0,
                self.bytes() == b,
                b == old(self).bytes(),
                starts.len() == self.program.functions@.len() - f0.len(),
                forall|i: int|
                    #![trigger starts[i]]
                    0 <= i < starts.len() ==> 0 <= starts[i] <= b.len() && defined_at(
                        b,
                        starts[i],
                        self.program.functions@[f0.len() + i],
                    ),
                pos0 == old(self).pos,
                pos0 <= b.len(),
                starts.len() == 0 ==> self.program.functions == old(self).program.functions,
                starts.len() > 0 ==> starts[0] == skip_spec(b, pos0),
                forall|i: int, j: int| 0 <= i < j < starts.len() ==> #[trigger] starts[i] < #[trigger] starts[j],
                self.context@ == old(self).context@,
                stray == (old(self).context@.len() == 0 && first_body_stray(b, pos0) is Some),
                stray ==> starts.len() == 0,
                undef == (first_body_undefined(b, pos0) is Some),
                undef ==> starts.len() == 0,
                badid == (first_body_bad_ident(b, pos0) is Some),
                badid ==> starts.len() == 0,
                fits == (empty_definitions(old(self).bytes(), old(self).position_spec() as int) matches Some(n)
                    && old(self).program_spec().graph.view().len() + 2 * n <= 0xffff_ffff),
                fits ==> (empty_definitions(b, self.pos as int) matches Some(m) && self.program.graph.view().len() + 2
                    * m <= 0xffff_ffff),
            ensures
                !stray,
                !undef,
                !badid,
                self.pos >= self.bytes().len(),
                self.wf(),
                *final(self.program) == *final(old(self).program),
                f0 == old(self).program.functions@,
                self.program.functions@.len() >= f0.len(),
                self.program.functions@.take(f0.len() as int) == f0,
                self.bytes() == b,
                b == old(self).bytes(),
                starts.len() == self.program.functions@.len() - f0.len(),
                forall|i: int|
                    #![trigger starts[i]]
                    0 <= i < starts.len() ==> 0 <= starts[i] <= b.len() && defined_at(
                        b,
                        starts[i],
                        self.program.functions@[f0.len() + i],
                    ),
                starts.len() == 0 ==> skip_spec(b, pos0) >= b.len() && self.program.functions == old(self).program.functions,
                starts.len() > 0 ==> starts[0] == skip_spec(b, pos0),
                forall|i: int, j: int| 0 <= i < j < starts.len() ==> #[trigger] starts[i] < #[trigger] starts[j],
            decreases self.bytes().len() - self.pos,
        {
            if self.is_at_eof() {
                break;
            }
            let ghost before = self.pos;
            let f = match self.parse_function() {
                Ok(f) => f,
                Err(e) => {
                    proof {
                        Self::lemma_defined_somewhere(self, f0, b, starts);
                    }
                    assert(starts.len() == 0 ==> before == skip_spec(b, pos0));
                    return Err(e);
                },
            };
            let ghost fs = self.program.functions@;
            let ghost p0 = *self.program;
            self.program.functions.push(f);
            proof {
                assert(self.program.functions@.take(f0.len() as int) =~= fs.take(f0.len() as int));
                let s0 = starts;
                starts = starts.push(before as int);
                assert forall|i: int, j: int| 0 <= i < j < starts.len() implies #[trigger] starts[i] < #[trigger] starts[j] by {
                    if j == starts.len() - 1 && i < s0.len() {
                        assert(s0[i] <= s0.last());
                        if i < s0.len() - 1 {
                            assert(s0[i] < s0[s0.len() - 1]);
                        }
                    } else if j < s0.len() {
                        assert(s0[i] < s0[j]);
                    }
                }
                assert forall|i: int|
                    #![trigger starts[i]]
                    0 <= i < starts.len() implies 0 <= starts[i] <= b.len() && defined_at(
                        b,
                        starts[i],
                        self.program.functions@[f0.len() + i],
                    ) by {
                    assert(self.program.functions@[f0.len() + i] == fs.push(f)[f0.len() + i]);
                }
                assert forall|i: int| 0 <= i < self.program.graph.view().len() implies self.program.node_ok(#[trigger] self.program.graph.view()[i]) by {
                    assert(p0.node_ok(p0.graph.view()[i]));
                }
                assert forall|i: int| 0 <= i < self.context@.len() implies context_ok(*self.program, #[trigger] self.context@[i]) by {
                    assert(context_ok(p0, self.context@[i]));
                }
            }
        }
        proof {
            Self::lemma_defined_somewhere(self, f0, b, starts);
            let added = self.program.functions@.skip(f0.len() as int);
            assert forall|i: int| #![trigger starts[i]] 0 <= i < starts.len() implies 0 <= starts[i] <= b.len()
                && defined_at(b, starts[i], added[i]) by {
                assert(added[i] == self.program.functions@[f0.len() + i]);
            }
            assert(starts_ok(b, pos0, added, starts));
        }
        Ok(())
    }
}

/// Parses the definitions in `src`, read from `path`, and adds their functions to
/// `program`, in order.
pub fn parse_into(program: &mut Program, path: &str, src: &str) -> (r: Result<(), CompileError>)
    requires
        old(program).wf(),
        kinds_sorted(old(program).highlight_kinds@),
        src.spec_bytes().len() < usize::MAX,
    ensures
        final(program).wf(),
        kinds_sorted(final(program).highlight_kinds@),
        final(program).functions@.len() >= old(program).functions@.len(),
        final(program).functions@.take(old(program).functions@.len() as int) == old(program).functions@,
        forall|i: int|
            old(program).functions@.len() <= i < final(program).functions@.len() ==> defined_in(
                src.spec_bytes(),
                #[trigger] final(program).functions@[i],
            ),
        r is Ok ==> defined_in_order(
            src.spec_bytes(),
            0,
            final(program).functions@.skip(old(program).functions@.len() as int),
        ),
        skip_spec(src.spec_bytes(), 0) >= src.spec_bytes().len() ==> r is Ok && final(program).functions == old(program).functions,
        skip_spec(src.spec_bytes(), 0) < src.spec_bytes().len() && header_at(src.spec_bytes(), skip_spec(src.spec_bytes(), 0)) is None
            ==> r is Err,
        r matches Err(e) ==> e.path@ == path@ && e.line >= 1 && e.column >= 1,
        empty_definitions(src.spec_bytes(), 0) matches Some(n) && old(program).graph.view().len() + 2 * n
            <= 0xffff_ffff ==> r is Ok,
        first_body_stray(src.spec_bytes(), 0) matches Some(s) ==> (r matches Err(e) && stray_loop_control(
            src.spec_bytes(),
            s,
            e,
        )),
        first_body_undefined(src.spec_bytes(), 0) matches Some(s) ==> (r matches Err(e) && undefined_variable(
            src.spec_bytes(),
            s,
            e,
        )),
        first_body_bad_ident(src.spec_bytes(), 0) matches Some(s) ==> (r matches Err(e) && bad_identifier_statement(
            src.spec_bytes(),
            s,
            e,
        )),
{
    let mut parser = Parser::new(program, path, src);
    parser.run()
}

} // verus!
