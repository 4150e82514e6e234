//! Regex -> IR compiler.
//!
//! Patterns are parsed into a [`Regex`] tree, which is then lowered into IR nodes in
//! continuation-passing style: each subpattern is emitted knowing where to go on a
//! match and where to go on a failure, so the graph is built backwards.
//!
//! - No backreferences
//! - No lookahead/lookbehind (except `\>` word boundary)
//! - Greedy matching only (no lazy quantifiers)
//! - Implicit `^`

use vstd::prelude::*;
use super::charset::{Charset, ascii_other_case, is_ascii_letter};
use super::index_vec::IndexType;
use super::ir::{Program, Node, NodeId, RegId, Op, Condition, CharsetId, StringId, id_ok, grows, lemma_grows_trans};
use crate::runtime::{Register, REGISTER_COUNT};
use crate::text::{ascii_lower, ascii_upper, to_ascii_lowercase, to_ascii_uppercase, text, join, decimal, decimal_string};
use crate::text::{chars_of, push_char};
use vstd::string::StringSliceAdditionalSpecFns;
use vstd::utf8::{encode_utf8, encode_scalar, char_is_scalar};

verus! {

/// A parsed regular expression.
pub enum Regex {
    /// Empty input.
    Empty,
    /// `foo`, and whether it matches case-insensitively.
    Literal(String, bool),
    /// `[a-z]`
    CharClass(Charset),
    /// `[a-z][0-9]`
    Concat(Vec<Regex>),
    /// `a|b|c`
    Alt(Vec<Regex>),
    /// `?`, `+`, `*`, `{n,m}`; `max == u32::MAX` means unbounded.
    Repeat { inner: Box<Regex>, min: u32, max: u32 },
    /// `(foo)`, `(?:foo)`
    Group { inner: Box<Regex>, capturing: bool },
    /// `$`
    EndOfLine,
    /// `\>`
    WordEnd,
    /// `.`
    Dot,
}

/// The mathematical form of a [`Regex`].
pub enum RegexSpec {
    Empty,
    Literal(Seq<char>, bool),
    CharClass(Set<u8>),
    Concat(Seq<RegexSpec>),
    Alt(Seq<RegexSpec>),
    Repeat { inner: Box<RegexSpec>, min: u32, max: u32 },
    Group { inner: Box<RegexSpec>, capturing: bool },
    EndOfLine,
    WordEnd,
    Dot,
}

impl Regex {
    pub open spec fn view(&self) -> RegexSpec
        decreases self, 0nat,
    {
        match self {
            Regex::Empty => RegexSpec::Empty,
            Regex::Literal(s, ci) => RegexSpec::Literal(s@, *ci),
            Regex::CharClass(cs) => RegexSpec::CharClass(cs@),
            Regex::Concat(v) => RegexSpec::Concat(views(v@, v@.len())),
            Regex::Alt(v) => RegexSpec::Alt(views(v@, v@.len())),
            Regex::Repeat { inner, min, max } => RegexSpec::Repeat {
                inner: Box::new(inner.view()),
                min: *min,
                max: *max,
            },
            Regex::Group { inner, capturing } => RegexSpec::Group {
                inner: Box::new(inner.view()),
                capturing: *capturing,
            },
            Regex::EndOfLine => RegexSpec::EndOfLine,
            Regex::WordEnd => RegexSpec::WordEnd,
            Regex::Dot => RegexSpec::Dot,
        }
    }
}

/// The views of the first `n` regexes of `s`.
pub open spec fn views(s: Seq<Regex>, n: nat) -> Seq<RegexSpec>
    decreases s, n,
{
    if n == 0 || n > s.len() {
        Seq::empty()
    } else {
        views(s, (n - 1) as nat).push(s[n - 1].view())
    }
}

/// Why a pattern was rejected. Positions are byte offsets into the pattern.
#[derive(Debug, Clone, Copy, PartialEq, Eq, Structural)]
pub enum RegexError {
    /// A character that cannot start or continue a pattern here.
    UnexpectedChar { ch: char, pos: usize },
    /// `expected` was required, `found` came instead.
    Expected { expected: char, found: char, pos: usize },
    /// `expected` was required, the pattern ended instead.
    ExpectedAtEnd { expected: char },
    /// A repetition bound without digits.
    ExpectedNumber,
    /// A repetition bound that does not fit in `u32`.
    NumberTooLarge,
    /// `(?` followed by something other than `:` or `i`.
    UnsupportedGroupModifier,
    /// The pattern ended inside a character class.
    EndInCharClass,
    /// A character above U+00FF inside a character class.
    NonAsciiInCharClass { ch: char },
    /// A class such as `\w` as the end of a range.
    ClassInRange,
    /// A range whose start comes after its end.
    InvalidRange { start: u8, end: u8 },
    /// The pattern ended right after a backslash.
    EndAfterBackslash,
    /// `\x` not followed by two hex digits.
    InvalidHexEscape,
    /// A backslash before an ASCII letter or digit that has no meaning.
    UnknownEscape { ch: char },
    /// Unbounded repetition of something other than a character or a class.
    UnboundedRepetition,
    /// The program has run out of node, register, charset or string ids.
    ProgramTooLarge,
}

/// One token of a pattern.
pub enum Atom {
    Empty,
    Meta(char),
    Char(char),
    WordEnd,
    Class(Charset),
}

/// The mathematical form of an [`Atom`].
pub enum AtomSpec {
    Empty,
    Meta(char),
    Char(char),
    WordEnd,
    Class(Set<u8>),
}

impl Atom {
    pub open spec fn view(&self) -> AtomSpec {
        match *self {
            Atom::Empty => AtomSpec::Empty,
            Atom::Meta(c) => AtomSpec::Meta(c),
            Atom::Char(c) => AtomSpec::Char(c),
            Atom::WordEnd => AtomSpec::WordEnd,
            Atom::Class(cs) => AtomSpec::Class(cs@),
        }
    }
}

/// The bytes of `\w`: ASCII letters, digits, `_`, and the UTF-8 leading bytes
/// 0xC2 to 0xF4, so that `\w+` consumes whole multibyte characters.
pub open spec fn word_set() -> Set<u8> {
    Set::new(
        |b: u8|
            (48 <= b <= 57) || (65 <= b <= 90) || b == 95 || (97 <= b <= 122) || (0xC2 <= b <= 0xF4),
    )
}

/// The bytes of `\d`.
pub open spec fn digit_set() -> Set<u8> {
    Set::new(|b: u8| 48 <= b <= 57)
}

/// Whether `b` is a byte of an identifier: an ASCII letter of either case, an ASCII
/// digit or the underscore, or a byte that begins a multibyte UTF-8 character.
pub open spec fn identifier_byte(b: u8) -> bool {
    ||| '0' as u8 <= b <= '9' as u8
    ||| 'a' as u8 <= ascii_lower(b) <= 'z' as u8
    ||| b == '_' as u8
    ||| 0xC2 <= b <= 0xF4
}

/// `\w` holds exactly the bytes of identifiers, and `\W` exactly the others; no
/// punctuation, space or control byte is a word byte, and `_` is one.
pub proof fn lemma_word_class(c: Seq<char>, i: int, b: u8)
    requires
        0 <= i,
        i + 1 < c.len(),
        c[i] == '\\',
    ensures
        word_set().contains(b) <==> identifier_byte(b),
        c[i + 1] == 'w' ==> (atom_spec(c, i) matches Ok((AtomSpec::Class(s), k)) && k == i + 2 && (s.contains(b)
            <==> identifier_byte(b))),
        c[i + 1] == 'W' ==> (atom_spec(c, i) matches Ok((AtomSpec::Class(s), k)) && k == i + 2 && (s.contains(b)
            <==> !identifier_byte(b))),
{
}

/// The bytes of `\s`: space, tab, line feed, carriage return, vertical tab, form feed.
pub open spec fn space_set() -> Set<u8> {
    Set::new(|b: u8| b == 32 || b == 9 || b == 10 || b == 13 || b == 11 || b == 12)
}

/// The bytes from `start` to `end`.
pub open spec fn range_set(start: u8, end: u8) -> Set<u8> {
    Set::new(|b: u8| start <= b <= end)
}

/// `s` with every ASCII letter's other case added.
pub open spec fn fold_set(s: Set<u8>) -> Set<u8> {
    Set::new(|b: u8| s.contains(b) || (is_ascii_letter(b) && s.contains(ascii_other_case(b))))
}

fn word_charset() -> (r: Charset)
    ensures
        r@ == word_set(),
{
    let mut cs = Charset::no();
    cs.set_range(48u8..=57u8, true);
    cs.set_range(65u8..=90u8, true);
    cs.set_range(95u8..=95u8, true);
    cs.set_range(97u8..=122u8, true);
    cs.set_range(0xC2u8..=0xF4u8, true);
    assert(cs@ =~= word_set());
    cs
}

fn digit_charset() -> (r: Charset)
    ensures
        r@ == digit_set(),
{
    let mut cs = Charset::no();
    cs.set_range(48u8..=57u8, true);
    assert(cs@ =~= digit_set());
    cs
}

fn space_charset() -> (r: Charset)
    ensures
        r@ == space_set(),
{
    let mut cs = Charset::no();
    cs.set(32, true);
    cs.set(9, true);
    cs.set(10, true);
    cs.set(13, true);
    cs.set(11, true);
    cs.set(12, true);
    assert(cs@ =~= space_set());
    cs
}

/// The number of bytes of `c` in UTF-8.
pub open spec fn char_width(c: char) -> nat {
    if (c as u32) < 0x80 {
        1
    } else if (c as u32) < 0x800 {
        2
    } else if (c as u32) < 0x10000 {
        3
    } else {
        4
    }
}

/// The number of bytes of `s` in UTF-8.
pub open spec fn utf8_len(s: Seq<char>) -> nat
    decreases s.len(),
{
    if s.len() == 0 {
        0
    } else {
        utf8_len(s.drop_last()) + char_width(s.last())
    }
}

/// Whether `c` is an ASCII letter or digit.
pub open spec fn is_alnum(c: char) -> bool {
    ('0' <= c && c <= '9') || ('a' <= c && c <= 'z') || ('A' <= c && c <= 'Z')
}

/// Whether `c` is a metacharacter.
pub open spec fn is_meta(c: char) -> bool {
    c == '(' || c == ')' || c == '[' || c == ']' || c == '{' || c == '}' || c == '|' || c == '?'
        || c == '*' || c == '+' || c == '.' || c == '^' || c == '$'
}

/// The value of a hex digit, if `c` is one.
pub open spec fn hex_value(c: char) -> Option<u8> {
    if '0' <= c && c <= '9' {
        Some(((c as u32) - 48) as u8)
    } else if 'a' <= c && c <= 'f' {
        Some(((c as u32) - 87) as u8)
    } else if 'A' <= c && c <= 'F' {
        Some(((c as u32) - 55) as u8)
    } else {
        None
    }
}

/// The byte that two characters spell in base 16 as `u8::from_str_radix` reads
/// them: two hex digits, or `+` and one hex digit.
pub open spec fn hex_pair(a: char, b: char) -> Option<u8> {
    match (hex_value(a), hex_value(b)) {
        (Some(x), Some(y)) => Some((x * 16 + y) as u8),
        (None, Some(y)) => if a == '+' {
            Some(y)
        } else {
            None
        },
        _ => None,
    }
}

/// Reads the atom at `i`: the result and the position after it.
pub open spec fn atom_spec(c: Seq<char>, i: int) -> Result<(AtomSpec, int), RegexError> {
    if i >= c.len() {
        Ok((AtomSpec::Empty, i))
    } else if is_meta(c[i]) {
        Ok((AtomSpec::Meta(c[i]), i + 1))
    } else if c[i] == '\\' {
        if i + 1 >= c.len() {
            Err(RegexError::EndAfterBackslash)
        } else {
            let e = c[i + 1];
            let k = i + 2;
            if e == '>' {
                Ok((AtomSpec::WordEnd, k))
            } else if e == 'w' {
                Ok((AtomSpec::Class(word_set()), k))
            } else if e == 'W' {
                Ok((AtomSpec::Class(word_set().complement()), k))
            } else if e == 'd' {
                Ok((AtomSpec::Class(digit_set()), k))
            } else if e == 'D' {
                Ok((AtomSpec::Class(digit_set().complement()), k))
            } else if e == 's' {
                Ok((AtomSpec::Class(space_set()), k))
            } else if e == 'S' {
                Ok((AtomSpec::Class(space_set().complement()), k))
            } else if e == 't' {
                Ok((AtomSpec::Char('\t'), k))
            } else if e == 'x' {
                if k + 1 < c.len() && hex_pair(c[k], c[k + 1]) is Some {
                    Ok((AtomSpec::Char((hex_pair(c[k], c[k + 1])->0) as char), k + 2))
                } else {
                    Err(RegexError::InvalidHexEscape)
                }
            } else if !is_alnum(e) {
                Ok((AtomSpec::Char(e), k))
            } else {
                Err(RegexError::UnknownEscape { ch: e })
            }
        }
    } else {
        Ok((AtomSpec::Char(c[i]), i + 1))
    }
}

fn hex_digit(c: char) -> (r: Option<u8>)
    ensures
        r == hex_value(c),
{
    if '0' <= c && c <= '9' {
        Some((c as u8) - 48)
    } else if 'a' <= c && c <= 'f' {
        Some((c as u8) - 87)
    } else if 'A' <= c && c <= 'F' {
        Some((c as u8) - 55)
    } else {
        None
    }
}

fn is_ascii_alphanumeric(c: char) -> (r: bool)
    ensures
        r == is_alnum(c),
{
    ('0' <= c && c <= '9') || ('a' <= c && c <= 'z') || ('A' <= c && c <= 'Z')
}

fn char_len_utf8(c: char) -> (r: usize)
    ensures
        r == char_width(c),
{
    if (c as u32) < 0x80 {
        1
    } else if (c as u32) < 0x800 {
        2
    } else if (c as u32) < 0x10000 {
        3
    } else {
        4
    }
}

/// The parser's position over the pattern's characters.
struct RegexParser {
    chars: Vec<char>,
    pos: usize,
    case_insensitive: bool,
}

impl RegexParser {
    fn new(input: &str) -> (r: Self)
        ensures
            r.chars@ == input@,
            r.pos == 0,
            !r.case_insensitive,
            r.ok(),
    {
        let n = input.as_bytes().len();
        proof {
            lemma_utf8_len_encode(input@);
        }
        RegexParser { chars: chars_of(input), pos: 0, case_insensitive: false }
    }

    fn parse(self) -> (r: Result<Regex, RegexError>)
        requires
            self.ok(),
            self.pos == 0,
            !self.case_insensitive,
        ensures
            match pattern_spec(self.chars@) {
                Ok(x) => r matches Ok(y) && y@ == x,
                Err(e) => r == Err::<Regex, RegexError>(e),
            },
    {
        let mut parser = self;
        let result = match parser.parse_alternation() {
            Ok(x) => x,
            Err(e) => {
                return Err(e);
            },
        };
        if parser.pos < parser.chars.len() {
            return Err(parser.error_at_current());
        }
        Ok(result)
    }

    /// The byte offset of the current position.
    fn byte_pos(&self) -> (r: usize)
        requires
            self.pos <= self.chars@.len(),
            utf8_len(self.chars@) <= usize::MAX,
        ensures
            r == utf8_len(self.chars@.take(self.pos as int)),
    {
        let mut n: usize = 0;
        let mut i: usize = 0;
        while i < self.pos
            invariant
                i <= self.pos <= self.chars@.len(),
                utf8_len(self.chars@) <= usize::MAX,
                n == utf8_len(self.chars@.take(i as int)),
            decreases self.pos - i,
        {
            proof {
                assert(self.chars@.take(i + 1).drop_last() =~= self.chars@.take(i as int));
                lemma_utf8_len_prefix(self.chars@, i + 1);
            }
            n = n + char_len_utf8(self.chars[i]);
            i += 1;
        }
        n
    }

    fn peek(&self) -> (r: Option<char>)
        ensures
            r == (if self.pos < self.chars@.len() {
                Some(self.chars@[self.pos as int])
            } else {
                None::<char>
            }),
    {
        if self.pos < self.chars.len() {
            Some(self.chars[self.pos])
        } else {
            None
        }
    }

    fn advance(&mut self) -> (r: Option<char>)
        requires
            old(self).pos <= old(self).chars@.len(),
        ensures
            final(self).chars@ == old(self).chars@,
            final(self).case_insensitive == old(self).case_insensitive,
            if old(self).pos < old(self).chars@.len() {
                r == Some(old(self).chars@[old(self).pos as int]) && final(self).pos == old(self).pos + 1
            } else {
                r is None && final(self).pos == old(self).pos
            },
    {
        if self.pos < self.chars.len() {
            let c = self.chars[self.pos];
            self.pos += 1;
            Some(c)
        } else {
            None
        }
    }

    fn parse_atom(&mut self) -> (r: Result<Atom, RegexError>)
        requires
            old(self).pos <= old(self).chars@.len(),
        ensures
            final(self).chars@ == old(self).chars@,
            final(self).case_insensitive == old(self).case_insensitive,
            final(self).pos <= final(self).chars@.len(),
            old(self).pos <= final(self).pos,
            match atom_spec(old(self).chars@, old(self).pos as int) {
                Ok((a, j)) => r matches Ok(x) && x@ == a && final(self).pos == j,
                Err(e) => r == Err::<Atom, RegexError>(e),
            },
    {
        let c = match self.advance() {
            Some(c) => c,
            None => {
                return Ok(Atom::Empty);
            },
        };
        if c == '(' || c == ')' || c == '[' || c == ']' || c == '{' || c == '}' || c == '|' || c
            == '?' || c == '*' || c == '+' || c == '.' || c == '^' || c == '$' {
            return Ok(Atom::Meta(c));
        }
        if c != '\\' {
            return Ok(Atom::Char(c));
        }
        let ce = match self.advance() {
            Some(ce) => ce,
            None => {
                return Err(RegexError::EndAfterBackslash);
            },
        };
        if ce == '>' {
            Ok(Atom::WordEnd)
        } else if ce == 'w' {
            Ok(Atom::Class(word_charset()))
        } else if ce == 'W' {
            let mut cs = word_charset();
            cs.invert();
            Ok(Atom::Class(cs))
        } else if ce == 'd' {
            Ok(Atom::Class(digit_charset()))
        } else if ce == 'D' {
            let mut cs = digit_charset();
            cs.invert();
            Ok(Atom::Class(cs))
        } else if ce == 's' {
            Ok(Atom::Class(space_charset()))
        } else if ce == 'S' {
            let mut cs = space_charset();
            cs.invert();
            Ok(Atom::Class(cs))
        } else if ce == 't' {
            Ok(Atom::Char('\t'))
        } else if ce == 'x' {
            let k = self.pos;
            if self.chars.len() - k >= 2 {
                let a = self.chars[k];
                let b = self.chars[k + 1];
                let byte = match (hex_digit(a), hex_digit(b)) {
                    (Some(x), Some(y)) => Some(x * 16 + y),
                    (None, Some(y)) => if a == '+' {
                        Some(y)
                    } else {
                        None
                    },
                    _ => None,
                };
                if let Some(byte) = byte {
                    self.pos = k + 2;
                    return Ok(Atom::Char(byte as char));
                }
            }
            Err(RegexError::InvalidHexEscape)
        } else if !is_ascii_alphanumeric(ce) {
            Ok(Atom::Char(ce))
        } else {
            Err(RegexError::UnknownEscape { ch: ce })
        }
    }
}

/// The regex of a sequence of parts: nothing, the one part, or their concatenation.
pub open spec fn concat_of(parts: Seq<RegexSpec>) -> RegexSpec {
    if parts.len() == 0 {
        RegexSpec::Empty
    } else if parts.len() == 1 {
        parts[0]
    } else {
        RegexSpec::Concat(parts)
    }
}

/// The regex of a sequence of alternatives: the one alternative, or their alternation.
pub open spec fn alt_of(alts: Seq<RegexSpec>) -> RegexSpec {
    if alts.len() == 1 {
        alts[0]
    } else {
        RegexSpec::Alt(alts)
    }
}

/// `a|b|c` at `i`.
pub open spec fn alt_spec(c: Seq<char>, i: int, ci: bool) -> Result<(RegexSpec, int), RegexError>
    decreases c.len() - i, 7nat,
{
    if i < 0 || i > c.len() {
        Ok((RegexSpec::Empty, i))
    } else {
        match concat_spec(c, i, ci) {
            Err(e) => Err(e),
            Ok((r, p)) => if i <= p <= c.len() {
                alt_loop(c, p, ci, seq![r])
            } else {
                Ok((r, p))
            },
        }
    }
}

/// The alternatives after the first ones, `alts`, at `i`.
pub open spec fn alt_loop(c: Seq<char>, i: int, ci: bool, alts: Seq<RegexSpec>) -> Result<(RegexSpec, int), RegexError>
    decreases c.len() - i, 6nat,
{
    if 0 <= i < c.len() && c[i] == '|' {
        match concat_spec(c, i + 1, ci) {
            Err(e) => Err(e),
            Ok((r, p)) => if i + 1 <= p <= c.len() {
                alt_loop(c, p, ci, alts.push(r))
            } else {
                Ok((alt_of(alts.push(r)), p))
            },
        }
    } else {
        Ok((alt_of(alts), i))
    }
}

/// The parts of a concatenation at `i`, up to a `|` or `)` or the end.
pub open spec fn concat_spec(c: Seq<char>, i: int, ci: bool) -> Result<(RegexSpec, int), RegexError>
    decreases c.len() - i, 5nat,
{
    concat_loop(c, i, ci, Seq::empty())
}

/// The parts of a concatenation after the first ones, `parts`, at `i`.
pub open spec fn concat_loop(c: Seq<char>, i: int, ci: bool, parts: Seq<RegexSpec>) -> Result<(RegexSpec, int), RegexError>
    decreases c.len() - i, 4nat,
{
    if 0 <= i < c.len() && c[i] != '|' && c[i] != ')' {
        match quantified_spec(c, i, ci) {
            Err(e) => Err(e),
            Ok((r, p)) => if i < p <= c.len() {
                concat_loop(c, p, ci, parts.push(r))
            } else {
                Ok((concat_of(parts.push(r)), p))
            },
        }
    } else {
        Ok((concat_of(parts), i))
    }
}

/// An atom at `i` with its quantifier `?`, `*`, `+` or `{n,m}`, if any.
pub open spec fn quantified_spec(c: Seq<char>, i: int, ci: bool) -> Result<(RegexSpec, int), RegexError>
    decreases c.len() - i, 3nat,
{
    match primary_spec(c, i, ci) {
        Err(e) => Err(e),
        Ok((base, p)) => {
            let bounds = if 0 <= p < c.len() && c[p] == '?' {
                Some(Ok(((0u32, 1u32), p + 1)))
            } else if 0 <= p < c.len() && c[p] == '*' {
                Some(Ok(((0u32, u32::MAX), p + 1)))
            } else if 0 <= p < c.len() && c[p] == '+' {
                Some(Ok(((1u32, u32::MAX), p + 1)))
            } else if 0 <= p < c.len() && c[p] == '{' {
                Some(bounds_spec(c, p))
            } else {
                None
            };
            match bounds {
                None => Ok((base, p)),
                Some(Err(e)) => Err(e),
                Some(Ok(((min, max), q))) => Ok((RegexSpec::Repeat { inner: Box::new(base), min, max }, q)),
            }
        },
    }
}

/// A single atom at `i`: a group, a class, `.`, `$`, or a literal.
pub open spec fn primary_spec(c: Seq<char>, i: int, ci: bool) -> Result<(RegexSpec, int), RegexError>
    decreases c.len() - i, 2nat,
{
    if i < 0 || i >= c.len() {
        Ok((RegexSpec::Empty, i))
    } else if c[i] == '(' {
        group_spec(c, i, ci)
    } else if c[i] == '[' {
        class_spec(c, i, ci)
    } else if c[i] == '.' {
        Ok((RegexSpec::Dot, i + 1))
    } else if c[i] == '$' {
        Ok((RegexSpec::EndOfLine, i + 1))
    } else {
        literal_loop(c, i, ci, Seq::empty(), i)
    }
}

/// The inner pattern of a group from `j` on, and its closing `)`.
pub open spec fn group_body(c: Seq<char>, i: int, j: int, ci: bool, capturing: bool) -> Result<(RegexSpec, int), RegexError>
    decreases c.len() - i, 0nat,
{
    if i < j <= c.len() {
        match alt_spec(c, j, ci) {
            Err(e) => Err(e),
            Ok((inner, p)) => match expect_spec(c, p, ')') {
                Err(e) => Err(e),
                Ok(q) => Ok((RegexSpec::Group { inner: Box::new(inner), capturing }, q)),
            },
        }
    } else {
        Ok((RegexSpec::Empty, j))
    }
}

/// `(foo)`, `(?:foo)`, `(?i:foo)` at `i`.
pub open spec fn group_spec(c: Seq<char>, i: int, ci: bool) -> Result<(RegexSpec, int), RegexError>
    decreases c.len() - i, 1nat,
{
    match expect_spec(c, i, '(') {
        Err(e) => Err(e),
        Ok(i1) => if i1 < c.len() && c[i1] == '?' {
            if i1 + 1 < c.len() && c[i1 + 1] == ':' {
                group_body(c, i, i1 + 2, ci, false)
            } else if i1 + 1 < c.len() && c[i1 + 1] == 'i' {
                match expect_spec(c, i1 + 2, ':') {
                    Err(e) => Err(e),
                    Ok(i3) => group_body(c, i, i3, true, false),
                }
            } else {
                Err(RegexError::UnsupportedGroupModifier)
            }
        } else {
            group_body(c, i, i1, ci, true)
        },
    }
}

/// The parse of a whole pattern.
pub open spec fn pattern_spec(c: Seq<char>) -> Result<RegexSpec, RegexError> {
    match alt_spec(c, 0, false) {
        Err(e) => Err(e),
        Ok((r, p)) => if 0 <= p < c.len() {
            Err(RegexError::UnexpectedChar { ch: c[p], pos: byte_pos(c, p) })
        } else {
            Ok(r)
        },
    }
}

/// A string holding the characters of `v`.
fn string_from_chars(v: &Vec<char>) -> (r: String)
    ensures
        r@ == v@,
{
    let mut s = String::new();
    let mut i: usize = 0;
    while i < v.len()
        invariant
            i <= v@.len(),
            s@ == v@.take(i as int),
        decreases v@.len() - i,
    {
        push_char(&mut s, v[i]);
        assert(v@.take(i + 1) =~= v@.take(i as int).push(v@[i as int]));
        i += 1;
    }
    assert(v@.take(i as int) =~= v@);
    s
}

proof fn lemma_decimal_push(d: Seq<char>, x: char)
    ensures
        decimal_value(d.push(x)) == decimal_value(d) * 10 + ((x as u32) - 48) as nat,
{
    assert(d.push(x).drop_last() =~= d);
}

/// Whether position `k` of `c` holds an ASCII digit.
pub open spec fn digit_at(c: Seq<char>, k: int) -> bool {
    0 <= k < c.len() && is_digit(c[k])
}

proof fn lemma_digits_end(c: Seq<char>, i: int, p: int)
    requires
        0 <= i <= p,
        forall|k: int| i <= k < p ==> #[trigger] digit_at(c, k),
    ensures
        digits_end(c, i) == digits_end(c, p),
    decreases p - i,
{
    if i < p {
        assert(digit_at(c, i));
        lemma_digits_end(c, i + 1, p);
    }
}

impl RegexParser {
    /// The parser's invariant: the position lies within the pattern, whose UTF-8
    /// length fits in `usize`.
    spec fn ok(&self) -> bool {
        &&& self.pos <= self.chars@.len()
        &&& utf8_len(self.chars@) <= usize::MAX
    }

    fn error_at_current(&self) -> (r: RegexError)
        requires
            self.ok(),
        ensures
            r == (RegexError::UnexpectedChar {
                ch: if self.pos < self.chars@.len() { self.chars@[self.pos as int] } else { '\0' },
                pos: byte_pos(self.chars@, self.pos as int),
            }),
    {
        let ch = match self.peek() {
            Some(c) => c,
            None => '\0',
        };
        RegexError::UnexpectedChar { ch, pos: self.byte_pos() }
    }

    fn expect(&mut self, expected: char) -> (r: Result<(), RegexError>)
        requires
            old(self).ok(),
        ensures
            final(self).ok(),
            final(self).chars@ == old(self).chars@,
            final(self).case_insensitive == old(self).case_insensitive,
            old(self).pos <= final(self).pos,
            match expect_spec(old(self).chars@, old(self).pos as int, expected) {
                Ok(j) => r is Ok && final(self).pos == j,
                Err(e) => r == Err::<(), RegexError>(e),
            },
    {
        match self.advance() {
            Some(c) => if c == expected {
                Ok(())
            } else {
                Err(RegexError::Expected { expected, found: c, pos: self.byte_pos() })
            },
            None => Err(RegexError::ExpectedAtEnd { expected }),
        }
    }

    /// Parse a literal string, including escaped metacharacters like `\+`, `\*`, etc.,
    /// fusing consecutive characters into a single literal: `\+\+\+` becomes `+++`.
    fn parse_literal(&mut self) -> (r: Result<Regex, RegexError>)
        requires
            old(self).ok(),
        ensures
            final(self).ok(),
            final(self).chars@ == old(self).chars@,
            final(self).case_insensitive == old(self).case_insensitive,
            old(self).pos <= final(self).pos,
            r is Ok ==> old(self).pos < final(self).pos,
            match literal_loop(old(self).chars@, old(self).pos as int, old(self).case_insensitive, Seq::empty(), old(self).pos as int) {
                Ok((x, j)) => r matches Ok(y) && y@ == x && final(self).pos == j,
                Err(e) => r == Err::<Regex, RegexError>(e),
            },
    {
        let ghost c = self.chars@;
        let ghost ci = self.case_insensitive;
        let ghost init = self.pos as int;
        let ghost target = literal_loop(c, init, ci, Seq::empty(), init);
        let mut lit: Vec<char> = Vec::new();
        let mut prev_pos = self.pos;
        loop
            invariant_except_break
                target == literal_loop(c, self.pos as int, ci, lit@, prev_pos as int),
            invariant
                self.ok(),
                self.chars@ == c,
                c == old(self).chars@,
                self.case_insensitive == ci,
                ci == old(self).case_insensitive,
                init == old(self).pos,
                init <= prev_pos <= self.pos,
                target == literal_loop(c, init, ci, Seq::empty(), init),
                lit@.len() > 0 ==> self.pos > init,
                lit@.len() >= 2 ==> prev_pos > init,
            ensures
                target == literal_end(c, lit@, self.pos as int, ci),
                lit@.len() > 0 ==> self.pos > init,
            decreases c.len() - self.pos,
        {
            let start = self.pos;
            let atom = match self.parse_atom() {
                Ok(a) => a,
                Err(e) => {
                    return Err(e);
                },
            };
            match atom {
                Atom::Meta(m) => {
                    if (m == '?' || m == '*' || m == '+' || m == '{') && lit.len() >= 2 {
                        lit.pop();
                        self.pos = prev_pos;
                    } else {
                        self.pos = start;
                    }
                    break;
                },
                Atom::Char(ch) => {
                    prev_pos = start;
                    lit.push(ch);
                },
                Atom::WordEnd => {
                    if lit.len() == 0 {
                        return Ok(Regex::WordEnd);
                    }
                    self.pos = start;
                    break;
                },
                Atom::Class(cs) => {
                    if lit.len() == 0 {
                        return Ok(Regex::CharClass(cs));
                    }
                    self.pos = start;
                    break;
                },
                Atom::Empty => {
                    self.pos = start;
                    break;
                },
            }
        }
        if lit.len() == 0 {
            return Err(self.error_at_current());
        }
        Ok(Regex::Literal(string_from_chars(&lit), self.case_insensitive))
    }

    /// The end of a range in a character class, after its `-`.
    fn parse_range_end(&mut self) -> (r: Result<u8, RegexError>)
        requires
            old(self).ok(),
        ensures
            final(self).ok(),
            final(self).chars@ == old(self).chars@,
            final(self).case_insensitive == old(self).case_insensitive,
            old(self).pos <= final(self).pos,
            match range_end_spec(old(self).chars@, old(self).pos as int) {
                Ok((x, j)) => r == Ok::<u8, RegexError>(x) && final(self).pos == j,
                Err(e) => r == Err::<u8, RegexError>(e),
            },
    {
        match self.parse_atom() {
            Err(e) => Err(e),
            Ok(Atom::Empty) => Err(RegexError::EndInCharClass),
            Ok(Atom::Class(_)) => Err(RegexError::ClassInRange),
            Ok(Atom::WordEnd) => Ok(62u8),
            Ok(Atom::Meta(x)) => if (x as u32) > 0xff {
                Err(RegexError::NonAsciiInCharClass { ch: x })
            } else {
                Ok((x as u32) as u8)
            },
            Ok(Atom::Char(x)) => if (x as u32) > 0xff {
                Err(RegexError::NonAsciiInCharClass { ch: x })
            } else {
                Ok((x as u32) as u8)
            },
        }
    }

    /// `[a-z]`, `[^a-z]`, etc.
    fn parse_char_class(&mut self) -> (r: Result<Regex, RegexError>)
        requires
            old(self).ok(),
        ensures
            r is Ok ==> old(self).pos < final(self).pos,
            final(self).ok(),
            final(self).chars@ == old(self).chars@,
            final(self).case_insensitive == old(self).case_insensitive,
            old(self).pos <= final(self).pos,
            match class_spec(old(self).chars@, old(self).pos as int, old(self).case_insensitive) {
                Ok((x, j)) => r matches Ok(y) && y@ == x && final(self).pos == j,
                Err(e) => r == Err::<Regex, RegexError>(e),
            },
    {
        let ghost c = self.chars@;
        let ghost i0 = self.pos as int;
        match self.expect('[') {
            Ok(()) => {},
            Err(e) => {
                return Err(e);
            },
        }
        let negated = self.peek() == Some('^');
        if negated {
            self.advance();
        }
        let mut charset = Charset::no();
        if let Some(ch) = self.peek() {
            if ch == ']' || ch == '-' {
                charset.set((ch as u32) as u8, true);
                self.advance();
            }
        }
        let ghost target = class_loop(c, self.pos as int, charset@);
        proof {
            let i1 = i0 + 1;
            let i2 = if negated { i1 + 1 } else { i1 };
            let first = i2 < c.len() && (c[i2] == ']' || c[i2] == '-');
            let cs0 = if first { Set::<u8>::empty().insert((c[i2] as u32) as u8) } else { Set::<u8>::empty() };
            assert(charset@ =~= cs0);
        }
        loop
            invariant_except_break
                target == class_loop(c, self.pos as int, charset@),
            invariant
                self.ok(),
                self.chars@ == c,
                c == old(self).chars@,
                self.case_insensitive == old(self).case_insensitive,
                i0 < self.pos,
                i0 == old(self).pos,
                class_spec(c, i0, old(self).case_insensitive) == class_finish(target, old(self).case_insensitive, negated),
            ensures
                target == Ok::<(Set<u8>, int), RegexError>((charset@, self.pos as int)),
            decreases c.len() - self.pos, 0nat,
        {
            let atom = match self.parse_atom() {
                Ok(a) => a,
                Err(e) => {
                    return Err(e);
                },
            };
            let ch = match atom {
                Atom::Empty => {
                    return Err(RegexError::EndInCharClass);
                },
                Atom::Class(cs) => {
                    charset.merge(&cs);
                    continue;
                },
                Atom::WordEnd => {
                    charset.set(62u8, true);
                    continue;
                },
                Atom::Meta(m) => {
                    if m == ']' {
                        break;
                    }
                    m
                },
                Atom::Char(x) => x,
            };
            if (ch as u32) > 0xff {
                return Err(RegexError::NonAsciiInCharClass { ch });
            }
            let start = (ch as u32) as u8;
            let mut end = start;
            let p = self.pos;
            assert(target == class_item(c, p as int, charset@, start));
            if p < self.chars.len() && self.chars[p] == '-' && !(self.chars.len() - p >= 2
                && self.chars[p + 1] == ']') {
                self.advance();
                end = match self.parse_range_end() {
                    Ok(e) => e,
                    Err(e) => {
                        return Err(e);
                    },
                };
            }
            if start > end {
                return Err(RegexError::InvalidRange { start, end });
            }
            let ghost before = charset@;
            charset.set_range(start..=end, true);
            assert(charset@ =~= before.union(range_set(start, end)));
        }
        if self.case_insensitive {
            let ghost before = charset@;
            charset.fold_case();
            assert(charset@ =~= fold_set(before));
        }
        if negated {
            charset.invert();
        }
        Ok(Regex::CharClass(charset))
    }

    fn parse_number(&mut self) -> (r: Result<u32, RegexError>)
        requires
            old(self).ok(),
        ensures
            final(self).ok(),
            final(self).chars@ == old(self).chars@,
            final(self).case_insensitive == old(self).case_insensitive,
            old(self).pos <= final(self).pos,
            match number_spec(old(self).chars@, old(self).pos as int) {
                Ok((x, j)) => r == Ok::<u32, RegexError>(x) && final(self).pos == j,
                Err(e) => r == Err::<u32, RegexError>(e),
            },
    {
        let ghost c = self.chars@;
        let start = self.pos;
        let mut value: u64 = 0;
        while self.pos < self.chars.len() && '0' <= self.chars[self.pos] && self.chars[self.pos] <= '9'
            invariant
                self.ok(),
                self.chars@ == c,
                self.case_insensitive == old(self).case_insensitive,
                start <= self.pos,
                start == old(self).pos,
                forall|k: int| start <= k < self.pos ==> #[trigger] digit_at(c, k),
                value == if decimal_value(c.subrange(start as int, self.pos as int)) > u32::MAX {
                    u32::MAX as nat + 1
                } else {
                    decimal_value(c.subrange(start as int, self.pos as int))
                },
            decreases c.len() - self.pos,
        {
            let d = (self.chars[self.pos] as u32 - 48) as u64;
            proof {
                assert(c.subrange(start as int, self.pos + 1) =~= c.subrange(start as int, self.pos as int).push(c[self.pos as int]));
                lemma_decimal_push(c.subrange(start as int, self.pos as int), c[self.pos as int]);
            }
            if value <= 0xffff_ffffu64 {
                value = value * 10 + d;
                if value > 0xffff_ffffu64 {
                    value = 0x1_0000_0000u64;
                }
            }
            self.pos += 1;
        }
        proof {
            lemma_digits_end(c, start as int, self.pos as int);
        }
        if start == self.pos {
            return Err(RegexError::ExpectedNumber);
        }
        if value > 0xffff_ffffu64 {
            return Err(RegexError::NumberTooLarge);
        }
        Ok(value as u32)
    }

    /// `{n,m}`
    fn parse_repetition_bounds(&mut self) -> (r: Result<(u32, u32), RegexError>)
        requires
            old(self).ok(),
        ensures
            final(self).ok(),
            final(self).chars@ == old(self).chars@,
            final(self).case_insensitive == old(self).case_insensitive,
            old(self).pos <= final(self).pos,
            match bounds_spec(old(self).chars@, old(self).pos as int) {
                Ok((x, j)) => r == Ok::<(u32, u32), RegexError>(x) && final(self).pos == j,
                Err(e) => r == Err::<(u32, u32), RegexError>(e),
            },
    {
        match self.expect('{') {
            Ok(()) => {},
            Err(e) => {
                return Err(e);
            },
        }
        let min = match self.parse_number() {
            Ok(n) => n,
            Err(e) => {
                return Err(e);
            },
        };
        let max = if self.peek() == Some(',') {
            self.advance();
            if self.peek() == Some('}') {
                u32::MAX
            } else {
                match self.parse_number() {
                    Ok(n) => n,
                    Err(e) => {
                        return Err(e);
                    },
                }
            }
        } else {
            min
        };
        match self.expect('}') {
            Ok(()) => {},
            Err(e) => {
                return Err(e);
            },
        }
        Ok((min, max))
    }
}

proof fn lemma_views_prefix(s: Seq<Regex>, t: Seq<Regex>, n: nat)
    requires
        n <= s.len(),
        n <= t.len(),
        forall|k: int| 0 <= k < n ==> s[k] == t[k],
    ensures
        views(s, n) == views(t, n),
        views(s, n).len() == n,
    decreases n,
{
    if n > 0 {
        lemma_views_prefix(s, t, (n - 1) as nat);
    }
}

proof fn lemma_views_push(s: Seq<Regex>, x: Regex)
    ensures
        views(s.push(x), s.len() + 1) == views(s, s.len()).push(x.view()),
        views(s, s.len()).len() == s.len(),
{
    lemma_views_prefix(s.push(x), s, s.len());
}

impl RegexParser {
    /// `a|b|c`
    fn parse_alternation(&mut self) -> (r: Result<Regex, RegexError>)
        requires
            old(self).ok(),
        ensures
            final(self).ok(),
            final(self).chars@ == old(self).chars@,
            final(self).case_insensitive == old(self).case_insensitive,
            old(self).pos <= final(self).pos,
            match alt_spec(old(self).chars@, old(self).pos as int, old(self).case_insensitive) {
                Ok((x, j)) => r matches Ok(y) && y@ == x && final(self).pos == j,
                Err(e) => r == Err::<Regex, RegexError>(e),
            },
        decreases old(self).chars@.len() - old(self).pos, 7nat,
    {
        let ghost c = self.chars@;
        let ghost ci = self.case_insensitive;
        let ghost init = self.pos as int;
        let first = match self.parse_concatenation() {
            Ok(x) => x,
            Err(e) => {
                return Err(e);
            },
        };
        let mut alts: Vec<Regex> = Vec::new();
        alts.push(first);
        proof {
            lemma_views_push(Seq::empty(), first);
            assert(Seq::<Regex>::empty().push(first) =~= alts@);
        }
        loop
            invariant_except_break
                alt_spec(c, init, ci) == alt_loop(c, self.pos as int, ci, views(alts@, alts@.len())),
            invariant
                self.ok(),
                self.chars@ == c,
                c == old(self).chars@,
                self.case_insensitive == ci,
                ci == old(self).case_insensitive,
                init == old(self).pos,
                init <= self.pos,
                alts@.len() >= 1,
                views(alts@, alts@.len()).len() == alts@.len(),
            ensures
                alt_spec(c, init, ci) == Ok::<(RegexSpec, int), RegexError>((alt_of(views(alts@, alts@.len())), self.pos as int)),
            decreases c.len() - self.pos,
        {
            if self.peek() != Some('|') {
                break;
            }
            self.advance();
            let x = match self.parse_concatenation() {
                Ok(x) => x,
                Err(e) => {
                    return Err(e);
                },
            };
            proof {
                lemma_views_push(alts@, x);
            }
            alts.push(x);
        }
        if alts.len() == 1 {
            let x = alts.pop().unwrap();
            Ok(x)
        } else {
            Ok(Regex::Alt(alts))
        }
    }

    /// `[a-b][c-d]`
    fn parse_concatenation(&mut self) -> (r: Result<Regex, RegexError>)
        requires
            old(self).ok(),
        ensures
            final(self).ok(),
            final(self).chars@ == old(self).chars@,
            final(self).case_insensitive == old(self).case_insensitive,
            old(self).pos <= final(self).pos,
            match concat_spec(old(self).chars@, old(self).pos as int, old(self).case_insensitive) {
                Ok((x, j)) => r matches Ok(y) && y@ == x && final(self).pos == j,
                Err(e) => r == Err::<Regex, RegexError>(e),
            },
        decreases old(self).chars@.len() - old(self).pos, 5nat,
    {
        let ghost c = self.chars@;
        let ghost ci = self.case_insensitive;
        let ghost init = self.pos as int;
        let mut parts: Vec<Regex> = Vec::new();
        proof {
            assert(views(parts@, 0) =~= Seq::<RegexSpec>::empty());
        }
        loop
            invariant_except_break
                concat_spec(c, init, ci) == concat_loop(c, self.pos as int, ci, views(parts@, parts@.len())),
            invariant
                self.ok(),
                self.chars@ == c,
                c == old(self).chars@,
                self.case_insensitive == ci,
                ci == old(self).case_insensitive,
                init == old(self).pos,
                init <= self.pos,
                views(parts@, parts@.len()).len() == parts@.len(),
            ensures
                concat_spec(c, init, ci) == Ok::<(RegexSpec, int), RegexError>((concat_of(views(parts@, parts@.len())), self.pos as int)),
            decreases c.len() - self.pos,
        {
            match self.peek() {
                None => {
                    break;
                },
                Some(ch) => {
                    if ch == '|' || ch == ')' {
                        break;
                    }
                },
            }
            let x = match self.parse_quantified() {
                Ok(x) => x,
                Err(e) => {
                    return Err(e);
                },
            };
            proof {
                lemma_views_push(parts@, x);
            }
            parts.push(x);
        }
        if parts.len() == 0 {
            Ok(Regex::Empty)
        } else if parts.len() == 1 {
            let x = parts.pop().unwrap();
            Ok(x)
        } else {
            Ok(Regex::Concat(parts))
        }
    }

    /// `a?`, `a*`, `a+`, `a{n,m}`
    fn parse_quantified(&mut self) -> (r: Result<Regex, RegexError>)
        requires
            old(self).ok(),
        ensures
            final(self).ok(),
            final(self).chars@ == old(self).chars@,
            final(self).case_insensitive == old(self).case_insensitive,
            old(self).pos <= final(self).pos,
            r is Ok && old(self).pos < old(self).chars@.len() ==> old(self).pos < final(self).pos,
            match quantified_spec(old(self).chars@, old(self).pos as int, old(self).case_insensitive) {
                Ok((x, j)) => r matches Ok(y) && y@ == x && final(self).pos == j,
                Err(e) => r == Err::<Regex, RegexError>(e),
            },
        decreases old(self).chars@.len() - old(self).pos, 3nat,
    {
        let base = match self.parse_primary() {
            Ok(x) => x,
            Err(e) => {
                return Err(e);
            },
        };
        let (min, max) = match self.peek() {
            Some(ch) => {
                if ch == '?' {
                    self.advance();
                    (0u32, 1u32)
                } else if ch == '*' {
                    self.advance();
                    (0u32, u32::MAX)
                } else if ch == '+' {
                    self.advance();
                    (1u32, u32::MAX)
                } else if ch == '{' {
                    match self.parse_repetition_bounds() {
                        Ok(b) => b,
                        Err(e) => {
                            return Err(e);
                        },
                    }
                } else {
                    return Ok(base);
                }
            },
            None => {
                return Ok(base);
            },
        };
        Ok(Regex::Repeat { inner: Box::new(base), min, max })
    }

    /// A single atom (literal, class, group, anchor).
    #[verifier::spinoff_prover]
    #[verifier::rlimit(50)]
    fn parse_primary(&mut self) -> (r: Result<Regex, RegexError>)
        requires
            old(self).ok(),
        ensures
            final(self).ok(),
            final(self).chars@ == old(self).chars@,
            final(self).case_insensitive == old(self).case_insensitive,
            old(self).pos <= final(self).pos,
            r is Ok && old(self).pos < old(self).chars@.len() ==> old(self).pos < final(self).pos,
            match primary_spec(old(self).chars@, old(self).pos as int, old(self).case_insensitive) {
                Ok((x, j)) => r matches Ok(y) && y@ == x && final(self).pos == j,
                Err(e) => r == Err::<Regex, RegexError>(e),
            },
        decreases old(self).chars@.len() - old(self).pos, 2nat,
    {
        match self.peek() {
            None => Ok(Regex::Empty),
            Some(ch) => {
                if ch == '(' {
                    self.parse_group()
                } else if ch == '[' {
                    self.parse_char_class()
                } else if ch == '.' {
                    self.advance();
                    Ok(Regex::Dot)
                } else if ch == '$' {
                    self.advance();
                    Ok(Regex::EndOfLine)
                } else {
                    self.parse_literal()
                }
            },
        }
    }

    /// The inner pattern of a group and its closing `)`.
    fn parse_group_body(&mut self, capturing: bool) -> (r: Result<Regex, RegexError>)
        requires
            old(self).ok(),
            old(self).pos > 0,
        ensures
            final(self).ok(),
            final(self).chars@ == old(self).chars@,
            final(self).case_insensitive == old(self).case_insensitive,
            old(self).pos <= final(self).pos,
            match group_body(old(self).chars@, old(self).pos - 1, old(self).pos as int, old(self).case_insensitive, capturing) {
                Ok((x, j)) => r matches Ok(y) && y@ == x && final(self).pos == j,
                Err(e) => r == Err::<Regex, RegexError>(e),
            },
        decreases old(self).chars@.len() - old(self).pos, 8nat,
    {
        let inner = match self.parse_alternation() {
            Ok(x) => x,
            Err(e) => {
                return Err(e);
            },
        };
        match self.expect(')') {
            Ok(()) => {},
            Err(e) => {
                return Err(e);
            },
        }
        Ok(Regex::Group { inner: Box::new(inner), capturing })
    }

    /// `(foo)`, `(?:foo)`, `(?i:foo)`
    fn parse_group(&mut self) -> (r: Result<Regex, RegexError>)
        requires
            old(self).ok(),
        ensures
            final(self).ok(),
            final(self).chars@ == old(self).chars@,
            final(self).case_insensitive == old(self).case_insensitive,
            old(self).pos <= final(self).pos,
            r is Ok ==> old(self).pos < final(self).pos,
            match group_spec(old(self).chars@, old(self).pos as int, old(self).case_insensitive) {
                Ok((x, j)) => r matches Ok(y) && y@ == x && final(self).pos == j,
                Err(e) => r == Err::<Regex, RegexError>(e),
            },
        decreases old(self).chars@.len() - old(self).pos, 1nat,
    {
        let ghost c = self.chars@;
        let ghost i = self.pos as int;
        match self.expect('(') {
            Ok(()) => {},
            Err(e) => {
                return Err(e);
            },
        }
        if self.peek() == Some('?') {
            self.advance();
            let next = self.peek();
            if next == Some(':') {
                self.advance();
                self.parse_group_body(false)
            } else if next == Some('i') {
                self.advance();
                match self.expect(':') {
                    Ok(()) => {},
                    Err(e) => {
                        return Err(e);
                    },
                }
                let old_ci = self.case_insensitive;
                self.case_insensitive = true;
                let inner = self.parse_group_body(false);
                self.case_insensitive = old_ci;
                inner
            } else {
                Err(RegexError::UnsupportedGroupModifier)
            }
        } else {
            self.parse_group_body(true)
        }
    }
}

proof fn lemma_utf8_len_first(s: Seq<char>)
    requires
        s.len() > 0,
    ensures
        utf8_len(s) == char_width(s[0]) + utf8_len(s.drop_first()),
    decreases s.len(),
{
    if s.len() > 1 {
        lemma_utf8_len_first(s.drop_last());
        assert(s.drop_last().drop_first() =~= s.drop_first().drop_last());
        assert(s.drop_first().last() == s.last());
        assert(s.drop_last()[0] == s[0]);
    } else {
        assert(s.drop_last().len() == 0);
        assert(s.drop_first().len() == 0);
        assert(utf8_len(s.drop_first()) == 0);
        assert(utf8_len(s.drop_last()) == 0);
    }
}

/// The UTF-8 length by widths is the length of the encoding.
proof fn lemma_utf8_len_encode(s: Seq<char>)
    ensures
        utf8_len(s) == encode_utf8(s).len(),
    decreases s.len(),
{
    if s.len() > 0 {
        lemma_utf8_len_first(s);
        lemma_utf8_len_encode(s.drop_first());
        char_is_scalar(s[0]);
    }
}

proof fn lemma_utf8_len_prefix(s: Seq<char>, i: int)
    requires
        0 < i <= s.len(),
    ensures
        utf8_len(s.take(i)) == utf8_len(s.take(i - 1)) + char_width(s[i - 1]),
        utf8_len(s.take(i)) <= utf8_len(s),
    decreases s.len() - i,
{
    assert(s.take(i).drop_last() =~= s.take(i - 1));
    if i < s.len() {
        lemma_utf8_len_prefix(s, i + 1);
    } else {
        assert(s.take(i) =~= s);
    }
}

/// The byte offset of character position `i` in `c`.
pub open spec fn byte_pos(c: Seq<char>, i: int) -> usize {
    utf8_len(c.take(i)) as usize
}

/// Consumes the character `ch` at `i`.
pub open spec fn expect_spec(c: Seq<char>, i: int, ch: char) -> Result<int, RegexError> {
    if i < c.len() {
        if c[i] == ch {
            Ok(i + 1)
        } else {
            Err(RegexError::Expected { expected: ch, found: c[i], pos: byte_pos(c, i + 1) })
        }
    } else {
        Err(RegexError::ExpectedAtEnd { expected: ch })
    }
}

/// Whether `m` is a quantifier.
pub open spec fn is_quantifier(m: char) -> bool {
    m == '?' || m == '*' || m == '+' || m == '{'
}

/// Ends a literal at `pos`: an error if nothing was read.
pub open spec fn literal_end(c: Seq<char>, lit: Seq<char>, pos: int, ci: bool) -> Result<(RegexSpec, int), RegexError> {
    if lit.len() == 0 {
        Err(RegexError::UnexpectedChar { ch: if 0 <= pos < c.len() { c[pos] } else { '\0' }, pos: byte_pos(c, pos) })
    } else {
        Ok((RegexSpec::Literal(lit, ci), pos))
    }
}

/// Reads a literal from `pos` on, `lit` having been read already, the last character
/// of it from `prev`. Consecutive characters and escapes fuse into one literal; a
/// quantifier after two or more characters takes the last one back, so that it
/// applies to that character alone. A class or `\>` stands alone.
pub open spec fn literal_loop(c: Seq<char>, pos: int, ci: bool, lit: Seq<char>, prev: int) -> Result<(RegexSpec, int), RegexError>
    decreases c.len() - pos,
{
    if pos < 0 || pos > c.len() {
        literal_end(c, lit, pos, ci)
    } else {
        match atom_spec(c, pos) {
            Err(e) => Err(e),
            Ok((a, j)) => match a {
                AtomSpec::Meta(m) => if is_quantifier(m) && lit.len() >= 2 {
                    literal_end(c, lit.drop_last(), prev, ci)
                } else {
                    literal_end(c, lit, pos, ci)
                },
                AtomSpec::Char(ch) => if pos < j <= c.len() {
                    literal_loop(c, j, ci, lit.push(ch), pos)
                } else {
                    literal_end(c, lit.push(ch), j, ci)
                },
                AtomSpec::WordEnd => if lit.len() == 0 {
                    Ok((RegexSpec::WordEnd, j))
                } else {
                    literal_end(c, lit, pos, ci)
                },
                AtomSpec::Class(s) => if lit.len() == 0 {
                    Ok((RegexSpec::CharClass(s), j))
                } else {
                    literal_end(c, lit, pos, ci)
                },
                AtomSpec::Empty => literal_end(c, lit, pos, ci),
            },
        }
    }
}

/// The end of a range whose `-` was at `j - 1`: its byte and the position after it.
pub open spec fn range_end_spec(c: Seq<char>, j: int) -> Result<(u8, int), RegexError> {
    match atom_spec(c, j) {
        Err(e) => Err(e),
        Ok((b, k)) => match b {
            AtomSpec::Empty => Err(RegexError::EndInCharClass),
            AtomSpec::Class(_) => Err(RegexError::ClassInRange),
            AtomSpec::WordEnd => Ok((62u8, k)),
            AtomSpec::Meta(x) => if (x as u32) > 0xff {
                Err(RegexError::NonAsciiInCharClass { ch: x })
            } else {
                Ok(((x as u32) as u8, k))
            },
            AtomSpec::Char(x) => if (x as u32) > 0xff {
                Err(RegexError::NonAsciiInCharClass { ch: x })
            } else {
                Ok(((x as u32) as u8, k))
            },
        },
    }
}

/// Adds the item `start` (or the range from it) at `j` to `cs` and goes on.
pub open spec fn class_item(c: Seq<char>, j: int, cs: Set<u8>, start: u8) -> Result<(Set<u8>, int), RegexError>
    decreases c.len() - j, 1nat,
{
    let end = if 0 <= j < c.len() && c[j] == '-' && !(j + 1 < c.len() && c[j + 1] == ']') {
        range_end_spec(c, j + 1)
    } else {
        Ok((start, j))
    };
    match end {
        Err(e) => Err(e),
        Ok((e, k)) => if start > e {
            Err(RegexError::InvalidRange { start, end: e })
        } else if j <= k <= c.len() && 0 <= j {
            class_loop(c, k, cs.union(range_set(start, e)))
        } else {
            Ok((cs, k))
        },
    }
}

/// Reads the items of a character class from `pos` on up to its `]`.
pub open spec fn class_loop(c: Seq<char>, pos: int, cs: Set<u8>) -> Result<(Set<u8>, int), RegexError>
    decreases c.len() - pos, 0nat,
{
    if pos < 0 || pos > c.len() {
        Ok((cs, pos))
    } else {
        match atom_spec(c, pos) {
            Err(e) => Err(e),
            Ok((a, j)) => if !(pos < j <= c.len()) {
                Err(RegexError::EndInCharClass)
            } else {
                match a {
                    AtomSpec::Empty => Err(RegexError::EndInCharClass),
                    AtomSpec::Class(s) => class_loop(c, j, cs.union(s)),
                    AtomSpec::WordEnd => class_loop(c, j, cs.insert(62u8)),
                    AtomSpec::Meta(m) => if m == ']' {
                        Ok((cs, j))
                    } else if (m as u32) > 0xff {
                        Err(RegexError::NonAsciiInCharClass { ch: m })
                    } else {
                        class_item(c, j, cs, (m as u32) as u8)
                    },
                    AtomSpec::Char(ch) => if (ch as u32) > 0xff {
                        Err(RegexError::NonAsciiInCharClass { ch })
                    } else {
                        class_item(c, j, cs, (ch as u32) as u8)
                    },
                }
            },
        }
    }
}

/// A class read with the items `r`, folded when case-insensitive, inverted when negated.
pub open spec fn class_finish(r: Result<(Set<u8>, int), RegexError>, ci: bool, negated: bool) -> Result<(RegexSpec, int), RegexError> {
    match r {
        Err(e) => Err(e),
        Ok((cs, j)) => {
            let cs1 = if ci { fold_set(cs) } else { cs };
            let cs2 = if negated { cs1.complement() } else { cs1 };
            Ok((RegexSpec::CharClass(cs2), j))
        },
    }
}

/// Reads a character class whose `[` is at `i`. A `]` or `-` right after the `[`
/// (or `[^`) is taken literally.
pub open spec fn class_spec(c: Seq<char>, i: int, ci: bool) -> Result<(RegexSpec, int), RegexError> {
    match expect_spec(c, i, '[') {
        Err(e) => Err(e),
        Ok(i1) => {
            let negated = i1 < c.len() && c[i1] == '^';
            let i2 = if negated { i1 + 1 } else { i1 };
            let first = i2 < c.len() && (c[i2] == ']' || c[i2] == '-');
            let cs0 = if first { Set::empty().insert((c[i2] as u32) as u8) } else { Set::empty() };
            let i3 = if first { i2 + 1 } else { i2 };
            class_finish(class_loop(c, i3, cs0), ci, negated)
        },
    }
}

/// Whether `ch` is an ASCII digit.
pub open spec fn is_digit(ch: char) -> bool {
    '0' <= ch && ch <= '9'
}

/// The position after the run of ASCII digits at `i`.
pub open spec fn digits_end(c: Seq<char>, i: int) -> int
    decreases c.len() - i,
{
    if 0 <= i < c.len() && is_digit(c[i]) {
        digits_end(c, i + 1)
    } else {
        i
    }
}

/// The decimal value of a run of ASCII digits.
pub open spec fn decimal_value(d: Seq<char>) -> nat
    decreases d.len(),
{
    if d.len() == 0 {
        0
    } else {
        decimal_value(d.drop_last()) * 10 + ((d.last() as u32) - 48) as nat
    }
}

/// Reads a decimal number at `i`.
pub open spec fn number_spec(c: Seq<char>, i: int) -> Result<(u32, int), RegexError> {
    let e = digits_end(c, i);
    if e == i {
        Err(RegexError::ExpectedNumber)
    } else if decimal_value(c.subrange(i, e)) > u32::MAX {
        Err(RegexError::NumberTooLarge)
    } else {
        Ok((decimal_value(c.subrange(i, e)) as u32, e))
    }
}

/// Reads `{n}`, `{n,}` or `{n,m}` at `i`.
pub open spec fn bounds_spec(c: Seq<char>, i: int) -> Result<((u32, u32), int), RegexError> {
    match expect_spec(c, i, '{') {
        Err(e) => Err(e),
        Ok(i1) => match number_spec(c, i1) {
            Err(e) => Err(e),
            Ok((min, i2)) => {
                let max = if i2 < c.len() && c[i2] == ',' {
                    if i2 + 1 < c.len() && c[i2 + 1] == '}' {
                        Ok((u32::MAX, i2 + 1))
                    } else {
                        number_spec(c, i2 + 1)
                    }
                } else {
                    Ok((min, i2))
                };
                match max {
                    Err(e) => Err(e),
                    Ok((max, i4)) => match expect_spec(c, i4, '}') {
                        Err(e) => Err(e),
                        Ok(i5) => Ok(((min, max), i5)),
                    },
                }
            },
        },
    }
}

/// Pairs of registers holding where each capture group starts and ends.
pub type CaptureList = Vec<(RegId, RegId)>;

/// Whether `x` is a node added at or after index `from`, or one of the exits `a` and `b`.
pub open spec fn inside_or_exit(x: NodeId, from: int, a: NodeId, b: NodeId) -> bool {
    x.idx() >= from || x == a || x == b
}

/// Whether every node of `g` from index `from` on leads only to such nodes or to the
/// exits `a` and `b`, and only to nodes before it, so that these nodes form no loop:
/// along `next`, and for a condition along `then` as well.
pub open spec fn closed_since(g: Seq<Node>, from: int, a: NodeId, b: NodeId) -> bool {
    forall|i: int|
        #![trigger g[i]]
        from <= i < g.len() ==> {
            &&& (g[i].next matches Some(x) ==> inside_or_exit(x, from, a, b) && x.idx() < i)
            &&& (g[i].instr matches Op::If { then, .. } ==> inside_or_exit(then, from, a, b) && then.idx() < i)
        }
}

/// Whether the code that starts at `entry`, made of the nodes of `g` from index `from`
/// on, is wired to the exits `a` and `b` alone: it leaves its own nodes only for them,
/// and it has no loops.
pub open spec fn wired(g: Seq<Node>, from: int, entry: NodeId, a: NodeId, b: NodeId) -> bool {
    closed_since(g, from, a, b) && inside_or_exit(entry, from, a, b)
}

/// Code emitted after `g0` for exits that are inside `g0`'s code or its exits keeps the
/// whole wired to `a` and `b`.
proof fn lemma_wired_compose(
    g0: Seq<Node>,
    g1: Seq<Node>,
    from: int,
    a: NodeId,
    b: NodeId,
    entry1: NodeId,
    a1: NodeId,
    b1: NodeId,
)
    requires
        0 <= from <= g0.len() <= g1.len(),
        forall|k: int| 0 <= k < g0.len() ==> g1[k] == #[trigger] g0[k],
        closed_since(g0, from, a, b),
        wired(g1, g0.len() as int, entry1, a1, b1),
        inside_or_exit(a1, from, a, b),
        inside_or_exit(b1, from, a, b),
    ensures
        closed_since(g1, from, a, b),
        inside_or_exit(entry1, from, a, b),
{
    assert forall|i: int| #![trigger g1[i]] from <= i < g1.len() implies {
        &&& (g1[i].next matches Some(x) ==> inside_or_exit(x, from, a, b) && x.idx() < i)
        &&& (g1[i].instr matches Op::If { then, .. } ==> inside_or_exit(then, from, a, b) && then.idx() < i)
    } by {
        if i < g0.len() {
            assert(g1[i] == g0[i]);
        }
    }
}

/// A node whose edges stay inside the code or go to its exits keeps it wired.
proof fn lemma_wired_push(g0: Seq<Node>, from: int, a: NodeId, b: NodeId, n: Node)
    requires
        0 <= from <= g0.len(),
        closed_since(g0, from, a, b),
        n.next matches Some(x) ==> inside_or_exit(x, from, a, b) && x.idx() < g0.len(),
        n.instr matches Op::If { then, .. } ==> inside_or_exit(then, from, a, b) && then.idx() < g0.len(),
    ensures
        closed_since(g0.push(n), from, a, b),
{
    let g1 = g0.push(n);
    assert forall|i: int| #![trigger g1[i]] from <= i < g1.len() implies {
        &&& (g1[i].next matches Some(x) ==> inside_or_exit(x, from, a, b) && x.idx() < i)
        &&& (g1[i].instr matches Op::If { then, .. } ==> inside_or_exit(then, from, a, b) && then.idx() < i)
    } by {
        if i < g0.len() {
            assert(g1[i] == g0[i]);
        }
    }
}

/// Whether every register in `caps` exists in `p`.
pub open spec fn captures_ok(p: Program, caps: Seq<(RegId, RegId)>) -> bool {
    forall|i: int| 0 <= i < caps.len() ==> p.reg_ok((#[trigger] caps[i]).0) && p.reg_ok(caps[i].1)
}

/// Whether the pairs that `caps` holds from position `from` on are registers made after
/// the program had `count` of them, each pair's start made before its end.
pub open spec fn fresh_pairs(caps: Seq<(RegId, RegId)>, from: int, count: nat) -> bool {
    forall|i: int| from <= i < caps.len() ==> count <= (#[trigger] caps[i]).0.idx() < caps[i].1.idx()
}

proof fn lemma_fresh_pairs_extend(c1: Seq<(RegId, RegId)>, c2: Seq<(RegId, RegId)>, from: int, count0: nat, count1: nat)
    requires
        0 <= from <= c1.len() <= c2.len(),
        c2.take(c1.len() as int) == c1,
        fresh_pairs(c1, from, count0),
        fresh_pairs(c2, c1.len() as int, count1),
        count0 <= count1,
    ensures
        fresh_pairs(c2, from, count0),
{
    assert forall|i: int| from <= i < c2.len() implies count0 <= (#[trigger] c2[i]).0.idx() < c2[i].1.idx() by {
        if i < c1.len() {
            assert(c2.take(c1.len() as int)[i] == c2[i]);
        }
    }
}

/// Whether one of the program's tables has used up its 32-bit ids: the graph, the
/// registers, the charsets or the strings.
pub open spec fn out_of_ids(p: Program) -> bool {
    ||| p.graph.view().len() > 0xffff_ffff
    ||| p.register_count > 0xffff_fffe
    ||| p.charsets.view().len() > 0xffff_ffff
    ||| p.strings.view().len() > 0xffff_ffff
}

/// Adds a node, or fails when the graph has no free id left.
fn new_node(program: &mut Program, instr: Op, next: Option<NodeId>) -> (r: Result<NodeId, RegexError>)
    requires
        old(program).wf(),
        old(program).op_ok(instr),
        next matches Some(n) ==> id_ok(n, old(program).graph.view().len()),
    ensures
        r matches Err(e) ==> e != RegexError::ProgramTooLarge || out_of_ids(*final(program)),
        final(program).wf(),
        grows(*old(program), *final(program)),
        match r {
            Ok(id) => {
                &&& final(program).graph.view() == old(program).graph.view().push(Node { next, instr })
                &&& id.idx() == old(program).graph.view().len()
                &&& final(program).charsets == old(program).charsets
                &&& final(program).strings == old(program).strings
                &&& final(program).register_count == old(program).register_count
            },
            Err(e) => e == RegexError::ProgramTooLarge && *final(program) == *old(program),
        },
{
    if program.graph.len() > 0xffff_ffffusize {
        return Err(RegexError::ProgramTooLarge);
    }
    let ghost p0 = *program;
    let id = program.alloc_ir(Node { next, instr });
    assert forall|i: int| 0 <= i < program.graph.view().len() implies program.node_ok(#[trigger] program.graph.view()[i]) by {
        if i < p0.graph.view().len() {
            assert(p0.node_ok(p0.graph.view()[i]));
        }
    }
    Ok(id)
}

/// A fresh virtual register, or a failure when none is left.
fn new_vreg(program: &mut Program) -> (r: Result<RegId, RegexError>)
    requires
        old(program).wf(),
    ensures
        r matches Err(e) ==> e != RegexError::ProgramTooLarge || out_of_ids(*final(program)),
        final(program).wf(),
        grows(*old(program), *final(program)),
        match r {
            Ok(reg) => {
                &&& reg.idx() == old(program).register_count
                &&& final(program).register_count == old(program).register_count + 1
                &&& final(program).graph == old(program).graph
                &&& final(program).charsets == old(program).charsets
                &&& final(program).strings == old(program).strings
            },
            Err(e) => e == RegexError::ProgramTooLarge && *final(program) == *old(program),
        },
{
    if program.register_count > 0xffff_fffeusize {
        return Err(RegexError::ProgramTooLarge);
    }
    let ghost p0 = *program;
    let reg = program.alloc_vreg();
    assert forall|i: int| 0 <= i < program.graph.view().len() implies program.node_ok(#[trigger] program.graph.view()[i]) by {
        assert(p0.node_ok(p0.graph.view()[i]));
    }
    Ok(reg)
}

/// The id of a charset equal to `cs`, or a failure when it is new and no id is left.
fn intern_charset(program: &mut Program, cs: &Charset) -> (r: Result<CharsetId, RegexError>)
    requires
        old(program).wf(),
    ensures
        r matches Err(e) ==> e != RegexError::ProgramTooLarge || out_of_ids(*final(program)),
        final(program).wf(),
        grows(*old(program), *final(program)),
        final(program).graph == old(program).graph,
        final(program).strings == old(program).strings,
        final(program).register_count == old(program).register_count,
        match r {
            Ok(id) => id.idx() < final(program).charsets.view().len() && final(program).charsets.view()[id.idx() as int]@ == cs@,
            Err(e) => e == RegexError::ProgramTooLarge && *final(program) == *old(program),
        },
{
    if program.charsets.len() > 0xffff_ffffusize {
        return Err(RegexError::ProgramTooLarge);
    }
    let ghost p0 = *program;
    let id = program.intern_charset(cs);
    assert forall|i: int| 0 <= i < program.graph.view().len() implies program.node_ok(#[trigger] program.graph.view()[i]) by {
        assert(p0.node_ok(p0.graph.view()[i]));
    }
    Ok(id)
}

/// The id of a string equal to `s`, or a failure when it is new and no id is left.
fn intern_string(program: &mut Program, s: &str) -> (r: Result<StringId, RegexError>)
    requires
        old(program).wf(),
    ensures
        r matches Err(e) ==> e != RegexError::ProgramTooLarge || out_of_ids(*final(program)),
        final(program).wf(),
        grows(*old(program), *final(program)),
        final(program).graph == old(program).graph,
        final(program).charsets == old(program).charsets,
        final(program).register_count == old(program).register_count,
        match r {
            Ok(id) => id.idx() < final(program).strings.view().len() && final(program).strings.view()[id.idx() as int]@ == s@,
            Err(e) => e == RegexError::ProgramTooLarge && *final(program) == *old(program),
        },
{
    if program.strings.len() > 0xffff_ffffusize {
        return Err(RegexError::ProgramTooLarge);
    }
    let ghost p0 = *program;
    let id = program.intern_string(s);
    assert forall|i: int| 0 <= i < program.graph.view().len() implies program.node_ok(#[trigger] program.graph.view()[i]) by {
        assert(p0.node_ok(p0.graph.view()[i]));
    }
    assert forall|k: int| 0 <= k < p0.strings.view().len() implies program.strings.view()[k]@ == (#[trigger] p0.strings.view()[k])@ by {
        if id.idx() == p0.strings.view().len() {
            assert(program.strings.view().drop_last()[k] == p0.strings.view()[k]);
        }
    }
    Ok(id)
}

/// ASCII lowercase of a character.
pub open spec fn char_lower(c: char) -> char {
    if 'A' <= c && c <= 'Z' {
        ((c as u32) + 32) as char
    } else {
        c
    }
}

/// `s` with its ASCII letters in lowercase.
fn ascii_lowercase(s: &str) -> (r: String)
    ensures
        r@ == s@.map_values(|c: char| char_lower(c)),
{
    let chars = chars_of(s);
    let mut out = String::new();
    let mut i: usize = 0;
    while i < chars.len()
        invariant
            chars@ == s@,
            i <= chars@.len(),
            out@ == s@.take(i as int).map_values(|c: char| char_lower(c)),
        decreases chars@.len() - i,
    {
        let c = chars[i];
        let l = if 'A' <= c && c <= 'Z' {
            ((c as u8) + 32) as char
        } else {
            c
        };
        push_char(&mut out, l);
        assert(s@.take(i + 1).map_values(|c: char| char_lower(c)) =~= s@.take(i as int).map_values(|c: char| char_lower(c)).push(char_lower(c)));
        i += 1;
    }
    assert(s@.take(i as int) =~= s@);
    out
}

/// Emits a check for the literal `s`: on a match to `on_match`, else to `on_fail`.
/// An empty literal always matches.
fn emit_literal(program: &mut Program, s: &str, case_insensitive: bool, on_match: NodeId, on_fail: NodeId) -> (r: Result<NodeId, RegexError>)
    requires
        old(program).wf(),
        id_ok(on_match, old(program).graph.view().len()),
        id_ok(on_fail, old(program).graph.view().len()),
    ensures
        r matches Err(e) ==> e != RegexError::ProgramTooLarge || out_of_ids(*final(program)),
        final(program).wf(),
        grows(*old(program), *final(program)),
        r matches Ok(n) ==> id_ok(n, final(program).graph.view().len()),
        r matches Err(e) ==> e == RegexError::ProgramTooLarge,
        r matches Ok(n) ==> wired(final(program).graph.view(), old(program).graph.view().len() as int, n, on_match, on_fail),
        r matches Ok(n) ==> literal_emitted(*old(program), *final(program), n, s@, case_insensitive, on_match, on_fail),
        s@.len() == 0 ==> r == Ok::<NodeId, RegexError>(on_match) && *final(program) == *old(program),
        s@.len() > 0 && r is Ok ==> {
            let text = if case_insensitive { s@.map_values(|c: char| char_lower(c)) } else { s@ };
            &&& final(program).graph.view().len() == old(program).graph.view().len() + 1
            &&& r->Ok_0.idx() == old(program).graph.view().len()
            &&& final(program).graph.view().last().next == Some(on_fail)
            &&& final(program).graph.view().last().instr matches Op::If { condition, then }
            &&& then == on_match
            &&& if case_insensitive {
                condition matches Condition::PrefixInsensitive(id) && final(program).strings.view()[id.idx() as int]@ == text
            } else {
                condition matches Condition::Prefix(id) && final(program).strings.view()[id.idx() as int]@ == text
            }
        },
{
    if s.is_empty() {
        return Ok(on_match);
    }
    let lowered = ascii_lowercase(s);
    let text: &str = if case_insensitive { lowered.as_str() } else { s };
    let ghost p0 = *program;
    let id = match intern_string(program, text) {
        Ok(id) => id,
        Err(e) => {
            return Err(e);
        },
    };
    let condition = if case_insensitive {
        Condition::PrefixInsensitive(id)
    } else {
        Condition::Prefix(id)
    };
    let ghost p1 = *program;
    let r = new_node(program, Op::If { condition, then: on_match }, Some(on_fail));
    proof {
        lemma_grows_trans(p0, p1, *program);
    }
    r
}

/// A string holding the one ASCII character `b`.
fn ascii_char_string(b: u8) -> (r: String)
    requires
        b < 0x80,
    ensures
        r@ == seq![b as char],
{
    let mut s = String::new();
    push_char(&mut s, b as char);
    s
}

/// The bytes that a one-character prefix check matches: the character's byte, and for a
/// case-insensitive check its ASCII uppercase as well.
pub open spec fn prefix_bytes(strings: Seq<String>, c: Condition) -> Set<u8> {
    match c {
        Condition::Prefix(id) => set![strings[id.idx() as int]@[0] as u8],
        Condition::PrefixInsensitive(id) => {
            let b = strings[id.idx() as int]@[0] as u8;
            set![b, ascii_upper(b)]
        },
        _ => Set::empty(),
    }
}

/// Whether `c` is a prefix check for a string of one character of `strings`.
pub open spec fn one_char_prefix(strings: Seq<String>, c: Condition) -> bool {
    match c {
        Condition::Prefix(id) => id.idx() < strings.len() && strings[id.idx() as int]@.len() == 1,
        Condition::PrefixInsensitive(id) => id.idx() < strings.len() && strings[id.idx() as int]@.len() == 1,
        _ => false,
    }
}

/// Whether node `x` of `p` checks for one byte of `bytes` with a one-character prefix
/// check, going to `on_match` on a match and to `next` otherwise.
pub open spec fn byte_check(p: Program, x: NodeId, bytes: Set<u8>, on_match: NodeId, next: NodeId) -> bool {
    let g = p.graph.view();
    &&& x.idx() < g.len()
    &&& g[x.idx() as int].next == Some(next)
    &&& g[x.idx() as int].instr matches Op::If { condition, then }
    &&& then == on_match
    &&& one_char_prefix(p.strings.view(), condition)
    &&& prefix_bytes(p.strings.view(), condition) == bytes
}

/// The bytes that the check for `ch` matches, in both cases where `ci` is set.
pub open spec fn literal_set(ch: u8, ci: bool) -> Set<u8> {
    if ci {
        set![ch, ascii_upper(ch)]
    } else {
        set![ch]
    }
}

/// The bytes that the first `n` (at most two) of `chars` match.
pub open spec fn literal_sets(chars: Seq<(u8, bool)>, n: int) -> Set<u8> {
    if n <= 0 {
        Set::empty()
    } else if n == 1 {
        literal_set(chars[0].0, chars[0].1)
    } else {
        literal_set(chars[0].0, chars[0].1).union(literal_set(chars[1].0, chars[1].1))
    }
}

/// Whether `p1` is `p0` with a check for `min` to `max` bytes of `cs` added, entered at
/// `n`, which goes to `on_match` on a match and else to `on_fail` (to `on_match` when
/// `min` is zero): one counted charset check, or for a single byte (`max` of one) one
/// or two one-byte prefix checks whose bytes make up `cs`.
pub open spec fn charset_emitted(
    p0: Program,
    p1: Program,
    n: NodeId,
    cs: Set<u8>,
    min: u32,
    max: u32,
    on_match: NodeId,
    on_fail: NodeId,
) -> bool {
    let dflt = if min == 0 { on_match } else { on_fail };
    n.idx() >= p0.graph.view().len() && (charset_check_added(p0, p1, n, cs, min, max, on_match, dflt) || (max == 1
        && byte_check(p1, n, cs, on_match, dflt)) || (max == 1 && byte_checks(p0, p1, n, cs, on_match, dflt)))
}

/// Whether `p1` is `p0` with one node added, `n`, a counted check for `min` to `max`
/// bytes of `cs` that goes to `on_match` on a match and else to `next`.
pub open spec fn charset_check_added(
    p0: Program,
    p1: Program,
    n: NodeId,
    cs: Set<u8>,
    min: u32,
    max: u32,
    on_match: NodeId,
    next: NodeId,
) -> bool {
    let g = p1.graph.view();
    &&& g == p0.graph.view().push(g[n.idx() as int])
    &&& g[n.idx() as int].next == Some(next)
    &&& g[n.idx() as int].instr matches Op::If { condition: Condition::Charset { cs: id, min: lo, max: hi }, then }
    &&& lo == min && hi == max && then == on_match
    &&& id.idx() < p1.charsets.view().len()
    &&& p1.charsets.view()[id.idx() as int]@ == cs
}

/// Whether `n` and a node added after `p0` are two byte checks, one after the other,
/// whose bytes make up `cs`.
pub open spec fn byte_checks(p0: Program, p1: Program, n: NodeId, cs: Set<u8>, on_match: NodeId, next: NodeId) -> bool {
    exists|m: NodeId, b1: Set<u8>, b2: Set<u8>|
        {
            &&& m.idx() >= p0.graph.view().len()
            &&& #[trigger] byte_check(p1, n, b1, on_match, m)
            &&& #[trigger] byte_check(p1, m, b2, on_match, next)
            &&& b1.union(b2) == cs
        }
}

/// A byte check stays one as the program grows.
proof fn lemma_byte_check_grows(p1: Program, p2: Program, x: NodeId, bytes: Set<u8>, on_match: NodeId, next: NodeId)
    requires
        grows(p1, p2),
        byte_check(p1, x, bytes, on_match, next),
    ensures
        byte_check(p2, x, bytes, on_match, next),
{
    assert(p2.graph.view()[x.idx() as int] == p1.graph.view()[x.idx() as int]);
    if let Op::If { condition, .. } = p1.graph.view()[x.idx() as int].instr {
        match condition {
            Condition::Prefix(id) => {
                assert(p2.strings.view()[id.idx() as int]@ == p1.strings.view()[id.idx() as int]@);
            },
            Condition::PrefixInsensitive(id) => {
                assert(p2.strings.view()[id.idx() as int]@ == p1.strings.view()[id.idx() as int]@);
            },
            _ => {},
        }
    }
}

/// Emits a check for `min` to `max` bytes of `cs`: on a match to `on_match`, else to
/// `on_fail` (or to `on_match` when `min` is zero, as such a check cannot fail).
/// A single byte, or a letter in both cases, of at most two such, becomes one or two
/// prefix checks instead, which encode shorter.
fn emit_charset(program: &mut Program, cs: &Charset, min: u32, max: u32, on_match: NodeId, on_fail: NodeId) -> (r: Result<NodeId, RegexError>)
    requires
        old(program).wf(),
        id_ok(on_match, old(program).graph.view().len()),
        id_ok(on_fail, old(program).graph.view().len()),
    ensures
        r matches Err(e) ==> e != RegexError::ProgramTooLarge || out_of_ids(*final(program)),
        final(program).wf(),
        grows(*old(program), *final(program)),
        r matches Ok(n) ==> id_ok(n, final(program).graph.view().len()),
        r matches Err(e) ==> e == RegexError::ProgramTooLarge,
        r matches Ok(n) ==> wired(final(program).graph.view(), old(program).graph.view().len() as int, n, on_match, on_fail),
        r matches Ok(n) ==> charset_emitted(*old(program), *final(program), n, cs@, min, max, on_match, on_fail),
{
    let ghost p0 = *program;
    let ghost from = p0.graph.view().len() as int;
    let mut next = if min == 0 {
        on_match
    } else {
        on_fail
    };
    if max == 1 {
        let mut rest = *cs;
        let mut chars = [(0u8, false); 2];
        let mut count: usize = 0;
        while count < 2
            invariant
                count <= 2,
                chars@.len() == 2,
                cs@ == rest@.union(literal_sets(chars@, count as int)),
                forall|i: int| 0 <= i < 2 ==> (#[trigger] chars@[i]).1 ==> 97 <= chars@[i].0 <= 122,
            decreases 2 - count,
        {
            let ghost r0 = rest@;
            let ghost c0 = chars@;
            let mut idx = match rest.get_and_reset_lowest() {
                Some(i) => i,
                None => {
                    break;
                },
            };
            let case_insensitive = 65 <= idx && idx <= 90 && rest.get(to_ascii_lowercase(idx));
            let ghost upper = idx;
            if case_insensitive {
                idx = to_ascii_lowercase(idx);
                rest.set(idx, false);
            }
            chars[count] = (idx, case_insensitive);
            proof {
                if case_insensitive {
                    assert(ascii_upper(idx) == upper);
                    assert(literal_set(idx, true) =~= set![idx, upper]);
                    assert(r0 =~= rest@.union(set![idx, upper]));
                } else {
                    assert(r0 =~= rest@.union(set![idx]));
                }
                assert(literal_sets(chars@, count as int) == literal_sets(c0, count as int));
                assert(literal_sets(chars@, count + 1) =~= literal_sets(c0, count as int).union(
                    literal_set(idx, case_insensitive),
                ));
            }
            count += 1;
        }
        // A byte above 0x7F cannot stand alone in a string; such sets stay charsets.
        let ascii = (count < 1 || chars[0].0 < 0x80) && (count < 2 || chars[1].0 < 0x80);
        if count > 0 && rest.covers_none() && ascii {
            let ghost dflt = next;
            let ghost mut second = next;
            proof {
                assert(cs@ =~= literal_sets(chars@, count as int));
            }
            let mut k = count;
            while k > 0
                invariant
                    k <= count <= 2,
                    0 < count,
                    chars@.len() == 2,
                    k >= 1 ==> chars@[0].0 < 0x80,
                    k >= 2 ==> chars@[1].0 < 0x80,
                    forall|i: int| 0 <= i < 2 ==> (#[trigger] chars@[i]).1 ==> 97 <= chars@[i].0 <= 122,
                    program.wf(),
                    p0 == *old(program),
                    grows(p0, *program),
                    id_ok(on_match, program.graph.view().len()),
                    id_ok(next, program.graph.view().len()),
                    from == p0.graph.view().len(),
                    closed_since(program.graph.view(), from, on_match, on_fail),
                    inside_or_exit(next, from, on_match, on_fail),
                    dflt == (if min == 0 { on_match } else { on_fail }),
                    k == count ==> next == dflt,
                    count == 2 && k == 1 ==> next == second,
                    cs@ == literal_sets(chars@, count as int),
                    k < count ==> next.idx() >= from && byte_check(
                        *program,
                        next,
                        literal_set(chars@[k as int].0, chars@[k as int].1),
                        on_match,
                        if k + 1 < count { second } else { dflt },
                    ),
                    k + 1 < count ==> second.idx() >= from && byte_check(
                        *program,
                        second,
                        literal_set(chars@[1].0, chars@[1].1),
                        on_match,
                        dflt,
                    ),
                decreases k,
            {
                k -= 1;
                let (ch, insensitive) = chars[k];
                let text = ascii_char_string(ch);
                let ghost p1 = *program;
                let ghost prev = next;
                next = match emit_literal(program, text.as_str(), insensitive, on_match, next) {
                    Ok(n) => n,
                    Err(e) => {
                        proof {
                            lemma_grows_trans(p0, p1, *program);
                        }
                        return Err(e);
                    },
                };
                proof {
                    lemma_grows_trans(p0, p1, *program);
                    lemma_wired_compose(p1.graph.view(), program.graph.view(), from, on_match, on_fail, next, on_match, prev);
                    let g = program.graph.view();
                    let node = g[next.idx() as int];
                    assert(node == g.last());
                    assert(program.node_ok(node));
                    if let Op::If { condition, .. } = node.instr {
                        let strs = program.strings.view();
                        if insensitive {
                            if let Condition::PrefixInsensitive(id) = condition {
                                assert(strs[id.idx() as int]@ =~= seq![char_lower(ch as char)]);
                                assert(char_lower(ch as char) == ch as char);
                                assert(prefix_bytes(strs, condition) =~= literal_set(ch, true));
                            }
                        } else {
                            if let Condition::Prefix(id) = condition {
                                assert(strs[id.idx() as int]@ =~= seq![ch as char]);
                                assert(prefix_bytes(strs, condition) =~= literal_set(ch, false));
                            }
                        }
                    }
                    assert(byte_check(*program, next, literal_set(ch, insensitive), on_match, prev));
                    if k + 1 < count {
                        lemma_byte_check_grows(p1, *program, second, literal_set(chars@[1].0, chars@[1].1), on_match, dflt);
                    }
                    if k == 1 {
                        second = next;
                    }
                }
            }
            proof {
                if count == 2 {
                    let b1 = literal_set(chars@[0].0, chars@[0].1);
                    let b2 = literal_set(chars@[1].0, chars@[1].1);
                    assert(b1.union(b2) == cs@);
                    assert(byte_check(*program, next, b1, on_match, second));
                    assert(byte_check(*program, second, b2, on_match, dflt));
                } else {
                    assert(byte_check(*program, next, cs@, on_match, dflt));
                }
                assert(charset_emitted(p0, *program, next, cs@, min, max, on_match, on_fail));
            }
            return Ok(next);
        }
    }
    let id = match intern_charset(program, cs) {
        Ok(id) => id,
        Err(e) => {
            return Err(e);
        },
    };
    let ghost p1 = *program;
    let r = new_node(program, Op::If { condition: Condition::Charset { cs: id, min, max }, then: on_match }, Some(next));
    proof {
        lemma_grows_trans(p0, p1, *program);
        lemma_wired_push(
            p1.graph.view(),
            from,
            on_match,
            on_fail,
            Node { next: Some(next), instr: Op::If { condition: Condition::Charset { cs: id, min, max }, then: on_match } },
        );
    }
    r
}

/// Whether `r` holds a repetition that cannot be compiled: an unbounded repetition of
/// anything but `.`, a class or a single-byte literal (that would need a loop).
/// Repetitions that are unrolled count only if they emit their inner pattern.
pub open spec fn emit_error(r: RegexSpec) -> bool
    decreases r, 0nat,
{
    match r {
        RegexSpec::Concat(ps) => any_emit_error(ps, ps.len()),
        RegexSpec::Alt(ps) => any_emit_error(ps, ps.len()),
        RegexSpec::Group { inner, .. } => emit_error(*inner),
        RegexSpec::Repeat { inner, min, max } => if (*inner is Dot && max == u32::MAX)
            || *inner is CharClass || (*inner matches RegexSpec::Literal(s, _) && utf8_len(s) == 1) {
            false
        } else if max == u32::MAX {
            true
        } else if min < max || min > 0 {
            emit_error(*inner)
        } else {
            false
        },
        _ => false,
    }
}

/// Whether one of the first `n` regexes of `ps` cannot be compiled.
pub open spec fn any_emit_error(ps: Seq<RegexSpec>, n: nat) -> bool
    decreases ps, n,
{
    if n == 0 || n > ps.len() {
        false
    } else {
        any_emit_error(ps, (n - 1) as nat) || emit_error(ps[n - 1])
    }
}

/// How many register pairs the compiled code of `r` records: one for each capturing
/// group, and for a repetition that is unrolled, one for each copy of its inner pattern
/// (the larger of its two bounds).
pub open spec fn group_count(r: RegexSpec) -> nat
    decreases r, 0nat,
{
    match r {
        RegexSpec::Concat(ps) => groups_in(ps, ps.len()),
        RegexSpec::Alt(ps) => groups_in(ps, ps.len()),
        RegexSpec::Group { inner, capturing } => if capturing {
            1 + group_count(*inner)
        } else {
            group_count(*inner)
        },
        RegexSpec::Repeat { inner, min, max } => (if min < max { max as nat } else { min as nat }) * group_count(*inner),
        _ => 0,
    }
}

/// How many register pairs the first `n` regexes of `ps` record together.
pub open spec fn groups_in(ps: Seq<RegexSpec>, n: nat) -> nat
    decreases ps, n,
{
    if n == 0 || n > ps.len() {
        0
    } else {
        groups_in(ps, (n - 1) as nat) + group_count(ps[n - 1])
    }
}

/// Whether `n` is the code for the literal `text` between `p0` and `p1`: nothing at all
/// (`n` is `on_match`) for empty text, else one new `If` node testing that the input
/// continues with `text` (lowercased where case is ignored) that goes to `on_match` when
/// it does and to `on_fail` when not.
pub open spec fn literal_emitted(p0: Program, p1: Program, n: NodeId, text: Seq<char>, ci: bool, on_match: NodeId, on_fail: NodeId) -> bool {
    if text.len() == 0 {
        n == on_match && p1 == p0
    } else {
        let t = if ci { text.map_values(|c: char| char_lower(c)) } else { text };
        &&& p1.graph.view().len() == p0.graph.view().len() + 1
        &&& n.idx() == p0.graph.view().len()
        &&& p1.graph.view().last().next == Some(on_fail)
        &&& p1.graph.view().last().instr matches Op::If { condition, then }
        &&& then == on_match
        &&& if ci {
            condition matches Condition::PrefixInsensitive(id) && p1.strings.view()[id.idx() as int]@ == t
        } else {
            condition matches Condition::Prefix(id) && p1.strings.view()[id.idx() as int]@ == t
        }
    }
}

/// Whether `n` is the code that a pattern of the simple forms compiles to between `p0`
/// and `p1`: nothing for an empty pattern, one prefix test for a literal, a test of one
/// byte for a character class, and one step of the offset for `.`; each going on to
/// `on_match` where the input matches and to `on_fail` where not.
pub open spec fn simple_emitted(x: RegexSpec, p0: Program, p1: Program, n: NodeId, on_match: NodeId, on_fail: NodeId) -> bool {
    match x {
        RegexSpec::Empty => n == on_match && p1 == p0,
        RegexSpec::Literal(text, ci) => literal_emitted(p0, p1, n, text, ci, on_match, on_fail),
        RegexSpec::CharClass(cs) => charset_emitted(p0, p1, n, cs, 1, 1, on_match, on_fail),
        RegexSpec::Dot => {
            &&& p1.graph.view().len() == p0.graph.view().len() + 1
            &&& n.idx() == p0.graph.view().len()
            &&& p1.graph.view().last() == Node {
                next: Some(on_match),
                instr: Op::AddImm { dst: RegId(Register::InputOffset.number() as u32), imm: 1 },
            }
        },
        _ => true,
    }
}

/// How an emission ended: `Ok`, or the failure that `regex` calls for, or running out of ids.
pub open spec fn emit_outcome_ok(regex: RegexSpec, r: Result<NodeId, RegexError>) -> bool {
    &&& r matches Err(e) ==> (e == RegexError::UnboundedRepetition && emit_error(regex))
        || e == RegexError::ProgramTooLarge
    &&& emit_error(regex) ==> r is Err
}

/// Emits IR for `inner` that restores the input offset before going on to `on_fail`,
/// so that a failed alternative leaves the offset where it was.
fn emit_for_backtracking(
    program: &mut Program,
    captures: &mut CaptureList,
    inner: &Regex,
    on_match: NodeId,
    on_fail: NodeId,
) -> (r: Result<NodeId, RegexError>)
    requires
        old(program).wf(),
        id_ok(on_match, old(program).graph.view().len()),
        id_ok(on_fail, old(program).graph.view().len()),
        captures_ok(*old(program), old(captures)@),
    ensures
        r matches Err(e) ==> e != RegexError::ProgramTooLarge || out_of_ids(*final(program)),
        final(program).wf(),
        grows(*old(program), *final(program)),
        captures_ok(*final(program), final(captures)@),
        old(captures)@.len() <= final(captures)@.len(),
        final(captures)@.take(old(captures)@.len() as int) == old(captures)@,
        r matches Ok(n) ==> id_ok(n, final(program).graph.view().len()),
        r matches Ok(n) ==> wired(final(program).graph.view(), old(program).graph.view().len() as int, n, on_match, on_fail),
        emit_outcome_ok(inner@, r),
        r is Ok ==> final(captures)@.len() == old(captures)@.len() + group_count(inner@),
        r is Ok ==> fresh_pairs(final(captures)@, old(captures)@.len() as int, old(program).register_count as nat),
    decreases inner, 2nat,
{
    let ghost p0 = *program;
    let ghost c0 = captures@;
    let off_reg = program.get_reg(Register::InputOffset);
    let saved = match new_vreg(program) {
        Ok(r) => r,
        Err(e) => {
            assert(captures@.take(c0.len() as int) =~= c0);
            return Err(e);
        },
    };
    let ghost p1 = *program;
    let restore = match new_node(program, Op::Mov { dst: off_reg, src: saved }, Some(on_fail)) {
        Ok(n) => n,
        Err(e) => {
            proof {
                lemma_grows_trans(p0, p1, *program);
            }
            assert(captures@.take(c0.len() as int) =~= c0);
            return Err(e);
        },
    };
    let ghost p2 = *program;
    let ghost from = p0.graph.view().len() as int;
    proof {
        lemma_grows_trans(p0, p1, p2);
        lemma_wired_push(p1.graph.view(), from, on_match, on_fail, Node { next: Some(on_fail), instr: Op::Mov { dst: off_reg, src: saved } });
    }
    let entry = match emit(program, captures, inner, on_match, restore) {
        Ok(n) => n,
        Err(e) => {
            proof {
                lemma_grows_trans(p0, p2, *program);
            }
            return Err(e);
        },
    };
    let ghost p3 = *program;
    proof {
        lemma_grows_trans(p0, p2, p3);
        lemma_wired_compose(p2.graph.view(), p3.graph.view(), from, on_match, on_fail, entry, on_match, restore);
    }
    let r = new_node(program, Op::Mov { dst: saved, src: off_reg }, Some(entry));
    proof {
        lemma_grows_trans(p0, p3, *program);
        lemma_wired_push(p3.graph.view(), from, on_match, on_fail, Node { next: Some(entry), instr: Op::Mov { dst: saved, src: off_reg } });
    }
    r
}

/// Emits IR for `min` to `max` repetitions of `inner`. Repetitions of `.`, of a class
/// or of a single byte use the interpreter's counted charset match; other bounded
/// repetitions are unrolled, `x{2,4}` into `x x x? x?`; other unbounded ones fail.
fn emit_repeat(
    program: &mut Program,
    captures: &mut CaptureList,
    inner: &Regex,
    min: u32,
    max: u32,
    on_match: NodeId,
    on_fail: NodeId,
) -> (r: Result<NodeId, RegexError>)
    requires
        old(program).wf(),
        id_ok(on_match, old(program).graph.view().len()),
        id_ok(on_fail, old(program).graph.view().len()),
        captures_ok(*old(program), old(captures)@),
    ensures
        r matches Err(e) ==> e != RegexError::ProgramTooLarge || out_of_ids(*final(program)),
        final(program).wf(),
        grows(*old(program), *final(program)),
        captures_ok(*final(program), final(captures)@),
        old(captures)@.len() <= final(captures)@.len(),
        final(captures)@.take(old(captures)@.len() as int) == old(captures)@,
        r matches Ok(n) ==> id_ok(n, final(program).graph.view().len()),
        r matches Ok(n) ==> wired(final(program).graph.view(), old(program).graph.view().len() as int, n, on_match, on_fail),
        emit_outcome_ok(RegexSpec::Repeat { inner: Box::new(inner@), min, max }, r),
        r is Ok ==> final(captures)@.len() == old(captures)@.len() + group_count(RegexSpec::Repeat { inner: Box::new(inner@), min, max }),
        r is Ok ==> fresh_pairs(final(captures)@, old(captures)@.len() as int, old(program).register_count as nat),
    decreases inner, 3nat,
{
    let ghost p0 = *program;
    let ghost c0 = captures@;
    let ghost from = p0.graph.view().len() as int;
    proof {
        assert(c0.take(c0.len() as int) =~= c0);
    }
    proof {
        let top: nat = if min < max { max as nat } else { min as nat };
        if group_count(inner@) == 0 {
            assert(top * group_count(inner@) == 0) by (nonlinear_arith)
                requires
                    group_count(inner@) == 0,
            ;
        }
    }
    match inner {
        Regex::Dot => {
            if max == u32::MAX {
                if min == 0 {
                    // `.*` skips to the end of the line.
                    let off_reg = program.get_reg(Register::InputOffset);
                    let r = new_node(program, Op::MovImm { dst: off_reg, imm: u32::MAX }, Some(on_match));
                    proof {
                        lemma_wired_push(p0.graph.view(), from, on_match, on_fail, Node { next: Some(on_match), instr: Op::MovImm { dst: off_reg, imm: u32::MAX } });
                    }
                    return r;
                }
                return emit_charset(program, &Charset::yes(), min, max, on_match, on_fail);
            }
        },
        Regex::CharClass(cs) => {
            return emit_charset(program, cs, min, max, on_match, on_fail);
        },
        Regex::Literal(s, case_insensitive) => {
            let bytes = s.as_str().as_bytes();
            proof {
                lemma_utf8_len_encode(s@);
            }
            if bytes.len() == 1 {
                if min == 0 && max == 1 {
                    return emit(program, captures, inner, on_match, on_match);
                }
                let b = bytes[0];
                let mut cs = Charset::no();
                if *case_insensitive {
                    cs.set(to_ascii_lowercase(b), true);
                    cs.set(to_ascii_uppercase(b), true);
                } else {
                    cs.set(b, true);
                }
                return emit_charset(program, &cs, min, max, on_match, on_fail);
            }
        },
        _ => {},
    }
    // Anything else would need a loop.
    if max == u32::MAX {
        return Err(RegexError::UnboundedRepetition);
    }
    let mut current = on_match;
    // Optional repetitions: both branches go on to `current`.
    let mut k = min;
    while k < max && min < max
        invariant
            program.wf(),
            p0 == *old(program),
            c0 == old(captures)@,
            grows(p0, *program),
            captures_ok(*program, captures@),
            c0.len() <= captures@.len(),
            captures@.take(c0.len() as int) == c0,
            fresh_pairs(captures@, c0.len() as int, p0.register_count as nat),
            id_ok(current, program.graph.view().len()),
            id_ok(on_fail, program.graph.view().len()),
            from == p0.graph.view().len(),
            closed_since(program.graph.view(), from, on_match, on_fail),
            inside_or_exit(current, from, on_match, on_fail),
            min <= k,
            min < max ==> k <= max,
            emit_error(inner@) ==> k == min,
            min >= max ==> k == min,
            captures@.len() == c0.len() + (k - min) * group_count(inner@),
        decreases max - k,
    {
        let ghost p1 = *program;
        let ghost c1 = captures@;
        let ghost prev = current;
        current = match emit_for_backtracking(program, captures, inner, current, current) {
            Ok(n) => n,
            Err(e) => {
                proof {
                    lemma_grows_trans(p0, p1, *program);
                    assert(captures@.take(c0.len() as int) =~= captures@.take(c1.len() as int).take(c0.len() as int));
                }
                return Err(e);
            },
        };
        proof {
            lemma_grows_trans(p0, p1, *program);
            assert(captures@.take(c0.len() as int) =~= captures@.take(c1.len() as int).take(c0.len() as int));
            lemma_fresh_pairs_extend(c1, captures@, c0.len() as int, p0.register_count as nat, p1.register_count as nat);
            lemma_wired_compose(p1.graph.view(), program.graph.view(), from, on_match, on_fail, current, prev, prev);
            let gc = group_count(inner@);
            assert((k + 1 - min) * gc == (k - min) * gc + gc) by (nonlinear_arith);
        }
        k += 1;
    }
    let ghost optional: int = if min < max { (max - min) * group_count(inner@) } else { 0 };
    proof {
        assert(captures@.len() == c0.len() + optional);
    }
    // Required repetitions: a failure goes to `on_fail`.
    let mut k: u32 = 0;
    while k < min
        invariant
            program.wf(),
            p0 == *old(program),
            c0 == old(captures)@,
            grows(p0, *program),
            captures_ok(*program, captures@),
            c0.len() <= captures@.len(),
            captures@.take(c0.len() as int) == c0,
            fresh_pairs(captures@, c0.len() as int, p0.register_count as nat),
            id_ok(current, program.graph.view().len()),
            id_ok(on_fail, program.graph.view().len()),
            from == p0.graph.view().len(),
            closed_since(program.graph.view(), from, on_match, on_fail),
            inside_or_exit(current, from, on_match, on_fail),
            k <= min,
            emit_error(inner@) ==> k == 0 && min >= max,
            optional == (if min < max { (max - min) * group_count(inner@) } else { 0 }),
            captures@.len() == c0.len() + optional + k * group_count(inner@),
        decreases min - k,
    {
        let ghost p1 = *program;
        let ghost c1 = captures@;
        let ghost prev = current;
        current = match emit(program, captures, inner, current, on_fail) {
            Ok(n) => n,
            Err(e) => {
                proof {
                    lemma_grows_trans(p0, p1, *program);
                    assert(captures@.take(c0.len() as int) =~= captures@.take(c1.len() as int).take(c0.len() as int));
                }
                return Err(e);
            },
        };
        proof {
            lemma_grows_trans(p0, p1, *program);
            assert(captures@.take(c0.len() as int) =~= captures@.take(c1.len() as int).take(c0.len() as int));
            lemma_fresh_pairs_extend(c1, captures@, c0.len() as int, p0.register_count as nat, p1.register_count as nat);
            lemma_wired_compose(p1.graph.view(), program.graph.view(), from, on_match, on_fail, current, prev, on_fail);
            let gc = group_count(inner@);
            assert((k + 1) * gc == k * gc + gc) by (nonlinear_arith);
        }
        k += 1;
    }
    proof {
        let gc = group_count(inner@);
        let top: int = if min < max { max as int } else { min as int };
        assert(optional + min * gc == top * gc) by (nonlinear_arith)
            requires
                optional == (if min < max { (max - min) * gc } else { 0 }),
                top == (if min < max { max as int } else { min as int }),
        ;
    }
    Ok(current)
}

/// Core emission function. Returns the entry node for matching `regex`: the IR built
/// leads to `on_match` when the pattern matches and to `on_fail` when it does not.
/// For `Op::If` nodes, `then` is the match branch and `next` the fail branch.
fn emit(
    program: &mut Program,
    captures: &mut CaptureList,
    regex: &Regex,
    on_match: NodeId,
    on_fail: NodeId,
) -> (r: Result<NodeId, RegexError>)
    requires
        old(program).wf(),
        id_ok(on_match, old(program).graph.view().len()),
        id_ok(on_fail, old(program).graph.view().len()),
        captures_ok(*old(program), old(captures)@),
    ensures
        r matches Err(e) ==> e != RegexError::ProgramTooLarge || out_of_ids(*final(program)),
        final(program).wf(),
        grows(*old(program), *final(program)),
        captures_ok(*final(program), final(captures)@),
        old(captures)@.len() <= final(captures)@.len(),
        final(captures)@.take(old(captures)@.len() as int) == old(captures)@,
        r matches Ok(n) ==> id_ok(n, final(program).graph.view().len()),
        r matches Ok(n) ==> wired(final(program).graph.view(), old(program).graph.view().len() as int, n, on_match, on_fail),
        emit_outcome_ok(regex@, r),
        r matches Ok(n) ==> simple_emitted(regex@, *old(program), *final(program), n, on_match, on_fail),
        r is Ok ==> final(captures)@.len() == old(captures)@.len() + group_count(regex@),
        r is Ok ==> fresh_pairs(final(captures)@, old(captures)@.len() as int, old(program).register_count as nat),
    decreases regex, 1nat,
{
    let ghost p0 = *program;
    let ghost c0 = captures@;
    let ghost from = p0.graph.view().len() as int;
    proof {
        assert(c0.take(c0.len() as int) =~= c0);
    }
    match regex {
        Regex::Empty => Ok(on_match),
        Regex::Literal(s, case_insensitive) => emit_literal(program, s.as_str(), *case_insensitive, on_match, on_fail),
        Regex::CharClass(cs) => emit_charset(program, cs, 1, 1, on_match, on_fail),
        Regex::Dot => {
            let dst = program.get_reg(Register::InputOffset);
            let r = new_node(program, Op::AddImm { dst, imm: 1 }, Some(on_match));
            proof {
                lemma_wired_push(p0.graph.view(), from, on_match, on_fail, Node { next: Some(on_match), instr: Op::AddImm { dst, imm: 1 } });
            }
            r
        },
        Regex::EndOfLine => {
            let r = new_node(program, Op::If { condition: Condition::EndOfLine, then: on_match }, Some(on_fail));
            proof {
                lemma_wired_push(
                    p0.graph.view(),
                    from,
                    on_match,
                    on_fail,
                    Node { next: Some(on_fail), instr: Op::If { condition: Condition::EndOfLine, then: on_match } },
                );
            }
            r
        },
        Regex::WordEnd => {
            // `\>` succeeds when no word character follows: check for one with the
            // branches swapped.
            emit_charset(program, &word_charset(), 1, 1, on_fail, on_match)
        },
        Regex::Concat(parts) => {
            let mut current = on_match;
            let mut i = parts.len();
            proof {
                lemma_views_prefix(parts@, parts@, parts@.len());
            }
            // Continuation-passing style: the last part is emitted first.
            while i > 0
                invariant
                    program.wf(),
                    p0 == *old(program),
                    c0 == old(captures)@,
                    grows(p0, *program),
                    captures_ok(*program, captures@),
                    c0.len() <= captures@.len(),
                    captures@.take(c0.len() as int) == c0,
                    fresh_pairs(captures@, c0.len() as int, p0.register_count as nat),
                    id_ok(current, program.graph.view().len()),
                    id_ok(on_fail, program.graph.view().len()),
                    from == p0.graph.view().len(),
                    closed_since(program.graph.view(), from, on_match, on_fail),
                    inside_or_exit(current, from, on_match, on_fail),
                    i <= parts@.len(),
                    regex@ == RegexSpec::Concat(views(parts@, parts@.len())),
                    *regex is Concat,
                    (*regex)->Concat_0 == *parts,
                    views(parts@, parts@.len()).len() == parts@.len(),
                    forall|j: int| i <= j < parts@.len() ==> !emit_error(#[trigger] views(parts@, parts@.len())[j]),
                    captures@.len() + groups_in(views(parts@, parts@.len()), i as nat) == c0.len() + groups_in(views(parts@, parts@.len()), parts@.len()),
                decreases i,
            {
                i -= 1;
                let ghost p1 = *program;
                let ghost c1 = captures@;
                proof {
                    lemma_views_index(parts@, parts@.len(), i as int);
                    assert(decreases_to!(*regex => (*regex)->Concat_0));
                    assert((*regex)->Concat_0 == *parts);
                    assert(decreases_to!(parts => parts@));
                    assert(decreases_to!(parts@ => parts@[i as int]));
                    assert(decreases_to!(*regex => parts@[i as int]));
                }
                let ghost prev = current;
                current = match emit(program, captures, &parts[i], current, on_fail) {
                    Ok(n) => n,
                    Err(e) => {
                        proof {
                            lemma_grows_trans(p0, p1, *program);
                            assert(captures@.take(c0.len() as int) =~= captures@.take(c1.len() as int).take(c0.len() as int));
                            if e == RegexError::UnboundedRepetition {
                                lemma_any_emit_error(views(parts@, parts@.len()), parts@.len(), i as int);
                            }
                        }
                        return Err(e);
                    },
                };
                proof {
                    lemma_grows_trans(p0, p1, *program);
                    assert(captures@.take(c0.len() as int) =~= captures@.take(c1.len() as int).take(c0.len() as int));
                    lemma_fresh_pairs_extend(c1, captures@, c0.len() as int, p0.register_count as nat, p1.register_count as nat);
                    lemma_wired_compose(p1.graph.view(), program.graph.view(), from, on_match, on_fail, current, prev, on_fail);
                    assert(groups_in(views(parts@, parts@.len()), (i + 1) as nat) == groups_in(views(parts@, parts@.len()), i as nat) + group_count(views(parts@, parts@.len())[i as int]));
                }
            }
            proof {
                lemma_no_emit_error(views(parts@, parts@.len()), parts@.len());
            }
            Ok(current)
        },
        Regex::Alt(alts) => {
            let mut current_fail = on_fail;
            let mut i = alts.len();
            proof {
                lemma_views_prefix(alts@, alts@, alts@.len());
            }
            while i > 0
                invariant
                    program.wf(),
                    p0 == *old(program),
                    c0 == old(captures)@,
                    grows(p0, *program),
                    captures_ok(*program, captures@),
                    c0.len() <= captures@.len(),
                    captures@.take(c0.len() as int) == c0,
                    fresh_pairs(captures@, c0.len() as int, p0.register_count as nat),
                    id_ok(on_match, program.graph.view().len()),
                    id_ok(current_fail, program.graph.view().len()),
                    from == p0.graph.view().len(),
                    closed_since(program.graph.view(), from, on_match, on_fail),
                    inside_or_exit(current_fail, from, on_match, on_fail),
                    i <= alts@.len(),
                    regex@ == RegexSpec::Alt(views(alts@, alts@.len())),
                    *regex is Alt,
                    (*regex)->Alt_0 == *alts,
                    views(alts@, alts@.len()).len() == alts@.len(),
                    forall|j: int| i <= j < alts@.len() ==> !emit_error(#[trigger] views(alts@, alts@.len())[j]),
                    captures@.len() + groups_in(views(alts@, alts@.len()), i as nat) == c0.len() + groups_in(views(alts@, alts@.len()), alts@.len()),
                decreases i,
            {
                i -= 1;
                let ghost p1 = *program;
                let ghost c1 = captures@;
                proof {
                    lemma_views_index(alts@, alts@.len(), i as int);
                    assert(decreases_to!(*regex => (*regex)->Alt_0));
                    assert((*regex)->Alt_0 == *alts);
                    assert(decreases_to!(alts => alts@));
                    assert(decreases_to!(alts@ => alts@[i as int]));
                    assert(decreases_to!(*regex => alts@[i as int]));
                }
                let ghost prev = current_fail;
                current_fail = match emit_for_backtracking(program, captures, &alts[i], on_match, current_fail) {
                    Ok(n) => n,
                    Err(e) => {
                        proof {
                            lemma_grows_trans(p0, p1, *program);
                            assert(captures@.take(c0.len() as int) =~= captures@.take(c1.len() as int).take(c0.len() as int));
                            if e == RegexError::UnboundedRepetition {
                                lemma_any_emit_error(views(alts@, alts@.len()), alts@.len(), i as int);
                            }
                        }
                        return Err(e);
                    },
                };
                proof {
                    lemma_grows_trans(p0, p1, *program);
                    assert(captures@.take(c0.len() as int) =~= captures@.take(c1.len() as int).take(c0.len() as int));
                    lemma_fresh_pairs_extend(c1, captures@, c0.len() as int, p0.register_count as nat, p1.register_count as nat);
                    lemma_wired_compose(p1.graph.view(), program.graph.view(), from, on_match, on_fail, current_fail, on_match, prev);
                    assert(groups_in(views(alts@, alts@.len()), (i + 1) as nat) == groups_in(views(alts@, alts@.len()), i as nat) + group_count(views(alts@, alts@.len())[i as int]));
                }
            }
            proof {
                lemma_no_emit_error(views(alts@, alts@.len()), alts@.len());
            }
            Ok(current_fail)
        },
        Regex::Repeat { inner, min, max } => emit_repeat(program, captures, inner, *min, *max, on_match, on_fail),
        Regex::Group { inner, capturing } => {
            if *capturing {
                // Save where the group starts and ends.
                let start_reg = match new_vreg(program) {
                    Ok(r) => r,
                    Err(e) => {
                        return Err(e);
                    },
                };
                let ghost p1 = *program;
                let end_reg = match new_vreg(program) {
                    Ok(r) => r,
                    Err(e) => {
                        proof {
                            lemma_grows_trans(p0, p1, *program);
                        }
                        return Err(e);
                    },
                };
                let ghost p2 = *program;
                proof {
                    lemma_grows_trans(p0, p1, p2);
                }
                let off_reg = program.get_reg(Register::InputOffset);
                let save_end = match new_node(program, Op::Mov { dst: end_reg, src: off_reg }, Some(on_match)) {
                    Ok(n) => n,
                    Err(e) => {
                        proof {
                            lemma_grows_trans(p0, p2, *program);
                        }
                        return Err(e);
                    },
                };
                let ghost p3 = *program;
                proof {
                    lemma_grows_trans(p0, p2, p3);
                    lemma_wired_push(p2.graph.view(), from, on_match, on_fail, Node { next: Some(on_match), instr: Op::Mov { dst: end_reg, src: off_reg } });
                }
                let inner_node = match emit(program, captures, inner, save_end, on_fail) {
                    Ok(n) => n,
                    Err(e) => {
                        proof {
                            lemma_grows_trans(p0, p3, *program);
                        }
                        return Err(e);
                    },
                };
                let ghost p4 = *program;
                let ghost c4 = captures@;
                proof {
                    lemma_grows_trans(p0, p3, p4);
                    lemma_wired_compose(p3.graph.view(), p4.graph.view(), from, on_match, on_fail, inner_node, save_end, on_fail);
                }
                // Pushed after the inner groups: the list is reversed at the end.
                captures.push((start_reg, end_reg));
                proof {
                    assert(captures@.take(c4.len() as int) =~= c4);
                    assert(captures@.take(c0.len() as int) =~= c4.take(c0.len() as int));
                }
                let r = new_node(program, Op::Mov { dst: start_reg, src: off_reg }, Some(inner_node));
                proof {
                    lemma_grows_trans(p0, p4, *program);
                    lemma_wired_push(p4.graph.view(), from, on_match, on_fail, Node { next: Some(inner_node), instr: Op::Mov { dst: start_reg, src: off_reg } });
                }
                r
            } else {
                emit(program, captures, inner, on_match, on_fail)
            }
        },
    }
}

proof fn lemma_views_index(s: Seq<Regex>, n: nat, i: int)
    requires
        n <= s.len(),
        0 <= i < n,
    ensures
        views(s, n)[i] == s[i].view(),
        views(s, n).len() == n,
    decreases n,
{
    lemma_views_prefix(s, s, n);
    if i < n - 1 {
        lemma_views_index(s, (n - 1) as nat, i);
    }
}

proof fn lemma_any_emit_error(ps: Seq<RegexSpec>, n: nat, i: int)
    requires
        n <= ps.len(),
        0 <= i < n,
        emit_error(ps[i]),
    ensures
        any_emit_error(ps, n),
    decreases n,
{
    if i < n - 1 {
        lemma_any_emit_error(ps, (n - 1) as nat, i);
    }
}

proof fn lemma_no_emit_error(ps: Seq<RegexSpec>, n: nat)
    requires
        n <= ps.len(),
        forall|j: int| 0 <= j < n ==> !emit_error(#[trigger] ps[j]),
    ensures
        !any_emit_error(ps, n),
    decreases n,
{
    if n > 0 {
        lemma_no_emit_error(ps, (n - 1) as nat);
    }
}

/// The elements of `v` in reverse order.
fn reverse_captures(v: &CaptureList) -> (r: CaptureList)
    ensures
        r@ == v@.reverse(),
{
    let mut out: CaptureList = Vec::new();
    let mut i = v.len();
    while i > 0
        invariant
            i <= v@.len(),
            out@ == v@.subrange(i as int, v@.len() as int).reverse(),
        decreases i,
    {
        i -= 1;
        out.push(v[i]);
        assert(v@.subrange(i as int, v@.len() as int).reverse() =~= v@.subrange(i + 1, v@.len() as int).reverse().push(v@[i as int]));
    }
    assert(v@.subrange(0, v@.len() as int) =~= v@);
    out
}

/// Parse a regex pattern and generate IR that matches it.
///
/// The generated IR is wired to `dst_good` on successful match and `dst_bad` on failure:
/// it leaves the nodes it adds only for those two ([`wired`]).
/// The returned tuple contains the start of the IR graph and a list of capture group ranges,
/// in the order in which the groups open in the pattern: one pair of registers for each
/// capturing group, and for each copy of one that an unrolled repetition holds
/// ([`group_count`]), all of them registers that the call made ([`fresh_pairs`]).
///
/// A pattern that does not parse is rejected with the error that [`pattern_spec`] gives,
/// and the program is left as it was. A pattern that parses is compiled unless it holds a
/// repetition that cannot be compiled ([`emit_error`]); the program can also run out of ids.
#[verifier::spinoff_prover]
#[verifier::rlimit(40)]
pub fn parse(program: &mut Program, pattern: &str, dst_good: NodeId, dst_bad: NodeId) -> (r: Result<(NodeId, CaptureList), RegexError>)
    requires
        old(program).wf(),
        id_ok(dst_good, old(program).graph.view().len()),
        id_ok(dst_bad, old(program).graph.view().len()),
    ensures
        pattern_spec(pattern@) is Ok ==> (r matches Err(e) ==> e != RegexError::ProgramTooLarge || out_of_ids(*final(program))),
        final(program).wf(),
        grows(*old(program), *final(program)),
        match pattern_spec(pattern@) {
            Err(e) => r == Err::<(NodeId, CaptureList), RegexError>(e) && *final(program) == *old(program),
            Ok(x) => {
                &&& r matches Ok((entry, caps)) ==> {
                    &&& !emit_error(x)
                    &&& id_ok(entry, final(program).graph.view().len())
                    &&& captures_ok(*final(program), caps@)
                    &&& caps@.len() == group_count(x)
                    &&& fresh_pairs(caps@, 0, old(program).register_count as nat)
                    &&& simple_emitted(x, *old(program), *final(program), entry, dst_good, dst_bad)
                    &&& wired(final(program).graph.view(), old(program).graph.view().len() as int, entry, dst_good, dst_bad)
                }
                &&& r matches Err(e) ==> (e == RegexError::UnboundedRepetition && emit_error(x))
                    || e == RegexError::ProgramTooLarge
                &&& emit_error(x) ==> r is Err
            },
        },
{
    let parser = RegexParser::new(pattern);
    let regex = match parser.parse() {
        Ok(x) => x,
        Err(e) => {
            return Err(e);
        },
    };
    let mut captures: CaptureList = Vec::new();
    let entry = match emit(program, &mut captures, &regex, dst_good, dst_bad) {
        Ok(n) => n,
        Err(e) => {
            return Err(e);
        },
    };
    // Groups were pushed inner and later ones first: restore the source order.
    let ghost pushed = captures@;
    let captures = reverse_captures(&captures);
    proof {
        assert forall|i: int| 0 <= i < captures@.len() implies old(program).register_count <= (
        #[trigger] captures@[i]).0.idx() < captures@[i].1.idx() by {
            assert(captures@[i] == pushed[pushed.len() - 1 - i]);
        }
    }
    Ok((entry, captures))
}

/// The text of `c` as `Debug` writes it: quoted, with escapes.
pub uninterp spec fn char_debug_text(c: char) -> Seq<char>;

/// Writes `c` as `Debug` does, through `format!`.
#[verifier::external_body]
fn char_debug(c: char) -> (r: String)
    ensures
        r@ == char_debug_text(c),
{
    format!("{:?}", c)
}

/// `s` followed by `c`.
fn with_char(s: String, c: char) -> (r: String)
    ensures
        r@ == s@.push(c),
{
    let mut s = s;
    push_char(&mut s, c);
    s
}

/// `s` followed by the text of `t`.
fn with_string(s: String, t: String) -> (r: String)
    ensures
        r@ == s@ + t@,
{
    join(s, t.as_str())
}

/// The message of a regex error.
pub open spec fn regex_error_text(e: RegexError) -> Seq<char> {
    match e {
        RegexError::UnexpectedChar { ch, pos } => "unexpected character '"@.push(ch) + "' at position "@ + decimal(pos as nat),
        RegexError::Expected { expected, found, pos } => "expected '"@.push(expected) + "', found '"@.push(found) + "' at position "@ + decimal(pos as nat),
        RegexError::ExpectedAtEnd { expected } => "expected '"@.push(expected) + "', found end of pattern"@,
        RegexError::ExpectedNumber => "expected number"@,
        RegexError::NumberTooLarge => "invalid number: number too large to fit in target type"@,
        RegexError::UnsupportedGroupModifier => "unsupported group modifier"@,
        RegexError::EndInCharClass => "unexpected end of pattern in character class"@,
        RegexError::NonAsciiInCharClass { ch } => "non-ASCII character '"@ + char_debug_text(ch) + "' not supported in character class"@,
        RegexError::ClassInRange => "cannot use character class in character class range"@,
        RegexError::InvalidRange { start, end } => "invalid character range "@ + char_debug_text(start as char) + "-"@ + char_debug_text(end as char),
        RegexError::EndAfterBackslash => "unexpected end of pattern after backslash"@,
        RegexError::InvalidHexEscape => "invalid hex escape sequence"@,
        RegexError::UnknownEscape { ch } => "unknown escape sequence '\\"@.push(ch) + "'"@,
        RegexError::UnboundedRepetition => "unbounded repetition on complex patterns are not yet supported (would require loops)"@,
        RegexError::ProgramTooLarge => "index exceeds u32::MAX"@,
    }
}

impl RegexError {
    /// The error's message.
    pub fn message(&self) -> (r: String)
        ensures
            r@ == regex_error_text(*self),
    {
        match *self {
            RegexError::UnexpectedChar { ch, pos } => {
                let s = with_char(text("unexpected character '"), ch);
                let s = join(s, "' at position ");
                with_string(s, decimal_string(pos))
            },
            RegexError::Expected { expected, found, pos } => {
                let s = with_char(text("expected '"), expected);
                let s = with_char(join(s, "', found '"), found);
                let s = join(s, "' at position ");
                with_string(s, decimal_string(pos))
            },
            RegexError::ExpectedAtEnd { expected } => {
                let s = with_char(text("expected '"), expected);
                join(s, "', found end of pattern")
            },
            RegexError::ExpectedNumber => text("expected number"),
            RegexError::NumberTooLarge => text("invalid number: number too large to fit in target type"),
            RegexError::UnsupportedGroupModifier => text("unsupported group modifier"),
            RegexError::EndInCharClass => text("unexpected end of pattern in character class"),
            RegexError::NonAsciiInCharClass { ch } => {
                let s = with_string(text("non-ASCII character '"), char_debug(ch));
                join(s, "' not supported in character class")
            },
            RegexError::ClassInRange => text("cannot use character class in character class range"),
            RegexError::InvalidRange { start, end } => {
                let s = with_string(text("invalid character range "), char_debug(start as char));
                let s = join(s, "-");
                with_string(s, char_debug(end as char))
            },
            RegexError::EndAfterBackslash => text("unexpected end of pattern after backslash"),
            RegexError::InvalidHexEscape => text("invalid hex escape sequence"),
            RegexError::UnknownEscape { ch } => {
                let s = with_char(text("unknown escape sequence '\\"), ch);
                join(s, "'")
            },
            RegexError::UnboundedRepetition => text("unbounded repetition on complex patterns are not yet supported (would require loops)"),
            RegexError::ProgramTooLarge => text("index exceeds u32::MAX"),
        }
    }
}

} // verus!
