//! Choosing a definition for a file and rendering highlighted lines for a terminal.

use vstd::prelude::*;
use vstd::string::StringSliceAdditionalSpecFns;
use crate::glob::{glob_match, glob_spec};
use crate::runtime::Highlight;
use crate::compiler::ir::HighlightKind;
use crate::text::{str_eq, text};

verus! {

/// A language definition's entry into the bytecode.
pub struct Entrypoint {
    /// The definition's function name, with `_` where its id has `-`.
    pub name: String,
    /// The human-readable name.
    pub display_name: String,
    /// Glob patterns of the paths that the definition is for.
    pub paths: Vec<String>,
    /// Where in the bytecode the definition starts.
    pub address: usize,
}

/// `s` with every `_` written as `-`.
pub open spec fn dashed(s: Seq<char>) -> Seq<char> {
    s.map_values(|c: char| if c == '_' { '-' } else { c })
}

/// Whether `ep` is the definition with the id `language`.
pub open spec fn names_language(ep: Entrypoint, language: Seq<char>) -> bool {
    dashed(ep.name@) == language
}

/// The bytes of a character sequence, as UTF-8.
pub open spec fn utf8(s: Seq<char>) -> Seq<u8> {
    vstd::utf8::encode_utf8(s)
}

/// Whether pattern `j` of `ep` matches `path`.
pub open spec fn pattern_matches(ep: Entrypoint, j: int, path: Seq<u8>) -> bool {
    glob_spec(utf8(ep.paths@[j]@), path)
}

/// Whether some path pattern of `ep` matches `path`.
pub open spec fn path_matches(ep: Entrypoint, path: Seq<u8>) -> bool {
    exists|j: int| 0 <= j < ep.paths@.len() && #[trigger] pattern_matches(ep, j, path)
}

/// Whether `name`, with `_` read as `-`, is `language`.
fn is_language(name: &str, language: &str) -> (r: bool)
    ensures
        r == (dashed(name@) == language@),
{
    let a = crate::text::chars_of(name);
    let b = crate::text::chars_of(language);
    if a.len() != b.len() {
        return false;
    }
    let mut i: usize = 0;
    while i < a.len()
        invariant
            a@ == name@,
            b@ == language@,
            a@.len() == b@.len(),
            i <= a@.len(),
            forall|k: int| 0 <= k < i ==> dashed(name@)[k] == language@[k],
        decreases a@.len() - i,
    {
        let c = if a[i] == '_' {
            '-'
        } else {
            a[i]
        };
        if c != b[i] {
            assert(dashed(name@)[i as int] != language@[i as int]);
            return false;
        }
        i += 1;
    }
    assert(dashed(name@) =~= language@);
    true
}

/// Whether some path pattern of `ep` matches `path`.
fn any_path_matches(ep: &Entrypoint, path: &[u8]) -> (r: bool)
    requires
        path@.len() < usize::MAX,
    ensures
        r == path_matches(*ep, path@),
{
    let mut j: usize = 0;
    while j < ep.paths.len()
        invariant
            j <= ep.paths@.len(),
            path@.len() < usize::MAX,
            forall|k: int| 0 <= k < j ==> !#[trigger] pattern_matches(*ep, k, path@),
        decreases ep.paths@.len() - j,
    {
        let pattern = ep.paths[j].as_str();
        if glob_match(pattern.as_bytes(), path) {
            assert(pattern_matches(*ep, j as int, path@));
            return true;
        }
        j += 1;
    }
    false
}

/// Picks the definition for a language id or, without one, for a file path: the index
/// of the first that fits, or `None` where none does or neither is given.
pub fn select_entrypoint(eps: &[Entrypoint], language: Option<&str>, path: Option<&[u8]>) -> (r: Option<usize>)
    requires
        path matches Some(p) ==> p@.len() < usize::MAX,
    ensures
        language matches Some(l) ==> match r {
            Some(i) => i < eps@.len() && names_language(eps@[i as int], l@) && forall|k: int|
                0 <= k < i ==> !names_language(#[trigger] eps@[k], l@),
            None => forall|k: int| 0 <= k < eps@.len() ==> !names_language(#[trigger] eps@[k], l@),
        },
        language is None ==> match path {
            Some(p) => match r {
                Some(i) => i < eps@.len() && path_matches(eps@[i as int], p@) && forall|k: int|
                    0 <= k < i ==> !path_matches(#[trigger] eps@[k], p@),
                None => forall|k: int| 0 <= k < eps@.len() ==> !path_matches(#[trigger] eps@[k], p@),
            },
            None => r is None,
        },
{
    let mut i: usize = 0;
    match language {
        Some(l) => {
            while i < eps.len()
                invariant
                    language == Some(l),
                    i <= eps@.len(),
                    forall|k: int| 0 <= k < i ==> !names_language(#[trigger] eps@[k], l@),
                decreases eps@.len() - i,
            {
                if is_language(eps[i].name.as_str(), l) {
                    assert(names_language(eps@[i as int], l@));
                    return Some(i);
                }
                i += 1;
            }
            None
        },
        None => match path {
            Some(p) => {
                while i < eps.len()
                    invariant
                        language is None,
                        path == Some(p),
                        i <= eps@.len(),
                        p@.len() < usize::MAX,
                        forall|k: int| 0 <= k < i ==> !path_matches(#[trigger] eps@[k], p@),
                    decreases eps@.len() - i,
                {
                    if any_path_matches(&eps[i], p) {
                        assert(path_matches(eps@[i as int], p@));
                        return Some(i);
                    }
                    i += 1;
                }
                None
            },
            None => None,
        },
    }
}

/// The escape sequence that resets the terminal's colors.
pub open spec fn reset_bytes() -> Seq<u8> {
    seq![0x1bu8, 0x5b, 0x6d]
}

/// The rendering of the spans `hs` from the one at `i` on: each span's text, from its
/// start to the next span's, in its kind's color (then reset) where `colors` has one.
pub open spec fn render_from(line: Seq<u8>, hs: Seq<Highlight<u32>>, colors: Seq<Seq<u8>>, i: int) -> Seq<u8>
    decreases hs.len() - i,
{
    if i < 0 || i + 1 >= hs.len() {
        Seq::empty()
    } else {
        let text = line.subrange(hs[i].start as int, hs[i + 1].start as int);
        let piece = if (hs[i].kind as int) < colors.len() {
            colors[hs[i].kind as int] + text + reset_bytes()
        } else {
            text
        };
        piece + render_from(line, hs, colors, i + 1)
    }
}

/// Whether the spans start in order within a line of `len` bytes.
pub open spec fn spans_ok(hs: Seq<Highlight<u32>>, len: int) -> bool {
    forall|i: int| 0 <= i < hs.len() - 1 ==> #[trigger] hs[i].start <= hs[i + 1].start <= len
}

/// Renders one highlighted line for a terminal: the text of each span in its kind's
/// color, with colors indexed by kind (a kind with no color is written plain).
pub fn render_line(line: &[u8], hs: &[Highlight<u32>], colors: &[&str]) -> (r: Vec<u8>)
    requires
        spans_ok(hs@, line@.len() as int),
    ensures
        r@ == render_from(line@, hs@, colors@.map_values(|c: &str| c.spec_bytes()), 0),
{
    let ghost cs = colors@.map_values(|c: &str| c.spec_bytes());
    let mut out: Vec<u8> = Vec::new();
    let mut i: usize = 0;
    while i < hs.len() && i + 1 < hs.len()
        invariant
            spans_ok(hs@, line@.len() as int),
            cs == colors@.map_values(|c: &str| c.spec_bytes()),
            i <= hs@.len(),
            out@ + render_from(line@, hs@, cs, i as int) == render_from(line@, hs@, cs, 0),
        decreases hs@.len() - i,
    {
        let start = hs[i].start;
        let end = hs[i + 1].start;
        assert(hs@[i as int].start <= hs@[i + 1].start <= line@.len());
        let ghost before = out@;
        let kind = hs[i].kind as usize;
        if kind < colors.len() {
            push_bytes(&mut out, colors[kind].as_bytes());
            push_range(&mut out, line, start, end);
            push_bytes(&mut out, &[0x1bu8, 0x5b, 0x6d]);
        } else {
            push_range(&mut out, line, start, end);
        }
        proof {
            assert(out@ =~= before + (if (hs@[i as int].kind as int) < cs.len() {
                cs[hs@[i as int].kind as int] + line@.subrange(start as int, end as int) + reset_bytes()
            } else {
                line@.subrange(start as int, end as int)
            }));
        }
        i += 1;
    }
    proof {
        if i >= hs@.len() || i + 1 >= hs@.len() {
            assert(render_from(line@, hs@, cs, i as int) == Seq::<u8>::empty());
        }
    }
    assert(out@ =~= render_from(line@, hs@, cs, 0));
    out
}

/// `v` followed by `s`.
fn push_bytes(v: &mut Vec<u8>, s: &[u8])
    ensures
        final(v)@ == old(v)@ + s@,
{
    let mut i: usize = 0;
    let ghost v0 = v@;
    while i < s.len()
        invariant
            i <= s@.len(),
            v@ == v0 + s@.take(i as int),
        decreases s@.len() - i,
    {
        v.push(s[i]);
        i += 1;
        assert(v@ =~= v0 + s@.take(i as int));
    }
    assert(s@.take(s@.len() as int) =~= s@);
}

/// `v` followed by the bytes of `s` from `start` to `end`.
fn push_range(v: &mut Vec<u8>, s: &[u8], start: usize, end: usize)
    requires
        start <= end <= s@.len(),
    ensures
        final(v)@ == old(v)@ + s@.subrange(start as int, end as int),
{
    let mut i: usize = start;
    let ghost v0 = v@;
    while i < end
        invariant
            start <= i <= end <= s@.len(),
            v@ == v0 + s@.subrange(start as int, i as int),
        decreases end - i,
    {
        v.push(s[i]);
        i += 1;
        assert(v@ =~= v0 + s@.subrange(start as int, i as int));
    }
}

/// The terminal color that `lshc render` gives a highlight kind: an ANSI escape
/// sequence, empty for `other`; `None` for a kind it does not know.
pub open spec fn kind_color_spec(id: Seq<char>) -> Option<Seq<char>> {
    if id == "other"@ {
        Some(""@)
    } else if id == "comment"@ {
        Some("\x1b[32m"@)
    } else if id == "method"@ {
        Some("\x1b[93m"@)
    } else if id == "string"@ {
        Some("\x1b[91m"@)
    } else if id == "variable"@ {
        Some("\x1b[96m"@)
    } else if id == "constant.language"@ {
        Some("\x1b[94m"@)
    } else if id == "constant.numeric"@ {
        Some("\x1b[92m"@)
    } else if id == "keyword.control"@ {
        Some("\x1b[95m"@)
    } else if id == "keyword.other"@ {
        Some("\x1b[94m"@)
    } else if id == "keyword.preprocessor"@ {
        Some("\x1b[94m"@)
    } else if id == "markup.bold"@ {
        Some("\x1b[1m"@)
    } else if id == "markup.changed"@ {
        Some("\x1b[94m"@)
    } else if id == "markup.deleted"@ {
        Some("\x1b[91m"@)
    } else if id == "markup.heading"@ {
        Some("\x1b[94m"@)
    } else if id == "markup.inserted"@ {
        Some("\x1b[92m"@)
    } else if id == "markup.italic"@ {
        Some("\x1b[3m"@)
    } else if id == "markup.link"@ {
        Some("\x1b[4m"@)
    } else if id == "markup.list"@ {
        Some("\x1b[94m"@)
    } else if id == "markup.strikethrough"@ {
        Some("\x1b[9m"@)
    } else if id == "meta.header"@ {
        Some("\x1b[94m"@)
    } else if id == "storage.annotation"@ {
        Some("\x1b[36m"@)
    } else if id == "storage.type"@ {
        Some("\x1b[36m"@)
    } else {
        None
    }
}

/// The terminal color of the highlight kind `id`, as [`kind_color_spec`] gives it.
pub fn kind_color(id: &str) -> (r: Option<&'static str>)
    ensures
        match r {
            Some(c) => kind_color_spec(id@) == Some(c@),
            None => kind_color_spec(id@) is None,
        },
{
    if str_eq(id, "other") {
        Some("")
    } else if str_eq(id, "comment") {
        Some("\x1b[32m")
    } else if str_eq(id, "method") {
        Some("\x1b[93m")
    } else if str_eq(id, "string") {
        Some("\x1b[91m")
    } else if str_eq(id, "variable") {
        Some("\x1b[96m")
    } else if str_eq(id, "constant.language") {
        Some("\x1b[94m")
    } else if str_eq(id, "constant.numeric") {
        Some("\x1b[92m")
    } else if str_eq(id, "keyword.control") {
        Some("\x1b[95m")
    } else if str_eq(id, "keyword.other") {
        Some("\x1b[94m")
    } else if str_eq(id, "keyword.preprocessor") {
        Some("\x1b[94m")
    } else if str_eq(id, "markup.bold") {
        Some("\x1b[1m")
    } else if str_eq(id, "markup.changed") {
        Some("\x1b[94m")
    } else if str_eq(id, "markup.deleted") {
        Some("\x1b[91m")
    } else if str_eq(id, "markup.heading") {
        Some("\x1b[94m")
    } else if str_eq(id, "markup.inserted") {
        Some("\x1b[92m")
    } else if str_eq(id, "markup.italic") {
        Some("\x1b[3m")
    } else if str_eq(id, "markup.link") {
        Some("\x1b[4m")
    } else if str_eq(id, "markup.list") {
        Some("\x1b[94m")
    } else if str_eq(id, "markup.strikethrough") {
        Some("\x1b[9m")
    } else if str_eq(id, "meta.header") {
        Some("\x1b[94m")
    } else if str_eq(id, "storage.annotation") {
        Some("\x1b[36m")
    } else if str_eq(id, "storage.type") {
        Some("\x1b[36m")
    } else {
        None
    }
}

/// The colors by highlight value after the first `n` kinds, and the identifiers of the
/// unknown ones among them, in order: a kind with a color puts it at its value, growing
/// the table with empty entries as needed.
pub open spec fn color_table(ks: Seq<HighlightKind>, n: int) -> (Seq<Seq<char>>, Seq<Seq<char>>)
    decreases n,
{
    if n <= 0 || n > ks.len() {
        (Seq::empty(), Seq::empty())
    } else {
        let (m, u) = color_table(ks, n - 1);
        let k = ks[n - 1];
        match kind_color_spec(k.identifier@) {
            None => (m, u.push(k.identifier@)),
            Some(c) => if c.len() == 0 {
                (m, u)
            } else {
                let grown = if m.len() <= k.value {
                    m + Seq::new((k.value + 1 - m.len()) as nat, |i: int| Seq::<char>::empty())
                } else {
                    m
                };
                (grown.update(k.value as int, c), u)
            },
        }
    }
}

/// The color table that `lshc render` draws with, indexed by highlight value, and the
/// identifiers of the highlight kinds that have no known color.
pub fn color_map(kinds: &[HighlightKind]) -> (r: (Vec<&'static str>, Vec<String>))
    requires
        forall|i: int| 0 <= i < kinds@.len() ==> (#[trigger] kinds@[i]).value < usize::MAX,
    ensures
        r.0@.map_values(|c: &str| c@) == color_table(kinds@, kinds@.len() as int).0,
        r.1@.map_values(|s: String| s@) == color_table(kinds@, kinds@.len() as int).1,
{
    let mut map: Vec<&'static str> = Vec::new();
    let mut unknown: Vec<String> = Vec::new();
    let mut i: usize = 0;
    while i < kinds.len()
        invariant
            i <= kinds@.len(),
            forall|j: int| 0 <= j < kinds@.len() ==> (#[trigger] kinds@[j]).value < usize::MAX,
            map@.map_values(|c: &str| c@) == color_table(kinds@, i as int).0,
            unknown@.map_values(|s: String| s@) == color_table(kinds@, i as int).1,
        decreases kinds@.len() - i,
    {
        let k = &kinds[i];
        let ghost m0 = map@.map_values(|c: &str| c@);
        let ghost u0 = unknown@.map_values(|s: String| s@);
        match kind_color(k.identifier.as_str()) {
            None => {
                unknown.push(text(k.identifier.as_str()));
                assert(unknown@.map_values(|s: String| s@) =~= u0.push(k.identifier@));
            },
            Some(c) => {
                if crate::text::chars_of(c).len() != 0 {
                    let v = k.value as usize;
                    while map.len() <= v
                        invariant
                            v < usize::MAX,
                            v == k.value,
                            map@.len() <= v + 1 || map@.len() == m0.len(),
                            m0.len() <= map@.len(),
                            map@.map_values(|c: &str| c@) == m0 + Seq::new(
                                (map@.len() - m0.len()) as nat,
                                |j: int| Seq::<char>::empty(),
                            ),
                        decreases v + 1 - map@.len(),
                    {
                        let ghost before = map@.map_values(|c: &str| c@);
                        map.push("");
                        proof {
                            reveal_strlit("");
                            assert(map@.map_values(|c: &str| c@) =~= before.push(""@));
                            assert(""@ =~= Seq::<char>::empty());
                        }
                        assert(map@.map_values(|c: &str| c@) =~= m0 + Seq::new(
                            (map@.len() - m0.len()) as nat,
                            |j: int| Seq::<char>::empty(),
                        ));
                    }
                    map.set(v, c);
                    proof {
                        let grown = if m0.len() <= k.value {
                            m0 + Seq::new((k.value + 1 - m0.len()) as nat, |j: int| Seq::<char>::empty())
                        } else {
                            m0
                        };
                        assert(map@.map_values(|c: &str| c@) =~= grown.update(k.value as int, c@));
                    }
                }
            },
        }
        i += 1;
    }
    (map, unknown)
}

} // verus!
