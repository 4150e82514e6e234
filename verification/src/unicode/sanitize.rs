//! Making text with control characters and invalid UTF-8 safe to display.

use vstd::prelude::*;
use std::ops::Range;
use vstd::utf8::{encode_utf8, valid_utf8, valid_first_scalar, length_of_first_scalar, pop_first_scalar};
use vstd::string::StringSliceAdditionalSpecFns;
use crate::collections::string::{BString, str_from_utf8, char_from_u32};
use crate::collections::vec::BVec;
use crate::maybe_owned::MaybeOwned;
use super::decode::{decode_at, first_unit};

verus! {

/// Text whose control characters and invalid UTF-8 have been made visible.
pub struct SanitizedControlChars {
    /// Sanitized string with all C0/C1 control characters replaced by their Unicode representations.
    pub text: BString,
    /// Byte ranges of the replacement characters within [`Self::text`].
    pub unsane_ranges: BVec<Range<usize>>,
}

impl SanitizedControlChars {
    /// The sanitized text.
    pub fn as_str(&self) -> (r: &str)
        ensures
            r@ == self.text@,
    {
        self.text.as_str()
    }
}

impl<'a> MaybeOwned<'a, str, SanitizedControlChars> {
    /// The text either way: the borrowed input, or the sanitized copy.
    pub fn as_str(&self) -> (r: &str)
        ensures
            r@ == match self {
                MaybeOwned::Borrowed(s) => s@,
                MaybeOwned::Owned(o) => o.text@,
            },
    {
        match self {
            MaybeOwned::Borrowed(s) => s,
            MaybeOwned::Owned(o) => o.as_str(),
        }
    }
}

/// Whether `c` is a C0 or C1 control character (or DEL).
pub open spec fn is_control(c: char) -> bool {
    (c as u32) < 0x20 || (0x7F <= (c as u32) && (c as u32) <= 0x9F)
}

/// Whether a decoded unit must be replaced: an invalid sequence or a control character.
pub open spec fn unsane(u: Option<char>) -> bool {
    match u {
        None => true,
        Some(c) => is_control(c),
    }
}

/// What replaces an unsane unit: U+FFFD for invalid UTF-8, the control pictures
/// U+2400..U+241F for C0 characters and U+2421 for DEL, and U+2426 for C1 characters,
/// which have no pictures.
pub open spec fn visual(u: Option<char>) -> char {
    match u {
        None => '\u{FFFD}',
        Some(c) => if (c as u32) <= 0x1F {
            (0x2400 + (c as u32)) as char
        } else if c == '\x7f' {
            '\u{2421}'
        } else {
            '\u{2426}'
        },
    }
}

/// `ranges` with the run that started at byte `run` closed at the end of `out`.
pub open spec fn close_run(ranges: Seq<(int, int)>, run: Option<int>, out: Seq<char>) -> Seq<(int, int)> {
    match run {
        Some(b) => ranges.push((b, encode_utf8(out).len() as int)),
        None => ranges,
    }
}

/// The sanitized text and the byte ranges of the runs of replacements, continuing from
/// byte `i` of `s` with the text `out` so far, the closed runs `ranges`, and the open
/// run starting at byte `run` of the output, if any.
pub open spec fn sanitize_from(s: Seq<u8>, i: int, out: Seq<char>, ranges: Seq<(int, int)>, run: Option<int>) -> (
    Seq<char>,
    Seq<(int, int)>,
)
    decreases s.len() - i,
{
    if i < 0 || i >= s.len() {
        (out, close_run(ranges, run, out))
    } else {
        let (u, n) = first_unit(s.skip(i));
        if n <= 0 {
            (out, ranges)
        } else if unsane(u) {
            let start = match run {
                Some(b) => b,
                None => encode_utf8(out).len() as int,
            };
            sanitize_from(s, i + n, out.push(visual(u)), ranges, Some(start))
        } else {
            sanitize_from(s, i + n, out.push(u->0), close_run(ranges, run, out), None)
        }
    }
}

/// Whether every unit of `s` from byte `i` on is a character that stays as it is.
pub open spec fn all_sane_from(s: Seq<u8>, i: int) -> bool
    decreases s.len() - i,
{
    if i < 0 || i >= s.len() {
        true
    } else {
        let (u, n) = first_unit(s.skip(i));
        n > 0 && !unsane(u) && all_sane_from(s, i + n)
    }
}

proof fn lemma_all_sane_valid(s: Seq<u8>, i: int)
    requires
        0 <= i <= s.len(),
        all_sane_from(s, i),
    ensures
        valid_utf8(s.skip(i)),
    decreases s.len() - i,
{
    if i < s.len() {
        let t = s.skip(i);
        let n = length_of_first_scalar(t);
        assert(valid_first_scalar(t));
        lemma_all_sane_valid(s, i + n);
        assert(pop_first_scalar(t) =~= s.skip(i + n));
    } else {
        assert(s.skip(i) =~= Seq::<u8>::empty());
    }
}

/// What replaces an unsane unit.
fn visual_char(u: Option<char>) -> (r: char)
    ensures
        r == visual(u),
{
    match u {
        None => '\u{FFFD}',
        Some(c) => {
            let x = c as u32;
            if x <= 0x1F {
                let cp = 0x2400 + x;
                match char_from_u32(cp) {
                    Some(v) => {
                        proof {
                            vstd::utf8::char_u32_cast(v, cp);
                        }
                        v
                    },
                    None => {
                        assert(false);
                        '\u{FFFD}'
                    },
                }
            } else if c == '\x7f' {
                '\u{2421}'
            } else {
                '\u{2426}'
            }
        },
    }
}

/// Strips all C0/C1 control characters and invalid UTF-8 from the text: text that has
/// none is returned as it is, borrowed; otherwise each is replaced by a visible
/// character, and the byte ranges of the runs of replacements are recorded.
pub fn sanitize_control_chars(text: &[u8]) -> (r: MaybeOwned<'_, str, SanitizedControlChars>)
    requires
        6 * text@.len() + 8 <= isize::MAX,
    ensures
        r is Borrowed <==> all_sane_from(text@, 0),
        r matches MaybeOwned::Borrowed(s) ==> s.spec_bytes() == text@,
        r matches MaybeOwned::Owned(o) ==> {
            let (out, ranges) = sanitize_from(text@, 0, Seq::empty(), Seq::empty(), None);
            &&& o.text@ == out
            &&& o.unsane_ranges@.len() == ranges.len()
            &&& forall|k: int|
                0 <= k < ranges.len() ==> (#[trigger] o.unsane_ranges@[k]).start == ranges[k].0
                    && o.unsane_ranges@[k].end == ranges[k].1
        },
{
    let len = text.len();
    let ghost s = text@;
    // First, find out whether there is anything to replace at all.
    let mut i: usize = 0;
    let mut clean = true;
    while i < len
        invariant
            i <= len == s.len(),
            s == text@,
            all_sane_from(s, 0) == (clean && all_sane_from(s, i as int)),
        ensures
            all_sane_from(s, 0) == clean,
        decreases len - i,
    {
        let (u, n) = decode_at(text, i);
        let bad = match u {
            None => true,
            Some(c) => (c as u32) < 0x20 || (0x7F <= (c as u32) && (c as u32) <= 0x9F),
        };
        if bad {
            clean = false;
            break;
        }
        i += n;
    }
    if clean {
        proof {
            lemma_all_sane_valid(s, 0);
            assert(s.skip(0) =~= s);
        }
        match str_from_utf8(text) {
            Ok(t) => {
                return MaybeOwned::Borrowed(t);
            },
            Err(_) => {
                assert(false);
            },
        }
    }
    // Copy and sanitize.
    let ghost target = sanitize_from(s, 0, Seq::empty(), Seq::empty(), None);
    let mut out = BString::empty();
    let mut ranges: BVec<Range<usize>> = BVec::empty();
    let ghost mut granges: Seq<(int, int)> = Seq::empty();
    let mut run: Option<usize> = None;
    let mut i: usize = 0;
    while i < len
        invariant
            i <= len == s.len(),
            6 * len + 8 <= isize::MAX,
            s == text@,
            out.cap() <= 2 * out.bytes().len() + 8,
            ranges.cap() <= 2 * ranges@.len() + 8,
            sanitize_from(s, i as int, out@, granges, match run { Some(b) => Some(b as int), None => None })
                == target,
            out.bytes().len() <= 3 * i,
            ranges@.len() <= i,
            ranges@.len() == granges.len(),
            forall|k: int|
                0 <= k < granges.len() ==> (#[trigger] ranges@[k]).start == granges[k].0 && ranges@[k].end
                    == granges[k].1,
            run matches Some(b) ==> b <= out.bytes().len(),
        decreases len - i,
    {
        let (u, n) = decode_at(text, i);
        out.bounds();
        ranges.bounds();
        let bad = match u {
            None => true,
            Some(c) => (c as u32) < 0x20 || (0x7F <= (c as u32) && (c as u32) <= 0x9F),
        };
        let ol = out.as_bytes().len();
        if bad {
            if run.is_none() {
                run = Some(ol);
            }
            out.push(visual_char(u));
        } else {
            if let Some(b) = run {
                ranges.push(b..ol);
                proof {
                    granges = granges.push((b as int, ol as int));
                }
                run = None;
            }
            match u {
                Some(c) => out.push(c),
                None => {},
            }
        }
        proof {
            vstd::utf8::char_is_scalar(visual(u));
        }
        i += n;
    }
    if let Some(b) = run {
        out.bounds();
        ranges.bounds();
        let ol = out.as_bytes().len();
        ranges.push(b..ol);
        proof {
            granges = granges.push((b as int, ol as int));
        }
    }
    MaybeOwned::Owned(SanitizedControlChars { text: out, unsane_ranges: ranges })
}

/// Sanitizing removes every control character and all invalid UTF-8: no character of
/// the sanitized text is a control character, and every unit that was replaced shows
/// up as a visible replacement.
pub proof fn lemma_sanitized_has_no_controls(s: Seq<u8>)
    ensures
        forall|k: int|
            0 <= k < sanitize_from(s, 0, Seq::empty(), Seq::empty(), None).0.len() ==> !is_control(
                #[trigger] sanitize_from(s, 0, Seq::empty(), Seq::empty(), None).0[k],
            ),
{
    lemma_no_controls_from(s, 0, Seq::empty(), Seq::empty(), None);
}

proof fn lemma_no_controls_from(s: Seq<u8>, i: int, out: Seq<char>, ranges: Seq<(int, int)>, run: Option<int>)
    requires
        forall|k: int| 0 <= k < out.len() ==> !is_control(#[trigger] out[k]),
    ensures
        forall|k: int|
            0 <= k < sanitize_from(s, i, out, ranges, run).0.len() ==> !is_control(
                #[trigger] sanitize_from(s, i, out, ranges, run).0[k],
            ),
    decreases s.len() - i,
{
    if 0 <= i < s.len() {
        let (u, n) = first_unit(s.skip(i));
        if n > 0 {
            if unsane(u) {
                let start = match run {
                    Some(b) => b,
                    None => encode_utf8(out).len() as int,
                };
                let c = visual(u);
                assert(!is_control(c)) by {
                    if let Some(x) = u {
                        if (x as u32) <= 0x1F {
                            assert(((0x2400 + (x as u32)) as char) as u32 == 0x2400 + (x as u32));
                        }
                    }
                }
                let o2 = out.push(c);
                assert forall|k: int| 0 <= k < o2.len() implies !is_control(#[trigger] o2[k]) by {
                    if k < out.len() {
                        assert(o2[k] == out[k]);
                    }
                }
                assert(sanitize_from(s, i, out, ranges, run) == sanitize_from(s, i + n, o2, ranges, Some(start)));
                lemma_no_controls_from(s, i + n, o2, ranges, Some(start));
            } else {
                let o2 = out.push(u->0);
                assert forall|k: int| 0 <= k < o2.len() implies !is_control(#[trigger] o2[k]) by {
                    if k < out.len() {
                        assert(o2[k] == out[k]);
                    }
                }
                assert(sanitize_from(s, i, out, ranges, run) == sanitize_from(s, i + n, o2, close_run(ranges, run, out), None));
                lemma_no_controls_from(s, i + n, o2, close_run(ranges, run, out), None);
            }
        }
    }
}

} // verus!
