//! The syntax of decimal floating-point numbers, as `f64::from_str` accepts them.
//!
//! Parsing splits the text into a sign, a decimal mantissa of at most 19 digits and a
//! power-of-ten exponent; turning those into an `f64` is left to the caller.

use vstd::prelude::*;
use crate::text::ascii_lower;

verus! {

/// What a number's text says, before it becomes a floating-point value.
#[derive(Debug, Clone, Copy, PartialEq, Eq, Structural)]
pub enum FloatParts {
    /// `inf` or `infinity`, in any case.
    Infinite { negative: bool },
    /// `nan`, in any case.
    NaN,
    /// `mantissa * 10^exponent`, negated if `negative`.
    Finite { negative: bool, mantissa: u64, exponent: i32 },
}

/// The mantissa takes no more digits once it reaches this.
pub const MANTISSA_LIMIT: u64 = 1_000_000_000_000_000_000;

/// Whether `b` is an ASCII digit.
pub open spec fn is_digit(b: u8) -> bool {
    48 <= b <= 57
}

/// Whether `a` equals `b` ignoring ASCII case.
pub open spec fn eq_ignore_case(a: Seq<u8>, b: Seq<u8>) -> bool {
    a.len() == b.len() && forall|i: int| 0 <= i < a.len() ==> ascii_lower(#[trigger] a[i]) == ascii_lower(b[i])
}

/// The end of the run of digits in `s` that starts at `pos`.
pub open spec fn digits_end(s: Seq<u8>, pos: int) -> int
    decreases s.len() - pos,
{
    if 0 <= pos < s.len() && is_digit(s[pos]) {
        digits_end(s, pos + 1)
    } else {
        pos
    }
}

/// The mantissa and exponent after reading the digits `s[pos..end]` of the integer
/// part (`frac == false`) or of the fraction (`frac == true`): a digit is added to the
/// mantissa while it is below [`MANTISSA_LIMIT`]; past that, an integer digit only
/// raises the exponent and a fraction digit is dropped.
pub open spec fn read_digits(s: Seq<u8>, pos: int, end: int, m: u64, e: int, frac: bool) -> (u64, int)
    decreases end - pos,
{
    if pos >= end {
        (m, e)
    } else {
        let d = (s[pos] - 48) as u64;
        if m < MANTISSA_LIMIT {
            read_digits(s, pos + 1, end, (m * 10 + d) as u64, if frac { e - 1 } else { e }, frac)
        } else {
            read_digits(s, pos + 1, end, m, if frac { e } else { e + 1 }, frac)
        }
    }
}

/// `x` clamped to the range of `i32`.
pub open spec fn clamp_i32(x: int) -> i32 {
    if x > i32::MAX {
        i32::MAX
    } else if x < i32::MIN {
        i32::MIN
    } else {
        x as i32
    }
}

/// The value of the exponent digits `s[pos..end]`, saturating at `i32::MAX`.
pub open spec fn exponent_value(s: Seq<u8>, pos: int, end: int, v: i32) -> i32
    decreases end - pos,
{
    if pos >= end {
        v
    } else {
        exponent_value(s, pos + 1, end, clamp_i32(clamp_i32(v * 10) + (s[pos] - 48)))
    }
}

/// The ASCII bytes of `inf`, `infinity` and `nan`.
pub open spec fn inf_bytes() -> Seq<u8> {
    seq![105u8, 110u8, 102u8]
}

pub open spec fn infinity_bytes() -> Seq<u8> {
    seq![105u8, 110u8, 102u8, 105u8, 110u8, 105u8, 116u8, 121u8]
}

pub open spec fn nan_bytes() -> Seq<u8> {
    seq![110u8, 97u8, 110u8]
}

/// The number after the sign at `p`, whose sign is `negative`: the special values, or
/// digits with an optional fraction and an optional exponent, filling all of `s`.
pub open spec fn parts_after_sign(s: Seq<u8>, p: int, negative: bool) -> Option<FloatParts> {
    let rest = s.skip(p);
    if eq_ignore_case(rest, inf_bytes()) || eq_ignore_case(rest, infinity_bytes()) {
        Some(FloatParts::Infinite { negative })
    } else if eq_ignore_case(rest, nan_bytes()) {
        Some(FloatParts::NaN)
    } else {
        let i_end = digits_end(s, p);
        let (m1, e1) = read_digits(s, p, i_end, 0, 0, false);
        let dot = i_end < s.len() && s[i_end] == 46u8;
        let f_end = if dot { digits_end(s, i_end + 1) } else { i_end };
        let (m2, e2) = if dot { read_digits(s, i_end + 1, f_end, m1, e1, true) } else { (m1, e1) };
        let has_digits = i_end > p || (dot && f_end > i_end + 1);
        if !has_digits {
            None
        } else if f_end < s.len() && (s[f_end] == 101u8 || s[f_end] == 69u8) {
            let q0 = f_end + 1;
            let exp_negative = q0 < s.len() && s[q0] == 45u8;
            let q = if q0 < s.len() && (s[q0] == 43u8 || s[q0] == 45u8) { q0 + 1 } else { q0 };
            if q >= s.len() || !is_digit(s[q]) {
                None
            } else {
                let x_end = digits_end(s, q);
                let v = exponent_value(s, q, x_end, 0);
                let e3 = if exp_negative { clamp_i32(e2 - v) } else { clamp_i32(e2 + v) };
                if x_end != s.len() {
                    None
                } else {
                    Some(FloatParts::Finite { negative, mantissa: m2, exponent: e3 })
                }
            }
        } else if f_end != s.len() {
            None
        } else {
            Some(FloatParts::Finite { negative, mantissa: m2, exponent: e2 as i32 })
        }
    }
}

/// What the text `s` says as a number, or `None` if it is not one.
pub open spec fn float_parts(s: Seq<u8>) -> Option<FloatParts> {
    if s.len() == 0 {
        None
    } else {
        let negative = s[0] == 45u8;
        let p = if s[0] == 43u8 || s[0] == 45u8 { 1int } else { 0int };
        if p >= s.len() {
            None
        } else {
            parts_after_sign(s, p, negative)
        }
    }
}

proof fn lemma_digits_end(s: Seq<u8>, pos: int)
    requires
        0 <= pos <= s.len(),
    ensures
        pos <= digits_end(s, pos) <= s.len(),
        forall|k: int| pos <= k < digits_end(s, pos) ==> is_digit(#[trigger] s[k]),
        digits_end(s, pos) < s.len() ==> !is_digit(s[digits_end(s, pos)]),
    decreases s.len() - pos,
{
    if pos < s.len() && is_digit(s[pos]) {
        lemma_digits_end(s, pos + 1);
    }
}

/// Whether `s[start..]` equals `word` (lowercase ASCII) ignoring ASCII case.
fn rest_eq_ignore_case(s: &[u8], start: usize, word: &[u8]) -> (r: bool)
    requires
        start <= s@.len(),
        forall|i: int| 0 <= i < word@.len() ==> ascii_lower(#[trigger] word@[i]) == word@[i],
    ensures
        r == eq_ignore_case(s@.skip(start as int), word@),
{
    if s.len() - start != word.len() {
        return false;
    }
    let mut i: usize = 0;
    while i < word.len()
        invariant
            i <= word@.len(),
            start <= s@.len(),
            s@.len() - start == word@.len(),
            start + word@.len() == s.len(),
            forall|k: int| 0 <= k < word@.len() ==> ascii_lower(#[trigger] word@[k]) == word@[k],
            forall|k: int| 0 <= k < i ==> ascii_lower(#[trigger] s@.skip(start as int)[k]) == ascii_lower(word@[k]),
        decreases word@.len() - i,
    {
        if crate::text::to_ascii_lowercase(s[start + i]) != word[i] {
            assert(ascii_lower(s@.skip(start as int)[i as int]) != ascii_lower(word@[i as int]));
            return false;
        }
        i += 1;
    }
    true
}

/// Reads the digits `s[pos..end]` into the mantissa and exponent, as [`read_digits`] says.
fn read_digit_run(s: &[u8], pos: usize, end: usize, m: u64, e: i32, frac: bool) -> (r: (u64, i32))
    requires
        pos <= end <= s@.len(),
        forall|k: int| pos <= k < end ==> is_digit(#[trigger] s@[k]),
        m < 10_000_000_000_000_000_000u64,
        i32::MIN + (end - pos) <= e <= i32::MAX - (end - pos),
    ensures
        (r.0, r.1 as int) == read_digits(s@, pos as int, end as int, m, e as int, frac),
        r.0 < 10_000_000_000_000_000_000u64,
        e - (end - pos) <= r.1 <= e + (end - pos),
    decreases end - pos,
{
    if pos >= end {
        return (m, e);
    }
    let d = (s[pos] - 48) as u64;
    if m < MANTISSA_LIMIT {
        let e2 = if frac { e - 1 } else { e };
        read_digit_run(s, pos + 1, end, m * 10 + d, e2, frac)
    } else {
        let e2 = if frac { e } else { e + 1 };
        read_digit_run(s, pos + 1, end, m, e2, frac)
    }
}

/// `a + b`, saturating at the bounds of `i32`.
fn saturating_add_i32(a: i32, b: i32) -> (r: i32)
    ensures
        r == clamp_i32(a + b),
{
    let x = a as i64 + b as i64;
    if x > i32::MAX as i64 {
        i32::MAX
    } else if x < i32::MIN as i64 {
        i32::MIN
    } else {
        x as i32
    }
}

/// `a - b`, saturating at the bounds of `i32`.
fn saturating_sub_i32(a: i32, b: i32) -> (r: i32)
    ensures
        r == clamp_i32(a - b),
{
    let x = a as i64 - b as i64;
    if x > i32::MAX as i64 {
        i32::MAX
    } else if x < i32::MIN as i64 {
        i32::MIN
    } else {
        x as i32
    }
}

/// `a * 10`, saturating at the bounds of `i32`.
fn saturating_mul10_i32(a: i32) -> (r: i32)
    ensures
        r == clamp_i32(a * 10),
{
    let x = a as i64 * 10;
    if x > i32::MAX as i64 {
        i32::MAX
    } else if x < i32::MIN as i64 {
        i32::MIN
    } else {
        x as i32
    }
}

/// Splits an ASCII number into its sign, mantissa and exponent, with the grammar that
/// `f64::from_str` accepts: an optional sign, then `inf`, `infinity` or `nan` in any
/// case, or digits with an optional `.` and fraction (at least one digit in all), and
/// an optional exponent (`e` or `E`, an optional sign, at least one digit). The whole
/// input must be used. Mantissa digits beyond 19 are dropped (with the exponent
/// adjusted), so the value is approximate.
pub fn parse_float_parts(input: &[u8]) -> (r: Option<FloatParts>)
    requires
        input@.len() <= i32::MAX,
    ensures
        r == float_parts(input@),
{
    let s = input;
    if s.len() == 0 {
        return None;
    }
    let mut pos: usize = 0;
    // Sign
    let negative = s[0] == 45u8;
    if s[0] == 43u8 || s[0] == 45u8 {
        pos = 1;
    }
    if pos >= s.len() {
        return None;
    }
    // Special values
    let inf = vec![105u8, 110u8, 102u8];
    let infinity = vec![105u8, 110u8, 102u8, 105u8, 110u8, 105u8, 116u8, 121u8];
    let nan = vec![110u8, 97u8, 110u8];
    assert(inf@ == inf_bytes());
    assert(infinity@ == infinity_bytes());
    assert(nan@ == nan_bytes());
    if rest_eq_ignore_case(s, pos, inf.as_slice()) || rest_eq_ignore_case(s, pos, infinity.as_slice()) {
        return Some(FloatParts::Infinite { negative });
    }
    if rest_eq_ignore_case(s, pos, nan.as_slice()) {
        return Some(FloatParts::NaN);
    }
    let ghost p = pos as int;
    // Integer part
    let mut i_end = pos;
    while i_end < s.len() && s[i_end] >= 48u8 && s[i_end] <= 57u8
        invariant
            p <= i_end <= s@.len(),
            digits_end(s@, p) == digits_end(s@, i_end as int),
        decreases s@.len() - i_end,
    {
        i_end += 1;
    }
    proof {
        lemma_digits_end(s@, p);
    }
    let (m1, e1) = read_digit_run(s, pos, i_end, 0, 0, false);
    // Fractional part
    let dot = i_end < s.len() && s[i_end] == 46u8;
    let mut f_end = i_end;
    let mut m2 = m1;
    let mut e2 = e1;
    if dot {
        f_end = i_end + 1;
        while f_end < s.len() && s[f_end] >= 48u8 && s[f_end] <= 57u8
            invariant
                i_end + 1 <= f_end <= s@.len(),
                digits_end(s@, i_end + 1) == digits_end(s@, f_end as int),
            decreases s@.len() - f_end,
        {
            f_end += 1;
        }
        proof {
            lemma_digits_end(s@, i_end + 1);
        }
        let (m, e) = read_digit_run(s, i_end + 1, f_end, m1, e1, true);
        m2 = m;
        e2 = e;
    }
    // Must have had at least one digit
    let has_digits = i_end > pos || (dot && f_end > i_end + 1);
    if !has_digits {
        return None;
    }
    // Explicit exponent
    if f_end < s.len() && (s[f_end] == 101u8 || s[f_end] == 69u8) {
        let q0 = f_end + 1;
        let exp_negative = q0 < s.len() && s[q0] == 45u8;
        let q = if q0 < s.len() && (s[q0] == 43u8 || s[q0] == 45u8) {
            q0 + 1
        } else {
            q0
        };
        // Must have at least one exponent digit
        if q >= s.len() || !(s[q] >= 48u8 && s[q] <= 57u8) {
            return None;
        }
        let mut x_end = q;
        let mut v: i32 = 0;
        while x_end < s.len() && s[x_end] >= 48u8 && s[x_end] <= 57u8
            invariant
                q <= x_end <= s@.len(),
                digits_end(s@, q as int) == digits_end(s@, x_end as int),
                exponent_value(s@, q as int, digits_end(s@, q as int), 0) == exponent_value(
                    s@,
                    x_end as int,
                    digits_end(s@, q as int),
                    v,
                ),
            decreases s@.len() - x_end,
        {
            proof {
                lemma_digits_end(s@, x_end as int + 1);
            }
            let d = (s[x_end] - 48u8) as i32;
            v = saturating_add_i32(saturating_mul10_i32(v), d);
            x_end += 1;
        }
        let e3 = if exp_negative {
            saturating_sub_i32(e2, v)
        } else {
            saturating_add_i32(e2, v)
        };
        // Must have consumed the entire input
        if x_end != s.len() {
            return None;
        }
        return Some(FloatParts::Finite { negative, mantissa: m2, exponent: e3 });
    }
    if f_end != s.len() {
        return None;
    }
    Some(FloatParts::Finite { negative, mantissa: m2, exponent: e2 })
}

} // verus!
