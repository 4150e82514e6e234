//! Decoding UTF-8 one character at a time, with recovery from invalid input.

use vstd::prelude::*;
use vstd::utf8::*;

verus! {

/// Whether `b` may follow `lead` as the second byte of a well-formed sequence: the
/// ranges of the Unicode standard, which rule out overlong forms, surrogates and code
/// points above U+10FFFF as early as possible.
pub open spec fn second_byte_ok(lead: u8, b: u8) -> bool {
    if lead == 0xE0 {
        0xA0 <= b <= 0xBF
    } else if lead == 0xED {
        0x80 <= b <= 0x9F
    } else if lead == 0xF0 {
        0x90 <= b <= 0xBF
    } else if lead == 0xF4 {
        0x80 <= b <= 0x8F
    } else {
        0x80 <= b <= 0xBF
    }
}

/// The length of the invalid sequence at the start of `s`, which does not begin with a
/// well-formed character: the maximal prefix of a well-formed sequence, at least one
/// byte (the "maximal subpart" of the Unicode standard).
pub open spec fn invalid_len(s: Seq<u8>) -> int {
    let b0 = s[0];
    let width = if 0xC2 <= b0 <= 0xDF {
        2int
    } else if 0xE0 <= b0 <= 0xEF {
        3int
    } else if 0xF0 <= b0 <= 0xF4 {
        4int
    } else {
        1int
    };
    if width == 1 || s.len() < 2 || !second_byte_ok(b0, s[1]) {
        1
    } else if width == 2 || s.len() < 3 || !is_continuation_byte(s[2]) {
        2
    } else {
        3
    }
}

/// The character at the start of `s`, and how many bytes it takes: `None` for an
/// invalid sequence, which is to be shown as one U+FFFD.
pub open spec fn first_unit(s: Seq<u8>) -> (Option<char>, int) {
    if valid_first_scalar(s) {
        (Some(decode_first_scalar(s) as char), length_of_first_scalar(s))
    } else {
        (None, invalid_len(s))
    }
}

/// Decodes the character at `bytes[i..]`: the character, or `None` for an invalid
/// sequence, and the number of bytes used (at least one).
pub fn decode_at(bytes: &[u8], i: usize) -> (r: (Option<char>, usize))
    requires
        i < bytes@.len(),
    ensures
        (r.0, r.1 as int) == first_unit(bytes@.skip(i as int)),
        1 <= r.1 <= bytes@.len() - i,
        r.1 <= 4,
{
    let ghost s = bytes@.skip(i as int);
    let n = bytes.len() - i;
    let b0 = bytes[i];
    let b1 = if n >= 2 { bytes[i + 1] } else { 0 };
    let b2 = if n >= 3 { bytes[i + 2] } else { 0 };
    let b3 = if n >= 4 { bytes[i + 3] } else { 0 };
    let cont1 = n >= 2 && 0x80 <= b1 && b1 <= 0xBF;
    let cont2 = n >= 3 && 0x80 <= b2 && b2 <= 0xBF;
    let cont3 = n >= 4 && 0x80 <= b3 && b3 <= 0xBF;
    // Decode as vstd's UTF-8 model does: bit pattern, then overlong and surrogate checks.
    let mut cp: u32 = 0;
    let mut len: usize = 0;
    if b0 <= 0x7F {
        cp = (b0 & 0x7F) as u32;
        assert((b0 & 0x7F) as u32 <= 0x7F) by (bit_vector);
        len = 1;
    } else if 0xC0 <= b0 && b0 <= 0xDF && cont1 {
        cp = (((b0 & 0x1F) as u32) << 6) | ((b1 & 0x3F) as u32);
        assert((((b0 & 0x1F) as u32) << 6) | ((b1 & 0x3F) as u32) <= 0x7FF) by (bit_vector);
        len = 2;
    } else if 0xE0 <= b0 && b0 <= 0xEF && cont1 && cont2 {
        cp = (((b0 & 0x0F) as u32) << 12) | (((b1 & 0x3F) as u32) << 6) | ((b2 & 0x3F) as u32);
        assert((((b0 & 0x0F) as u32) << 12) | (((b1 & 0x3F) as u32) << 6) | ((b2 & 0x3F) as u32) <= 0xFFFF)
            by (bit_vector);
        len = 3;
    } else if 0xF0 <= b0 && b0 <= 0xF7 && cont1 && cont2 && cont3 {
        cp = (((b0 & 0x07) as u32) << 18) | (((b1 & 0x3F) as u32) << 12) | (((b2 & 0x3F) as u32) << 6) | ((
        b3 & 0x3F) as u32);
        len = 4;
    }
    proof {
        assert(s.len() == n);
        assert(s[0] == b0);
        if n >= 2 {
            assert(s[1] == b1);
        }
        if n >= 3 {
            assert(s[2] == b2);
        }
        if n >= 4 {
            assert(s[3] == b3);
        }
    }
    let valid = len > 0 && (len != 2 || 0x80 <= cp) && (len != 3 || 0x800 <= cp) && (len != 4 || (0x10000
        <= cp && cp <= 0x10ffff)) && !(0xD800 <= cp && cp <= 0xDFFF);
    if valid {
        proof {
            assert(valid_first_scalar(s));
            assert(decode_first_scalar(s) == cp);
            assert(is_scalar(cp));
        }
        let c = char_of(cp);
        return (Some(c), len);
    }
    proof {
        assert(!valid_first_scalar(s));
    }
    // The longest prefix of a well-formed sequence.
    let width: usize = if 0xC2 <= b0 && b0 <= 0xDF {
        2
    } else if 0xE0 <= b0 && b0 <= 0xEF {
        3
    } else if 0xF0 <= b0 && b0 <= 0xF4 {
        4
    } else {
        1
    };
    let second_ok = if b0 == 0xE0 {
        0xA0 <= b1 && b1 <= 0xBF
    } else if b0 == 0xED {
        0x80 <= b1 && b1 <= 0x9F
    } else if b0 == 0xF0 {
        0x90 <= b1 && b1 <= 0xBF
    } else if b0 == 0xF4 {
        0x80 <= b1 && b1 <= 0x8F
    } else {
        0x80 <= b1 && b1 <= 0xBF
    };
    let bad = if width == 1 || n < 2 || !second_ok {
        1
    } else if width == 2 || n < 3 || !cont2 {
        2
    } else {
        3
    };
    (None, bad)
}

/// The character with code point `cp`, a Unicode scalar value.
fn char_of(cp: u32) -> (c: char)
    requires
        is_scalar(cp),
    ensures
        c as u32 == cp,
        c == cp as char,
{
    match crate::collections::string::char_from_u32(cp) {
        Some(c) => {
            proof {
                char_u32_cast(c, cp);
            }
            c
        },
        None => {
            assert(false);
            '\u{FFFD}'
        },
    }
}

} // verus!
