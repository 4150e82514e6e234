//! A UTF-8 string built on [`BVec<u8>`].

use vstd::prelude::*;
use std::ops::Range;
use std::str::Utf8Error;
use vstd::utf8::{decode_utf8, encode_scalar, encode_utf8, is_char_boundary, is_scalar, valid_utf8};
use vstd::string::StringSliceAdditionalSpecFns;
use super::vec::{BVec, grown_capacity, encode_char};

verus! {

/// The capacity after making room for `add` more elements in a buffer of capacity
/// `cap` holding `len`: unchanged if they fit, else grown (see [`grown_capacity`]).
pub open spec fn reserved_capacity(cap: int, len: int, add: int) -> int {
    if add > cap - len {
        grown_capacity(cap, len, add, 8)
    } else {
        cap
    }
}

/// Whether making room for `add` more elements stays within what an allocation can hold.
pub open spec fn can_reserve(cap: int, len: int, add: int) -> bool {
    add > cap - len ==> grown_capacity(cap, len, add, 8) <= isize::MAX
}

/// The replacement character U+FFFD.
pub open spec fn replacement_char() -> char {
    '\u{FFFD}'
}

/// Whether `u` is a leading (high) surrogate.
pub open spec fn is_high_surrogate(u: u16) -> bool {
    0xD800 <= u <= 0xDBFF
}

/// Whether `u` is a trailing (low) surrogate.
pub open spec fn is_low_surrogate(u: u16) -> bool {
    0xDC00 <= u <= 0xDFFF
}

/// UTF-16 decoded: a leading surrogate followed by a trailing one makes one character,
/// any other surrogate becomes U+FFFD, and every other unit is a character of its own.
pub open spec fn decode_utf16_lossy(units: Seq<u16>) -> Seq<char>
    decreases units.len(),
{
    if units.len() == 0 {
        Seq::empty()
    } else if is_high_surrogate(units[0]) && units.len() > 1 && is_low_surrogate(units[1]) {
        seq![(0x10000 + (units[0] - 0xD800) * 0x400 + (units[1] - 0xDC00)) as char] + decode_utf16_lossy(
            units.skip(2),
        )
    } else if is_high_surrogate(units[0]) || is_low_surrogate(units[0]) {
        seq![replacement_char()] + decode_utf16_lossy(units.skip(1))
    } else {
        seq![units[0] as char] + decode_utf16_lossy(units.skip(1))
    }
}

/// The text that `String::from_utf8_lossy` makes of `bytes`: each invalid sequence
/// replaced by U+FFFD.
pub uninterp spec fn utf8_lossy(bytes: Seq<u8>) -> Seq<char>;

#[verifier::external_type_specification]
#[verifier::external_body]
pub struct ExUtf8Error(Utf8Error);

/// Calls `std::str::from_utf8`, which succeeds exactly when `bytes` is valid UTF-8,
/// and then gives the text of those bytes; the error's details are not stated.
#[verifier::external_body]
pub(crate) fn str_from_utf8(bytes: &[u8]) -> (r: Result<&str, Utf8Error>)
    ensures
        r is Ok <==> valid_utf8(bytes@),
        r matches Ok(s) ==> s.spec_bytes() == bytes@,
{
    std::str::from_utf8(bytes)
}

/// Calls `String::from_utf8_lossy`, which returns the text of `bytes` with every
/// invalid sequence replaced by U+FFFD: valid UTF-8 comes back as it is, and like
/// every `String` the result takes at most `isize::MAX` bytes.
#[verifier::external_body]
fn utf8_lossy_string(bytes: &[u8]) -> (r: String)
    ensures
        r@ == utf8_lossy(bytes@),
        valid_utf8(bytes@) ==> r@ == decode_utf8(bytes@),
        encode_utf8(r@).len() <= isize::MAX,
{
    String::from_utf8_lossy(bytes).into_owned()
}

/// Calls `char::from_u32`, which gives the character with code point `x` exactly when
/// `x` is a Unicode scalar value.
#[verifier::external_body]
pub(crate) fn char_from_u32(x: u32) -> (r: Option<char>)
    ensures
        r is Some <==> is_scalar(x),
        r matches Some(c) ==> c as u32 == x,
{
    char::from_u32(x)
}

/// The encoding of two character sequences, one after the other.
pub proof fn lemma_encode_append(a: Seq<char>, b: Seq<char>)
    ensures
        encode_utf8(a + b) == encode_utf8(a) + encode_utf8(b),
    decreases a.len(),
{
    if a.len() > 0 {
        lemma_encode_append(a.drop_first(), b);
        assert((a + b).drop_first() =~= a.drop_first() + b);
        assert((a + b)[0] == a[0]);
    } else {
        assert(a + b =~= b);
    }
}

/// The encoding of a single character.
pub proof fn lemma_encode_single(ch: char)
    ensures
        encode_utf8(seq![ch]) == encode_scalar(ch as u32),
{
    let s = seq![ch];
    assert(s.drop_first() =~= Seq::<char>::empty());
    assert(encode_utf8(s) == encode_scalar(s[0] as u32) + encode_utf8(s.drop_first()));
    assert(encode_scalar(ch as u32) + Seq::<u8>::empty() =~= encode_scalar(ch as u32));
}

/// Appending the encoding of `s` to valid UTF-8 appends `s` to its text.
proof fn lemma_decode_append(bytes: Seq<u8>, s: Seq<char>)
    requires
        valid_utf8(bytes),
    ensures
        valid_utf8(bytes + encode_utf8(s)),
        decode_utf8(bytes + encode_utf8(s)) == decode_utf8(bytes) + s,
{
    let t = decode_utf8(bytes);
    vstd::utf8::decode_utf8_encode_utf8(bytes);
    lemma_encode_append(t, s);
    vstd::utf8::encode_utf8_decode_utf8(t + s);
    vstd::utf8::encode_utf8_valid_utf8(t + s);
}

/// Decoding two pieces of valid UTF-8 one after the other.
proof fn lemma_decode_concat(x: Seq<u8>, y: Seq<u8>)
    requires
        valid_utf8(x),
        valid_utf8(y),
    ensures
        valid_utf8(x + y),
        decode_utf8(x + y) == decode_utf8(x) + decode_utf8(y),
{
    vstd::utf8::decode_utf8_encode_utf8(y);
    lemma_decode_append(x, decode_utf8(y));
}

/// Whether `needle` occurs in `hay` at `i`, between character boundaries.
pub open spec fn occurs_at(hay: Seq<u8>, needle: Seq<u8>, i: int) -> bool {
    &&& 0 <= i
    &&& i + needle.len() <= hay.len()
    &&& hay.subrange(i, i + needle.len()) == needle
    &&& is_char_boundary(hay, i)
    &&& is_char_boundary(hay, i + needle.len())
}

/// The first position where `needle` occurs in `hay` between character boundaries.
#[verifier::opaque]
pub open spec fn first_occurrence(hay: Seq<u8>, needle: Seq<u8>) -> Option<int> {
    if exists|i: int| occurs_at(hay, needle, i) {
        Some(choose|i: int| occurs_at(hay, needle, i) && forall|j: int| 0 <= j < i ==> !occurs_at(hay, needle, j))
    } else {
        None
    }
}

proof fn lemma_first_occurrence_at(hay: Seq<u8>, needle: Seq<u8>, i: int)
    requires
        occurs_at(hay, needle, i),
        forall|j: int| 0 <= j < i ==> !occurs_at(hay, needle, j),
    ensures
        first_occurrence(hay, needle) == Some(i),
{
    reveal(first_occurrence);
    let k = choose|k: int| occurs_at(hay, needle, k) && forall|j: int| 0 <= j < k ==> !occurs_at(hay, needle, j);
    assert(occurs_at(hay, needle, k));
    if k < i {
        assert(!occurs_at(hay, needle, k));
    } else if k > i {
        assert(!occurs_at(hay, needle, i));
    }
}

proof fn lemma_first_occurrence_none(hay: Seq<u8>, needle: Seq<u8>)
    requires
        forall|j: int| !occurs_at(hay, needle, j),
    ensures
        first_occurrence(hay, needle) is None,
{
    reveal(first_occurrence);
}

/// The first position where `needle` occurs in `hay`, between character boundaries.
fn find_at_boundaries(hay: &str, needle: &[u8]) -> (r: Option<usize>)
    ensures
        r matches Some(i) ==> first_occurrence(hay.spec_bytes(), needle@) == Some(i as int) && occurs_at(
            hay.spec_bytes(),
            needle@,
            i as int,
        ),
        r is None ==> first_occurrence(hay.spec_bytes(), needle@) is None,
{
    let ghost hb = hay.spec_bytes();
    let bytes = hay.as_bytes();
    let n = needle.len();
    let len = bytes.len();
    if n > len {
        proof {
            lemma_first_occurrence_none(hb, needle@);
        }
        return None;
    }
    let last = len - n;
    let mut i: usize = 0;
    loop
        invariant
            n == needle@.len(),
            n <= len == hb.len(),
            last == len - n,
            i <= last,
            bytes@ == hb,
            hay.spec_bytes() == hb,
            forall|j: int| 0 <= j < i ==> !occurs_at(hb, needle@, j),
        ensures
            i == last,
            forall|j: int| 0 <= j <= i ==> !occurs_at(hb, needle@, j),
        decreases last - i,
    {
        if hay.is_char_boundary(i) && hay.is_char_boundary(i + n) && slice_eq_at(bytes, i, needle) {
            proof {
                assert(occurs_at(hb, needle@, i as int));
                lemma_first_occurrence_at(hb, needle@, i as int);
            }
            return Some(i);
        }
        if i == last {
            break;
        }
        i += 1;
    }
    proof {
        assert forall|j: int| !occurs_at(hb, needle@, j) by {
            if occurs_at(hb, needle@, j) {
                assert(j <= i);
            }
        }
        lemma_first_occurrence_none(hb, needle@);
    }
    None
}

/// Whether `needle` equals `hay[off..off + needle.len()]`.
fn slice_eq_at(hay: &[u8], off: usize, needle: &[u8]) -> (r: bool)
    requires
        off + needle@.len() <= hay@.len(),
    ensures
        r == (hay@.subrange(off as int, off + needle@.len()) == needle@),
{
    let mut k: usize = 0;
    while k < needle.len()
        invariant
            k <= needle@.len(),
            off + needle@.len() <= hay.len(),
            forall|j: int| 0 <= j < k ==> hay@[off + j] == needle@[j],
        decreases needle@.len() - k,
    {
        if hay[off + k] != needle[k] {
            assert(hay@.subrange(off as int, off + needle@.len())[k as int] != needle@[k as int]);
            return false;
        }
        k += 1;
    }
    assert(hay@.subrange(off as int, off + needle@.len()) =~= needle@);
    true
}

/// Like a `String`, with the capacity policy of [`BVec`].
pub struct BString {
    vec: BVec<u8>,
}

impl View for BString {
    type V = Seq<char>;

    /// The text.
    closed spec fn view(&self) -> Seq<char> {
        decode_utf8(self.vec@)
    }
}

impl BString {
    /// The bytes are valid UTF-8.
    #[verifier::type_invariant]
    closed spec fn inv(&self) -> bool {
        valid_utf8(self.vec@)
    }

    /// The UTF-8 bytes.
    pub closed spec fn bytes(&self) -> Seq<u8> {
        self.vec@
    }

    /// The number of bytes the buffer holds without growing.
    pub closed spec fn cap(&self) -> nat {
        self.vec.cap()
    }

    /// The bytes are the encoding of the text, within the capacity.
    pub(crate) fn bounds(&self)
        ensures
            self.bytes().len() <= self.cap() <= isize::MAX,
            self.bytes() == encode_utf8(self@),
            valid_utf8(self.bytes()),
    {
        proof {
            use_type_invariant(self);
            vstd::utf8::decode_utf8_encode_utf8(self.vec@);
        }
        self.vec.bounds();
    }

    /// Moves the bytes out, leaving the string empty.
    fn take_vec(&mut self) -> (r: BVec<u8>)
        ensures
            r@ == old(self).bytes(),
            r.cap() == old(self).cap(),
            valid_utf8(r@),
            r@ == encode_utf8(old(self)@),
    {
        proof {
            use_type_invariant(&*self);
            vstd::utf8::decode_utf8_encode_utf8(self.vec@);
            assert(valid_utf8(Seq::<u8>::empty()));
        }
        let mut v = BVec::empty();
        std::mem::swap(&mut v, &mut self.vec);
        v
    }

    /// The label on the tin says "empty". You open it. It's empty.
    pub fn empty() -> (r: Self)
        ensures
            r@ == Seq::<char>::empty(),
            r.bytes() == Seq::<u8>::empty(),
            r.cap() == 0,
    {
        let vec = BVec::empty();
        assert(valid_utf8(vec@));
        BString { vec }
    }

    /// A string holding the text of `s`, exactly as large.
    pub fn from_std_string(s: String) -> (r: Self)
        requires
            encode_utf8(s@).len() <= isize::MAX,
        ensures
            r@ == s@,
            r.bytes() == encode_utf8(s@),
            r.cap() == r.bytes().len(),
    {
        let vec = BVec::from_slice(s.as_str().as_bytes());
        proof {
            vstd::utf8::encode_utf8_valid_utf8(s@);
            vstd::utf8::encode_utf8_decode_utf8(s@);
        }
        BString { vec }
    }

    /// Validates and wraps a byte vector as UTF-8.
    pub fn from_utf8(vec: BVec<u8>) -> (r: Result<Self, Utf8Error>)
        ensures
            r is Ok <==> valid_utf8(vec@),
            r matches Ok(s) ==> s.bytes() == vec@ && s.cap() == vec.cap(),
    {
        if let Err(e) = str_from_utf8(vec.as_slice()) {
            return Err(e);
        }
        Ok(BString { vec })
    }

    /// Converts this string into a byte vector.
    pub fn into_bytes(self) -> (r: BVec<u8>)
        ensures
            r@ == self.bytes(),
            r.cap() == self.cap(),
    {
        self.vec
    }

    /// Validates UTF-8, replacing invalid sequences with U+FFFD. Valid input is kept
    /// as it is, with its capacity.
    pub fn from_utf8_lossy(vec: BVec<u8>) -> (r: Self)
        ensures
            r@ == if valid_utf8(vec@) { decode_utf8(vec@) } else { utf8_lossy(vec@) },
            valid_utf8(vec@) ==> r.bytes() == vec@ && r.cap() == vec.cap(),
    {
        match str_from_utf8(vec.as_slice()) {
            Ok(_) => BString { vec },
            Err(_) => {
                // A copy is needed only for input that holds some invalid UTF-8.
                let text = utf8_lossy_string(vec.as_slice());
                Self::from_std_string(text)
            },
        }
    }

    /// Copies `s`.
    pub fn from_str(s: &str) -> (r: Self)
        requires
            s.spec_bytes().len() <= isize::MAX,
        ensures
            r@ == s@,
            r.bytes() == s.spec_bytes(),
            r.cap() == reserved_capacity(0, 0, s.spec_bytes().len() as int),
    {
        let mut res = Self::empty();
        res.push_str(s);
        res
    }

    /// Decodes UTF-16, replacing unpaired surrogates with U+FFFD.
    pub fn from_utf16_lossy(string: &[u16]) -> (r: Self)
        requires
            6 * string@.len() + 8 <= isize::MAX,
        ensures
            r@ == decode_utf16_lossy(string@),
    {
        let mut res = Self::empty();
        res.push_utf16_lossy(string);
        res
    }

    /// Length in bytes, not characters.
    pub fn len(&self) -> (r: usize)
        ensures
            r == self.bytes().len(),
    {
        self.vec.len()
    }

    /// Total byte capacity of the backing buffer.
    pub fn capacity(&self) -> (r: usize)
        ensures
            r == self.cap(),
    {
        self.vec.capacity()
    }

    /// True if the string is empty.
    pub fn is_empty(&self) -> (r: bool)
        ensures
            r == (self@.len() == 0),
            r == (self.bytes().len() == 0),
    {
        proof {
            use_type_invariant(self);
            vstd::utf8::decode_utf8_encode_utf8(self.vec@);
        }
        self.vec.is_empty()
    }

    /// The raw UTF-8 bytes.
    pub fn as_bytes(&self) -> (r: &[u8])
        ensures
            r@ == self.bytes(),
            r@ == encode_utf8(self@),
    {
        proof {
            use_type_invariant(self);
            vstd::utf8::decode_utf8_encode_utf8(self.vec@);
        }
        self.vec.as_slice()
    }

    /// View as a `&str`.
    pub fn as_str(&self) -> (r: &str)
        ensures
            r@ == self@,
            r.spec_bytes() == self.bytes(),
    {
        proof {
            use_type_invariant(self);
            vstd::utf8::decode_utf8_encode_utf8(self.vec@);
        }
        match str_from_utf8(self.vec.as_slice()) {
            Ok(r) => {
                proof {
                    vstd::utf8::encode_utf8_decode_utf8(r@);
                }
                r
            },
            Err(_) => {
                assert(false);
                ""
            },
        }
    }

    /// Ensures space for at least `additional` more bytes, with amortized growth.
    pub fn reserve(&mut self, additional: usize)
        requires
            can_reserve(old(self).cap() as int, old(self).bytes().len() as int, additional as int),
        ensures
            final(self)@ == old(self)@,
            final(self).bytes() == old(self).bytes(),
            final(self).cap() == reserved_capacity(old(self).cap() as int, old(self).bytes().len() as int, additional as int),
    {
        let mut v = self.take_vec();
        v.reserve(additional);
        self.vec = v;
    }

    /// Ensures space for at least `additional` more bytes, without over-allocating.
    pub fn reserve_exact(&mut self, additional: usize)
        requires
            additional > old(self).cap() - old(self).bytes().len() ==> old(self).bytes().len() + additional <= isize::MAX,
        ensures
            final(self)@ == old(self)@,
            final(self).bytes() == old(self).bytes(),
            final(self).cap() == if additional > old(self).cap() - old(self).bytes().len() {
                old(self).bytes().len() + additional
            } else {
                old(self).cap() as int
            },
    {
        let mut v = self.take_vec();
        v.reserve_exact(additional);
        self.vec = v;
    }

    /// Appends a single `char`, encoding it as UTF-8.
    pub fn push(&mut self, ch: char)
        requires
            can_reserve(old(self).cap() as int, old(self).bytes().len() as int, 4),
        ensures
            final(self)@ == old(self)@.push(ch),
            final(self).bytes() == old(self).bytes() + encode_scalar(ch as u32),
            final(self).cap() == reserved_capacity(old(self).cap() as int, old(self).bytes().len() as int, 4),
    {
        let mut v = self.take_vec();
        let ghost b0 = v@;
        v.push_char(ch);
        proof {
            lemma_encode_single(ch);
            lemma_decode_append(b0, seq![ch]);
        }
        self.vec = v;
    }

    /// Empties the string. The capacity is kept.
    pub fn clear(&mut self)
        ensures
            final(self)@ == Seq::<char>::empty(),
            final(self).bytes() == Seq::<u8>::empty(),
            final(self).cap() == old(self).cap(),
    {
        let mut v = self.take_vec();
        v.clear();
        assert(valid_utf8(v@));
        self.vec = v;
    }

    /// Appends a `&str`.
    pub fn push_str(&mut self, string: &str)
        requires
            can_reserve(old(self).cap() as int, old(self).bytes().len() as int, string.spec_bytes().len() as int),
        ensures
            final(self)@ == old(self)@ + string@,
            final(self).bytes() == old(self).bytes() + string.spec_bytes(),
            final(self).cap() == reserved_capacity(
                old(self).cap() as int,
                old(self).bytes().len() as int,
                string.spec_bytes().len() as int,
            ),
    {
        let mut v = self.take_vec();
        let ghost b0 = v@;
        v.extend_from_slice(string.as_bytes());
        proof {
            lemma_decode_append(b0, string@);
        }
        self.vec = v;
    }

    /// Appends a UTF-16 slice, replacing unpaired surrogates with U+FFFD.
    pub fn push_utf16_lossy(&mut self, string: &[u16])
        requires
            2 * (old(self).bytes().len() + 3 * string@.len()) + 8 <= isize::MAX,
        ensures
            final(self)@ == old(self)@ + decode_utf16_lossy(string@),
    {
        let ghost t0 = self@;
        let n = string.len();
        let mut i: usize = 0;
        proof {
            use_type_invariant(&*self);
            assert(string@.skip(0) =~= string@);
        }
        while i < n
            invariant
                i <= n == string@.len(),
                self@ + decode_utf16_lossy(string@.skip(i as int)) == t0 + decode_utf16_lossy(string@),
                self.bytes().len() + 3 * (n - i) <= old(self).bytes().len() + 3 * n,
                2 * (old(self).bytes().len() + 3 * n) + 8 <= isize::MAX,
            decreases n - i,
        {
            let u = string[i];
            let ghost rest = string@.skip(i as int);
            let c: char;
            if 0xD800 <= u && u <= 0xDBFF && i + 1 < n && 0xDC00 <= string[i + 1] && string[i + 1] <= 0xDFFF {
                let hi = (u - 0xD800) as u32;
                let lo = (string[i + 1] - 0xDC00) as u32;
                let x = 0x10000 + hi * 0x400 + lo;
                c = match char_from_u32(x) {
                    Some(c) => c,
                    None => '\u{FFFD}',
                };
                proof {
                    assert(string@.skip(i as int + 2) =~= rest.skip(2));
                    vstd::utf8::char_u32_cast(c, x);
                    assert(rest[0] == u && rest[1] == string@[i + 1]);
                    assert(decode_utf16_lossy(rest) == seq![c] + decode_utf16_lossy(rest.skip(2)));
                }
                i += 2;
            } else if 0xD800 <= u && u <= 0xDFFF {
                c = '\u{FFFD}';
                proof {
                    assert(string@.skip(i as int + 1) =~= rest.skip(1));
                    assert(rest[0] == u);
                    assert(decode_utf16_lossy(rest) == seq![c] + decode_utf16_lossy(rest.skip(1)));
                }
                i += 1;
            } else {
                c = match char_from_u32(u as u32) {
                    Some(c) => c,
                    None => '\u{FFFD}',
                };
                proof {
                    assert(string@.skip(i as int + 1) =~= rest.skip(1));
                    vstd::utf8::char_u32_cast(c, u as u32);
                    assert(rest[0] == u);
                    assert(decode_utf16_lossy(rest) == seq![c] + decode_utf16_lossy(rest.skip(1)));
                }
                i += 1;
            }
            let ghost before = self@;
            proof {
                assert(before + decode_utf16_lossy(rest) =~= before.push(c) + decode_utf16_lossy(string@.skip(i as int)));
            }
            self.push(c);
        }
        assert(string@.skip(n as int) =~= Seq::<u16>::empty());
        assert(self@ =~= t0 + decode_utf16_lossy(string@));
    }

    /// Appends each `char` of `chars`, after reserving room for one byte each.
    pub fn extend(&mut self, chars: &[char])
        requires
            2 * (old(self).bytes().len() + 4 * chars@.len()) + 8 <= isize::MAX,
        ensures
            final(self)@ == old(self)@ + chars@,
    {
        proof {
            use_type_invariant(&*self);
        }
        let n = chars.len();
        self.reserve(n);
        let ghost t0 = self@;
        let mut i: usize = 0;
        while i < n
            invariant
                i <= n == chars@.len(),
                self@ == t0 + chars@.take(i as int),
                self.bytes().len() <= old(self).bytes().len() + 4 * i,
                2 * (old(self).bytes().len() + 4 * n) + 8 <= isize::MAX,
            decreases n - i,
        {
            self.push(chars[i]);
            i += 1;
            assert(self@ =~= t0 + chars@.take(i as int));
        }
        assert(chars@.take(n as int) =~= chars@);
    }

    /// Appends `total_copies` copies of `ch`.
    pub fn push_repeat(&mut self, ch: char, total_copies: usize)
        requires
            can_reserve(
                old(self).cap() as int,
                old(self).bytes().len() as int,
                encode_scalar(ch as u32).len() * total_copies,
            ),
            encode_scalar(ch as u32).len() * total_copies <= isize::MAX,
        ensures
            final(self)@ == old(self)@ + Seq::new(total_copies as nat, |i: int| ch),
            final(self).cap() == if total_copies > 0 {
                reserved_capacity(
                    old(self).cap() as int,
                    old(self).bytes().len() as int,
                    encode_scalar(ch as u32).len() * total_copies,
                )
            } else {
                old(self).cap() as int
            },
    {
        if total_copies == 0 {
            assert(old(self)@ =~= old(self)@ + Seq::new(0, |i: int| ch));
            return;
        }
        let utf8 = encode_char(ch);
        let mut v = self.take_vec();
        let ghost b0 = v@;
        let w = utf8.len();
        v.bounds();
        proof {
            vstd::utf8::char_is_scalar(ch);
            assert(1 <= w <= 4);
            assert(w * total_copies <= isize::MAX);
        }
        let added_len = w * total_copies;
        v.reserve(added_len);
        let ghost c = v.cap();
        let mut k: usize = 0;
        assert(encode_utf8(Seq::new(0, |i: int| ch)) =~= Seq::<u8>::empty());
        assert(b0 + encode_utf8(Seq::new(0, |i: int| ch)) =~= b0);
        while k < total_copies
            invariant
                k <= total_copies,
                utf8@ == encode_scalar(ch as u32),
                w == utf8@.len(),
                1 <= w <= 4,
                added_len == w * total_copies,
                v@ == b0 + encode_utf8(Seq::new(k as nat, |i: int| ch)),
                v@.len() == b0.len() + w * k,
                b0.len() + added_len <= c,
                v.cap() == c,
            decreases total_copies - k,
        {
            proof {
                assert(w * (k + 1) <= w * total_copies) by (nonlinear_arith)
                    requires
                        k < total_copies,
                        w >= 1,
                ;
                assert(w * (k + 1) == w * k + w) by (nonlinear_arith);
            }
            v.extend_from_slice(utf8.as_slice());
            proof {
                let s0 = Seq::new(k as nat, |i: int| ch);
                let s1 = Seq::new((k + 1) as nat, |i: int| ch);
                assert(s1 =~= s0 + seq![ch]);
                lemma_encode_append(s0, seq![ch]);
                lemma_encode_single(ch);
            }
            k += 1;
        }
        proof {
            lemma_decode_append(b0, Seq::new(total_copies as nat, |i: int| ch));
        }
        self.vec = v;
    }

    /// Replaces the bytes in `range` with `replace_with`. Both ends of the range must be
    /// character boundaries; an end before the start deletes nothing.
    pub fn replace_range(&mut self, range: Range<usize>, replace_with: &str)
        requires
            is_char_boundary(old(self).bytes(), range.start as int),
            is_char_boundary(old(self).bytes(), range.end as int),
            ({
                let del = if range.end >= range.start { range.end - range.start } else { 0 };
                replace_with.spec_bytes().len() > del ==> can_reserve(
                    old(self).cap() as int,
                    old(self).bytes().len() as int,
                    replace_with.spec_bytes().len() - del,
                )
            }),
        ensures
            ({
                let b = old(self).bytes();
                let e = if range.end >= range.start { range.end as int } else { range.start as int };
                let del = e - range.start;
                &&& final(self).bytes() == b.take(range.start as int) + replace_with.spec_bytes() + b.skip(e)
                &&& final(self)@ == decode_utf8(b.take(range.start as int)) + replace_with@ + decode_utf8(b.skip(e))
                &&& final(self).cap() == if replace_with.spec_bytes().len() > del {
                    reserved_capacity(
                        old(self).cap() as int,
                        b.len() as int,
                        replace_with.spec_bytes().len() - del,
                    )
                } else {
                    old(self).cap() as int
                }
            }),
    {
        proof {
            use_type_invariant(&*self);
        }
        let ghost b = self.vec@;
        let ghost e = if range.end >= range.start { range.end as int } else { range.start as int };
        proof {
            vstd::utf8::valid_utf8_split(b, range.start as int);
            vstd::utf8::valid_utf8_split(b, e);
            assert(b.take(range.start as int) =~= b.subrange(0, range.start as int));
            assert(b.skip(e) =~= b.subrange(e, b.len() as int));
        }
        let mut v = self.take_vec();
        v.replace_range(range, replace_with.as_bytes());
        proof {
            let head = b.take(range.start as int);
            let tail = b.skip(e);
            lemma_decode_append(head, replace_with@);
            lemma_decode_concat(head + replace_with.spec_bytes(), tail);
            assert(v@ =~= head + replace_with.spec_bytes() + tail);
        }
        self.vec = v;
    }

    /// Finds the first occurrence of `pattern` and replaces it with `replacement`. Only performs one
    /// replacement; without an occurrence nothing changes.
    #[verifier::spinoff_prover]
    pub fn replace_once_in_place(&mut self, pattern: &str, replacement: &str)
        requires
            old(self).bytes().len() + replacement.spec_bytes().len() <= isize::MAX / 4,
            old(self).cap() <= isize::MAX / 4,
        ensures
            match first_occurrence(old(self).bytes(), pattern.spec_bytes()) {
                None => final(self)@ == old(self)@ && final(self).bytes() == old(self).bytes(),
                Some(i) => {
                    let b = old(self).bytes();
                    &&& final(self).bytes() == b.take(i) + replacement.spec_bytes() + b.skip(i + pattern.spec_bytes().len())
                    &&& final(self)@ == decode_utf8(b.take(i)) + replacement@ + decode_utf8(
                        b.skip(i + pattern.spec_bytes().len()),
                    )
                },
            },
    {
        let ghost b = self.bytes();
        let ghost p = pattern.spec_bytes();
        let found = find_at_boundaries(self.as_str(), pattern.as_bytes());
        match found {
            Some(i) => {
                let n = pattern.as_bytes().len();
                proof {
                    assert(occurs_at(b, p, i as int));
                    assert(is_char_boundary(b, i as int));
                    assert(is_char_boundary(b, i + n));
                }
                self.replace_range(i..i + n, replacement);
            },
            None => {},
        }
    }
}

} // verus!
