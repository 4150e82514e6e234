//! 256-bit byte sets.

use vstd::prelude::*;
use vstd::std_specs::bits::u64_trailing_zeros;
use vstd::std_specs::bits::axiom_u64_trailing_zeros;
use std::ops::RangeInclusive;
use vstd::std_specs::range::ContainsSpec;
use vstd::std_specs::cmp::PartialEqSpecImpl;
use crate::text::{join, push_char, text};

verus! {

/// Whether bit `i` of `w` is set.
pub open spec fn word_has(w: u64, i: u64) -> bool {
    (w >> i) & 1u64 == 1u64
}

proof fn lemma_mask_test(w: u64, i: u64)
    requires
        i < 64,
    ensures
        ((w & (1u64 << i)) != 0u64) == word_has(w, i),
{
    assert(((w & (1u64 << i)) != 0u64) == ((w >> i) & 1u64 == 1u64)) by (bit_vector)
        requires
            i < 64,
    ;
}

proof fn lemma_set_bit(w: u64, i: u64, j: u64)
    requires
        i < 64,
        j < 64,
    ensures
        word_has(w | (1u64 << i), j) == (j == i || word_has(w, j)),
        word_has(w & !(1u64 << i), j) == (j != i && word_has(w, j)),
{
    assert(((w | (1u64 << i)) >> j) & 1u64 == 1u64 <==> (j == i || (w >> j) & 1u64 == 1u64))
        by (bit_vector)
        requires
            i < 64,
            j < 64,
    ;
    assert(((w & !(1u64 << i)) >> j) & 1u64 == 1u64 <==> (j != i && (w >> j) & 1u64 == 1u64))
        by (bit_vector)
        requires
            i < 64,
            j < 64,
    ;
}

proof fn lemma_word_ops(a: u64, b: u64, j: u64)
    requires
        j < 64,
    ensures
        word_has(a | b, j) == (word_has(a, j) || word_has(b, j)),
        word_has(a & b, j) == (word_has(a, j) && word_has(b, j)),
        word_has(!a, j) == !word_has(a, j),
        word_has(u64::MAX, j),
        !word_has(0u64, j),
{
    assert(((a | b) >> j) & 1u64 == 1u64 <==> ((a >> j) & 1u64 == 1u64 || (b >> j) & 1u64
        == 1u64)) by (bit_vector)
        requires
            j < 64,
    ;
    assert(((a & b) >> j) & 1u64 == 1u64 <==> ((a >> j) & 1u64 == 1u64 && (b >> j) & 1u64
        == 1u64)) by (bit_vector)
        requires
            j < 64,
    ;
    assert(((!a) >> j) & 1u64 == 1u64 <==> !((a >> j) & 1u64 == 1u64)) by (bit_vector)
        requires
            j < 64,
    ;
    assert((u64::MAX >> j) & 1u64 == 1u64) by (bit_vector)
        requires
            j < 64,
    ;
    assert(!((0u64 >> j) & 1u64 == 1u64)) by (bit_vector);
}

proof fn lemma_high_mask(s: u64, j: u64)
    requires
        s < 64,
        j < 64,
    ensures
        word_has(u64::MAX << s, j) == (j >= s),
{
    assert(((u64::MAX << s) >> j) & 1u64 == 1u64 <==> j >= s) by (bit_vector)
        requires
            s < 64,
            j < 64,
    ;
}

/// A word is zero exactly when none of its 64 bits is set.
proof fn lemma_word_zero(w: u64)
    ensures
        (w == 0u64) == (forall|j: u64| j < 64 ==> !#[trigger] word_has(w, j)),
{
    if w == 0u64 {
        assert forall|j: u64| j < 64 implies !#[trigger] word_has(w, j) by {
            lemma_word_ops(w, w, j);
        }
    } else {
        axiom_u64_trailing_zeros(w);
        let t = u64_trailing_zeros(w) as u64;
        assert(word_has(w, t));
    }
}

/// The first byte of an inclusive range.
pub assume_specification<Idx>[ RangeInclusive::<Idx>::start ](r: &RangeInclusive<Idx>) -> (res: &Idx)
    ensures
        *res == r@.start,
;

/// The last byte of an inclusive range.
pub assume_specification<Idx>[ RangeInclusive::<Idx>::end ](r: &RangeInclusive<Idx>) -> (res: &Idx)
    ensures
        *res == r@.end,
;

/// Whether `b` lies in the bytes that `Charset::set_range` writes for `start..=end`.
///
/// For a non-empty range these are exactly the bytes of the range. For an empty
/// range (`start > end`) whose ends lie in different 64-bit words, the bytes from
/// `start` up to the end of its word are written as well.
pub open spec fn in_set_range(start: u8, end: u8, b: u8) -> bool {
    (start <= b && b <= end) || (end < start && end / 64 < start / 64 && start <= b && b / 64
        == start / 64)
}

/// The ASCII letter of the other case, or `b` itself for any other byte.
pub open spec fn ascii_other_case(b: u8) -> u8 {
    if 97 <= b && b <= 122 {
        (b - 32) as u8
    } else if 65 <= b && b <= 90 {
        (b + 32) as u8
    } else {
        b
    }
}

/// Whether `b` is an ASCII letter.
pub open spec fn is_ascii_letter(b: u8) -> bool {
    (97 <= b && b <= 122) || (65 <= b && b <= 90)
}

/// Whether bit `i` of `w` is set.
pub open spec fn word16_has(w: u16, i: u16) -> bool {
    (w >> i) & 1u16 == 1u16
}

proof fn lemma_word16(w: u16, i: u16, j: u16)
    requires
        i < 16,
        j < 16,
    ensures
        word16_has(w | (1u16 << i), j) == (j == i || word16_has(w, j)),
        !word16_has(0u16, j),
{
    assert(((w | (1u16 << i)) >> j) & 1u16 == 1u16 <==> (j == i || (w >> j) & 1u16 == 1u16))
        by (bit_vector)
        requires
            i < 16,
            j < 16,
    ;
    assert(!((0u16 >> j) & 1u16 == 1u16)) by (bit_vector);
}

/// A set of bytes, stored as a 256-bit bitmap of four 64-bit words.
#[derive(Clone, Copy, Eq, Hash)]
pub struct Charset {
    bits: [u64; 4],
}

impl Charset {
    /// Whether byte `b` is in the set.
    pub closed spec fn has(&self, b: u8) -> bool {
        word_has(self.bits[b as int / 64], (b as int % 64) as u64)
    }

    /// The bytes in the set.
    pub closed spec fn view(&self) -> Set<u8> {
        Set::new(|b: u8| self.has(b))
    }

    /// The empty set.
    pub fn no() -> (r: Charset)
        ensures
            r.view() == Set::<u8>::empty(),
    {
        let r = Charset { bits: [0u64; 4] };
        assert forall|b: u8| !r.view().contains(b) by {
            lemma_word_ops(0u64, 0u64, (b as int % 64) as u64);
        }
        assert(r.view() =~= Set::<u8>::empty());
        r
    }

    /// The set of all 256 bytes.
    pub fn yes() -> (r: Charset)
        ensures
            r.view() == Set::<u8>::full(),
    {
        let r = Charset { bits: [u64::MAX; 4] };
        assert forall|b: u8| r.view().contains(b) by {
            lemma_word_ops(0u64, 0u64, (b as int % 64) as u64);
        }
        assert(r.view() =~= Set::<u8>::full());
        r
    }

    /// Whether byte `b` is in the set.
    pub fn get(&self, b: u8) -> (r: bool)
        ensures
            r == self.view().contains(b),
    {
        let hi = (b as usize) / 64;
        let lo = (b as u64) % 64;
        proof {
            lemma_mask_test(self.bits[hi as int], lo);
        }
        (self.bits[hi] & (1u64 << lo)) != 0
    }

    /// Adds (`value == true`) or removes (`value == false`) byte `index`.
    pub fn set(&mut self, index: u8, value: bool)
        ensures
            final(self).view() == (if value {
                old(self).view().insert(index)
            } else {
                old(self).view().remove(index)
            }),
    {
        let hi = (index as usize) / 64;
        let lo = (index as u64) % 64;
        let w = self.bits[hi];
        self.bits[hi] = if value {
            w | (1u64 << lo)
        } else {
            w & !(1u64 << lo)
        };
        proof {
            let new = *self;
            assert forall|b: u8| #[trigger] new.view().contains(b) == (if value {
                old(self).view().insert(index)
            } else {
                old(self).view().remove(index)
            }).contains(b) by {
                lemma_set_bit(w, lo, (b as int % 64) as u64);
            }
            assert(new.view() =~= (if value {
                old(self).view().insert(index)
            } else {
                old(self).view().remove(index)
            }));
        }
    }

    /// Replaces the set by its complement.
    pub fn invert(&mut self)
        ensures
            final(self).view() == old(self).view().complement(),
    {
        let ghost orig = self.bits;
        let mut i: usize = 0;
        while i < 4
            invariant
                i <= 4,
                forall|k: int| 0 <= k < i ==> self.bits[k] == !orig[k],
                forall|k: int| i <= k < 4 ==> self.bits[k] == orig[k],
            decreases 4 - i,
        {
            let w = self.bits[i];
            self.bits[i] = !w;
            i += 1;
        }
        proof {
            let new = *self;
            assert forall|b: u8| #[trigger] new.view().contains(b) == !old(self).view().contains(b) by {
                lemma_word_ops(orig[b as int / 64], 0u64, (b as int % 64) as u64);
            }
            assert(new.view() =~= old(self).view().complement());
        }
    }

    /// Removes and returns the smallest byte of the set, or `None` when the set is empty.
    pub fn get_and_reset_lowest(&mut self) -> (r: Option<u8>)
        ensures
            r is None <==> old(self).view() == Set::<u8>::empty(),
            r is None ==> final(self).view() == old(self).view(),
            r matches Some(b) ==> {
                &&& old(self).view().contains(b)
                &&& forall|c: u8| c < b ==> !old(self).view().contains(c)
                &&& final(self).view() == old(self).view().remove(b)
            },
    {
        let ghost orig = *self;
        let mut hi: usize = 0;
        while hi < 4
            invariant
                hi <= 4,
                *self == orig,
                *old(self) == orig,
                forall|k: int| 0 <= k < hi ==> self.bits[k] == 0u64,
            decreases 4 - hi,
        {
            let w = self.bits[hi];
            if w != 0 {
                let lo = w.trailing_zeros() as u64;
                proof {
                    axiom_u64_trailing_zeros(w);
                }
                self.bits[hi] = w & !(1u64 << lo);
                let b = (hi as u64 * 64 + lo) as u8;
                proof {
                    let new = *self;
                    assert(b as int / 64 == hi as int && b as int % 64 == lo as int);
                    assert(orig.view().contains(b));
                    assert forall|c: u8| c < b implies !orig.view().contains(c) by {
                        if c as int / 64 < hi as int {
                            lemma_word_ops(0u64, 0u64, (c as int % 64) as u64);
                        } else {
                            assert((w >> ((c as int % 64) as u64)) & 1u64 == 0u64);
                        }
                    }
                    assert forall|c: u8| #[trigger] new.view().contains(c) == orig.view().remove(b).contains(c) by {
                        lemma_set_bit(w, lo, (c as int % 64) as u64);
                    }
                    assert(new.view() =~= orig.view().remove(b));
                    assert(!Set::<u8>::empty().contains(b));
                    assert(orig == *old(self));
                }
                return Some(b);
            }
            hi += 1;
        }
        proof {
            assert forall|c: u8| !orig.view().contains(c) by {
                lemma_word_ops(0u64, 0u64, (c as int % 64) as u64);
            }
            assert(orig.view() =~= Set::<u8>::empty());
        }
        None
    }

    /// Whether the set is empty.
    pub fn covers_none(&self) -> (r: bool)
        ensures
            r == (self.view() == Set::<u8>::empty()),
    {
        let mut i: usize = 0;
        while i < 4
            invariant
                i <= 4,
                forall|k: int| 0 <= k < i ==> self.bits[k] == 0u64,
            decreases 4 - i,
        {
            if self.bits[i] != 0 {
                proof {
                    let w = self.bits[i as int];
                    axiom_u64_trailing_zeros(w);
                    let t = u64_trailing_zeros(w) as u64;
                    let b = (i as int * 64 + t) as u8;
                    assert(b as int / 64 == i as int && b as int % 64 == t as int);
                    assert(self.view().contains(b));
                    assert(!Set::<u8>::empty().contains(b));
                }
                return false;
            }
            i += 1;
        }
        proof {
            assert forall|c: u8| !self.view().contains(c) by {
                lemma_word_ops(0u64, 0u64, (c as int % 64) as u64);
            }
            assert(self.view() =~= Set::<u8>::empty());
        }
        true
    }

    /// Whether the set holds all 256 bytes.
    pub fn covers_all(&self) -> (r: bool)
        ensures
            r == (self.view() == Set::<u8>::full()),
    {
        let mut i: usize = 0;
        while i < 4
            invariant
                i <= 4,
                forall|k: int| 0 <= k < i ==> self.bits[k] == u64::MAX,
            decreases 4 - i,
        {
            if self.bits[i] != u64::MAX {
                proof {
                    let w = self.bits[i as int];
                    let nw = !w;
                    assert(nw != 0u64) by (bit_vector)
                        requires
                            w != u64::MAX,
                            nw == !w,
                    ;
                    axiom_u64_trailing_zeros(nw);
                    let t = u64_trailing_zeros(nw) as u64;
                    lemma_word_ops(w, w, t);
                    let b = (i as int * 64 + t) as u8;
                    assert(b as int / 64 == i as int && b as int % 64 == t as int);
                    assert(!self.view().contains(b));
                    assert(Set::<u8>::full().contains(b));
                }
                return false;
            }
            i += 1;
        }
        proof {
            assert forall|c: u8| self.view().contains(c) by {
                lemma_word_ops(0u64, 0u64, (c as int % 64) as u64);
            }
            assert(self.view() =~= Set::<u8>::full());
        }
        true
    }

    /// Adds all bytes of `other` to the set.
    pub fn merge(&mut self, other: &Charset)
        ensures
            final(self).view() == old(self).view().union(other.view()),
    {
        let ghost orig = self.bits;
        let mut i: usize = 0;
        while i < 4
            invariant
                i <= 4,
                forall|k: int| 0 <= k < i ==> self.bits[k] == orig[k] | other.bits[k],
                forall|k: int| i <= k < 4 ==> self.bits[k] == orig[k],
            decreases 4 - i,
        {
            let w = self.bits[i];
            self.bits[i] = w | other.bits[i];
            i += 1;
        }
        proof {
            let new = *self;
            assert forall|b: u8| #[trigger] new.view().contains(b) == old(self).view().union(other.view()).contains(b) by {
                lemma_word_ops(orig[b as int / 64], other.bits[b as int / 64], (b as int % 64) as u64);
            }
            assert(new.view() =~= old(self).view().union(other.view()));
        }
    }

    /// Whether every byte of `other` is in the set.
    pub fn is_superset_of(&self, other: &Charset) -> (r: bool)
        ensures
            r == other.view().subset_of(self.view()),
    {
        let mut i: usize = 0;
        while i < 4
            invariant
                i <= 4,
                forall|k: int| 0 <= k < i ==> other.bits[k] & !self.bits[k] == 0u64,
            decreases 4 - i,
        {
            let s = self.bits[i];
            let o = other.bits[i];
            if (o & !s) != 0 {
                proof {
                    let x = o & !s;
                    axiom_u64_trailing_zeros(x);
                    let t = u64_trailing_zeros(x) as u64;
                    lemma_word_ops(o, !s, t);
                    lemma_word_ops(s, s, t);
                    let b = (i as int * 64 + t) as u8;
                    assert(b as int / 64 == i as int && b as int % 64 == t as int);
                    assert(other.view().contains(b) && !self.view().contains(b));
                }
                return false;
            }
            i += 1;
        }
        proof {
            assert forall|b: u8| other.view().contains(b) implies self.view().contains(b) by {
                let k = b as int / 64;
                let j = (b as int % 64) as u64;
                lemma_word_zero(other.bits[k] & !self.bits[k]);
                lemma_word_ops(other.bits[k], !self.bits[k], j);
                lemma_word_ops(self.bits[k], self.bits[k], j);
            }
        }
        true
    }

    /// Adds (`value == true`) or removes (`value == false`) the bytes of `range`.
    pub fn set_range(&mut self, range: RangeInclusive<u8>, value: bool)
        ensures
            forall|b: u8| #[trigger] final(self).view().contains(b) == (if in_set_range(range@.start, range@.end, b) {
                value
            } else {
                old(self).view().contains(b)
            }),
    {
        let start = *range.start() as u64;
        let end = *range.end() as u64;

        let start_word = (start / 64) as usize;
        let start_bit = start % 64;
        let end_word = (end / 64) as usize;
        let end_bit = end % 64;
        let ghost orig = self.bits;

        // Save the bits above end_bit in the last word before we overwrite it
        let shift = end_bit + 1;
        let tail_mask = if shift < 64 { u64::MAX << shift } else { 0 };
        let saved_tail = self.bits[end_word] & tail_mask;

        // Write the starting bits of the first word
        let mask = u64::MAX << start_bit;
        let w = self.bits[start_word];
        self.bits[start_word] = if value { w | mask } else { w & !mask };
        let ghost first = self.bits[start_word as int];

        // Fill the full words in between, if any
        let fill = if value { u64::MAX } else { 0u64 };
        let mut word = start_word + 1;
        while word <= end_word
            invariant
                start_word < word <= end_word + 1 || (word == start_word + 1 && end_word < word),
                end_word < 4,
                start_word < 4,
                self.bits[start_word as int] == first,
                forall|k: int| start_word < k < word ==> self.bits[k] == fill,
                forall|k: int| 0 <= k < 4 && k != start_word && !(start_word < k < word) ==> self.bits[k] == orig[k],
            decreases end_word + 1 - word,
        {
            self.bits[word] = fill;
            word += 1;
        }

        // Restore the trailing bits of the last word
        let e = self.bits[end_word];
        self.bits[end_word] = (e & !tail_mask) | saved_tail;

        proof {
            let new = *self;
            assert forall|b: u8| #[trigger] new.view().contains(b) == (if in_set_range(range@.start, range@.end, b) {
                value
            } else {
                old(self).view().contains(b)
            }) by {
                let k = b as int / 64;
                let j = (b as int % 64) as u64;
                lemma_word_ops(e & !tail_mask, saved_tail, j);
                lemma_word_ops(e, !tail_mask, j);
                lemma_word_ops(tail_mask, tail_mask, j);
                lemma_word_ops(orig[end_word as int], tail_mask, j);
                lemma_word_ops(w, mask, j);
                lemma_word_ops(w, !mask, j);
                lemma_word_ops(mask, mask, j);
                lemma_high_mask(start_bit, j);
                if shift < 64 {
                    lemma_high_mask(shift, j);
                } else {
                    lemma_word_ops(0u64, 0u64, j);
                }
                lemma_word_ops(fill, fill, j);
            }
        }
    }

    /// Whether every byte of `range` is in the set.
    pub fn covers_range(&self, range: RangeInclusive<u8>) -> (r: bool)
        ensures
            r == (forall|b: u8| #[trigger] range.contains_spec(&b) ==> self.view().contains(b)),
    {
        let mut b: u16 = 0;
        while b < 256
            invariant
                b <= 256,
                forall|c: u8| c < b && #[trigger] range.contains_spec(&c) ==> self.view().contains(c),
            decreases 256 - b,
        {
            let c = b as u8;
            if range.contains(&c) && !self.get(c) {
                return false;
            }
            b += 1;
        }
        true
    }

    /// Adds the opposite case of every ASCII letter in the set.
    pub fn fold_case(&mut self)
        ensures
            forall|b: u8| #[trigger] final(self).view().contains(b) == (old(self).view().contains(b) || (
            is_ascii_letter(b) && old(self).view().contains(ascii_other_case(b)))),
    {
        let ghost orig = self.view();
        let mut lower: u8 = 97;
        while lower <= 122
            invariant
                97 <= lower <= 123,
                forall|b: u8| #[trigger] self.view().contains(b) == (orig.contains(b) || (
                is_ascii_letter(b) && (if b <= 90 { b + 32 } else { b as int }) < lower
                    && orig.contains(ascii_other_case(b)))),
            decreases 123 - lower,
        {
            let upper = lower - 32;
            if self.get(lower) || self.get(upper) {
                self.set(lower, true);
                self.set(upper, true);
            }
            lower += 1;
        }
    }

    /// The set as sixteen 16-bit words, transposed for table lookups: bit `hi` of
    /// word `lo` says whether byte `hi * 16 + lo` is in the set.
    pub fn serialize(&self) -> (r: [u16; 16])
        ensures
            forall|lo: u16, hi: u16| lo < 16 && hi < 16 ==> #[trigger] word16_has(r[lo as int], hi)
                == self.view().contains((hi * 16 + lo) as u8),
    {
        let mut arr = [0u16; 16];
        let mut lo: u16 = 0;
        while lo < 16
            invariant
                lo <= 16,
                forall|l: u16, h: u16| l < lo && h < 16 ==> #[trigger] word16_has(arr[l as int], h)
                    == self.view().contains((h * 16 + l) as u8),
            decreases 16 - lo,
        {
            let mut u = 0u16;
            let mut hi: u16 = 0;
            proof {
                assert forall|h: u16| h < 16 implies !#[trigger] word16_has(u, h) by {
                    lemma_word16(0u16, 0u16, h);
                }
            }
            while hi < 16
                invariant
                    hi <= 16,
                    lo < 16,
                    forall|h: u16| h < 16 ==> #[trigger] word16_has(u, h) == (h < hi
                        && self.view().contains((h * 16 + lo) as u8)),
                decreases 16 - hi,
            {
                let c = self.get((hi * 16 + lo) as u8);
                let ghost prev = u;
                if c {
                    u = u | (1u16 << hi);
                }
                proof {
                    assert forall|h: u16| h < 16 implies #[trigger] word16_has(u, h) == (h < hi + 1
                        && self.view().contains((h * 16 + lo) as u8)) by {
                        lemma_word16(prev, hi, h);
                    }
                }
                hi += 1;
            }
            arr[lo as usize] = u;
            lo += 1;
        }
        arr
    }
}

impl PartialEq for Charset {
    fn eq(&self, other: &Charset) -> (r: bool) {
        proof {
            Charset::lemma_eq_view(*self, *other);
            if self.bits[0] == other.bits[0] && self.bits[1] == other.bits[1] && self.bits[2]
                == other.bits[2] && self.bits[3] == other.bits[3] {
                assert(self.bits =~= other.bits);
            }
        }
        self.bits[0] == other.bits[0] && self.bits[1] == other.bits[1] && self.bits[2]
            == other.bits[2] && self.bits[3] == other.bits[3]
    }
}

impl PartialEqSpecImpl for Charset {
    open spec fn obeys_eq_spec() -> bool {
        true
    }

    open spec fn eq_spec(&self, other: &Charset) -> bool {
        self.view() == other.view()
    }
}

impl Default for Charset {
    fn default() -> (r: Charset)
        ensures
            r.view() == Set::<u8>::empty(),
    {
        Charset::no()
    }
}

impl Charset {
    /// Two charsets are equal exactly when they hold the same bytes.
    pub proof fn lemma_eq_view(a: Charset, b: Charset)
        ensures
            (a == b) == (a.view() == b.view()),
    {
        if a.view() == b.view() {
            assert forall|k: int| 0 <= k < 4 implies a.bits[k] == b.bits[k] by {
                assert forall|j: u64| j < 64 implies word_has(a.bits[k], j) == word_has(b.bits[k], j) by {
                    let c = (k * 64 + j) as u8;
                    assert(c as int / 64 == k && c as int % 64 == j);
                    assert(a.view().contains(c) == b.view().contains(c));
                }
                lemma_words_eq(a.bits[k], b.bits[k]);
            }
            assert(a.bits =~= b.bits);
        }
    }
}

proof fn lemma_words_eq(x: u64, y: u64)
    requires
        forall|j: u64| j < 64 ==> word_has(x, j) == word_has(y, j),
    ensures
        x == y,
{
    let d = x ^ y;
    if d != 0 {
        axiom_u64_trailing_zeros(d);
        let t = u64_trailing_zeros(d) as u64;
        assert(word_has(x, t) == word_has(y, t));
        assert(((x ^ y) >> t) & 1u64 == 0u64) by (bit_vector)
            requires
                t < 64,
                ((x >> t) & 1u64 == 1u64) == ((y >> t) & 1u64 == 1u64),
        ;
    }
    assert(x == y) by (bit_vector)
        requires
            x ^ y == 0u64,
    ;
}

/// The first member of `s` at or after position `i`, or 256 if there is none.
pub open spec fn next_in(s: Set<u8>, i: int) -> int
    decreases 256 - i,
{
    if i >= 256 {
        256
    } else if 0 <= i && s.contains(i as u8) {
        i
    } else {
        next_in(s, i + 1)
    }
}

/// The first position at or after `i` that is not in `s`, or 256 if there is none.
pub open spec fn next_out(s: Set<u8>, i: int) -> int
    decreases 256 - i,
{
    if i >= 256 {
        256
    } else if 0 <= i && !s.contains(i as u8) {
        i
    } else {
        next_out(s, i + 1)
    }
}

/// Where `next_in` lands, and that it skips only non-members.
pub proof fn lemma_next_in(s: Set<u8>, i: int)
    requires
        0 <= i <= 256,
    ensures
        i <= next_in(s, i) <= 256,
        next_in(s, i) < 256 ==> s.contains(next_in(s, i) as u8),
        forall|j: int| i <= j < next_in(s, i) ==> !s.contains(#[trigger] (j as u8)),
    decreases 256 - i,
{
    if i < 256 && !s.contains(i as u8) {
        lemma_next_in(s, i + 1);
    }
}

/// Where `next_out` lands, and that it skips only members.
pub proof fn lemma_next_out(s: Set<u8>, i: int)
    requires
        0 <= i <= 256,
    ensures
        i <= next_out(s, i) <= 256,
        forall|j: int| i <= j < next_out(s, i) ==> s.contains(#[trigger] (j as u8)),
    decreases 256 - i,
{
    if i < 256 && s.contains(i as u8) {
        lemma_next_out(s, i + 1);
    }
}

/// An uppercase hexadecimal digit.
pub open spec fn hex_digit(d: int) -> char {
    if d < 10 {
        (48 + d) as char
    } else {
        (55 + d) as char
    }
}

/// How a byte is shown: `&quot;` for `"`, printable ASCII as itself, anything else
/// as `0x` and two hexadecimal digits.
pub open spec fn show_byte(b: int) -> Seq<char> {
    if b == 34 {
        "&quot;"@
    } else if 0x21 <= b <= 0x7e {
        seq![b as char]
    } else {
        seq!['0', 'x', hex_digit(b / 16), hex_digit(b % 16)]
    }
}

/// The runs of consecutive members of `s` from position `i` on, each shown as its first
/// byte, or its first and last byte with a `-` between, separated by `, `.
pub open spec fn runs_text(s: Set<u8>, i: int, first: bool) -> Seq<char>
    decreases 256 - i,
{
    if 0 <= i <= 256 {
        let b = next_in(s, i);
        if b >= 256 {
            Seq::empty()
        } else {
            let e = next_out(s, b);
            proof {
                lemma_next_in(s, i);
                lemma_next_out(s, b);
                lemma_next_out(s, b + 1);
            }
            let sep = if first { Seq::empty() } else { ", "@ };
            let last = if e - b > 1 { "-"@ + show_byte(e - 1) } else { Seq::empty() };
            sep + show_byte(b) + last + runs_text(s, e, false)
        }
    } else {
        Seq::empty()
    }
}

/// One run, from `b` up to (not including) `e`, after a separator unless it is the first.
pub open spec fn run_text(b: int, e: int, first: bool) -> Seq<char> {
    let sep = if first { Seq::empty() } else { ", "@ };
    let last = if e - b > 1 { "-"@ + show_byte(e - 1) } else { Seq::empty() };
    sep + show_byte(b) + last
}

proof fn lemma_runs_step(s: Set<u8>, i: int, first: bool)
    requires
        0 <= i <= 256,
    ensures
        next_in(s, i) >= 256 ==> runs_text(s, i, first) == Seq::<char>::empty(),
        next_in(s, i) < 256 ==> runs_text(s, i, first) == run_text(next_in(s, i), next_out(s, next_in(s, i)), first)
            + runs_text(s, next_out(s, next_in(s, i)), false),
{
}

/// `out` followed by how byte `b` is shown.
fn push_byte(out: String, b: u8) -> (r: String)
    ensures
        r@ == out@ + show_byte(b as int),
{
    let mut out = out;
    if b == 34 {
        join(out, "&quot;")
    } else if 0x21 <= b && b <= 0x7e {
        let ghost o = out@;
        push_char(&mut out, b as char);
        assert(out@ =~= o + show_byte(b as int));
        out
    } else {
        let ghost o = out@;
        let hi = b / 16;
        let lo = b % 16;
        push_char(&mut out, '0');
        push_char(&mut out, 'x');
        push_char(&mut out, if hi < 10 { (48 + hi) as char } else { (55 + hi) as char });
        push_char(&mut out, if lo < 10 { (48 + lo) as char } else { (55 + lo) as char });
        assert(out@ =~= o + show_byte(b as int));
        out
    }
}

/// `out` followed by the run from `beg` up to `end`.
fn push_run(out: String, beg: u8, end: usize, first: bool) -> (r: String)
    requires
        beg < end <= 256,
    ensures
        r@ == out@ + run_text(beg as int, end as int, first),
{
    let ghost o = out@;
    let mut out = out;
    if !first {
        out = join(out, ", ");
    }
    out = push_byte(out, beg);
    if end - (beg as usize) > 1 {
        out = join(out, "-");
        out = push_byte(out, (end - 1) as u8);
    }
    assert(out@ =~= o + run_text(beg as int, end as int, first));
    out
}

impl Charset {
    /// The set as text, as its `Debug` form shows it: its runs of bytes in brackets,
    /// such as `[0x00-0x1F, A-Z, a]`.
    #[verifier::spinoff_prover]
    pub fn debug_string(&self) -> (r: String)
        ensures
            r@ == "["@ + runs_text(self.view(), 0, true) + "]"@,
    {
        let ghost v = self.view();
        let ghost full = "["@ + runs_text(v, 0, true);
        let mut out = text("[");
        let mut beg: usize = 0;
        let mut first = true;
        while beg < 256
            invariant_except_break
                beg <= 256,
                out@ + runs_text(v, beg as int, first) == full,
                v == self.view(),
            ensures
                out@ == full,
            decreases 256 - beg,
        {
            let ghost beg0 = beg as int;
            proof {
                lemma_next_in(v, beg0);
            }
            while beg < 256 && !self.get(beg as u8)
                invariant
                    beg0 <= beg <= 256,
                    next_in(v, beg0) == next_in(v, beg as int),
                    v == self.view(),
                decreases 256 - beg,
            {
                beg += 1;
            }
            if beg >= 256 {
                proof {
                    lemma_runs_step(v, beg0, first);
                }
                assert(out@ =~= full);
                break;
            }
            let mut end = beg + 1;
            proof {
                lemma_next_out(v, beg as int);
            }
            assert(next_out(v, beg as int) == next_out(v, end as int));
            while end < 256 && self.get(end as u8)
                invariant
                    beg < end <= 256,
                    next_out(v, beg as int) == next_out(v, end as int),
                    v == self.view(),
                decreases 256 - end,
            {
                end += 1;
            }
            proof {
                lemma_runs_step(v, beg0, first);
            }
            out = push_run(out, beg as u8, end, first);
            beg = end;
            first = false;
        }
        join(out, "]")
    }
}

} // verus!
