//! A vector with an explicit capacity policy.

use vstd::prelude::*;
use std::ops::Range;
use vstd::utf8::encode_scalar;
use crate::unicode::decode::{decode_at, first_unit};
use vstd::utf8::{valid_first_scalar, decode_first_scalar, length_of_first_scalar, codepoint_width_1, codepoint_width_2, codepoint_width_3};

verus! {

/// The capacity after growing a buffer of capacity `cap` and length `len` by `add`
/// elements: twice `cap_hint`, but at least `len + add` and at least `min`.
pub open spec fn grown_capacity(cap_hint: int, len: int, add: int, min: int) -> int {
    vstd::math::max(vstd::math::max(cap_hint * 2, len + add), min)
}

/// Similar to slices in Go, this vector has a capacity beyond its length: pushing more
/// elements fits without growing up to the capacity.
pub struct BVec<T> {
    items: Vec<T>,
    cap: usize,
}

impl<T> View for BVec<T> {
    type V = Seq<T>;

    /// The elements, in order.
    closed spec fn view(&self) -> Seq<T> {
        self.items@
    }
}

impl<T> BVec<T> {
    /// The length never exceeds the capacity, which an allocation can hold.
    #[verifier::type_invariant]
    closed spec fn inv(&self) -> bool {
        &&& self.items@.len() <= self.cap
        &&& self.cap <= isize::MAX
    }

    /// The number of elements the buffer holds without growing.
    pub closed spec fn cap(&self) -> nat {
        self.cap as nat
    }

    /// The label on the tin says "empty". You open it. It's empty.
    pub fn empty() -> (r: Self)
        ensures
            r@ == Seq::<T>::empty(),
            r.cap() == 0,
    {
        BVec { items: Vec::new(), cap: 0 }
    }

    /// Moves the elements out, leaving the vector empty with its capacity.
    fn take_items(&mut self) -> (r: Vec<T>)
        ensures
            r@ == old(self)@,
            final(self)@ == Seq::<T>::empty(),
            final(self).cap() == old(self).cap(),
            r@.len() <= old(self).cap() <= isize::MAX,
    {
        proof {
            use_type_invariant(&*self);
        }
        let mut items = Vec::new();
        std::mem::swap(&mut items, &mut self.items);
        items
    }

    /// Number of initialized elements.
    pub fn len(&self) -> (r: usize)
        ensures
            r == self@.len(),
    {
        self.items.len()
    }

    /// Total number of elements the buffer can hold.
    pub fn capacity(&self) -> (r: usize)
        ensures
            r == self.cap(),
    {
        self.cap
    }

    /// The length is within the capacity, which an allocation can hold.
    pub(crate) fn bounds(&self)
        ensures
            self@.len() <= self.cap() <= isize::MAX,
    {
        proof {
            use_type_invariant(self);
        }
    }

    /// True if there are zero elements.
    pub fn is_empty(&self) -> (r: bool)
        ensures
            r == (self@.len() == 0),
    {
        self.items.len() == 0
    }

    /// The elements as a slice.
    pub fn as_slice(&self) -> (r: &[T])
        ensures
            r@ == self@,
    {
        self.items.as_slice()
    }

    /// Shortens the vector to `len` elements; a longer `len` changes nothing.
    pub fn truncate(&mut self, len: usize)
        ensures
            final(self)@ == if len < old(self)@.len() { old(self)@.take(len as int) } else { old(self)@ },
            final(self).cap() == old(self).cap(),
    {
        let mut items = self.take_items();
        items.truncate(len);
        self.items = items;
    }

    /// Drops all elements and resets length to zero. The capacity is kept.
    pub fn clear(&mut self)
        ensures
            final(self)@ == Seq::<T>::empty(),
            final(self).cap() == old(self).cap(),
    {
        let mut items = self.take_items();
        items.clear();
        self.items = items;
    }

    /// Grows the capacity to [`grown_capacity`]`(cap_hint, len, add, min)`.
    fn grow(&mut self, cap_hint: usize, add: usize, min: usize)
        requires
            cap_hint <= old(self).cap(),
            grown_capacity(cap_hint as int, old(self)@.len() as int, add as int, min as int) <= isize::MAX,
        ensures
            final(self)@ == old(self)@,
            final(self).cap() == grown_capacity(cap_hint as int, old(self)@.len() as int, add as int, min as int),
    {
        proof {
            use_type_invariant(&*self);
        }
        let len = self.items.len();
        let doubled = cap_hint * 2;
        let at_least = len + add;
        let c = if doubled > at_least { doubled } else { at_least };
        let new_cap = if c > min { c } else { min };
        self.cap = new_cap;
    }

    /// Ensures space for at least `additional` more elements, with amortized growth.
    pub fn reserve(&mut self, additional: usize)
        requires
            additional > old(self).cap() - old(self)@.len() ==> grown_capacity(
                old(self).cap() as int,
                old(self)@.len() as int,
                additional as int,
                8,
            ) <= isize::MAX,
        ensures
            final(self)@ == old(self)@,
            final(self).cap() == if additional > old(self).cap() - old(self)@.len() {
                grown_capacity(old(self).cap() as int, old(self)@.len() as int, additional as int, 8)
            } else {
                old(self).cap() as int
            },
            final(self)@.len() + additional <= final(self).cap(),
    {
        proof {
            use_type_invariant(&*self);
        }
        let len = self.items.len();
        let cap = self.cap;
        if additional > cap - len {
            self.grow(cap, additional, 8);
        }
    }

    /// Ensures space for at least `additional` more elements, without over-allocating.
    pub fn reserve_exact(&mut self, additional: usize)
        requires
            additional > old(self).cap() - old(self)@.len() ==> old(self)@.len() + additional <= isize::MAX,
        ensures
            final(self)@ == old(self)@,
            final(self).cap() == if additional > old(self).cap() - old(self)@.len() {
                old(self)@.len() + additional
            } else {
                old(self).cap() as int
            },
            final(self)@.len() + additional <= final(self).cap(),
    {
        proof {
            use_type_invariant(&*self);
        }
        let len = self.items.len();
        let cap = self.cap;
        if additional > cap - len {
            self.grow(0, additional, 0);
        }
    }

    /// Appends one element.
    pub fn push(&mut self, value: T)
        requires
            old(self)@.len() >= old(self).cap() ==> grown_capacity(old(self).cap() as int, old(self)@.len() as int, 1, 8)
                <= isize::MAX,
        ensures
            final(self)@ == old(self)@.push(value),
            final(self).cap() == if old(self)@.len() >= old(self).cap() {
                grown_capacity(old(self).cap() as int, old(self)@.len() as int, 1, 8)
            } else {
                old(self).cap() as int
            },
    {
        proof {
            use_type_invariant(&*self);
        }
        if self.items.len() >= self.cap {
            let cap = self.cap;
            self.grow(cap, 1, 8);
        }
        let mut items = self.take_items();
        items.push(value);
        self.items = items;
    }

    /// Removes the last element, if any.
    pub fn pop(&mut self) -> (r: Option<T>)
        ensures
            old(self)@.len() == 0 ==> r is None && final(self)@ == old(self)@,
            old(self)@.len() > 0 ==> r == Some(old(self)@.last()) && final(self)@ == old(self)@.drop_last(),
            final(self).cap() == old(self).cap(),
    {
        let mut items = self.take_items();
        let r = items.pop();
        self.items = items;
        r
    }

    /// Appends the items of `items`, reserving room for all of them in one go.
    pub fn extend(&mut self, items: Vec<T>)
        requires
            items@.len() > old(self).cap() - old(self)@.len() ==> grown_capacity(
                old(self).cap() as int,
                old(self)@.len() as int,
                items@.len() as int,
                8,
            ) <= isize::MAX,
        ensures
            final(self)@ == old(self)@ + items@,
            final(self).cap() == if items@.len() > old(self).cap() - old(self)@.len() {
                grown_capacity(old(self).cap() as int, old(self)@.len() as int, items@.len() as int, 8)
            } else {
                old(self).cap() as int
            },
    {
        let mut more = items;
        self.reserve(more.len());
        let ghost v0 = self@;
        let ghost all = more@;
        let mut items = self.take_items();
        items.append(&mut more);
        assert(items@ =~= v0 + all);
        self.items = items;
    }

    /// Appends the items of `items` one after another. For a vector, whose length is
    /// known, this is the same as [`Self::extend`].
    pub fn extend_sloppy(&mut self, items: Vec<T>)
        requires
            items@.len() > old(self).cap() - old(self)@.len() ==> grown_capacity(
                old(self).cap() as int,
                old(self)@.len() as int,
                items@.len() as int,
                8,
            ) <= isize::MAX,
        ensures
            final(self)@ == old(self)@ + items@,
            final(self).cap() == if items@.len() > old(self).cap() - old(self)@.len() {
                grown_capacity(old(self).cap() as int, old(self)@.len() as int, items@.len() as int, 8)
            } else {
                old(self).cap() as int
            },
    {
        self.extend(items)
    }
}

impl<T: Copy> BVec<T> {
    /// A vector holding a copy of `slice`, exactly as large.
    pub fn from_slice(slice: &[T]) -> (r: Self)
        requires
            slice@.len() <= isize::MAX,
        ensures
            r@ == slice@,
            r.cap() == slice@.len(),
    {
        let mut items: Vec<T> = Vec::new();
        let mut i: usize = 0;
        while i < slice.len()
            invariant
                i <= slice@.len(),
                items@ == slice@.take(i as int),
            decreases slice@.len() - i,
        {
            items.push(slice[i]);
            i += 1;
            assert(items@ =~= slice@.take(i as int));
        }
        assert(slice@.take(i as int) =~= slice@);
        BVec { cap: items.len(), items }
    }

    /// Pushes `total_copies` copies of `value`. It's basically `memset`.
    pub fn push_repeat(&mut self, value: T, total_copies: usize)
        requires
            total_copies > old(self).cap() - old(self)@.len() ==> grown_capacity(
                old(self).cap() as int,
                old(self)@.len() as int,
                total_copies as int,
                8,
            ) <= isize::MAX,
        ensures
            final(self)@ == old(self)@ + Seq::new(total_copies as nat, |i: int| value),
            final(self).cap() == if total_copies > old(self).cap() - old(self)@.len() {
                grown_capacity(old(self).cap() as int, old(self)@.len() as int, total_copies as int, 8)
            } else {
                old(self).cap() as int
            },
    {
        proof {
            use_type_invariant(&*self);
        }
        if total_copies == 0 {
            assert(old(self)@ =~= old(self)@ + Seq::new(0, |i: int| value));
            return;
        }
        self.reserve(total_copies);
        let ghost v0 = self@;
        let ghost c = self.cap();
        let mut items = self.take_items();
        let mut i: usize = 0;
        while i < total_copies
            invariant
                i <= total_copies,
                items@ == v0 + Seq::new(i as nat, |k: int| value),
                v0.len() + total_copies <= c,
            decreases total_copies - i,
        {
            items.push(value);
            i += 1;
            assert(items@ =~= v0 + Seq::new(i as nat, |k: int| value));
        }
        self.items = items;
    }

    /// Appends all elements from a slice. It's basically a `memcpy`-append.
    pub fn extend_from_slice(&mut self, other: &[T])
        requires
            other@.len() > old(self).cap() - old(self)@.len() ==> grown_capacity(
                old(self).cap() as int,
                old(self)@.len() as int,
                other@.len() as int,
                8,
            ) <= isize::MAX,
        ensures
            final(self)@ == old(self)@ + other@,
            final(self).cap() == if other@.len() > old(self).cap() - old(self)@.len() {
                grown_capacity(old(self).cap() as int, old(self)@.len() as int, other@.len() as int, 8)
            } else {
                old(self).cap() as int
            },
    {
        self.reserve(other.len());
        let ghost v0 = self@;
        let ghost c = self.cap();
        let mut items = self.take_items();
        let mut i: usize = 0;
        while i < other.len()
            invariant
                i <= other@.len(),
                items@ == v0 + other@.take(i as int),
                v0.len() + other@.len() <= c,
            decreases other@.len() - i,
        {
            items.push(other[i]);
            i += 1;
            assert(items@ =~= v0 + other@.take(i as int));
        }
        assert(other@.take(i as int) =~= other@);
        self.items = items;
    }

    /// Appends a copy of the elements in `src` (clamped to the vector) to its end.
    pub fn extend_from_within(&mut self, src: Range<usize>)
        requires
            ({
                let end = vstd::math::min(src.end as int, old(self)@.len() as int);
                let beg = vstd::math::min(src.start as int, end);
                end - beg > old(self).cap() - old(self)@.len() ==> grown_capacity(
                    old(self).cap() as int,
                    old(self)@.len() as int,
                    end - beg,
                    8,
                ) <= isize::MAX
            }),
        ensures
            ({
                let end = vstd::math::min(src.end as int, old(self)@.len() as int);
                let beg = vstd::math::min(src.start as int, end);
                &&& final(self)@ == old(self)@ + old(self)@.subrange(beg, end)
                &&& final(self).cap() == if end - beg > old(self).cap() - old(self)@.len() {
                    grown_capacity(old(self).cap() as int, old(self)@.len() as int, end - beg, 8)
                } else {
                    old(self).cap() as int
                }
            }),
    {
        let len = self.items.len();
        let end = if src.end < len { src.end } else { len };
        let beg = if src.start < end { src.start } else { end };
        let add = end - beg;
        self.reserve(add);
        let ghost v0 = self@;
        let ghost c = self.cap();
        let mut items = self.take_items();
        let mut i: usize = 0;
        while i < add
            invariant
                i <= add,
                beg + add == end,
                end <= v0.len(),
                items@ == v0 + v0.subrange(beg as int, beg + i),
                v0.len() + add <= c,
            decreases add - i,
        {
            let x = items[beg + i];
            items.push(x);
            i += 1;
            assert(items@ =~= v0 + v0.subrange(beg as int, beg + i));
        }
        self.items = items;
    }

    /// Replaces the elements in `range` (clamped to the vector) with those of `src`:
    /// an efficient `splice`.
    pub fn replace_range(&mut self, range: Range<usize>, src: &[T])
        requires
            ({
                let off = vstd::math::min(range.start as int, old(self)@.len() as int);
                let del = vstd::math::min(
                    if range.end >= off { range.end - off } else { 0 },
                    old(self)@.len() - off,
                );
                src@.len() > del ==> (src@.len() - del > old(self).cap() - old(self)@.len() ==> grown_capacity(
                    old(self).cap() as int,
                    old(self)@.len() as int,
                    src@.len() - del,
                    8,
                ) <= isize::MAX)
            }),
        ensures
            ({
                let off = vstd::math::min(range.start as int, old(self)@.len() as int);
                let del = vstd::math::min(
                    if range.end >= off { range.end - off } else { 0 },
                    old(self)@.len() - off,
                );
                &&& final(self)@ == old(self)@.take(off) + src@ + old(self)@.skip(off + del)
                &&& final(self).cap() == if src@.len() > del && src@.len() - del > old(self).cap()
                    - old(self)@.len() {
                    grown_capacity(old(self).cap() as int, old(self)@.len() as int, src@.len() - del, 8)
                } else {
                    old(self).cap() as int
                }
            }),
    {
        let dst_len = self.items.len();
        let src_len = src.len();
        let off = if range.start < dst_len { range.start } else { dst_len };
        let del_len = {
            let d = range.end.saturating_sub(off);
            if d < dst_len - off { d } else { dst_len - off }
        };
        if del_len == 0 && src_len == 0 {
            assert(old(self)@ =~= old(self)@.take(off as int) + src@ + old(self)@.skip(off as int));
            return;
        }
        if src_len > del_len {
            self.reserve(src_len - del_len);
        }
        let ghost v0 = self@;
        let ghost c = self.cap();
        let old_items = self.take_items();
        // Build the new contents: the head, the replacement, then the tail.
        let mut items: Vec<T> = Vec::new();
        let mut i: usize = 0;
        while i < off
            invariant
                i <= off <= v0.len(),
                v0 == old_items@,
                items@ == v0.take(i as int),
            decreases off - i,
        {
            items.push(old_items[i]);
            i += 1;
            assert(items@ =~= v0.take(i as int));
        }
        let mut j: usize = 0;
        while j < src_len
            invariant
                j <= src_len == src@.len(),
                items@ == v0.take(off as int) + src@.take(j as int),
            decreases src_len - j,
        {
            items.push(src[j]);
            j += 1;
            assert(items@ =~= v0.take(off as int) + src@.take(j as int));
        }
        let mut k: usize = off + del_len;
        while k < dst_len
            invariant
                off + del_len <= k <= dst_len == v0.len(),
                v0 == old_items@,
                items@ == v0.take(off as int) + src@ + v0.subrange(off + del_len, k as int),
            decreases dst_len - k,
        {
            items.push(old_items[k]);
            k += 1;
            assert(items@ =~= v0.take(off as int) + src@ + v0.subrange(off + del_len, k as int));
        }
        assert(v0.subrange(off + del_len, dst_len as int) =~= v0.skip(off + del_len));
        self.items = items;
    }
}

/// The UTF-8 encoding of `ch`.
pub(crate) fn encode_char(ch: char) -> (r: Vec<u8>)
    ensures
        r@ == encode_scalar(ch as u32),
{
    let c = ch as u32;
    proof {
        vstd::utf8::char_is_scalar(ch);
    }
    let r = if c <= 0x7F {
        vec![(c & 0x7F) as u8]
    } else if c <= 0x7FF {
        vec![0xC0 | ((c >> 6) & 0x1F) as u8, 0x80 | (c & 0x3F) as u8]
    } else if c <= 0xFFFF {
        vec![0xE0 | ((c >> 12) & 0x0F) as u8, 0x80 | ((c >> 6) & 0x3F) as u8, 0x80 | (c & 0x3F) as u8]
    } else {
        vec![
            0xF0 | ((c >> 18) & 0x7) as u8,
            0x80 | ((c >> 12) & 0x3F) as u8,
            0x80 | ((c >> 6) & 0x3F) as u8,
            0x80 | (c & 0x3F) as u8,
        ]
    };
    assert(r@ =~= encode_scalar(c));
    r
}

impl BVec<u8> {
    /// Appends a single `char`, encoding it as UTF-8.
    pub fn push_char(&mut self, ch: char)
        requires
            4 > old(self).cap() - old(self)@.len() ==> grown_capacity(
                old(self).cap() as int,
                old(self)@.len() as int,
                4,
                8,
            ) <= isize::MAX,
        ensures
            final(self)@ == old(self)@ + encode_scalar(ch as u32),
            final(self).cap() == if 4 > old(self).cap() - old(self)@.len() {
                grown_capacity(old(self).cap() as int, old(self)@.len() as int, 4, 8)
            } else {
                old(self).cap() as int
            },
    {
        self.reserve(4);
        let bytes = encode_char(ch);
        proof {
            vstd::utf8::char_is_scalar(ch);
            use_type_invariant(&*self);
        }
        let ghost v0 = self@;
        let mut items = self.take_items();
        let mut i: usize = 0;
        while i < bytes.len()
            invariant
                i <= bytes@.len() <= 4,
                items@ == v0 + bytes@.take(i as int),
                v0.len() + 4 <= self.cap,
                self.cap <= isize::MAX,
            decreases bytes@.len() - i,
        {
            items.push(bytes[i]);
            i += 1;
            assert(items@ =~= v0 + bytes@.take(i as int));
        }
        assert(bytes@.take(i as int) =~= bytes@);
        self.items = items;
    }
}

impl<T> BVec<T> {
    /// Consumes the vector, yielding its elements in order.
    pub fn into_iter(self) -> (r: IntoIter<T>)
        ensures
            r@ == self@,
    {
        let mut this = self;
        let mut items = this.take_items();
        let ghost s = items@;
        let mut rest: Vec<T> = Vec::new();
        while items.len() > 0
            invariant
                s == items@ + rest@.reverse(),
            decreases items@.len(),
        {
            let ghost before = items@;
            let x = items.pop().unwrap();
            proof {
                assert(before == items@.push(x));
                assert(rest@.push(x).reverse() =~= seq![x] + rest@.reverse());
                assert(items@ + (seq![x] + rest@.reverse()) =~= items@.push(x) + rest@.reverse());
            }
            rest.push(x);
        }
        assert(items@ + rest@.reverse() =~= rest@.reverse());
        IntoIter { rest }
    }
}

/// Owning iterator over the elements of a [`BVec`].
pub struct IntoIter<T> {
    /// The elements still to come, the next one last.
    rest: Vec<T>,
}

impl<T> View for IntoIter<T> {
    type V = Seq<T>;

    /// The elements still to come, in order.
    closed spec fn view(&self) -> Seq<T> {
        self.rest@.reverse()
    }
}

impl<T> IntoIter<T> {
    /// The number of elements still to come.
    pub fn len(&self) -> (r: usize)
        ensures
            r == self@.len(),
    {
        self.rest.len()
    }

    /// The next element, or `None` once all have been yielded.
    pub fn next(&mut self) -> (r: Option<T>)
        ensures
            old(self)@.len() == 0 ==> r is None && final(self)@ == old(self)@,
            old(self)@.len() > 0 ==> r == Some(old(self)@[0]) && final(self)@ == old(self)@.drop_first(),
    {
        let ghost r0 = self.rest@;
        let x = self.rest.pop();
        proof {
            if r0.len() > 0 {
                assert(r0 == self.rest@.push(x.unwrap()));
                assert(r0.reverse() =~= seq![x.unwrap()] + self.rest@.reverse());
                assert(r0.reverse().drop_first() =~= self.rest@.reverse());
            }
        }
        x
    }

    /// Skips `n` elements and yields the one after them; past the end, yields `None`
    /// and leaves nothing to come.
    pub fn nth(&mut self, n: usize) -> (r: Option<T>)
        ensures
            n >= old(self)@.len() ==> r is None && final(self)@ == Seq::<T>::empty(),
            n < old(self)@.len() ==> r == Some(old(self)@[n as int]) && final(self)@ == old(self)@.skip(n + 1),
    {
        let ghost s0 = self@;
        if n >= self.rest.len() {
            self.rest.clear();
            assert(self@ =~= Seq::<T>::empty());
            return None;
        }
        let mut i: usize = 0;
        while i < n
            invariant
                i <= n < s0.len(),
                self@ == s0.skip(i as int),
            decreases n - i,
        {
            let _ = self.next();
            assert(s0.skip(i as int).drop_first() =~= s0.skip(i + 1));
            i += 1;
        }
        let r = self.next();
        assert(s0.skip(n as int).drop_first() =~= s0.skip(n + 1));
        r
    }

    /// The last element still to come, taken from the back.
    pub fn next_back(&mut self) -> (r: Option<T>)
        ensures
            old(self)@.len() == 0 ==> r is None && final(self)@ == old(self)@,
            old(self)@.len() > 0 ==> r == Some(old(self)@.last()) && final(self)@ == old(self)@.drop_last(),
    {
        if self.rest.len() == 0 {
            return None;
        }
        let ghost r0 = self.rest@;
        let x = self.rest.remove(0);
        proof {
            assert(r0 =~= seq![x] + self.rest@);
            assert(r0.reverse() =~= self.rest@.reverse() + seq![x]);
            assert(r0.reverse().drop_last() =~= self.rest@.reverse());
        }
        Some(x)
    }

    /// The number of elements still to come, consuming the iterator.
    pub fn count(self) -> (r: usize)
        ensures
            r == self@.len(),
    {
        self.rest.len()
    }

    /// The last element still to come, consuming the iterator.
    pub fn last(self) -> (r: Option<T>)
        ensures
            r == if self@.len() == 0 { None } else { Some(self@.last()) },
    {
        let mut this = self;
        this.next_back()
    }
}

/// The characters of `s` as UTF-8 decoded with recovery: each invalid sequence (see
/// [`first_unit`]) becomes one U+FFFD.
pub open spec fn lossy_chars(s: Seq<u8>) -> Seq<char>
    decreases s.len(),
{
    if s.len() == 0 {
        Seq::empty()
    } else {
        let (c, n) = first_unit(s);
        let ch = match c {
            Some(c) => c,
            None => '\u{FFFD}',
        };
        if 1 <= n <= s.len() {
            seq![ch] + lossy_chars(s.skip(n))
        } else {
            seq![ch]
        }
    }
}

/// The UTF-16 code units of `c`: one, or a surrogate pair above U+FFFF.
pub open spec fn utf16_units(c: char) -> Seq<u16> {
    let v = c as u32;
    if v <= 0xFFFF {
        seq![v as u16]
    } else {
        let w = v - 0x10000;
        seq![(0xD800 + w / 0x400) as u16, (0xDC00 + w % 0x400) as u16]
    }
}

/// The UTF-16 encoding of `cs`.
pub open spec fn utf16_of(cs: Seq<char>) -> Seq<u16>
    decreases cs.len(),
{
    if cs.len() == 0 {
        Seq::empty()
    } else {
        utf16_units(cs[0]) + utf16_of(cs.drop_first())
    }
}

/// A character that UTF-8 encodes in at most three bytes lies in the basic multilingual
/// plane, so one above U+FFFF takes four bytes.
proof fn lemma_short_sequences_stay_in_bmp(s: Seq<u8>)
    requires
        valid_first_scalar(s),
    ensures
        decode_first_scalar(s) > 0xFFFF ==> length_of_first_scalar(s) == 4,
{
    let b0 = s[0];
    if s.len() >= 1 {
        assert(codepoint_width_1(b0) <= 0xFFFF) by (bit_vector);
    }
    if s.len() >= 2 {
        let b1 = s[1];
        assert(codepoint_width_2(b0, b1) <= 0xFFFF) by (bit_vector);
    }
    if s.len() >= 3 {
        let b1 = s[1];
        let b2 = s[2];
        assert(codepoint_width_3(b0, b1, b2) <= 0xFFFF) by (bit_vector);
    }
}

impl BVec<u16> {
    /// Appends `utf8` encoded as UTF-16, each invalid UTF-8 sequence as U+FFFD. Room
    /// for one unit per byte is reserved first, which is always enough.
    pub fn push_encode_utf16(&mut self, utf8: &[u8])
        requires
            utf8@.len() > old(self).cap() - old(self)@.len() ==> grown_capacity(
                old(self).cap() as int,
                old(self)@.len() as int,
                utf8@.len() as int,
                8,
            ) <= isize::MAX,
        ensures
            final(self)@ == old(self)@ + utf16_of(lossy_chars(utf8@)),
            final(self).cap() == if utf8@.len() > old(self).cap() - old(self)@.len() {
                grown_capacity(old(self).cap() as int, old(self)@.len() as int, utf8@.len() as int, 8)
            } else {
                old(self).cap() as int
            },
    {
        self.reserve(utf8.len());
        proof {
            use_type_invariant(&*self);
        }
        let ghost v0 = self@;
        let ghost cap = self.cap;
        let mut items = self.take_items();
        let n = utf8.len();
        let mut i: usize = 0;
        assert(utf8@.skip(0) =~= utf8@);
        while i < n
            invariant
                n == utf8@.len(),
                i <= n,
                items@ + utf16_of(lossy_chars(utf8@.skip(i as int))) == v0 + utf16_of(lossy_chars(utf8@)),
                items@.len() <= v0.len() + i,
                v0.len() + n <= cap,
                self.cap == cap,
            decreases n - i,
        {
            let (c, len) = decode_at(utf8, i);
            let ch = match c {
                Some(c) => c,
                None => '\u{FFFD}',
            };
            let ghost rest = utf8@.skip(i as int);
            proof {
                assert(rest.skip(len as int) =~= utf8@.skip(i + len));
                assert(lossy_chars(rest) == seq![ch] + lossy_chars(rest.skip(len as int)));
                assert((seq![ch] + lossy_chars(rest.skip(len as int))).drop_first() =~= lossy_chars(rest.skip(len as int)));
            }
            let ghost before = items@;
            let v = ch as u32;
            if v <= 0xFFFF {
                items.push(v as u16);
            } else {
                let w = v - 0x10000;
                items.push((0xD800 + w / 0x400) as u16);
                items.push((0xDC00 + w % 0x400) as u16);
                assert(len == 4) by {
                    lemma_short_sequences_stay_in_bmp(rest);
                }
            }
            proof {
                assert(items@ =~= before + utf16_units(ch));
            }
            i += len;
        }
        assert(utf8@.skip(n as int) =~= Seq::<u8>::empty());
        assert(items@ =~= v0 + utf16_of(lossy_chars(utf8@)));
        self.items = items;
    }
}

} // verus!
