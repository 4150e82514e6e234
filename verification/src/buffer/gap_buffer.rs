//! A gap buffer: a byte buffer whose spare capacity, the gap, sits where the last edit
//! happened, so that consecutive edits in one place move little memory.

use vstd::prelude::*;
use vstd::slice::slice_subrange;
use std::ops::Range;

verus! {

/// 1024.
pub const KIBI: usize = 1024;
/// 1024 * 1024.
pub const MEBI: usize = 1048576;

/// A chunk size of the buffer's growth.
pub const LARGE_ALLOC_CHUNK: usize = 65536;
/// A chunk size of the buffer's growth.
pub const LARGE_GAP_CHUNK: usize = 4096;

/// The most bytes a small buffer holds.
pub const SMALL_CAPACITY: usize = 131072;
/// A chunk size of the buffer's growth.
pub const SMALL_ALLOC_CHUNK: usize = 256;
/// A chunk size of the buffer's growth.
pub const SMALL_GAP_CHUNK: usize = 16;

/// `x` rounded down to a multiple of `c`.
proof fn lemma_round_down(x: int, c: int)
    requires
        0 <= x,
        0 < c,
    ensures
        (x - x % c) % c == 0,
        x - c < x - x % c <= x,
{
    vstd::arithmetic::div_mod::lemma_fundamental_div_mod(x, c);
    vstd::arithmetic::div_mod::lemma_mod_multiples_basic(x / c, c);
    assert(x - x % c == c * (x / c)) by (nonlinear_arith)
        requires
            x == c * (x / c) + x % c,
    ;
    assert(c * (x / c) == (x / c) * c) by (nonlinear_arith);
}

/// The largest size a large buffer may reach: 4 GiB on 64-bit targets, 128 MiB otherwise.
fn large_capacity() -> (r: usize)
    ensures
        r > 0,
        r % LARGE_ALLOC_CHUNK == 0,
{
    if usize::MAX as u64 >= 0xffff_ffff_ffff_ffffu64 {
        0x1_0000_0000u64 as usize
    } else {
        134217728
    }
}

/// Most people know how `Vec<T>` works: It has some spare capacity at the end,
/// so that pushing into it doesn't reallocate every single time. A gap buffer
/// is the same thing, but the spare capacity can be anywhere in the buffer.
pub struct GapBuffer {
    /// The committed bytes: text before the gap, the gap, text after the gap, spare.
    buffer: Vec<u8>,
    /// Maximum size of the buffer, including gap.
    reserve: usize,
    /// Length of the stored text, NOT including gap.
    text_length: usize,
    /// Gap offset.
    gap_off: usize,
    /// Gap length.
    gap_len: usize,
    /// Increments every time the buffer is modified.
    generation: u32,
    /// Whether the buffer is optimized for small amounts of text.
    small: bool,
}

impl GapBuffer {
    /// The text held, without the gap.
    pub closed spec fn text(&self) -> Seq<u8> {
        self.buffer@.subrange(0, self.gap_off as int) + self.buffer@.subrange(
            (self.gap_off + self.gap_len) as int,
            (self.text_length + self.gap_len) as int,
        )
    }

    /// The bytes currently in the gap.
    pub closed spec fn gap(&self) -> Seq<u8> {
        self.buffer@.subrange(self.gap_off as int, (self.gap_off + self.gap_len) as int)
    }

    /// Where the gap is.
    pub closed spec fn gap_offset(&self) -> nat {
        self.gap_off as nat
    }

    /// The most bytes the buffer may hold, gap included.
    pub closed spec fn capacity(&self) -> nat {
        self.reserve as nat
    }

    /// The modification counter.
    pub closed spec fn generation_spec(&self) -> u32 {
        self.generation
    }

    /// Whether the buffer is optimized for small amounts of text.
    pub closed spec fn is_small(&self) -> bool {
        self.small
    }

    /// The buffer's invariant.
    pub closed spec fn wf(&self) -> bool {
        &&& self.gap_off <= self.text_length
        &&& self.text_length + self.gap_len <= self.buffer@.len()
        &&& self.buffer@.len() <= self.reserve
        &&& self.reserve % (if self.small { SMALL_ALLOC_CHUNK } else { LARGE_ALLOC_CHUNK }) == 0
        &&& self.reserve > 0
        &&& self.reserve <= usize::MAX - (LARGE_ALLOC_CHUNK - 1)
    }

    /// An empty buffer; a small one lives in at most 128 KiB.
    pub fn new(small: bool) -> (r: Self)
        ensures
            r.wf(),
            r.text() == Seq::<u8>::empty(),
            r.generation_spec() == 0,
            r.is_small() == small,
            small ==> r.capacity() == SMALL_CAPACITY,
    {
        let reserve = if small {
            SMALL_CAPACITY
        } else {
            large_capacity()
        };
        assert(SMALL_CAPACITY % SMALL_ALLOC_CHUNK == 0);
        let r = GapBuffer {
            buffer: Vec::new(),
            reserve,
            text_length: 0,
            gap_off: 0,
            gap_len: 0,
            generation: 0,
            small,
        };
        assert(r.text() =~= Seq::<u8>::empty());
        r
    }

    /// Enlarges the reserved capacity of a large, empty buffer to hold at least `bytes`
    /// (with at least 1 MiB to spare). Small or non-empty buffers are left alone.
    pub fn try_reserve(&mut self, bytes: usize)
        requires
            old(self).wf(),
        ensures
            final(self).wf(),
            final(self).text() == old(self).text(),
            final(self).generation_spec() == old(self).generation_spec(),
            final(self).is_small() == old(self).is_small(),
            final(self).capacity() >= old(self).capacity(),
            !old(self).is_small() && old(self).text().len() == 0 && bytes >= old(self).capacity()
                && bytes <= usize::MAX - 2 * MEBI ==> final(self).capacity() >= bytes,
    {
        if bytes < self.reserve {
            return;
        }
        if self.text_length != 0 || self.small {
            return;
        }
        let rounded = if bytes <= usize::MAX - (MEBI + LARGE_ALLOC_CHUNK - 1) {
            bytes + (MEBI + LARGE_ALLOC_CHUNK - 1)
        } else {
            usize::MAX
        };
        proof {
            lemma_round_down(rounded as int, LARGE_ALLOC_CHUNK as int);
        }
        let rounded = rounded - rounded % LARGE_ALLOC_CHUNK;
        if rounded < bytes || rounded > usize::MAX - (LARGE_ALLOC_CHUNK - 1) {
            return;
        }
        self.buffer = Vec::new();
        self.reserve = rounded;
        self.gap_off = 0;
        self.gap_len = 0;
        assert(self.text() =~= Seq::<u8>::empty());
    }

    /// The length of the text.
    #[allow(clippy::len_without_is_empty)]
    pub fn len(&self) -> (r: usize)
        requires
            self.wf(),
        ensures
            r == self.text().len(),
    {
        self.text_length
    }

    /// The modification counter.
    pub fn generation(&self) -> (r: u32)
        ensures
            r == self.generation_spec(),
    {
        self.generation
    }

    /// Sets the modification counter.
    pub fn set_generation(&mut self, generation: u32)
        ensures
            final(self).generation_spec() == generation,
            final(self).text() == old(self).text(),
            final(self).gap() == old(self).gap(),
            final(self).wf() == old(self).wf(),
            final(self).capacity() == old(self).capacity(),
            final(self).is_small() == old(self).is_small(),
    {
        self.generation = generation;
    }
}

/// Copies `n` bytes of `buf` from `src` to `dst`; the two ranges may overlap.
fn copy_within(buf: &mut Vec<u8>, src: usize, dst: usize, n: usize)
    requires
        src + n <= old(buf)@.len(),
        dst + n <= old(buf)@.len(),
    ensures
        final(buf)@.len() == old(buf)@.len(),
        forall|k: int| 0 <= k < old(buf)@.len() ==> #[trigger] final(buf)@[k] == if dst <= k < dst + n {
            old(buf)@[k - dst + src]
        } else {
            old(buf)@[k]
        },
{
    let ghost b0 = buf@;
    let total = buf.len();
    if dst <= src {
        let mut i: usize = 0;
        while i < n
            invariant
                dst <= src,
                total == b0.len(),
                src + n <= b0.len(),
                dst + n <= b0.len(),
                i <= n,
                buf@.len() == b0.len(),
                forall|k: int| 0 <= k < b0.len() ==> #[trigger] buf@[k] == if dst <= k < dst + i {
                    b0[k - dst + src]
                } else {
                    b0[k]
                },
            decreases n - i,
        {
            let v = buf[src + i];
            buf.set(dst + i, v);
            i += 1;
        }
    } else {
        let mut i: usize = n;
        while i > 0
            invariant
                dst > src,
                total == b0.len(),
                src + n <= b0.len(),
                dst + n <= b0.len(),
                i <= n,
                buf@.len() == b0.len(),
                forall|k: int| 0 <= k < b0.len() ==> #[trigger] buf@[k] == if dst + i <= k < dst + n {
                    b0[k - dst + src]
                } else {
                    b0[k]
                },
            decreases i,
        {
            i -= 1;
            let v = buf[src + i];
            buf.set(dst + i, v);
        }
    }
}

/// `len`, with a gap chunk to spare, rounded to a multiple of the chunk.
pub open spec fn gap_goal(len: int, chunk: int) -> int {
    (len + 2 * chunk - 1) - (len + 2 * chunk - 1) % chunk
}

impl GapBuffer {
    /// The gap and allocation chunks of this buffer.
    spec fn gap_chunk(&self) -> int {
        if self.small { SMALL_GAP_CHUNK as int } else { LARGE_GAP_CHUNK as int }
    }

    spec fn alloc_chunk(&self) -> int {
        if self.small { SMALL_ALLOC_CHUNK as int } else { LARGE_ALLOC_CHUNK as int }
    }

    /// Moves the gap to `off`, keeping the text.
    fn move_gap(&mut self, off: usize)
        requires
            old(self).wf(),
            off <= old(self).text_length,
        ensures
            final(self).wf(),
            final(self).text() == old(self).text(),
            final(self).gap_off == off,
            final(self).gap_len == old(self).gap_len,
            final(self).text_length == old(self).text_length,
            final(self).reserve == old(self).reserve,
            final(self).small == old(self).small,
            final(self).generation == old(self).generation,
    {
        let ghost t0 = self.text();
        let ghost b0 = self.buffer@;
        if self.gap_len > 0 {
            let left = off < self.gap_off;
            let move_src = if left { off } else { self.gap_off + self.gap_len };
            let move_dst = if left { off + self.gap_len } else { self.gap_off };
            let move_len = if left { self.gap_off - off } else { off - self.gap_off };
            copy_within(&mut self.buffer, move_src, move_dst, move_len);
        }
        let ghost g0 = self.gap_off;
        self.gap_off = off;
        assert(self.text() =~= t0) by {
            assert forall|k: int| 0 <= k < t0.len() implies self.text()[k] == t0[k] by {
                if k < off {
                    assert(self.text()[k] == self.buffer@[k]);
                } else {
                    assert(self.text()[k] == self.buffer@[k + self.gap_len]);
                }
                if k < g0 {
                    assert(t0[k] == b0[k]);
                } else {
                    assert(t0[k] == b0[k + self.gap_len]);
                }
            }
        }
    }

    /// Deletes the `delete` bytes right after the gap, which grows over them.
    fn delete_text(&mut self, delete: usize)
        requires
            old(self).wf(),
            old(self).gap_off + delete <= old(self).text_length,
        ensures
            final(self).wf(),
            final(self).text() == old(self).text().take(old(self).gap_off as int) + old(self).text().skip(old(self).gap_off + delete),
            final(self).gap_off == old(self).gap_off,
            final(self).gap_len == old(self).gap_len + delete,
            final(self).text_length == old(self).text_length - delete,
            final(self).reserve == old(self).reserve,
            final(self).small == old(self).small,
            final(self).generation == old(self).generation,
    {
        let ghost t0 = self.text();
        self.gap_len += delete;
        self.text_length -= delete;
        assert(self.text() =~= t0.take(self.gap_off as int) + t0.skip(self.gap_off + delete));
    }

    /// Grows the gap to hold at least `len` bytes, with a chunk to spare, as far as the
    /// reserve allows.
    fn enlarge_gap(&mut self, len: usize)
        requires
            old(self).wf(),
            len <= usize::MAX / 2,
            len > old(self).gap_len,
        ensures
            final(self).wf(),
            final(self).text() == old(self).text(),
            final(self).gap_off == old(self).gap_off,
            final(self).text_length == old(self).text_length,
            final(self).reserve == old(self).reserve,
            final(self).small == old(self).small,
            final(self).generation == old(self).generation,
            final(self).gap_len == vstd::math::min(
                gap_goal(len as int, old(self).gap_chunk()),
                old(self).reserve - old(self).text_length,
            ),
    {
        let ghost t0 = self.text();
        let gap_chunk = if self.small { SMALL_GAP_CHUNK } else { LARGE_GAP_CHUNK };
        let alloc_chunk = if self.small { SMALL_ALLOC_CHUNK } else { LARGE_ALLOC_CHUNK };
        let gap_len_old = self.gap_len;
        let x = len + gap_chunk + gap_chunk - 1;
        proof {
            lemma_round_down(x as int, gap_chunk as int);
        }
        let goal = x - x % gap_chunk;
        let room = self.reserve - self.text_length;
        let gap_len_new = if goal < room { goal } else { room };
        let bytes_old = self.buffer.len();
        let bytes_new = self.text_length + gap_len_new;
        assert(bytes_new <= self.reserve);
        assert(alloc_chunk <= LARGE_ALLOC_CHUNK);
        if bytes_new > bytes_old {
            let y = bytes_new + (alloc_chunk - 1);
            proof {
                lemma_round_down(y as int, alloc_chunk as int);
                lemma_round_down_le(bytes_new as int, alloc_chunk as int, self.reserve as int);
            }
            let bytes_new = y - y % alloc_chunk;
            self.buffer.resize(bytes_new, 0);
        }
        let ghost b1 = self.buffer@;
        let tail = self.text_length - self.gap_off;
        copy_within(&mut self.buffer, self.gap_off + gap_len_old, self.gap_off + gap_len_new, tail);
        self.gap_len = gap_len_new;
        assert(self.text() =~= t0) by {
            assert forall|k: int| 0 <= k < t0.len() implies self.text()[k] == t0[k] by {
                if k >= self.gap_off {
                    assert(self.text()[k] == self.buffer@[k + gap_len_new]);
                    assert(t0[k] == b1[k + gap_len_old]);
                }
            }
        }
    }

    /// The gap length that `allocate_gap` leaves for `len` bytes, given the gap `gap`
    /// once the edit's deletion is done and the text's new length `text_len`.
    pub open spec fn allocated_gap(small: bool, reserve: nat, text_len: nat, gap: nat, len: nat) -> nat {
        if len > gap {
            vstd::math::min(
                gap_goal(len as int, if small { SMALL_GAP_CHUNK as int } else { LARGE_GAP_CHUNK as int }),
                reserve - text_len,
            ) as nat
        } else {
            gap
        }
    }

    /// Prepares an edit at `off` (clamped to the text) that deletes `delete` bytes (as far
    /// as there are) and then inserts up to `len` bytes: the gap is moved there and grown.
    /// Returns the gap's length, which can be less than `len` when the reserve runs out.
    pub fn allocate_gap(&mut self, off: usize, len: usize, delete: usize) -> (r: usize)
        requires
            old(self).wf(),
            len <= usize::MAX / 2,
        ensures
            final(self).wf(),
            ({
                let o = vstd::math::min(off as int, old(self).text().len() as int);
                let d = vstd::math::min(delete as int, old(self).text().len() - o);
                &&& final(self).text() == old(self).text().take(o) + old(self).text().skip(o + d)
                &&& final(self).gap_offset() == o
                &&& r == final(self).gap().len()
                &&& r == Self::allocated_gap(
                    old(self).is_small(),
                    old(self).capacity(),
                    (old(self).text().len() - d) as nat,
                    (old(self).gap().len() + d) as nat,
                    len as nat,
                )
                &&& r >= vstd::math::min(len as int, old(self).capacity() - final(self).text().len())
            }),
            final(self).capacity() == old(self).capacity(),
            final(self).is_small() == old(self).is_small(),
            final(self).generation_spec() == old(self).generation_spec().wrapping_add(1),
    {
        // Sanitize parameters
        let off = if off < self.text_length { off } else { self.text_length };
        let delete = if delete < self.text_length - off { delete } else { self.text_length - off };
        // Move the existing gap if it exists
        if off != self.gap_off {
            self.move_gap(off);
        }
        // Delete the text
        if delete > 0 {
            self.delete_text(delete);
        }
        // Enlarge the gap if needed
        if len > self.gap_len {
            self.enlarge_gap(len);
            proof {
                lemma_round_down((len + 2 * self.gap_chunk() - 1) as int, self.gap_chunk());
            }
        }
        self.generation = self.generation.wrapping_add(1);
        self.gap_len
    }

    /// Copies as much of `src` as fits into the gap, at its start; returns how much.
    pub fn fill_gap(&mut self, src: &[u8]) -> (r: usize)
        requires
            old(self).wf(),
        ensures
            final(self).wf(),
            r == vstd::math::min(src@.len() as int, old(self).gap().len() as int),
            final(self).gap() == src@.take(r as int) + old(self).gap().skip(r as int),
            final(self).text() == old(self).text(),
            final(self).gap_offset() == old(self).gap_offset(),
            final(self).capacity() == old(self).capacity(),
            final(self).is_small() == old(self).is_small(),
            final(self).generation_spec() == old(self).generation_spec(),
    {
        let ghost b0 = self.buffer@;
        let ghost t0 = self.text();
        let ghost g0 = self.gap();
        let ghost s0 = *self;
        let total = self.buffer.len();
        let n = if src.len() < self.gap_len { src.len() } else { self.gap_len };
        let mut i: usize = 0;
        while i < n
            invariant
                i <= n,
                n <= src@.len(),
                n <= self.gap_len,
                total == b0.len(),
                self.gap_off + self.gap_len <= b0.len(),
                self.buffer@.len() == b0.len(),
                self.gap_off == s0.gap_off,
                self.gap_len == s0.gap_len,
                self.text_length == s0.text_length,
                self.reserve == s0.reserve,
                self.small == s0.small,
                self.generation == s0.generation,
                forall|k: int| 0 <= k < b0.len() ==> #[trigger] self.buffer@[k] == if self.gap_off <= k < self.gap_off + i {
                    src@[k - self.gap_off]
                } else {
                    b0[k]
                },
            decreases n - i,
        {
            self.buffer.set(self.gap_off + i, src[i]);
            i += 1;
        }
        assert(self.text() =~= t0);
        assert(self.gap() =~= src@.take(n as int) + g0.skip(n as int));
        n
    }

    /// Makes the first `len` bytes of the gap part of the text, right before the rest.
    pub fn commit_gap(&mut self, len: usize)
        requires
            old(self).wf(),
            len <= old(self).gap().len(),
        ensures
            final(self).wf(),
            final(self).text() == old(self).text().take(old(self).gap_offset() as int) + old(self).gap().take(len as int)
                + old(self).text().skip(old(self).gap_offset() as int),
            final(self).gap_offset() == old(self).gap_offset() + len,
            final(self).gap() == old(self).gap().skip(len as int),
            final(self).capacity() == old(self).capacity(),
            final(self).is_small() == old(self).is_small(),
            final(self).generation_spec() == old(self).generation_spec(),
    {
        let ghost t0 = self.text();
        let ghost g0 = self.gap();
        let ghost o = self.gap_off as int;
        self.text_length += len;
        self.gap_off += len;
        self.gap_len -= len;
        assert(self.text() =~= t0.take(o) + g0.take(len as int) + t0.skip(o));
        assert(self.gap() =~= g0.skip(len as int));
    }

    /// Replaces the bytes in `range` (clamped to the text) with `src`, as much of it as
    /// the reserve holds.
    pub fn replace(&mut self, range: Range<usize>, src: &[u8])
        requires
            old(self).wf(),
            src@.len() <= usize::MAX / 2,
        ensures
            final(self).wf(),
            final(self).text() == replaced(
                old(self).text(),
                range.start as int,
                range.end as int,
                src@,
                old(self).capacity() as int,
            ),
            final(self).capacity() == old(self).capacity(),
            final(self).is_small() == old(self).is_small(),
            final(self).generation_spec() == old(self).generation_spec().wrapping_add(1),
    {
        let ghost t0 = self.text();
        let delete = range.end.saturating_sub(range.start);
        let gap = self.allocate_gap(range.start, src.len(), delete);
        let ghost t1 = self.text();
        let ghost o = self.gap_off as int;
        let len = self.fill_gap(src);
        let ghost g1 = self.gap();
        self.commit_gap(len);
        proof {
            let d = vstd::math::min(delete as int, t0.len() - o);
            assert(t1 == t0.take(o) + t0.skip(o + d));
            assert(t1.take(o) =~= t0.take(o));
            assert(t1.skip(o) =~= t0.skip(o + d));
            assert(g1.take(len as int) =~= src@.take(len as int));
            assert(self.text() =~= t0.take(o) + src@.take(len as int) + t0.skip(o + d));
        }
    }

    /// Empties the buffer.
    pub fn clear(&mut self)
        requires
            old(self).wf(),
        ensures
            final(self).wf(),
            final(self).text() == Seq::<u8>::empty(),
            final(self).capacity() == old(self).capacity(),
            final(self).is_small() == old(self).is_small(),
            final(self).generation_spec() == old(self).generation_spec().wrapping_add(1),
    {
        self.gap_off = 0;
        self.gap_len += self.text_length;
        self.generation = self.generation.wrapping_add(1);
        self.text_length = 0;
        assert(self.text() =~= Seq::<u8>::empty());
    }
}

proof fn lemma_round_down_le(x: int, c: int, bound: int)
    requires
        0 <= x <= bound,
        0 < c,
        bound % c == 0,
    ensures
        (x + c - 1) - (x + c - 1) % c <= bound,
        (x + c - 1) - (x + c - 1) % c >= x,
{
    lemma_round_down(x + c - 1, c);
    let r = (x + c - 1) - (x + c - 1) % c;
    if r > bound {
        // r and bound are both multiples of c, so r >= bound + c > x + c - 1.
        vstd::arithmetic::div_mod::lemma_fundamental_div_mod(r, c);
        vstd::arithmetic::div_mod::lemma_fundamental_div_mod(bound, c);
        assert(r == c * (r / c));
        assert(bound == c * (bound / c));
        assert(r / c > bound / c) by (nonlinear_arith)
            requires
                r == c * (r / c),
                bound == c * (bound / c),
                r > bound,
                c > 0,
        ;
        assert(r >= bound + c) by (nonlinear_arith)
            requires
                r == c * (r / c),
                bound == c * (bound / c),
                r / c >= bound / c + 1,
                c > 0,
        ;
    }
    vstd::arithmetic::div_mod::lemma_fundamental_div_mod(x + c - 1, c);
    vstd::arithmetic::div_mod::lemma_mod_bound(x + c - 1, c);
}

/// The text `t` with the bytes from `start` to `end` (clamped to the text; nothing if
/// `end < start`) replaced by `src`, of which only as much is kept as fits in `cap`.
pub open spec fn replaced(t: Seq<u8>, start: int, end: int, src: Seq<u8>, cap: int) -> Seq<u8> {
    let o = vstd::math::min(start, t.len() as int);
    let d = vstd::math::min(if end >= start { end - start } else { 0 }, t.len() - o);
    let k = vstd::math::min(src.len() as int, cap - (t.len() - d));
    t.take(o) + src.take(k) + t.skip(o + d)
}

/// Replacing a range, then replacing the new text with what the range held, gives
/// back the text it started from, as long as both texts fit in the capacity.
pub proof fn lemma_replace_undo(t: Seq<u8>, start: int, end: int, src: Seq<u8>, cap: int)
    requires
        0 <= start <= end <= t.len(),
        t.len() <= cap,
        t.len() - (end - start) + src.len() <= cap,
    ensures
        replaced(replaced(t, start, end, src, cap), start, start + src.len(), t.subrange(start, end), cap) == t,
{
    let t1 = replaced(t, start, end, src, cap);
    assert(src.take(src.len() as int) =~= src);
    assert(t1 =~= t.take(start) + src + t.skip(end));
    let piece = t.subrange(start, end);
    assert(piece.take(piece.len() as int) =~= piece);
    assert(t1.take(start) =~= t.take(start));
    assert(t1.skip(start + src.len()) =~= t.skip(end));
    assert(t.take(start) + piece + t.skip(end) =~= t);
}

/// Inserts `chunk` into `out` at `at`.
fn insert_at(out: &mut Vec<u8>, at: usize, chunk: &[u8])
    requires
        at <= old(out)@.len(),
    ensures
        final(out)@ == old(out)@.take(at as int) + chunk@ + old(out)@.skip(at as int),
{
    let mut tail = out.split_off(at);
    out.extend_from_slice(chunk);
    out.append(&mut tail);
    assert(out@ =~= old(out)@.take(at as int) + chunk@ + old(out)@.skip(at as int));
}

/// The bytes of `src` from `off` (clamped) on: how a byte slice reads forward.
fn slice_read_forward(src: &[u8], off: usize) -> (r: &[u8])
    ensures
        r@ == src@.skip(vstd::math::min(off as int, src@.len() as int)),
{
    let o = if off < src.len() { off } else { src.len() };
    let r = slice_subrange(src, o, src.len());
    assert(r@ =~= src@.skip(o as int));
    r
}

impl GapBuffer {
    /// The bytes from `off` (clamped to the text) up to the gap or the end of the text.
    pub fn read_forward(&self, off: usize) -> (r: &[u8])
        requires
            self.wf(),
        ensures
            ({
                let o = vstd::math::min(off as int, self.text().len() as int);
                let e = if o < self.gap_offset() { self.gap_offset() as int } else { self.text().len() as int };
                r@ == self.text().subrange(o, e)
            }),
    {
        let off = if off < self.text_length { off } else { self.text_length };
        let (beg, len) = if off < self.gap_off {
            // Cursor is before the gap: We can read until the start of the gap.
            (off, self.gap_off - off)
        } else {
            // Cursor is after the gap: We can read until the end of the buffer.
            (off + self.gap_len, self.text_length - off)
        };
        let r = slice_subrange(self.buffer.as_slice(), beg, beg + len);
        proof {
            let e = if off < self.gap_off { self.gap_off as int } else { self.text_length as int };
            assert(r@ =~= self.text().subrange(off as int, e));
        }
        r
    }

    /// The bytes before `off` (clamped to the text), back to the gap or the start.
    pub fn read_backward(&self, off: usize) -> (r: &[u8])
        requires
            self.wf(),
        ensures
            ({
                let o = vstd::math::min(off as int, self.text().len() as int);
                let b = if o <= self.gap_offset() { 0 } else { self.gap_offset() as int };
                r@ == self.text().subrange(b, o)
            }),
    {
        let off = if off < self.text_length { off } else { self.text_length };
        let (beg, len) = if off <= self.gap_off {
            // Cursor is before the gap: We can read until the beginning of the buffer.
            (0, off)
        } else {
            // Cursor is after the gap: We can read until the end of the gap.
            (self.gap_off + self.gap_len, off - self.gap_off)
        };
        let r = slice_subrange(self.buffer.as_slice(), beg, beg + len);
        proof {
            let b = if off <= self.gap_off { 0 } else { self.gap_off as int };
            assert(r@ =~= self.text().subrange(b, off as int));
        }
        r
    }

    /// Inserts the text in `range` (clamped to the text) into `out` at `out_off`
    /// (clamped to `out`).
    pub fn extract_raw(&self, range: Range<usize>, out: &mut Vec<u8>, out_off: usize)
        requires
            self.wf(),
        ensures
            ({
                let e = vstd::math::min(range.end as int, self.text().len() as int);
                let b = vstd::math::min(range.start as int, e);
                let o = vstd::math::min(out_off as int, old(out)@.len() as int);
                final(out)@ == old(out)@.take(o) + self.text().subrange(b, e) + old(out)@.skip(o)
            }),
    {
        let end = if range.end < self.text_length { range.end } else { self.text_length };
        let mut beg = if range.start < end { range.start } else { end };
        let mut out_off = if out_off < out.len() { out_off } else { out.len() };
        if beg >= end {
            assert(old(out)@ =~= old(out)@.take(out_off as int) + Seq::<u8>::empty() + old(out)@.skip(out_off as int));
            assert(self.text().subrange(beg as int, end as int) =~= Seq::<u8>::empty());
            return;
        }
        let ghost b0 = beg as int;
        let ghost o0 = out_off as int;
        let ghost out0 = out@;
        while beg < end
            invariant
                self.wf(),
                0 <= b0 <= beg <= end <= self.text().len(),
                0 <= o0,
                o0 <= out0.len(),
                out_off == o0 + (beg - b0),
                out_off <= out@.len(),
                out@ == out0.take(o0) + self.text().subrange(b0, beg as int) + out0.skip(o0),
            decreases end - beg,
        {
            let chunk = self.read_forward(beg);
            let n = if chunk.len() < end - beg { chunk.len() } else { end - beg };
            let part = slice_subrange(chunk, 0, n);
            let ghost pre = out@;
            proof {
                let t = self.text();
                assert(chunk@.len() > 0);
                assert(n <= chunk@.len());
                assert(part@ =~= t.subrange(beg as int, beg + n));
                assert(t.subrange(b0, beg + n) =~= t.subrange(b0, beg as int) + part@);
                assert(pre.take(out_off as int) =~= out0.take(o0) + t.subrange(b0, beg as int));
                assert(pre.skip(out_off as int) =~= out0.skip(o0));
            }
            insert_at(out, out_off, part);
            proof {
                let t = self.text();
                assert(out@ =~= out0.take(o0) + t.subrange(b0, beg + n) + out0.skip(o0));
                assert(out_off + n <= out.len());
            }
            beg += n;
            out_off += n;
            assert(out@ =~= out0.take(o0) + self.text().subrange(b0, beg as int) + out0.skip(o0));
        }
    }

    /// Copies the contents of the buffer into `dst`, replacing what it held.
    pub fn copy_into(&self, dst: &mut Vec<u8>)
        requires
            self.wf(),
        ensures
            final(dst)@ == self.text(),
    {
        dst.clear();
        let mut off: usize = 0;
        loop
            invariant
                self.wf(),
                off <= self.text().len(),
                dst@ == self.text().take(off as int),
            ensures
                off == self.text().len(),
                dst@ == self.text().take(off as int),
            decreases self.text().len() - off,
        {
            let chunk = self.read_forward(off);
            // The first write replaces all of `dst`; the rest append.
            dst.extend_from_slice(chunk);
            proof {
                assert(self.text().take(off + chunk@.len()) =~= self.text().take(off as int) + chunk@);
            }
            off += chunk.len();
            if !(off < self.text_length) {
                break;
            }
        }
        assert(self.text().take(off as int) =~= self.text());
    }

    /// Replaces the entire buffer contents with `src` (as much of it as the reserve
    /// holds). The method is optimized for the case where `src` already matches the
    /// existing contents. Returns `true` if the buffer contents were changed.
    pub fn copy_from(&mut self, src: &[u8]) -> (r: bool)
        requires
            old(self).wf(),
            src@.len() <= usize::MAX / 2,
        ensures
            final(self).wf(),
            r == (old(self).text() != src@),
            !r ==> final(self).text() == old(self).text() && final(self).generation_spec() == old(self).generation_spec(),
            r ==> final(self).text() == src@.take(vstd::math::min(src@.len() as int, old(self).capacity() as int))
                && final(self).generation_spec() == old(self).generation_spec().wrapping_add(1).wrapping_add(1),
            final(self).capacity() == old(self).capacity(),
            final(self).is_small() == old(self).is_small(),
    {
        let ghost t0 = self.text();
        let mut off: usize = 0;
        // Find the position at which the contents change.
        loop
            invariant
                self.wf(),
                self.text() == t0,
                *self == *old(self),
                off <= t0.len(),
                off <= src@.len(),
                t0.take(off as int) == src@.take(off as int),
            ensures
                off <= t0.len(),
                off <= src@.len(),
                t0.take(off as int) == src@.take(off as int),
                t0 != src@,
            decreases t0.len() - off,
        {
            let dst_chunk = self.read_forward(off);
            let src_chunk = slice_read_forward(src, off);
            let dst_len = dst_chunk.len();
            let src_len = src_chunk.len();
            let len = if dst_len < src_len { dst_len } else { src_len };
            let mut k: usize = 0;
            while k < len
                invariant
                    k <= len <= dst_chunk@.len(),
                    len <= src_chunk@.len(),
                    forall|j: int| 0 <= j < k ==> dst_chunk@[j] == src_chunk@[j],
                ensures
                    k <= len,
                    forall|j: int| 0 <= j < k ==> dst_chunk@[j] == src_chunk@[j],
                    k < len ==> dst_chunk@[k as int] != src_chunk@[k as int],
                decreases len - k,
            {
                if dst_chunk[k] != src_chunk[k] {
                    break;
                }
                k += 1;
            }
            if k < len {
                // The contents differ.
                proof {
                    assert(t0[off + k] == dst_chunk@[k as int]);
                    assert(src@[off + k] == src_chunk@[k as int]);
                    assert(t0[off + k] != src@[off + k]);
                }
                break;
            }
            if len == 0 {
                if dst_len == src_len {
                    // Both done simultaneously. -> Done.
                    proof {
                        assert(t0.take(off as int) =~= t0);
                        assert(src@.take(off as int) =~= src@);
                    }
                    return false;
                }
                // One of the two is shorter.
                break;
            }
            proof {
                assert(t0.take(off + len) =~= t0.take(off as int) + dst_chunk@.take(len as int));
                assert(src@.take(off + len) =~= src@.take(off as int) + src_chunk@.take(len as int));
                assert(dst_chunk@.take(len as int) =~= src_chunk@.take(len as int));
            }
            off += len;
        }
        // Update the buffer starting at `off`.
        let chunk = slice_read_forward(src, off);
        self.replace(off..usize::MAX, chunk);
        let ghost t1 = self.text();
        let next = off + chunk.len();
        let rest = slice_read_forward(src, next);
        // With nothing left to copy, this removes what is left of the old contents.
        self.replace(next..usize::MAX, rest);
        proof {
            let cap = old(self).capacity() as int;
            let k = vstd::math::min(chunk@.len() as int, cap - off);
            assert(t1 =~= t0.take(off as int) + chunk@.take(k));
            assert(rest@.len() == 0);
            assert(self.text() =~= t1.take(vstd::math::min(next as int, t1.len() as int)));
            assert(self.text() =~= src@.take(vstd::math::min(src@.len() as int, cap)));
        }
        true
    }
}

} // verus!
