//! A fixed-capacity, byte-backed bit vector.
//!
//! A [`BitArray`] packs boolean values eight per byte and exposes bit-level
//! read, write, bulk-set and slice operations over a buffer whose size is
//! fixed at construction. Within each byte, logical bit 0 occupies the
//! most-significant-bit position (MSB-first packing).

use vstd::prelude::*;

verus! {

/// The value (0 or 1) of the bit at position `pos` of `byte`,
/// counting positions from the most significant bit down.
pub open spec fn nth_bit(byte: u8, pos: u8) -> u8
    recommends
        pos < 8,
{
    (byte >> (7 - pos) as u8) & 1
}

/// A fixed-capacity bit vector backed by a contiguous byte buffer.
///
/// `length` is the number of addressable bits and `byte_length` the number
/// of bytes of storage; `length == byte_length * 8` always holds. The view
/// (`self@`) is the sequence of storage bytes.
pub struct BitArray {
    pub storage: Vec<u8>,
    pub length: usize,
    pub byte_length: usize,
}

impl View for BitArray {
    type V = Seq<u8>;

    open spec fn view(&self) -> Seq<u8> {
        self.storage@
    }
}

impl BitArray {
    /// The bookkeeping fields agree with the storage: `byte_length` counts
    /// the bytes and `length` is exactly eight times that.
    pub open spec fn wf(self) -> bool {
        &&& self.byte_length == self@.len()
        &&& self.length == self@.len() * 8
    }

    /// The value (0 or 1) of the bit at logical index `i`.
    pub open spec fn bit(self, i: int) -> u8
        recommends
            self.wf(),
            0 <= i < self.length,
    {
        nth_bit(self@[i / 8], (i % 8) as u8)
    }

    /// Builds a zero-filled `BitArray` of `length` bits.
    ///
    /// A `length` that is not a multiple of 8 is truncated downward: the
    /// array holds `length / 8` bytes, hence `8 * (length / 8)` bits. A
    /// request under 8 bits yields a zero-byte, zero-length array.
    pub fn new_with_length(length: usize) -> (r: BitArray)
        ensures
            r.wf(),
            r.byte_length == length / 8,
            r.length == 8 * (length / 8),
            length % 8 == 0 ==> r.length == length,
            forall|i: int| 0 <= i < r.length ==> r.bit(i) == 0,
    {
        let byte_len: usize = length / 8;
        let mut storage: Vec<u8> = Vec::new();
        while storage.len() < byte_len
            invariant
                storage@.len() <= byte_len,
                forall|i: int| 0 <= i < storage@.len() ==> storage@[i] == 0u8,
            decreases byte_len - storage.len(),
        {
            storage.push(0);
        }
        let r = BitArray { storage, length: byte_len * 8, byte_length: byte_len };
        assert forall|i: int| 0 <= i < r.length implies r.bit(i) == 0 by {
            let p = (i % 8) as u8;
            assert(nth_bit(0u8, p) == 0) by (bit_vector)
                requires p < 8;
        }
        r
    }

    /// Builds a `BitArray` holding an independent copy of a byte span of `buf`.
    ///
    /// The span starts at byte `offset` and takes `length / 8` bytes
    /// (non-multiple-of-8 lengths are truncated downward), clamped to what
    /// `buf` actually holds: a source region shorter than requested yields a
    /// silently smaller array, and an `offset` at or past the end of `buf`
    /// yields an empty one.
    pub fn new_with_offset_and_length(buf: &[u8], offset: usize, length: usize) -> (r: BitArray)
        ensures
            r.wf(),
            r@ == copy_span(buf@, offset as int, length as int),
            r.byte_length == r@.len(),
    {
        let want: usize = length / 8;
        let start: usize = if offset < buf.len() {
            offset
        } else {
            buf.len()
        };
        let avail: usize = buf.len() - start;
        let take: usize = if want < avail {
            want
        } else {
            avail
        };
        let mut storage: Vec<u8> = Vec::new();
        let mut i: usize = 0;
        while i < take
            invariant
                i <= take,
                start + take <= buf@.len(),
                buf@.len() <= usize::MAX,
                storage@ =~= buf@.subrange(start as int, start + i),
            decreases take - i,
        {
            storage.push(buf[start + i]);
            i = i + 1;
        }
        let r = BitArray { storage, length: take * 8, byte_length: take };
        r
    }

    /// The bit at index `idx`, as 0 or 1.
    pub fn get_bit(&self, idx: usize) -> (r: u8)
        requires
            self.wf(),
            idx < self.length,
        ensures
            r == self.bit(idx as int),
            r == 0 || r == 1,
    {
        let byte: u8 = self.storage[idx / 8];
        let pos: u8 = (idx % 8) as u8;
        let r: u8 = (byte >> (7 - pos)) & 1;
        assert((byte >> (7 - pos) as u8) & 1 == 0 || (byte >> (7 - pos) as u8) & 1 == 1)
            by (bit_vector)
            requires
                pos < 8,
        ;
        r
    }

    /// Sets the bit at index `idx` to 1 when `val` is nonzero, to 0 when
    /// `val` is zero. No other bit changes.
    pub fn set_bit(&mut self, idx: usize, val: u8)
        requires
            old(self).wf(),
            idx < old(self).length,
        ensures
            final(self).wf(),
            final(self).length == old(self).length,
            final(self).byte_length == old(self).byte_length,
            final(self).bit(idx as int) == (if val != 0 { 1u8 } else { 0u8 }),
            forall|j: int|
                0 <= j < old(self).length && j != idx ==> final(self).bit(j) == old(self).bit(j),
    {
        let byte_idx: usize = idx / 8;
        let pos: u8 = (idx % 8) as u8;
        let mask: u8 = 0x80u8 >> pos;
        let old_b: u8 = self.storage[byte_idx];
        let new_b: u8 = if val != 0 {
            old_b | mask
        } else {
            old_b & !mask
        };
        self.storage[byte_idx] = new_b;
        proof {
            if val != 0 {
                lemma_set_in_byte(old_b, pos, pos);
            } else {
                lemma_clear_in_byte(old_b, pos, pos);
            }
            assert forall|j: int|
                0 <= j < old(self).length && j != idx implies self.bit(j) == old(self).bit(j) by {
                let q = (j % 8) as u8;
                if j / 8 == byte_idx {
                    assert(j % 8 != idx % 8);
                    if val != 0 {
                        lemma_set_in_byte(old_b, pos, q);
                    } else {
                        lemma_clear_in_byte(old_b, pos, q);
                    }
                }
            }
        }
    }

    /// Sets the leading bits of the array positionally from `array`: bit `i`
    /// becomes 1 when `array[i]` is nonzero, 0 when it is zero. Bits past the
    /// end of `array` keep their values. `array` must not hold more entries
    /// than the array has bits.
    pub fn set(&mut self, array: &[u8])
        requires
            old(self).wf(),
            array@.len() <= old(self).length,
        ensures
            final(self).wf(),
            final(self).length == old(self).length,
            final(self).byte_length == old(self).byte_length,
            forall|j: int|
                0 <= j < array@.len() ==> final(self).bit(j) == (if array@[j] != 0 {
                    1u8
                } else {
                    0u8
                }),
            forall|j: int|
                array@.len() <= j < old(self).length ==> final(self).bit(j) == old(self).bit(j),
    {
        let mut i: usize = 0;
        while i < array.len()
            invariant
                i <= array@.len(),
                array@.len() <= old(self).length,
                self.wf(),
                self.length == old(self).length,
                self.byte_length == old(self).byte_length,
                forall|j: int|
                    0 <= j < i ==> self.bit(j) == (if array@[j] != 0 {
                        1u8
                    } else {
                        0u8
                    }),
                forall|j: int| i <= j < old(self).length ==> self.bit(j) == old(self).bit(j),
            decreases array@.len() - i,
        {
            self.set_bit(i, array[i]);
            i = i + 1;
        }
    }

    /// The bits of the half-open index range `[start, min(length, stop))`,
    /// in order, each as 0 or 1. `stop` is clamped to `length`; a `start` at
    /// or past the effective stop yields an empty vector.
    pub fn subarray(&self, start: usize, stop: usize) -> (r: Vec<u8>)
        requires
            self.wf(),
        ensures
            r@.len() == (if start <= clamped_stop(self.length as int, stop as int) {
                clamped_stop(self.length as int, stop as int) - start
            } else {
                0
            }),
            forall|j: int| 0 <= j < r@.len() ==> r@[j] == self.bit(start + j),
    {
        let stop_eff: usize = if self.length < stop {
            self.length
        } else {
            stop
        };
        let mut r: Vec<u8> = Vec::new();
        let mut i: usize = start;
        while i < stop_eff
            invariant
                self.wf(),
                start <= i,
                i <= stop_eff || i == start,
                stop_eff <= self.length,
                stop_eff == clamped_stop(self.length as int, stop as int),
                r@.len() == i - start,
                forall|j: int| 0 <= j < r@.len() ==> r@[j] == self.bit(start + j),
            decreases stop_eff - i,
        {
            let b = self.get_bit(i);
            r.push(b);
            i = i + 1;
        }
        r
    }
}

/// The effective stop index of a range slice: `stop`, clamped to the number
/// of addressable bits.
pub open spec fn clamped_stop(length: int, stop: int) -> int {
    if length < stop {
        length
    } else {
        stop
    }
}

/// ORing `0x80 >> p` into a byte sets the bit at position `p` (counted from
/// the most significant bit) and leaves every other position unchanged.
proof fn lemma_set_in_byte(b: u8, p: u8, q: u8)
    by (bit_vector)
    requires
        p < 8,
        q < 8,
    ensures
        q == p ==> nth_bit(b | (0x80u8 >> p), q) == 1,
        q != p ==> nth_bit(b | (0x80u8 >> p), q) == nth_bit(b, q),
{
}

/// ANDing the complement of `0x80 >> p` into a byte clears the bit at
/// position `p` and leaves every other position unchanged.
proof fn lemma_clear_in_byte(b: u8, p: u8, q: u8)
    by (bit_vector)
    requires
        p < 8,
        q < 8,
    ensures
        q == p ==> nth_bit(b & !(0x80u8 >> p), q) == 0,
        q != p ==> nth_bit(b & !(0x80u8 >> p), q) == nth_bit(b, q),
{
}

/// The byte span that construction from an external buffer copies: up to
/// `length / 8` bytes of `buf` starting at `offset`, clamped to the bytes
/// that `buf` actually holds.
pub open spec fn copy_span(buf: Seq<u8>, offset: int, length: int) -> Seq<u8> {
    let start = if offset < buf.len() {
        offset
    } else {
        buf.len() as int
    };
    let take = if length / 8 < buf.len() - start {
        length / 8
    } else {
        buf.len() - start
    };
    buf.subrange(start, start + take)
}

} // verus!
