//! A bump allocator that lays values out one after another in a buffer,
//! each at its natural alignment, as the boot-information structures are
//! built.
//!
//! The buffer is modelled by its contents: the bytes written so far, with
//! the bytes never written reading as zero. `base` is the physical address
//! the buffer will live at, so that structures can point into it.
use vstd::prelude::*;
use vstd::arithmetic::power2::{pow2, lemma2_to64, lemma_pow2_pos};
use vstd::bits::{low_bits_mask, lemma_usize_low_bits_mask_is_mod};
use crate::bytes::{bytes_value, lemma_bytes_value_frame, u16_bytes, u32_bytes, u64_bytes, u16_to_bytes, u32_to_bytes, u64_to_bytes};

verus! {

broadcast use crate::bytes::group_bytes_len;

#[verifier::opaque]
/// `s` with `v` written at `off`, grown with zeros as far as needed.
pub open spec fn write_at(s: Seq<u8>, off: int, v: Seq<u8>) -> Seq<u8> {
    Seq::new(
        if s.len() >= off + v.len() {
            s.len()
        } else {
            (off + v.len()) as nat
        },
        |i: int|
            if off <= i < off + v.len() {
                v[i - off]
            } else if i < s.len() {
                s[i]
            } else {
                0u8
            },
    )
}

/// Reading after a write: the bytes written where they lie, the bytes
/// before elsewhere.
pub proof fn lemma_read_written(s: Seq<u8>, off: int, v: Seq<u8>, k: int, n: nat)
    requires
        0 <= off,
        0 <= k,
    ensures
        off <= k && k + n <= off + v.len() ==> bytes_value(write_at(s, off, v), k, n) == bytes_value(
            v,
            k - off,
            n,
        ),
        (k + n <= off || k >= off + v.len()) && k + n <= s.len() ==> bytes_value(
            write_at(s, off, v),
            k,
            n,
        ) == bytes_value(s, k, n),
{
    reveal(write_at);
    let w = write_at(s, off, v);
    if off <= k && k + n <= off + v.len() {
        lemma_bytes_value_frame(w, k, v, k - off, n);
    }
    if (k + n <= off || k >= off + v.len()) && k + n <= s.len() {
        lemma_bytes_value_frame(w, k, s, k, n);
    }
}

/// The least multiple of `a` that is at least `x`.
pub open spec fn align_up(x: int, a: int) -> int {
    (x + a - 1) / a * a
}

/// `a` is a power of two that a `usize` can hold.
pub open spec fn is_power_of_two(a: usize) -> bool {
    exists|n: nat| n < usize::BITS && a == pow2(n)
}

/// The length of a buffer after a write: as far as the write reaches, or
/// what it was.
pub broadcast proof fn lemma_write_at_len(s: Seq<u8>, off: int, v: Seq<u8>)
    ensures
        #[trigger] write_at(s, off, v).len() == if s.len() >= off + v.len() {
            s.len()
        } else {
            (off + v.len()) as nat
        },
{
    reveal(write_at);
}

/// Two writes side by side are one write of both.
pub proof fn lemma_write_at_concat(s: Seq<u8>, a: int, u: Seq<u8>, v: Seq<u8>)
    requires
        0 <= a,
    ensures
        write_at(write_at(s, a, u), a + u.len(), v) == write_at(s, a, u + v),
{
    reveal(write_at);
    assert(write_at(write_at(s, a, u), a + u.len(), v) =~= write_at(s, a, u + v));
}

/// The alignments the boot structures use are powers of two.
pub proof fn lemma_small_powers()
    ensures
        is_power_of_two(1),
        is_power_of_two(2),
        is_power_of_two(4),
        is_power_of_two(8),
{
    lemma2_to64();
    assert(pow2(0) == 1 && pow2(1) == 2 && pow2(2) == 4 && pow2(3) == 8);
}

/// An offset already at a multiple of 8 stays where it is.
pub proof fn lemma_align_up_aligned(x: int)
    requires
        0 <= x,
        x % 8 == 0,
    ensures
        align_up(x, 8) == x,
        align_up(x, 4) == x,
        align_up(x, 2) == x,
{
    assert(x % 4 == 0 && x % 2 == 0) by (nonlinear_arith)
        requires
            x % 8 == 0,
    ;
    lemma_align_up_exact(x, 8);
    lemma_align_up_exact(x, 4);
    lemma_align_up_exact(x, 2);
}

/// An offset already at a multiple of `a` stays where it is.
pub proof fn lemma_align_up_exact(x: int, a: int)
    requires
        0 <= x,
        0 < a,
        x % a == 0,
    ensures
        align_up(x, a) == x,
{
    assert((x + a - 1) / a == x / a) by (nonlinear_arith)
        requires
            0 <= x,
            0 < a,
            x % a == 0,
    ;
    assert(x / a * a == x) by (nonlinear_arith)
        requires
            0 < a,
            x % a == 0,
    ;
}

/// Where an allocation lands: at a multiple of its alignment, at or after
/// the current offset and less than one alignment past it, so that regions
/// handed out one after another never overlap.
pub proof fn lemma_align_up_bounds(x: int, a: int)
    requires
        0 <= x,
        0 < a,
    ensures
        x <= align_up(x, a) < x + a,
        align_up(x, a) % a == 0,
{
    let y = x + a - 1;
    assert(y / a * a <= y && y < y / a * a + a) by (nonlinear_arith)
        requires
            0 <= y,
            0 < a,
    ;
    assert((y / a * a) % a == 0) by (nonlinear_arith)
        requires
            0 < a,
    ;
}

/// Writes `data` over the bytes of `buffer` from `offset` on.
pub fn overwrite(buffer: &mut Vec<u8>, offset: usize, data: &[u8])
    requires
        offset + data@.len() <= old(buffer).len(),
    ensures
        final(buffer)@ == write_at(old(buffer)@, offset as int, data@),
{
    let ghost s0 = buffer@;
    let mut i: usize = 0;
    while i < data.len()
        invariant
            i <= data@.len(),
            offset + data@.len() <= s0.len(),
            offset + data@.len() <= usize::MAX,
            buffer@.len() == s0.len(),
            forall|j: int| 0 <= j < s0.len() ==> #[trigger] buffer@[j] == if offset <= j < offset + i {
                data@[j - offset]
            } else {
                s0[j]
            },
        decreases data@.len() - i,
    {
        buffer.set(offset + i, data[i]);
        i = i + 1;
    }
    assert(buffer@ =~= write_at(s0, offset as int, data@)) by {
        reveal(write_at);
    }
}

/// Hands out consecutive, aligned regions of a buffer and records what is
/// written into them.
pub struct BumpAllocator {
    base: u64,
    bytes: Vec<u8>,
    offset: usize,
}

impl BumpAllocator {
    /// The physical address of the buffer.
    pub closed spec fn base(&self) -> u64 {
        self.base
    }

    /// The buffer's contents so far.
    pub closed spec fn bytes(&self) -> Seq<u8> {
        self.bytes@
    }

    /// Where the next region starts.
    pub closed spec fn offset(&self) -> usize {
        self.offset
    }

    /// An allocator over an empty buffer at physical address `base`.
    pub fn new(base: u64) -> (a: Self)
        ensures
            a.base() == base,
            a.bytes() == Seq::<u8>::empty(),
            a.offset() == 0,
    {
        BumpAllocator { base, bytes: Vec::new(), offset: 0 }
    }

    /// Passes over `count` bytes.
    pub fn skip(&mut self, count: usize)
        requires
            old(self).offset() + count <= usize::MAX,
        ensures
            final(self).offset() == old(self).offset() + count,
            final(self).bytes() == old(self).bytes(),
            final(self).base() == old(self).base(),
    {
        self.offset = self.offset + count;
    }

    /// Moves the offset up to the next multiple of `align`.
    pub fn align_to(&mut self, align: usize)
        requires
            is_power_of_two(align),
            old(self).offset() + align - 1 <= usize::MAX,
        ensures
            final(self).offset() == align_up(old(self).offset() as int, align as int),
            final(self).bytes() == old(self).bytes(),
            final(self).base() == old(self).base(),
    {
        let ghost n = choose|n: nat| n < usize::BITS && align == pow2(n);
        proof {
            lemma_pow2_pos(n);
        }
        let mask: usize = align - 1;
        let y: usize = self.offset + mask;
        let r: usize = y & !mask;
        proof {
            assert(low_bits_mask(n) == align - 1);
            lemma_usize_low_bits_mask_is_mod(y, n);
            assert(y & !mask == y - (y & mask)) by (bit_vector);
            assert(y == (y / align) * align + y % align) by (nonlinear_arith)
                requires
                    align > 0,
            ;
        }
        self.offset = r;
    }

    /// Where the next region starts.
    pub fn current_offset(&self) -> (offset: usize)
        ensures
            offset == self.offset(),
    {
        self.offset
    }

    /// The physical address of the byte at `offset` in the buffer.
    pub fn ptr_at_offset(&self, offset: usize) -> (address: u64)
        requires
            self.base() + offset <= u64::MAX,
        ensures
            address == self.base() + offset,
    {
        self.base + offset as u64
    }

    /// Writes `data` at `offset`, leaving the allocation offset where it is.
    pub fn write_at(&mut self, offset: usize, data: &[u8])
        requires
            offset + data@.len() <= usize::MAX,
        ensures
            final(self).bytes() == write_at(old(self).bytes(), offset as int, data@),
            final(self).offset() == old(self).offset(),
            final(self).base() == old(self).base(),
    {
        let end = offset + data.len();
        let ghost s0 = self.bytes@;
        while self.bytes.len() < end
            invariant
                end == offset + data@.len(),
                s0 == old(self).bytes(),
                self.offset == old(self).offset(),
                self.base == old(self).base(),
                s0.len() <= self.bytes@.len(),
                self.bytes@.len() <= if s0.len() >= end { s0.len() } else { end as nat },
                forall|i: int| 0 <= i < self.bytes@.len() ==> #[trigger] self.bytes@[i] == if i < s0.len() {
                    s0[i]
                } else {
                    0u8
                },
            decreases end - self.bytes@.len(),
        {
            self.bytes.push(0);
        }
        let mut i: usize = 0;
        while i < data.len()
            invariant
                end == offset + data@.len(),
                i <= data@.len(),
                self.offset == old(self).offset(),
                self.base == old(self).base(),
                self.bytes@.len() == if s0.len() >= end { s0.len() } else { end as nat },
                forall|j: int| 0 <= j < self.bytes@.len() ==> #[trigger] self.bytes@[j] == if offset <= j < offset + i {
                    data@[j - offset]
                } else if j < s0.len() {
                    s0[j]
                } else {
                    0u8
                },
            decreases data@.len() - i,
        {
            self.bytes.set(offset + i, data[i]);
            i = i + 1;
        }
        assert(self.bytes@ =~= write_at(s0, offset as int, data@)) by {
            reveal(write_at);
        }
    }

    /// Reserves `size` bytes at the next multiple of `align`; returns their offset.
    pub fn alloc_raw(&mut self, size: usize, align: usize) -> (offset: usize)
        requires
            is_power_of_two(align),
            align_up(old(self).offset() as int, align as int) + size <= usize::MAX,
            old(self).offset() + align - 1 <= usize::MAX,
        ensures
            offset == align_up(old(self).offset() as int, align as int),
            final(self).offset() == offset + size,
            final(self).bytes() == old(self).bytes(),
            final(self).base() == old(self).base(),
    {
        self.align_to(align);
        let offset = self.offset;
        self.skip(size);
        offset
    }

    /// Appends `data` at the current offset, unaligned.
    pub fn append(&mut self, data: &[u8])
        requires
            old(self).offset() + data@.len() <= usize::MAX,
        ensures
            final(self).bytes() == write_at(old(self).bytes(), old(self).offset() as int, data@),
            final(self).offset() == old(self).offset() + data@.len(),
            final(self).base() == old(self).base(),
    {
        let offset = self.offset;
        self.write_at(offset, data);
        self.skip(data.len());
    }

    /// Writes a byte at the current offset.
    pub fn write_u8(&mut self, value: u8)
        requires
            old(self).offset() + 1 <= usize::MAX,
        ensures
            final(self).bytes() == write_at(old(self).bytes(), old(self).offset() as int, seq![value]),
            final(self).offset() == old(self).offset() + 1,
            final(self).base() == old(self).base(),
    {
        let v = vec![value];
        assert(v@ =~= seq![value]);
        self.append(v.as_slice());
    }

    /// Writes a `u16` at the next multiple of 2.
    pub fn write_u16(&mut self, value: u16)
        requires
            old(self).offset() + 3 <= usize::MAX,
        ensures
            final(self).bytes() == write_at(
                old(self).bytes(),
                align_up(old(self).offset() as int, 2),
                u16_bytes(value),
            ),
            final(self).offset() == align_up(old(self).offset() as int, 2) + 2,
            final(self).base() == old(self).base(),
    {
        proof {
            lemma2_to64();
        }
        self.align_to(2);
        let b = u16_to_bytes(value);
        self.append(b.as_slice());
    }

    /// Writes a `u32` at the next multiple of 4.
    pub fn write_u32(&mut self, value: u32)
        requires
            old(self).offset() + 7 <= usize::MAX,
        ensures
            final(self).bytes() == write_at(
                old(self).bytes(),
                align_up(old(self).offset() as int, 4),
                u32_bytes(value),
            ),
            final(self).offset() == align_up(old(self).offset() as int, 4) + 4,
            final(self).base() == old(self).base(),
    {
        proof {
            lemma2_to64();
        }
        self.align_to(4);
        let b = u32_to_bytes(value);
        self.append(b.as_slice());
    }

    /// Writes a `u64` at the next multiple of 8.
    pub fn write_u64(&mut self, value: u64)
        requires
            old(self).offset() + 15 <= usize::MAX,
        ensures
            final(self).bytes() == write_at(
                old(self).bytes(),
                align_up(old(self).offset() as int, 8),
                u64_bytes(value),
            ),
            final(self).offset() == align_up(old(self).offset() as int, 8) + 8,
            final(self).base() == old(self).base(),
    {
        proof {
            lemma2_to64();
        }
        self.align_to(8);
        let b = u64_to_bytes(value);
        self.append(b.as_slice());
    }

    /// The buffer's contents, borrowed.
    pub fn bytes_slice(&self) -> (bytes: &[u8])
        ensures
            bytes@ == self.bytes(),
    {
        self.bytes.as_slice()
    }

    /// The buffer's contents.
    pub fn into_bytes(self) -> (bytes: Vec<u8>)
        ensures
            bytes@ == self.bytes(),
    {
        self.bytes
    }
}

} // verus!
