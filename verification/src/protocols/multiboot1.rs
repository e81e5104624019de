//! Multiboot1: the header a kernel embeds, and the fixed-layout boot
//! information the loader hands over.
use vstd::prelude::*;
use crate::allocator::{BumpAllocator, write_at, align_up, lemma_small_powers};
use crate::bytes::{bytes_value, lemma_le_values, lemma_bytes_value_concat, lemma_encoded_values, le32, u32_bytes, u64_bytes, read_u32, u32_to_bytes, u64_to_bytes};
use crate::efi::{lemma_descriptor_layout, descriptor_type, descriptor_start, descriptor_pages, descriptor_count, descriptors_readable, lengths_fit, memory_map_usable, read_descriptor};
use crate::framebuffer::FramebufferInfo;
use super::BootProtocol;

verus! {

broadcast use {crate::allocator::lemma_write_at_len, crate::bytes::group_bytes_len};

pub const MAGIC: u32 = 0x1BADB002;
pub const BOOT_MAGIC: u32 = 0x2BADB002;
pub const SEARCH_LIMIT: usize = 8192;

pub const FLAG_MEM: u32 = 1;
pub const FLAG_CMDLINE: u32 = 0x4;
pub const FLAG_MMAP: u32 = 0x40;
pub const FLAG_LOADER_NAME: u32 = 0x200;
pub const FLAG_FRAMEBUFFER: u32 = 0x1000;

pub const MMAP_AVAILABLE: u32 = 1;
pub const MMAP_RESERVED: u32 = 2;
pub const MMAP_ACPI: u32 = 3;
pub const MMAP_ACPI_NVS: u32 = 4;

pub const FRAMEBUFFER_TYPE_RGB: u8 = 1;

pub const MBI_FLAGS: usize = 0;
pub const MBI_MEM_LOWER: usize = 4;
pub const MBI_MEM_UPPER: usize = 8;
pub const MBI_CMDLINE: usize = 16;
pub const MBI_MMAP_LENGTH: usize = 44;
pub const MBI_MMAP_ADDR: usize = 48;
pub const MBI_BOOT_LOADER_NAME: usize = 64;
pub const MBI_FB_ADDR: usize = 88;
pub const MBI_FB_PITCH: usize = 96;
pub const MBI_FB_WIDTH: usize = 100;
pub const MBI_FB_HEIGHT: usize = 104;
pub const MBI_FB_BPP: usize = 108;
pub const MBI_FB_TYPE: usize = 109;
pub const MBI_FB_RED_POS: usize = 110;
pub const MBI_FB_RED_SIZE: usize = 111;
pub const MBI_FB_GREEN_POS: usize = 112;
pub const MBI_FB_GREEN_SIZE: usize = 113;
pub const MBI_FB_BLUE_POS: usize = 114;
pub const MBI_FB_BLUE_SIZE: usize = 115;
pub const MBI_STRUCT_SIZE: usize = 120;

/// The size of the header in bytes.
pub const HEADER_SIZE: usize = 12;

/// The Multiboot1 header a kernel image embeds within its first 8 KiB.
pub struct Header {
    pub magic: u32,
    pub flags: u32,
    pub checksum: u32,
}

impl Header {
    /// A header is valid when its three words sum to zero modulo 2^32.
    pub fn is_valid(&self) -> (valid: bool)
        ensures
            valid == ((self.magic as int + self.flags as int + self.checksum as int) % 0x1_0000_0000
                == 0),
    {
        self.magic.wrapping_add(self.flags).wrapping_add(self.checksum) == 0
    }
}

/// A valid Multiboot1 header starts at `off` in `s`.
pub open spec fn header_at(s: Seq<u8>, off: int) -> bool {
    &&& le32(s, off) == MAGIC
    &&& (le32(s, off) as int + le32(s, off + 4) as int + le32(s, off + 8) as int) % 0x1_0000_0000
        == 0
}

/// The kernel asks for Multiboot1: a valid header starts at a multiple of 4
/// and ends within the first 8 KiB of the image.
pub open spec fn requests_multiboot1(s: Seq<u8>) -> bool {
    exists|off: int|
        0 <= off && off % 4 == 0 && off + 12 <= s.len() && off + 12 <= SEARCH_LIMIT
            && #[trigger] header_at(s, off)
}

/// The kernel asks for Multiboot1 exactly when, at an offset that is a multiple
/// of 4 with the header ending within the first 8192 bytes of the image,
/// it holds the magic 0x1BADB002 and the little-endian words magic, flags and checksum
/// add up to 0 modulo 2^32.
pub proof fn lemma_multiboot1_header(s: Seq<u8>)
    ensures
        requests_multiboot1(s) <==> exists|off: int|
            0 <= off && off % 4 == 0 && off + 12 <= s.len() && off + 12 <= 8192
                && #[trigger] bytes_value(s, off, 4) == 0x1BADB002 && (bytes_value(s, off, 4) + bytes_value(s, off + 4, 4) + bytes_value(s, off + 8, 4)) % 0x1_0000_0000 == 0,
{
    if requests_multiboot1(s) {
        let off = choose|off: int|
            0 <= off && off % 4 == 0 && off + 12 <= s.len() && off + 12 <= SEARCH_LIMIT
                && #[trigger] header_at(s, off);
        lemma_le_values(s, off + 0);
        lemma_le_values(s, off + 4);
        lemma_le_values(s, off + 8);
        assert(bytes_value(s, off, 4) == 0x1BADB002);
    }
    if exists|off: int|
        0 <= off && off % 4 == 0 && off + 12 <= s.len() && off + 12 <= 8192
                && #[trigger] bytes_value(s, off, 4) == 0x1BADB002 && (bytes_value(s, off, 4) + bytes_value(s, off + 4, 4) + bytes_value(s, off + 8, 4)) % 0x1_0000_0000 == 0 {
        let off = choose|off: int|
            0 <= off && off % 4 == 0 && off + 12 <= s.len() && off + 12 <= 8192
                && #[trigger] bytes_value(s, off, 4) == 0x1BADB002 && (bytes_value(s, off, 4) + bytes_value(s, off + 4, 4) + bytes_value(s, off + 8, 4)) % 0x1_0000_0000 == 0;
        lemma_le_values(s, off + 0);
        lemma_le_values(s, off + 4);
        lemma_le_values(s, off + 8);
        assert(header_at(s, off));
    }
}

/// The Multiboot1 protocol.
pub struct Multiboot1;

impl BootProtocol for Multiboot1 {
    fn detect(kernel: &[u8]) -> (found: bool)
        ensures
            found == requests_multiboot1(kernel@),
    {
        let limit = if kernel.len() < SEARCH_LIMIT {
            kernel.len()
        } else {
            SEARCH_LIMIT
        };
        let mut offset: usize = 0;
        while offset + HEADER_SIZE <= limit
            invariant
                offset % 4 == 0,
                offset <= limit + 4,
                limit <= kernel@.len(),
                limit <= SEARCH_LIMIT,
                limit == kernel@.len() || limit == SEARCH_LIMIT,
                forall|off: int|
                    0 <= off < offset && off % 4 == 0 && off + 12 <= kernel@.len() && off + 12
                        <= SEARCH_LIMIT ==> !#[trigger] header_at(kernel@, off),
            decreases limit + 4 - offset,
        {
            let header = Header {
                magic: read_u32(kernel, offset),
                flags: read_u32(kernel, offset + 4),
                checksum: read_u32(kernel, offset + 8),
            };
            if header.magic == MAGIC && header.is_valid() {
                assert(header_at(kernel@, offset as int));
                return true;
            }
            offset = offset + 4;
        }
        false
    }
}

/// The Multiboot1 memory type for a UEFI memory type.
pub open spec fn memory_type(efi_type: u32) -> u32 {
    if efi_type == 1 || efi_type == 2 || efi_type == 3 || efi_type == 4 || efi_type == 7 {
        MMAP_AVAILABLE
    } else if efi_type == 9 {
        MMAP_ACPI
    } else if efi_type == 10 {
        MMAP_ACPI_NVS
    } else {
        MMAP_RESERVED
    }
}

/// The Multiboot1 type of each UEFI memory type: available RAM (1) exactly for
/// loader code and data, boot-services code and data, and conventional
/// memory (UEFI types 1, 2, 3, 4, 7); ACPI reclaimable (3) exactly for type
/// 9; ACPI NVS (4) exactly for type 10; reserved (2) for every other type.
pub proof fn lemma_memory_type_table(efi_type: u32)
    ensures
        memory_type(efi_type) == 1 <==> (efi_type == 1 || efi_type == 2 || efi_type == 3
            || efi_type == 4 || efi_type == 7),
        memory_type(efi_type) == 3 <==> efi_type == 9,
        memory_type(efi_type) == 4 <==> efi_type == 10,
        memory_type(efi_type) == 2 <==> !(efi_type == 1 || efi_type == 2 || efi_type == 3
            || efi_type == 4 || efi_type == 7 || efi_type == 9 || efi_type == 10),
{
}

/// Maps a UEFI memory type to the Multiboot1 one.
pub fn efi_type_to_multiboot1(efi_type: u32) -> (t: u32)
    ensures
        t == memory_type(efi_type),
{
    match efi_type {
        1 | 2 | 3 | 4 | 7 => MMAP_AVAILABLE,
        9 => MMAP_ACPI,
        10 => MMAP_ACPI_NVS,
        _ => MMAP_RESERVED,
    }
}

/// The bytes of descriptor `i` in bytes of memory.
pub open spec fn region_length(mmap: Seq<u8>, size: usize, i: int) -> int {
    descriptor_pages(mmap, size, i) * 0x1000
}

/// The KiB of usable memory below 1 MiB among the first `n` descriptors
/// (each region's count truncated to 32 bits, as it is added).
pub open spec fn mem_lower(mmap: Seq<u8>, size: usize, n: int) -> int
    decreases n,
{
    if n <= 0 {
        0
    } else {
        mem_lower(mmap, size, n - 1) + if memory_type(descriptor_type(mmap, size, n - 1))
            == MMAP_AVAILABLE && descriptor_start(mmap, size, n - 1) < 0x100000 {
            ((region_length(mmap, size, n - 1) / 1024) as u32) as int
        } else {
            0
        }
    }
}

/// The KiB of usable memory from 1 MiB up among the first `n` descriptors.
pub open spec fn mem_upper(mmap: Seq<u8>, size: usize, n: int) -> int
    decreases n,
{
    if n <= 0 {
        0
    } else {
        mem_upper(mmap, size, n - 1) + if memory_type(descriptor_type(mmap, size, n - 1))
            == MMAP_AVAILABLE && descriptor_start(mmap, size, n - 1) >= 0x100000 {
            ((region_length(mmap, size, n - 1) / 1024) as u32) as int
        } else {
            0
        }
    }
}

/// The memory-map record for descriptor `i`: its size word (20, the bytes
/// that follow it), then its start, its length in bytes and its type, packed.
pub open spec fn mmap_record(mmap: Seq<u8>, size: usize, i: int) -> Seq<u8> {
    u32_bytes(20) + u64_bytes(descriptor_start(mmap, size, i)) + u64_bytes(
        region_length(mmap, size, i) as u64,
    ) + u32_bytes(memory_type(descriptor_type(mmap, size, i)))
}

/// The records of the first `n` descriptors, one after the other.
pub open spec fn mmap_records(mmap: Seq<u8>, size: usize, n: int) -> Seq<u8>
    decreases n,
{
    if n <= 0 {
        Seq::empty()
    } else {
        mmap_records(mmap, size, n - 1) + mmap_record(mmap, size, n - 1)
    }
}

/// The records of `n` descriptors take 24 bytes each.
proof fn lemma_mmap_records_len(mmap: Seq<u8>, size: usize, n: int)
    ensures
        mmap_records(mmap, size, n).len() == if n <= 0 { 0 } else { 24 * n },
    decreases n,
{
    if n > 0 {
        lemma_mmap_records_len(mmap, size, n - 1);
    }
}

/// Record `i` of the memory map is the 24 bytes at `24 * i`: the size word
/// 20, the descriptor's physical start (8 bytes), its length in bytes (8)
/// and its Multiboot1 type (4), with the descriptor read from its bytes in
/// the UEFI map.
pub proof fn lemma_mmap_records_layout(mmap: Seq<u8>, size: usize, n: int, i: int)
    requires
        0 <= i < n,
    ensures
        ({
            let e = mmap_records(mmap, size, n);
            let d = i * size;
            &&& e.len() == 24 * n
            &&& bytes_value(e, 24 * i, 4) == 20
            &&& bytes_value(e, 24 * i + 4, 8) == bytes_value(mmap, d + 8, 8)
            &&& bytes_value(e, 24 * i + 12, 8) == (bytes_value(mmap, d + 24, 8) * 0x1000) as u64
            &&& bytes_value(e, 24 * i + 20, 4) == memory_type(bytes_value(mmap, d, 4) as u32)
        }),
    decreases n,
{
    lemma_mmap_records_len(mmap, size, n);
    lemma_mmap_records_len(mmap, size, n - 1);
    let prev = mmap_records(mmap, size, n - 1);
    let ent = mmap_record(mmap, size, n - 1);
    if i < n - 1 {
        lemma_mmap_records_layout(mmap, size, n - 1, i);
        lemma_bytes_value_concat(prev, ent, 24 * i, 4);
        lemma_bytes_value_concat(prev, ent, 24 * i + 4, 8);
        lemma_bytes_value_concat(prev, ent, 24 * i + 12, 8);
        lemma_bytes_value_concat(prev, ent, 24 * i + 20, 4);
    } else {
        lemma_descriptor_layout(mmap, size, i);
        let z = u32_bytes(20);
        let a = u64_bytes(descriptor_start(mmap, size, i));
        let b = u64_bytes(region_length(mmap, size, i) as u64);
        let c = u32_bytes(memory_type(descriptor_type(mmap, size, i)));
        lemma_encoded_values(0, 20, descriptor_start(mmap, size, i));
        lemma_encoded_values(0, memory_type(descriptor_type(mmap, size, i)), region_length(mmap, size, i) as u64);
        lemma_bytes_value_concat(prev, ent, 24 * i, 4);
        lemma_bytes_value_concat(prev, ent, 24 * i + 4, 8);
        lemma_bytes_value_concat(prev, ent, 24 * i + 12, 8);
        lemma_bytes_value_concat(prev, ent, 24 * i + 20, 4);
        lemma_bytes_value_concat(z + a + b, c, 0, 4);
        lemma_bytes_value_concat(z + a + b, c, 4, 8);
        lemma_bytes_value_concat(z + a + b, c, 12, 8);
        lemma_bytes_value_concat(z + a + b, c, 20, 4);
        lemma_bytes_value_concat(z + a, b, 0, 4);
        lemma_bytes_value_concat(z + a, b, 4, 8);
        lemma_bytes_value_concat(z + a, b, 12, 8);
        lemma_bytes_value_concat(z, a, 0, 4);
        lemma_bytes_value_concat(z, a, 4, 8);
    }
}

/// `b` with `flags` or-ed into its flags word.
pub open spec fn with_flags(b: Seq<u8>, flags: u32) -> Seq<u8> {
    write_at(b, MBI_FLAGS as int, u32_bytes(le32(b, MBI_FLAGS as int) | flags))
}

/// `b` with the framebuffer fields of the fixed part filled in.
pub open spec fn framebuffer_fields(
    b: Seq<u8>,
    base: u64,
    pitch: u32,
    width: u32,
    height: u32,
    red_position: u8,
    green_position: u8,
    blue_position: u8,
) -> Seq<u8> {
    let b1 = write_at(b, MBI_FB_ADDR as int, u64_bytes(base));
    let b2 = write_at(b1, MBI_FB_PITCH as int, u32_bytes(pitch));
    let b3 = write_at(b2, MBI_FB_WIDTH as int, u32_bytes(width));
    let b4 = write_at(b3, MBI_FB_HEIGHT as int, u32_bytes(height));
    let b5 = write_at(b4, MBI_FB_BPP as int, seq![32u8]);
    let b6 = write_at(b5, MBI_FB_TYPE as int, seq![FRAMEBUFFER_TYPE_RGB]);
    let b7 = write_at(b6, MBI_FB_RED_POS as int, seq![red_position]);
    let b8 = write_at(b7, MBI_FB_RED_SIZE as int, seq![8u8]);
    let b9 = write_at(b8, MBI_FB_GREEN_POS as int, seq![green_position]);
    let b10 = write_at(b9, MBI_FB_GREEN_SIZE as int, seq![8u8]);
    let b11 = write_at(b10, MBI_FB_BLUE_POS as int, seq![blue_position]);
    write_at(b11, MBI_FB_BLUE_SIZE as int, seq![8u8])
}

/// `b` with the memory-map fields of the fixed part filled in.
pub open spec fn mmap_fields(b: Seq<u8>, addr: u32, length: u32, lower: u32, upper: u32) -> Seq<u8> {
    let b1 = write_at(b, MBI_MMAP_ADDR as int, u32_bytes(addr));
    let b2 = write_at(b1, MBI_MMAP_LENGTH as int, u32_bytes(length));
    let b3 = write_at(b2, MBI_MEM_LOWER as int, u32_bytes(lower));
    write_at(b3, MBI_MEM_UPPER as int, u32_bytes(upper))
}

/// The running totals only grow, so the final bound holds of every prefix.
proof fn lemma_mem_monotone(mmap: Seq<u8>, size: usize, n: int)
    ensures
        forall|j: int| 0 <= j <= n ==> #[trigger] mem_lower(mmap, size, j) <= mem_lower(mmap, size, n),
        forall|j: int| 0 <= j <= n ==> #[trigger] mem_upper(mmap, size, j) <= mem_upper(mmap, size, n),
    decreases n,
{
    if n > 0 {
        lemma_mem_monotone(mmap, size, n - 1);
    }
}

/// Whether the KiB of usable memory below and above 1 MiB that the memory
/// map adds up to each fit in 32 bits, as the structure records them.
pub fn memory_totals_fit(mmap: &[u8], mmap_size: usize, descriptor_size: usize) -> (fit: bool)
    requires
        descriptors_readable(mmap@, mmap_size, descriptor_size),
        lengths_fit(mmap@, mmap_size, descriptor_size),
    ensures
        fit == (mem_lower(mmap@, descriptor_size, descriptor_count(mmap_size, descriptor_size))
            <= u32::MAX && mem_upper(mmap@, descriptor_size, descriptor_count(mmap_size, descriptor_size))
            <= u32::MAX),
{
    let count = mmap_size / descriptor_size;
    proof {
        lemma_mem_monotone(mmap@, descriptor_size, count as int);
    }
    let mut lower: u64 = 0;
    let mut upper: u64 = 0;
    let mut i: usize = 0;
    while i < count
        invariant
            i <= count,
            count == descriptor_count(mmap_size, descriptor_size),
            descriptors_readable(mmap@, mmap_size, descriptor_size),
            lengths_fit(mmap@, mmap_size, descriptor_size),
            forall|j: int| 0 <= j <= count ==> #[trigger] mem_lower(mmap@, descriptor_size, j) <= mem_lower(mmap@, descriptor_size, count as int),
            forall|j: int| 0 <= j <= count ==> #[trigger] mem_upper(mmap@, descriptor_size, j) <= mem_upper(mmap@, descriptor_size, count as int),
            lower == mem_lower(mmap@, descriptor_size, i as int),
            upper == mem_upper(mmap@, descriptor_size, i as int),
            lower <= u32::MAX,
            upper <= u32::MAX,
        decreases count - i,
    {
        proof {
            crate::efi::lemma_descriptor_readable(mmap@, mmap_size, descriptor_size, i as int);
        }
        let (efi_type, base, pages) = read_descriptor(mmap, descriptor_size, i);
        assert(descriptor_pages(mmap@, descriptor_size, i as int) * 0x1000 <= u64::MAX);
        if efi_type_to_multiboot1(efi_type) == MMAP_AVAILABLE {
            let kib = ((pages * 0x1000) / 1024) as u32 as u64;
            if base < 0x100000 {
                lower = lower + kib;
                assert(lower == mem_lower(mmap@, descriptor_size, i + 1));
                if lower > u32::MAX as u64 {
                    assert(mem_lower(mmap@, descriptor_size, i + 1) <= mem_lower(mmap@, descriptor_size, count as int));
                    return false;
                }
            } else {
                upper = upper + kib;
                assert(upper == mem_upper(mmap@, descriptor_size, i + 1));
                if upper > u32::MAX as u64 {
                    assert(mem_upper(mmap@, descriptor_size, i + 1) <= mem_upper(mmap@, descriptor_size, count as int));
                    return false;
                }
            }
        }
        i = i + 1;
    }
    true
}

/// Builds the Multiboot1 information structure: a 120-byte fixed part,
/// followed by the strings and memory map it points to.
pub struct BootInfoBuilder {
    alloc: BumpAllocator,
    buf_phys: u32,
}

impl BootInfoBuilder {
    /// The information so far.
    pub closed spec fn bytes(&self) -> Seq<u8> {
        self.alloc.bytes()
    }

    /// Where the next string or map goes.
    pub closed spec fn offset(&self) -> usize {
        self.alloc.offset()
    }

    /// The physical address the structure will live at.
    pub closed spec fn buf_phys(&self) -> u32 {
        self.buf_phys
    }

    /// The fixed part is in place: the buffer holds at least its 120 bytes.
    pub closed spec fn wf(&self) -> bool {
        &&& self.alloc.bytes().len() >= MBI_STRUCT_SIZE
        &&& self.alloc.offset() >= MBI_STRUCT_SIZE
    }

    /// Starts a structure at physical address `buf_phys` (the buffer being
    /// at `buffer`): 4 KiB of zeros, with the variable part after the fixed
    /// 120 bytes.
    pub fn new(buffer: u64, buf_phys: u32) -> (b: Self)
        ensures
            b.wf(),
            b.bytes() == Seq::new(4096, |i: int| 0u8),
            b.offset() == MBI_STRUCT_SIZE,
            b.buf_phys() == buf_phys,
    {
        let mut alloc = BumpAllocator::new(buffer);
        let zeros = [0u8; 4096];
        alloc.write_at(0, &zeros);
        alloc.skip(MBI_STRUCT_SIZE);
        let b = BootInfoBuilder { alloc, buf_phys };
        assert(b.bytes() =~= Seq::new(4096, |i: int| 0u8)) by {
            reveal(write_at);
        }
        b
    }

    fn set_u8(&mut self, offset: usize, val: u8)
        requires
            offset < MBI_STRUCT_SIZE,
            old(self).wf(),
        ensures
            final(self).wf(),
            final(self).bytes() == write_at(old(self).bytes(), offset as int, seq![val]),
            final(self).offset() == old(self).offset(),
            final(self).buf_phys() == old(self).buf_phys(),
    {
        let v = [val];
        assert(v@ =~= seq![val]);
        self.alloc.write_at(offset, &v);
    }

    fn set_u32(&mut self, offset: usize, val: u32)
        requires
            offset + 4 <= MBI_STRUCT_SIZE,
            old(self).wf(),
        ensures
            final(self).wf(),
            final(self).bytes() == write_at(old(self).bytes(), offset as int, u32_bytes(val)),
            final(self).offset() == old(self).offset(),
            final(self).buf_phys() == old(self).buf_phys(),
    {
        let v = u32_to_bytes(val);
        self.alloc.write_at(offset, v.as_slice());
    }

    fn set_u64(&mut self, offset: usize, val: u64)
        requires
            offset + 8 <= MBI_STRUCT_SIZE,
            old(self).wf(),
        ensures
            final(self).wf(),
            final(self).bytes() == write_at(old(self).bytes(), offset as int, u64_bytes(val)),
            final(self).offset() == old(self).offset(),
            final(self).buf_phys() == old(self).buf_phys(),
    {
        let v = u64_to_bytes(val);
        self.alloc.write_at(offset, v.as_slice());
    }

    fn add_flags(&mut self, flags: u32)
        requires
            old(self).wf(),
        ensures
            final(self).wf(),
            final(self).bytes() == write_at(
                old(self).bytes(),
                MBI_FLAGS as int,
                u32_bytes(le32(old(self).bytes(), MBI_FLAGS as int) | flags),
            ),
            final(self).offset() == old(self).offset(),
            final(self).buf_phys() == old(self).buf_phys(),
    {
        let current = read_u32(self.alloc_bytes(), MBI_FLAGS);
        self.set_u32(MBI_FLAGS, current | flags);
    }

    fn alloc_bytes(&self) -> (b: &[u8])
        ensures
            b@ == self.bytes(),
    {
        self.alloc.bytes_slice()
    }

    /// Appends `s` and a terminating zero; returns the string's physical address.
    fn append_str(&mut self, s: &[u8]) -> (phys: u32)
        requires
            old(self).wf(),
            old(self).offset() + s@.len() + 1 <= usize::MAX,
            old(self).buf_phys() + (old(self).offset() as u32) <= u32::MAX,
        ensures
            final(self).wf(),
            final(self).bytes() == write_at(old(self).bytes(), old(self).offset() as int, s@ + seq![0u8]),
            final(self).offset() == old(self).offset() + s@.len() + 1,
            final(self).buf_phys() == old(self).buf_phys(),
            phys == old(self).buf_phys() + (old(self).offset() as u32),
    {
        let offset = self.alloc.current_offset();
        self.alloc.append(s);
        self.alloc.write_u8(0);
        proof {
            crate::allocator::lemma_write_at_concat(old(self).bytes(), offset as int, s@, seq![0u8]);
        }
        self.buf_phys + offset as u32
    }

    /// Adds the command line and flags it present.
    pub fn add_cmdline(&mut self, cmdline: &[u8])
        requires
            old(self).wf(),
            old(self).offset() + cmdline@.len() + 1 <= usize::MAX,
            old(self).buf_phys() + (old(self).offset() as u32) <= u32::MAX,
        ensures
            final(self).wf(),
            final(self).bytes() == with_flags(
                write_at(
                    write_at(old(self).bytes(), old(self).offset() as int, cmdline@ + seq![0u8]),
                    MBI_CMDLINE as int,
                    u32_bytes((old(self).buf_phys() + (old(self).offset() as u32)) as u32),
                ),
                FLAG_CMDLINE,
            ),
            final(self).offset() == old(self).offset() + cmdline@.len() + 1,
            final(self).buf_phys() == old(self).buf_phys(),
    {
        let phys = self.append_str(cmdline);
        self.set_u32(MBI_CMDLINE, phys);
        self.add_flags(FLAG_CMDLINE);
    }

    /// Adds the boot loader's name and flags it present.
    pub fn add_loader_name(&mut self, name: &[u8])
        requires
            old(self).wf(),
            old(self).offset() + name@.len() + 1 <= usize::MAX,
            old(self).buf_phys() + (old(self).offset() as u32) <= u32::MAX,
        ensures
            final(self).wf(),
            final(self).bytes() == with_flags(
                write_at(
                    write_at(old(self).bytes(), old(self).offset() as int, name@ + seq![0u8]),
                    MBI_BOOT_LOADER_NAME as int,
                    u32_bytes((old(self).buf_phys() + (old(self).offset() as u32)) as u32),
                ),
                FLAG_LOADER_NAME,
            ),
            final(self).offset() == old(self).offset() + name@.len() + 1,
            final(self).buf_phys() == old(self).buf_phys(),
    {
        let phys = self.append_str(name);
        self.set_u32(MBI_BOOT_LOADER_NAME, phys);
        self.add_flags(FLAG_LOADER_NAME);
    }

    /// Fills in the framebuffer fields for a 32-bit RGB framebuffer and flags
    /// them present.
    pub fn add_framebuffer(
        &mut self,
        base: u64,
        width: u32,
        height: u32,
        pixels_per_scan_line: u32,
        red_position: u8,
        green_position: u8,
        blue_position: u8,
    )
        requires
            old(self).wf(),
            pixels_per_scan_line * 4 <= u32::MAX,
        ensures
            final(self).wf(),
            final(self).bytes() == with_flags(
                framebuffer_fields(
                    old(self).bytes(),
                    base,
                    (pixels_per_scan_line * 4) as u32,
                    width,
                    height,
                    red_position,
                    green_position,
                    blue_position,
                ),
                FLAG_FRAMEBUFFER,
            ),
            final(self).offset() == old(self).offset(),
            final(self).buf_phys() == old(self).buf_phys(),
    {
        let pitch: u32 = pixels_per_scan_line * 4;
        self.set_u64(MBI_FB_ADDR, base);
        self.set_u32(MBI_FB_PITCH, pitch);
        self.set_u32(MBI_FB_WIDTH, width);
        self.set_u32(MBI_FB_HEIGHT, height);
        self.set_u8(MBI_FB_BPP, 32);
        self.set_u8(MBI_FB_TYPE, FRAMEBUFFER_TYPE_RGB);
        self.set_u8(MBI_FB_RED_POS, red_position);
        self.set_u8(MBI_FB_RED_SIZE, 8);
        self.set_u8(MBI_FB_GREEN_POS, green_position);
        self.set_u8(MBI_FB_GREEN_SIZE, 8);
        self.set_u8(MBI_FB_BLUE_POS, blue_position);
        self.set_u8(MBI_FB_BLUE_SIZE, 8);
        self.add_flags(FLAG_FRAMEBUFFER);
    }

    /// Appends the memory map, one 24-byte record per UEFI descriptor among
    /// the first `mmap_size` bytes of `mmap`, packed from the current
    /// offset; fills in the map's address and length and the KiB of usable
    /// memory below and above 1 MiB, and flags both present.
    pub fn add_mmap(&mut self, mmap: &[u8], mmap_size: usize, descriptor_size: usize)
        requires
            old(self).wf(),
            descriptors_readable(mmap@, mmap_size, descriptor_size),
            forall|i: int|
                0 <= i < descriptor_count(mmap_size, descriptor_size) ==> #[trigger] region_length(
                    mmap@,
                    descriptor_size,
                    i,
                ) <= u64::MAX,
            mem_lower(mmap@, descriptor_size, descriptor_count(mmap_size, descriptor_size))
                <= u32::MAX,
            mem_upper(mmap@, descriptor_size, descriptor_count(mmap_size, descriptor_size))
                <= u32::MAX,
            old(self).buf_phys() + (old(self).offset() as u32) <= u32::MAX,
            old(self).offset() + 24 * descriptor_count(mmap_size, descriptor_size) <= usize::MAX,
        ensures
            ({
                let count = descriptor_count(mmap_size, descriptor_size);
                let o = old(self).offset() as int;
                &&& final(self).wf()
                &&& final(self).offset() == o + 24 * count
                &&& final(self).buf_phys() == old(self).buf_phys()
                &&& final(self).bytes() == with_flags(
                    mmap_fields(
                        write_at(old(self).bytes(), o, mmap_records(mmap@, descriptor_size, count)),
                        (old(self).buf_phys() + (old(self).offset() as u32)) as u32,
                        (24 * count) as u32,
                        mem_lower(mmap@, descriptor_size, count) as u32,
                        mem_upper(mmap@, descriptor_size, count) as u32,
                    ),
                    FLAG_MMAP | FLAG_MEM,
                )
            }),
    {
        let entry_count = mmap_size / descriptor_size;
        let mmap_start = self.alloc.current_offset();
        let mut mem_lower_kb: u32 = 0;
        let mut mem_upper_kb: u32 = 0;
        let mut records: Vec<u8> = Vec::new();
        let mut i: usize = 0;
        proof {
            lemma_mem_monotone(mmap@, descriptor_size, entry_count as int);
        }
        while i < entry_count
            invariant
                entry_count == descriptor_count(mmap_size, descriptor_size),
                descriptors_readable(mmap@, mmap_size, descriptor_size),
                forall|j: int|
                    0 <= j < descriptor_count(mmap_size, descriptor_size) ==> #[trigger] region_length(
                        mmap@,
                        descriptor_size,
                        j,
                    ) <= u64::MAX,
                forall|j: int| 0 <= j <= entry_count ==> #[trigger] mem_lower(mmap@, descriptor_size, j) <= u32::MAX,
                forall|j: int| 0 <= j <= entry_count ==> #[trigger] mem_upper(mmap@, descriptor_size, j) <= u32::MAX,
                mmap_start + 24 * entry_count <= usize::MAX,
                i <= entry_count,
                records@ == mmap_records(mmap@, descriptor_size, i as int),
                records@.len() == 24 * i,
                mem_lower_kb == mem_lower(mmap@, descriptor_size, i as int),
                mem_upper_kb == mem_upper(mmap@, descriptor_size, i as int),
            decreases entry_count - i,
        {
            proof {
                crate::efi::lemma_descriptor_readable(mmap@, mmap_size, descriptor_size, i as int);
            }
            let (efi_type, base, pages) = read_descriptor(mmap, descriptor_size, i);
            assert(region_length(mmap@, descriptor_size, i as int) <= u64::MAX);
            let length: u64 = pages * 0x1000;
            let mb1_type = efi_type_to_multiboot1(efi_type);
            if mb1_type == MMAP_AVAILABLE {
                if base < 0x100000 {
                    assert(mem_lower(mmap@, descriptor_size, i + 1) <= u32::MAX);
                    mem_lower_kb = mem_lower_kb + (length / 1024) as u32;
                } else {
                    assert(mem_upper(mmap@, descriptor_size, i + 1) <= u32::MAX);
                    mem_upper_kb = mem_upper_kb + (length / 1024) as u32;
                }
            }
            let mut record = u32_to_bytes(20);
            let mut start = u64_to_bytes(base);
            record.append(&mut start);
            let mut len = u64_to_bytes(length);
            record.append(&mut len);
            let mut kind = u32_to_bytes(mb1_type);
            record.append(&mut kind);
            assert(record@ =~= mmap_record(mmap@, descriptor_size, i as int));
            records.append(&mut record);
            i = i + 1;
        }
        self.alloc.append(records.as_slice());
        let mmap_length = (records.len() as u64) as u32;
        self.set_u32(MBI_MMAP_ADDR, self.buf_phys + mmap_start as u32);
        self.set_u32(MBI_MMAP_LENGTH, mmap_length);
        self.set_u32(MBI_MEM_LOWER, mem_lower_kb);
        self.set_u32(MBI_MEM_UPPER, mem_upper_kb);
        self.add_flags(FLAG_MMAP | FLAG_MEM);
    }

    /// The finished structure.
    pub fn finish(self) -> (info: Vec<u8>)
        ensures
            info@ == self.bytes(),
    {
        self.alloc.into_bytes()
    }
}

/// Whether the information for a kernel can be built at physical address
/// `buffer`: the addresses of the strings and of the memory map fit in 32
/// bits, the memory map can be read and its totals fit in 32 bits, the pitch
/// fits in 32 bits, and the structure's size fits in a `usize`.
pub open spec fn boot_information_fits(
    buffer: u64,
    loader_name: Seq<u8>,
    pixels_per_scan_line: u32,
    mmap: Seq<u8>,
    mmap_size: usize,
    descriptor_size: usize,
) -> bool {
    let count = descriptor_count(mmap_size, descriptor_size);
    &&& buffer + MBI_STRUCT_SIZE + 2 + loader_name.len() <= u32::MAX
    &&& descriptors_readable(mmap, mmap_size, descriptor_size)
    &&& lengths_fit(mmap, mmap_size, descriptor_size)
    &&& mem_lower(mmap, descriptor_size, count) <= u32::MAX
    &&& mem_upper(mmap, descriptor_size, count) <= u32::MAX
    &&& pixels_per_scan_line * 4 <= u32::MAX
    &&& MBI_STRUCT_SIZE + 2 + loader_name.len() + 24 * count <= usize::MAX
}

/// The information handed to a kernel, built at physical address `buffer`:
/// the fixed part, then an empty command line, the boot loader's name and
/// the memory map, each flagged present, and the framebuffer fields.
pub open spec fn boot_information_bytes(
    buffer: u64,
    loader_name: Seq<u8>,
    fb: FramebufferInfo,
    pixels_per_scan_line: u32,
    mmap: Seq<u8>,
    mmap_size: usize,
    descriptor_size: usize,
) -> Seq<u8> {
    let count = descriptor_count(mmap_size, descriptor_size);
    let o0 = MBI_STRUCT_SIZE as int;
    let o1 = o0 + 1;
    let o2 = o1 + loader_name.len() + 1;
    let b0 = Seq::new(4096, |i: int| 0u8);
    let b1 = with_flags(
        write_at(write_at(b0, o0, seq![0u8]), MBI_CMDLINE as int, u32_bytes((buffer + o0) as u32)),
        FLAG_CMDLINE,
    );
    let b2 = with_flags(
        write_at(
            write_at(b1, o1, loader_name + seq![0u8]),
            MBI_BOOT_LOADER_NAME as int,
            u32_bytes((buffer + o1) as u32),
        ),
        FLAG_LOADER_NAME,
    );
    let b3 = with_flags(
        mmap_fields(
            write_at(b2, o2, mmap_records(mmap, descriptor_size, count)),
            (buffer + o2) as u32,
            (24 * count) as u32,
            mem_lower(mmap, descriptor_size, count) as u32,
            mem_upper(mmap, descriptor_size, count) as u32,
        ),
        FLAG_MMAP | FLAG_MEM,
    );
    with_flags(
        framebuffer_fields(
            b3,
            fb.base,
            (pixels_per_scan_line * 4) as u32,
            fb.width,
            fb.height,
            fb.red_pos,
            fb.green_pos,
            fb.blue_pos,
        ),
        FLAG_FRAMEBUFFER,
    )
}

/// Builds the information handed to a kernel at physical address `buffer`:
/// an empty command line, `loader_name`, the memory map among the first
/// `mmap_size` bytes of `mmap`, and the framebuffer `fb`. `None` when it
/// cannot be built there (`boot_information_fits`).
pub fn boot_information(
    buffer: u64,
    loader_name: &[u8],
    fb: &FramebufferInfo,
    pixels_per_scan_line: u32,
    mmap: &[u8],
    mmap_size: usize,
    descriptor_size: usize,
) -> (info: Option<Vec<u8>>)
    ensures
        info is Some <==> boot_information_fits(
            buffer,
            loader_name@,
            pixels_per_scan_line,
            mmap@,
            mmap_size,
            descriptor_size,
        ),
        info is Some ==> info->0@ == boot_information_bytes(
            buffer,
            loader_name@,
            *fb,
            pixels_per_scan_line,
            mmap@,
            mmap_size,
            descriptor_size,
        ),
{
    if (buffer as u128) + (MBI_STRUCT_SIZE as u128) + 2 + (loader_name.len() as u128)
        > u32::MAX as u128 {
        return None;
    }
    if !memory_map_usable(mmap, mmap_size, descriptor_size) {
        return None;
    }
    if !memory_totals_fit(mmap, mmap_size, descriptor_size) {
        return None;
    }
    if pixels_per_scan_line > u32::MAX / 4 {
        return None;
    }
    let count = mmap_size / descriptor_size;
    if (MBI_STRUCT_SIZE as u128) + 2 + (loader_name.len() as u128) + 24 * (count as u128)
        > usize::MAX as u128 {
        return None;
    }
    let mut builder = BootInfoBuilder::new(buffer, buffer as u32);
    let cmdline: Vec<u8> = Vec::new();
    builder.add_cmdline(cmdline.as_slice());
    builder.add_loader_name(loader_name);
    builder.add_mmap(mmap, mmap_size, descriptor_size);
    builder.add_framebuffer(
        fb.base,
        fb.width,
        fb.height,
        pixels_per_scan_line,
        fb.red_pos,
        fb.green_pos,
        fb.blue_pos,
    );
    proof {
        assert(cmdline@ + seq![0u8] =~= seq![0u8]);
    }
    Some(builder.finish())
}

} // verus!
