//! Multiboot2: the header a kernel embeds, and the boot-information tags the
//! loader hands over.
use vstd::prelude::*;
use crate::allocator::{BumpAllocator, write_at, align_up, lemma_write_at_concat, lemma_align_up_aligned, lemma_align_up_bounds, lemma_align_up_exact, lemma_small_powers};
use crate::bytes::{bytes_value, lemma_le_values, lemma_bytes_value_concat, lemma_encoded_values, le32, u16_bytes, u32_bytes, u64_bytes, read_u32, u32_to_bytes, u64_to_bytes};
use crate::efi::{lemma_descriptor_layout, descriptor_type, descriptor_start, descriptor_pages, descriptor_count, descriptors_readable, lengths_fit, memory_map_usable, read_descriptor};
use crate::framebuffer::FramebufferInfo;
use super::BootProtocol;

verus! {

broadcast use {crate::allocator::lemma_write_at_len, crate::bytes::group_bytes_len};

pub const MAGIC: u32 = 0xE85250D6;
pub const BOOT_MAGIC: u32 = 0x36d76289;
pub const SEARCH_LIMIT: usize = 32768;

pub const TAG_COMMANDLINE: u32 = 1;
pub const TAG_BOOTLOADER_NAME: u32 = 2;
pub const TAG_MMAP: u32 = 6;
pub const TAG_FRAMEBUFFER: u32 = 8;
pub const TAG_EFI_MEMORY_MAP: u32 = 17;
pub const TAG_END: u32 = 0;

pub const FRAMEBUFFER_TYPE_RGB: u8 = 1;

/// The Multiboot2 header a kernel image embeds within its first 32 KiB.
pub struct Header {
    pub magic: u32,
    pub architecture: u32,
    pub header_length: u32,
    pub checksum: u32,
}

impl Header {
    /// A header is valid when its four words sum to zero modulo 2^32.
    pub fn is_valid(&self) -> (valid: bool)
        ensures
            valid == ((self.magic as int + self.architecture as int + self.header_length as int
                + self.checksum as int) % 0x1_0000_0000 == 0),
    {
        self.magic.wrapping_add(self.architecture).wrapping_add(self.header_length).wrapping_add(
            self.checksum,
        ) == 0
    }
}

/// A valid Multiboot2 header starts at `off` in `s`.
pub open spec fn header_at(s: Seq<u8>, off: int) -> bool {
    &&& le32(s, off) == MAGIC
    &&& (le32(s, off) as int + le32(s, off + 4) as int + le32(s, off + 8) as int + le32(
        s,
        off + 12,
    ) as int) % 0x1_0000_0000 == 0
}

/// The kernel asks for Multiboot2: a valid header starts at a multiple of 8
/// and ends within the first 32 KiB of the image.
pub open spec fn requests_multiboot2(s: Seq<u8>) -> bool {
    exists|off: int|
        0 <= off && off % 8 == 0 && off + 16 <= s.len() && off + 16 <= SEARCH_LIMIT
            && #[trigger] header_at(s, off)
}

/// The kernel asks for Multiboot2 exactly when, at an offset that is a multiple
/// of 8 with the header ending within the first 32768 bytes of the image,
/// it holds the magic 0xE85250D6 and the little-endian words magic, architecture, header length and checksum
/// add up to 0 modulo 2^32.
pub proof fn lemma_multiboot2_header(s: Seq<u8>)
    ensures
        requests_multiboot2(s) <==> exists|off: int|
            0 <= off && off % 8 == 0 && off + 16 <= s.len() && off + 16 <= 32768
                && #[trigger] bytes_value(s, off, 4) == 0xE85250D6 && (bytes_value(s, off, 4) + bytes_value(s, off + 4, 4) + bytes_value(s, off + 8, 4) + bytes_value(s, off + 12, 4)) % 0x1_0000_0000 == 0,
{
    if requests_multiboot2(s) {
        let off = choose|off: int|
            0 <= off && off % 8 == 0 && off + 16 <= s.len() && off + 16 <= SEARCH_LIMIT
                && #[trigger] header_at(s, off);
        lemma_le_values(s, off + 0);
        lemma_le_values(s, off + 4);
        lemma_le_values(s, off + 8);
        lemma_le_values(s, off + 12);
        assert(bytes_value(s, off, 4) == 0xE85250D6);
    }
    if exists|off: int|
        0 <= off && off % 8 == 0 && off + 16 <= s.len() && off + 16 <= 32768
                && #[trigger] bytes_value(s, off, 4) == 0xE85250D6 && (bytes_value(s, off, 4) + bytes_value(s, off + 4, 4) + bytes_value(s, off + 8, 4) + bytes_value(s, off + 12, 4)) % 0x1_0000_0000 == 0 {
        let off = choose|off: int|
            0 <= off && off % 8 == 0 && off + 16 <= s.len() && off + 16 <= 32768
                && #[trigger] bytes_value(s, off, 4) == 0xE85250D6 && (bytes_value(s, off, 4) + bytes_value(s, off + 4, 4) + bytes_value(s, off + 8, 4) + bytes_value(s, off + 12, 4)) % 0x1_0000_0000 == 0;
        lemma_le_values(s, off + 0);
        lemma_le_values(s, off + 4);
        lemma_le_values(s, off + 8);
        lemma_le_values(s, off + 12);
        assert(header_at(s, off));
    }
}

/// The Multiboot2 protocol.
pub struct Multiboot2;

impl BootProtocol for Multiboot2 {
    fn detect(kernel: &[u8]) -> (found: bool)
        ensures
            found == requests_multiboot2(kernel@),
    {
        let limit = if kernel.len() < SEARCH_LIMIT {
            kernel.len()
        } else {
            SEARCH_LIMIT
        };
        let mut offset: usize = 0;
        while offset + 16 <= limit
            invariant
                offset % 8 == 0,
                offset <= limit + 8,
                limit <= kernel@.len(),
                limit <= SEARCH_LIMIT,
                limit == kernel@.len() || limit == SEARCH_LIMIT,
                forall|off: int|
                    0 <= off < offset && off % 8 == 0 && off + 16 <= kernel@.len() && off + 16
                        <= SEARCH_LIMIT ==> !#[trigger] header_at(kernel@, off),
            decreases limit + 8 - offset,
        {
            let header = Header {
                magic: read_u32(kernel, offset),
                architecture: read_u32(kernel, offset + 4),
                header_length: read_u32(kernel, offset + 8),
                checksum: read_u32(kernel, offset + 12),
            };
            if header.magic == MAGIC && header.is_valid() {
                assert(header_at(kernel@, offset as int));
                return true;
            }
            offset = offset + 8;
        }
        false
    }
}

/// The Multiboot2 memory type for a UEFI memory type.
pub open spec fn memory_type(efi_type: u32) -> u32 {
    if efi_type == 1 || efi_type == 2 || efi_type == 3 || efi_type == 4 || efi_type == 7 {
        1
    } else if efi_type == 9 {
        3
    } else if efi_type == 10 {
        4
    } else {
        2
    }
}

/// The Multiboot2 type of each UEFI memory type: available RAM (1) exactly for
/// loader code and data, boot-services code and data, and conventional
/// memory (UEFI types 1, 2, 3, 4, 7); ACPI reclaimable (3) exactly for type
/// 9; ACPI NVS (4) exactly for type 10; reserved (2) for every other type.
pub proof fn lemma_memory_type_table(efi_type: u32)
    ensures
        memory_type(efi_type) == 1 <==> (efi_type == 1 || efi_type == 2 || efi_type == 3
            || efi_type == 4 || efi_type == 7),
        memory_type(efi_type) == 3 <==> efi_type == 9,
        memory_type(efi_type) == 4 <==> efi_type == 10,
        memory_type(efi_type) == 2 <==> !(efi_type == 1 || efi_type == 2 || efi_type == 3
            || efi_type == 4 || efi_type == 7 || efi_type == 9 || efi_type == 10),
{
}

/// Maps a UEFI memory type to the Multiboot2 one: usable RAM 1, ACPI
/// reclaimable 3, ACPI NVS 4, anything else reserved 2.
pub fn efi_type_to_multiboot2(efi_type: u32) -> (t: u32)
    ensures
        t == memory_type(efi_type),
{
    match efi_type {
        1 | 2 | 3 | 4 | 7 => 1,
        9 => 3,
        10 => 4,
        _ => 2,
    }
}

/// A tag carrying a zero-terminated string.
pub open spec fn string_tag(tag_type: u32, s: Seq<u8>) -> Seq<u8> {
    u32_bytes(tag_type) + u32_bytes((8 + (s.len() as u32) + 1) as u32) + s + seq![0u8]
}

/// The memory-map entry for UEFI descriptor `i`.
pub open spec fn mmap_entry(mmap: Seq<u8>, size: usize, i: int) -> Seq<u8> {
    u64_bytes(descriptor_start(mmap, size, i)) + u64_bytes(
        (descriptor_pages(mmap, size, i) * 0x1000) as u64,
    ) + u32_bytes(memory_type(descriptor_type(mmap, size, i))) + u32_bytes(0)
}

/// The entries for the first `n` descriptors.
pub open spec fn mmap_entries(mmap: Seq<u8>, size: usize, n: int) -> Seq<u8>
    decreases n,
{
    if n <= 0 {
        Seq::empty()
    } else {
        mmap_entries(mmap, size, n - 1) + mmap_entry(mmap, size, n - 1)
    }
}

/// The entries of `n` descriptors take 24 bytes each.
proof fn lemma_mmap_entries_len(mmap: Seq<u8>, size: usize, n: int)
    ensures
        mmap_entries(mmap, size, n).len() == if n <= 0 { 0 } else { 24 * n },
    decreases n,
{
    if n > 0 {
        lemma_mmap_entries_len(mmap, size, n - 1);
    }
}

/// Entry `i` of the memory-map entries is the 24 bytes at `24 * i`: the
/// descriptor's physical start (8 bytes), its length in bytes (8), its
/// Multiboot2 type (4) and a zero word, with the descriptor read from its
/// bytes in the UEFI map.
pub proof fn lemma_mmap_entries_layout(mmap: Seq<u8>, size: usize, n: int, i: int)
    requires
        0 <= i < n,
    ensures
        ({
            let e = mmap_entries(mmap, size, n);
            let d = i * size;
            &&& e.len() == 24 * n
            &&& bytes_value(e, 24 * i, 8) == bytes_value(mmap, d + 8, 8)
            &&& bytes_value(e, 24 * i + 8, 8) == (bytes_value(mmap, d + 24, 8) * 0x1000) as u64
            &&& bytes_value(e, 24 * i + 16, 4) == memory_type(bytes_value(mmap, d, 4) as u32)
            &&& bytes_value(e, 24 * i + 20, 4) == 0
        }),
    decreases n,
{
    lemma_mmap_entries_len(mmap, size, n);
    lemma_mmap_entries_len(mmap, size, n - 1);
    let prev = mmap_entries(mmap, size, n - 1);
    let ent = mmap_entry(mmap, size, n - 1);
    if i < n - 1 {
        lemma_mmap_entries_layout(mmap, size, n - 1, i);
        lemma_bytes_value_concat(prev, ent, 24 * i, 8);
        lemma_bytes_value_concat(prev, ent, 24 * i + 8, 8);
        lemma_bytes_value_concat(prev, ent, 24 * i + 16, 4);
        lemma_bytes_value_concat(prev, ent, 24 * i + 20, 4);
    } else {
        lemma_descriptor_layout(mmap, size, i);
        let a = u64_bytes(descriptor_start(mmap, size, i));
        let b = u64_bytes((descriptor_pages(mmap, size, i) * 0x1000) as u64);
        let c = u32_bytes(memory_type(descriptor_type(mmap, size, i)));
        let z = u32_bytes(0);
        lemma_encoded_values(0, memory_type(descriptor_type(mmap, size, i)), descriptor_start(mmap, size, i));
        lemma_encoded_values(0, 0, (descriptor_pages(mmap, size, i) * 0x1000) as u64);
        lemma_bytes_value_concat(prev, ent, 24 * i, 8);
        lemma_bytes_value_concat(prev, ent, 24 * i + 8, 8);
        lemma_bytes_value_concat(prev, ent, 24 * i + 16, 4);
        lemma_bytes_value_concat(prev, ent, 24 * i + 20, 4);
        lemma_bytes_value_concat(a + b + c, z, 0, 8);
        lemma_bytes_value_concat(a + b + c, z, 8, 8);
        lemma_bytes_value_concat(a + b + c, z, 16, 4);
        lemma_bytes_value_concat(a + b + c, z, 20, 4);
        lemma_bytes_value_concat(a + b, c, 0, 8);
        lemma_bytes_value_concat(a + b, c, 8, 8);
        lemma_bytes_value_concat(a + b, c, 16, 4);
        lemma_bytes_value_concat(a, b, 0, 8);
        lemma_bytes_value_concat(a, b, 8, 8);
    }
}

/// The memory-map tag for `count` descriptors.
pub open spec fn mmap_tag(mmap: Seq<u8>, size: usize, count: int) -> Seq<u8> {
    u32_bytes(TAG_MMAP) + u32_bytes((8 + (4 + 4 + (count as u32) * 24)) as u32) + u32_bytes(24)
        + u32_bytes(0) + mmap_entries(mmap, size, count)
}

/// The framebuffer tag.
pub open spec fn framebuffer_tag(
    base: u64,
    pitch: u32,
    width: u32,
    height: u32,
    red_position: u8,
    green_position: u8,
    blue_position: u8,
) -> Seq<u8> {
    u32_bytes(TAG_FRAMEBUFFER) + u32_bytes(38) + u64_bytes(base) + u32_bytes(pitch) + u32_bytes(
        width,
    ) + u32_bytes(height) + seq![32u8, FRAMEBUFFER_TYPE_RGB] + u16_bytes(0) + seq![
        red_position,
        8u8,
        green_position,
        8u8,
        blue_position,
        8u8,
    ]
}

/// The tag carrying the raw UEFI memory map.
pub open spec fn efi_memory_map_tag(
    memory_map: Seq<u8>,
    descriptor_size: usize,
    descriptor_version: u32,
) -> Seq<u8> {
    u32_bytes(TAG_EFI_MEMORY_MAP) + u32_bytes((8 + 4 + 4 + memory_map.len()) as u32) + u32_bytes(
        descriptor_size as u32,
    ) + u32_bytes(descriptor_version) + memory_map
}

/// The memory-map entries for the UEFI descriptors among the first
/// `mmap_size` bytes of `mmap`.
fn mmap_entry_bytes(mmap: &[u8], mmap_size: usize, descriptor_size: usize) -> (entries: Vec<u8>)
    requires
        descriptors_readable(mmap@, mmap_size, descriptor_size),
        forall|i: int|
            0 <= i < descriptor_count(mmap_size, descriptor_size) ==> #[trigger] descriptor_pages(
                mmap@,
                descriptor_size,
                i,
            ) * 0x1000 <= u64::MAX,
        24 * descriptor_count(mmap_size, descriptor_size) <= usize::MAX,
    ensures
        entries@ == mmap_entries(mmap@, descriptor_size, descriptor_count(mmap_size, descriptor_size)),
        entries@.len() == 24 * descriptor_count(mmap_size, descriptor_size),
{
    let entry_count = mmap_size / descriptor_size;
    let mut entries: Vec<u8> = Vec::new();
    let mut i: usize = 0;
    while i < entry_count
        invariant
            entry_count == descriptor_count(mmap_size, descriptor_size),
            descriptors_readable(mmap@, mmap_size, descriptor_size),
            forall|j: int|
                0 <= j < descriptor_count(mmap_size, descriptor_size) ==> #[trigger] descriptor_pages(
                    mmap@,
                    descriptor_size,
                    j,
                ) * 0x1000 <= u64::MAX,
            i <= entry_count,
            entries@ == mmap_entries(mmap@, descriptor_size, i as int),
            entries@.len() == 24 * i,
        decreases entry_count - i,
    {
        proof {
            crate::efi::lemma_descriptor_readable(mmap@, mmap_size, descriptor_size, i as int);
        }
        let (efi_type, base, pages) = read_descriptor(mmap, descriptor_size, i);
        assert(descriptor_pages(mmap@, descriptor_size, i as int) * 0x1000 <= u64::MAX);
        let mut entry = u64_to_bytes(base);
        let mut length = u64_to_bytes(pages * 0x1000);
        entry.append(&mut length);
        let mut kind = u32_to_bytes(efi_type_to_multiboot2(efi_type));
        entry.append(&mut kind);
        let mut reserved = u32_to_bytes(0);
        entry.append(&mut reserved);
        assert(entry@ =~= mmap_entry(mmap@, descriptor_size, i as int));
        entries.append(&mut entry);
        i = i + 1;
    }
    entries
}

/// Builds the Multiboot2 boot information: an 8-byte header, then tags, each
/// starting at a multiple of 8.
pub struct BootInfoBuilder {
    alloc: BumpAllocator,
}

impl BootInfoBuilder {
    /// The boot information so far.
    pub closed spec fn bytes(&self) -> Seq<u8> {
        self.alloc.bytes()
    }

    /// Where the next tag goes.
    pub closed spec fn offset(&self) -> usize {
        self.alloc.offset()
    }

    /// The builder's invariant: the next tag starts at a multiple of 8.
    pub closed spec fn wf(&self) -> bool {
        &&& self.alloc.offset() % 8 == 0
        &&& self.alloc.offset() >= 8
    }

    /// Starts the boot information at physical address `buffer`: a zeroed
    /// 8-byte header (total size and reserved word) and nothing else.
    pub fn new(buffer: u64) -> (b: Self)
        ensures
            b.wf(),
            b.bytes() == seq![0u8, 0u8, 0u8, 0u8, 0u8, 0u8, 0u8, 0u8],
            b.offset() == 8,
    {
        let mut alloc = BumpAllocator::new(buffer);
        let zeros = [0u8; 8];
        alloc.write_at(0, &zeros);
        alloc.skip(8);
        let b = BootInfoBuilder { alloc };
        assert(b.bytes() =~= seq![0u8, 0u8, 0u8, 0u8, 0u8, 0u8, 0u8, 0u8]) by {
            reveal(write_at);
        }
        b
    }

    fn add_string_tag(&mut self, tag_type: u32, s: &[u8])
        requires
            old(self).wf(),
            old(self).offset() + s@.len() + 16 <= usize::MAX,
            (s@.len() as u32) + 9 <= u32::MAX,
        ensures
            final(self).wf(),
            final(self).bytes() == write_at(
                old(self).bytes(),
                old(self).offset() as int,
                string_tag(tag_type, s@),
            ),
            final(self).offset() == align_up(old(self).offset() + s@.len() + 9, 8),
    {
        let ghost o = self.alloc.offset() as int;
        let ghost b0 = self.alloc.bytes();
        proof {
            lemma_align_up_aligned(o);
        }
        self.alloc.write_u32(tag_type);
        self.alloc.write_u32(8u32 + s.len() as u32 + 1);
        self.alloc.append(s);
        self.alloc.write_u8(0);
        proof {
            let t1 = u32_bytes(tag_type);
            let t2 = u32_bytes((8 + (s@.len() as u32) + 1) as u32);
            lemma_align_up_exact(o + 4, 4);
            lemma_write_at_concat(b0, o, t1, t2);
            lemma_write_at_concat(b0, o, t1 + t2, s@);
            lemma_write_at_concat(b0, o, t1 + t2 + s@, seq![0u8]);
            lemma_small_powers();
        }
        self.alloc.align_to(8);
    }

    /// Adds the command-line tag.
    pub fn add_commandline(&mut self, cmdline: &[u8])
        requires
            old(self).wf(),
            old(self).offset() + cmdline@.len() + 16 <= usize::MAX,
            (cmdline@.len() as u32) + 9 <= u32::MAX,
        ensures
            final(self).wf(),
            final(self).bytes() == write_at(
                old(self).bytes(),
                old(self).offset() as int,
                string_tag(TAG_COMMANDLINE, cmdline@),
            ),
            final(self).offset() == align_up(old(self).offset() + cmdline@.len() + 9, 8),
    {
        self.add_string_tag(TAG_COMMANDLINE, cmdline)
    }

    /// Adds the boot-loader-name tag.
    pub fn add_bootloader_name(&mut self, name: &[u8])
        requires
            old(self).wf(),
            old(self).offset() + name@.len() + 16 <= usize::MAX,
            (name@.len() as u32) + 9 <= u32::MAX,
        ensures
            final(self).wf(),
            final(self).bytes() == write_at(
                old(self).bytes(),
                old(self).offset() as int,
                string_tag(TAG_BOOTLOADER_NAME, name@),
            ),
            final(self).offset() == align_up(old(self).offset() + name@.len() + 9, 8),
    {
        self.add_string_tag(TAG_BOOTLOADER_NAME, name)
    }

    /// Appends `v` to the tag being written, which starts at `o` and holds
    /// `acc` so far.
    fn put_u32(&mut self, v: u32, Ghost(b0): Ghost<Seq<u8>>, Ghost(o): Ghost<int>, Ghost(acc): Ghost<Seq<u8>>)
        requires
            old(self).bytes() == if acc.len() == 0 {
                b0
            } else {
                write_at(b0, o, acc)
            },
            0 <= o,
            old(self).offset() == o + acc.len(),
            old(self).offset() % 4 == 0,
            old(self).offset() + 4 <= usize::MAX - 8,
        ensures
            final(self).bytes() == write_at(b0, o, acc + u32_bytes(v)),
            final(self).offset() == old(self).offset() + 4,
    {
        proof {
            lemma_small_powers();
            lemma_align_up_exact(o + acc.len(), 4);
            lemma_write_at_concat(b0, o, acc, u32_bytes(v));
            assert(acc.len() == 0 ==> acc + u32_bytes(v) =~= u32_bytes(v));
        }
        self.alloc.write_u32(v);
    }

    fn put_u64(&mut self, v: u64, Ghost(b0): Ghost<Seq<u8>>, Ghost(o): Ghost<int>, Ghost(acc): Ghost<Seq<u8>>)
        requires
            old(self).bytes() == if acc.len() == 0 {
                b0
            } else {
                write_at(b0, o, acc)
            },
            0 <= o,
            old(self).offset() == o + acc.len(),
            old(self).offset() % 8 == 0,
            old(self).offset() + 8 <= usize::MAX - 8,
        ensures
            final(self).bytes() == write_at(b0, o, acc + u64_bytes(v)),
            final(self).offset() == old(self).offset() + 8,
    {
        proof {
            lemma_align_up_exact(o + acc.len(), 8);
            lemma_write_at_concat(b0, o, acc, u64_bytes(v));
            assert(acc.len() == 0 ==> acc + u64_bytes(v) =~= u64_bytes(v));
        }
        self.alloc.write_u64(v);
    }

    fn put_u16(&mut self, v: u16, Ghost(b0): Ghost<Seq<u8>>, Ghost(o): Ghost<int>, Ghost(acc): Ghost<Seq<u8>>)
        requires
            old(self).bytes() == if acc.len() == 0 {
                b0
            } else {
                write_at(b0, o, acc)
            },
            0 <= o,
            old(self).offset() == o + acc.len(),
            old(self).offset() % 2 == 0,
            old(self).offset() + 2 <= usize::MAX - 8,
        ensures
            final(self).bytes() == write_at(b0, o, acc + u16_bytes(v)),
            final(self).offset() == old(self).offset() + 2,
    {
        proof {
            lemma_align_up_exact(o + acc.len(), 2);
            lemma_write_at_concat(b0, o, acc, u16_bytes(v));
            assert(acc.len() == 0 ==> acc + u16_bytes(v) =~= u16_bytes(v));
        }
        self.alloc.write_u16(v);
    }

    fn put_u8(&mut self, v: u8, Ghost(b0): Ghost<Seq<u8>>, Ghost(o): Ghost<int>, Ghost(acc): Ghost<Seq<u8>>)
        requires
            old(self).bytes() == if acc.len() == 0 {
                b0
            } else {
                write_at(b0, o, acc)
            },
            0 <= o,
            old(self).offset() == o + acc.len(),
            old(self).offset() + 1 <= usize::MAX - 8,
        ensures
            final(self).bytes() == write_at(b0, o, acc + seq![v]),
            final(self).offset() == old(self).offset() + 1,
    {
        proof {
            lemma_write_at_concat(b0, o, acc, seq![v]);
            assert(acc.len() == 0 ==> acc + seq![v] =~= seq![v]);
        }
        self.alloc.write_u8(v);
    }

    fn put_slice(&mut self, v: &[u8], Ghost(b0): Ghost<Seq<u8>>, Ghost(o): Ghost<int>, Ghost(acc): Ghost<Seq<u8>>)
        requires
            old(self).bytes() == if acc.len() == 0 {
                b0
            } else {
                write_at(b0, o, acc)
            },
            0 <= o,
            old(self).offset() == o + acc.len(),
            old(self).offset() + v@.len() <= usize::MAX - 8,
        ensures
            final(self).bytes() == write_at(b0, o, acc + v@),
            final(self).offset() == old(self).offset() + v@.len(),
    {
        proof {
            lemma_write_at_concat(b0, o, acc, v@);
            assert(acc.len() == 0 ==> acc + v@ =~= v@);
        }
        self.alloc.append(v);
    }

    /// Adds the memory-map tag, one entry per UEFI descriptor among the
    /// first `mmap_size` bytes of `mmap`.
    pub fn add_mmap(&mut self, mmap: &[u8], mmap_size: usize, descriptor_size: usize)
        requires
            old(self).wf(),
            descriptors_readable(mmap@, mmap_size, descriptor_size),
            (descriptor_count(mmap_size, descriptor_size) as u32) * 24 + 16 <= u32::MAX,
            forall|i: int|
                0 <= i < descriptor_count(mmap_size, descriptor_size) ==> #[trigger] descriptor_pages(
                    mmap@,
                    descriptor_size,
                    i,
                ) * 0x1000 <= u64::MAX,
            old(self).offset() + 16 + 24 * descriptor_count(mmap_size, descriptor_size) + 16
                <= usize::MAX,
        ensures
            final(self).wf(),
            final(self).bytes() == write_at(
                old(self).bytes(),
                old(self).offset() as int,
                mmap_tag(mmap@, descriptor_size, descriptor_count(mmap_size, descriptor_size)),
            ),
            final(self).offset() == old(self).offset() + 16 + 24 * descriptor_count(
                mmap_size,
                descriptor_size,
            ),
    {
        let ghost b0 = self.bytes();
        let ghost o = self.offset() as int;
        let entry_count = mmap_size / descriptor_size;
        let entry_size: u32 = 24;
        let tag_data_size: u32 = 4 + 4 + entry_count as u32 * entry_size;
        self.put_u32(TAG_MMAP, Ghost(b0), Ghost(o), Ghost(Seq::empty()));
        let ghost a1 = Seq::<u8>::empty() + u32_bytes(TAG_MMAP);
        let size_word = 8u32 + tag_data_size;
        self.put_u32(size_word, Ghost(b0), Ghost(o), Ghost(a1));
        let ghost a2 = a1 + u32_bytes(size_word);
        self.put_u32(entry_size, Ghost(b0), Ghost(o), Ghost(a2));
        let ghost a3 = a2 + u32_bytes(entry_size);
        self.put_u32(0u32, Ghost(b0), Ghost(o), Ghost(a3));
        let ghost header = a3 + u32_bytes(0);
        proof {
            assert(header =~= u32_bytes(TAG_MMAP) + u32_bytes(
                (8 + (4 + 4 + (entry_count as u32) * 24)) as u32,
            ) + u32_bytes(24) + u32_bytes(0));
            assert(header + mmap_entries(mmap@, descriptor_size, 0) =~= header);
        }
        let entries = mmap_entry_bytes(mmap, mmap_size, descriptor_size);
        self.put_slice(entries.as_slice(), Ghost(b0), Ghost(o), Ghost(header));
        proof {
            lemma_small_powers();
            lemma_align_up_exact(self.offset() as int, 8);
            assert(header + mmap_entries(mmap@, descriptor_size, entry_count as int) =~= mmap_tag(
                mmap@,
                descriptor_size,
                entry_count as int,
            ));
        }
        self.alloc.align_to(8);
    }

    /// Adds the framebuffer tag for a 32-bit RGB framebuffer at `base`.
    #[verifier::rlimit(30)]
    pub fn add_framebuffer(
        &mut self,
        base: u64,
        width: u32,
        height: u32,
        pixels_per_scan_line: u32,
        red_position: u8,
        green_position: u8,
        blue_position: u8,
    )
        requires
            old(self).wf(),
            pixels_per_scan_line * 4 <= u32::MAX,
            old(self).offset() + 40 + 16 <= usize::MAX,
        ensures
            final(self).wf(),
            final(self).bytes() == write_at(
                old(self).bytes(),
                old(self).offset() as int,
                framebuffer_tag(
                    base,
                    (pixels_per_scan_line * 4) as u32,
                    width,
                    height,
                    red_position,
                    green_position,
                    blue_position,
                ),
            ),
            final(self).offset() == old(self).offset() + 40,
    {
        let ghost b0 = self.bytes();
        let ghost o = self.offset() as int;
        let pitch: u32 = pixels_per_scan_line * 4;
        proof {
            assert((o + 4) % 4 == 0 && (o + 8) % 8 == 0 && (o + 16) % 4 == 0 && (o + 20) % 4 == 0
                && (o + 24) % 4 == 0 && (o + 30) % 2 == 0) by (nonlinear_arith)
                requires
                    o % 8 == 0,
            ;
        }
        let ghost a0 = Seq::<u8>::empty();
        self.put_u32(TAG_FRAMEBUFFER, Ghost(b0), Ghost(o), Ghost(a0));
        let ghost a1 = a0 + u32_bytes(TAG_FRAMEBUFFER);
        self.put_u32(38u32, Ghost(b0), Ghost(o), Ghost(a1));
        let ghost a2 = a1 + u32_bytes(38);
        self.put_u64(base, Ghost(b0), Ghost(o), Ghost(a2));
        let ghost a3 = a2 + u64_bytes(base);
        self.put_u32(pitch, Ghost(b0), Ghost(o), Ghost(a3));
        let ghost a4 = a3 + u32_bytes(pitch);
        self.put_u32(width, Ghost(b0), Ghost(o), Ghost(a4));
        let ghost a5 = a4 + u32_bytes(width);
        self.put_u32(height, Ghost(b0), Ghost(o), Ghost(a5));
        let ghost a6 = a5 + u32_bytes(height);
        self.put_u8(32u8, Ghost(b0), Ghost(o), Ghost(a6));
        let ghost a7 = a6 + seq![32u8];
        self.put_u8(FRAMEBUFFER_TYPE_RGB, Ghost(b0), Ghost(o), Ghost(a7));
        let ghost a8 = a7 + seq![FRAMEBUFFER_TYPE_RGB];
        self.put_u16(0u16, Ghost(b0), Ghost(o), Ghost(a8));
        let ghost a9 = a8 + u16_bytes(0);
        self.put_u8(red_position, Ghost(b0), Ghost(o), Ghost(a9));
        let ghost a10 = a9 + seq![red_position];
        self.put_u8(8u8, Ghost(b0), Ghost(o), Ghost(a10));
        let ghost a11 = a10 + seq![8u8];
        self.put_u8(green_position, Ghost(b0), Ghost(o), Ghost(a11));
        let ghost a12 = a11 + seq![green_position];
        self.put_u8(8u8, Ghost(b0), Ghost(o), Ghost(a12));
        let ghost a13 = a12 + seq![8u8];
        self.put_u8(blue_position, Ghost(b0), Ghost(o), Ghost(a13));
        let ghost a14 = a13 + seq![blue_position];
        self.put_u8(8u8, Ghost(b0), Ghost(o), Ghost(a14));
        let ghost a15 = a14 + seq![8u8];
        proof {
            assert(a15 =~= framebuffer_tag(
                base,
                pitch,
                width,
                height,
                red_position,
                green_position,
                blue_position,
            ));
            lemma_small_powers();
            assert(align_up(o + 38, 8) == o + 40);
        }
        self.alloc.align_to(8);
    }

    /// Adds the tag that carries the raw UEFI memory map: the first
    /// `memory_map_size` bytes of `memory_map`.
    #[verifier::spinoff_prover]
    pub fn add_efi_memory_map(
        &mut self,
        memory_map: &[u8],
        memory_map_size: usize,
        descriptor_size: usize,
        descriptor_version: u32,
    )
        requires
            old(self).wf(),
            memory_map_size <= memory_map@.len(),
            memory_map_size + 16 <= usize::MAX,
            old(self).offset() + memory_map_size + 16 + 16 <= usize::MAX,
        ensures
            final(self).wf(),
            final(self).bytes() == write_at(
                old(self).bytes(),
                old(self).offset() as int,
                efi_memory_map_tag(
                    memory_map@.subrange(0, memory_map_size as int),
                    descriptor_size,
                    descriptor_version,
                ),
            ),
            final(self).offset() == align_up(old(self).offset() + 16 + memory_map_size, 8),
    {
        let ghost b0 = self.bytes();
        let ghost o = self.offset() as int;
        let ghost a0 = Seq::<u8>::empty();
        self.put_u32(TAG_EFI_MEMORY_MAP, Ghost(b0), Ghost(o), Ghost(a0));
        let ghost a1 = a0 + u32_bytes(TAG_EFI_MEMORY_MAP);
        let size_field = (8 + 4 + 4 + memory_map_size) as u32;
        self.put_u32(size_field, Ghost(b0), Ghost(o), Ghost(a1));
        let ghost a2 = a1 + u32_bytes(size_field);
        self.put_u32(descriptor_size as u32, Ghost(b0), Ghost(o), Ghost(a2));
        let ghost a3 = a2 + u32_bytes(descriptor_size as u32);
        self.put_u32(descriptor_version, Ghost(b0), Ghost(o), Ghost(a3));
        let ghost a4 = a3 + u32_bytes(descriptor_version);
        let map = vstd::slice::slice_subrange(memory_map, 0, memory_map_size);
        self.put_slice(map, Ghost(b0), Ghost(o), Ghost(a4));
        proof {
            assert(a4 + map@ =~= efi_memory_map_tag(
                memory_map@.subrange(0, memory_map_size as int),
                descriptor_size,
                descriptor_version,
            ));
            lemma_small_powers();
        }
        self.alloc.align_to(8);
    }

    /// Closes the boot information with the end tag, records its total size
    /// in the first word, and returns its bytes.
    pub fn finish(self) -> (info: Vec<u8>)
        requires
            self.wf(),
            self.offset() + 16 + 8 <= usize::MAX,
        ensures
            info@ == write_at(
                write_at(self.bytes(), self.offset() as int, u32_bytes(TAG_END) + u32_bytes(8)),
                0,
                u32_bytes((self.offset() + 8) as u32),
            ),
    {
        let mut this = self;
        let ghost b0 = this.bytes();
        let ghost o = this.offset() as int;
        proof {
            assert((o + 4) % 4 == 0) by (nonlinear_arith)
                requires
                    o % 8 == 0,
            ;
        }
        this.put_u32(TAG_END, Ghost(b0), Ghost(o), Ghost(Seq::empty()));
        this.put_u32(8u32, Ghost(b0), Ghost(o), Ghost(Seq::<u8>::empty() + u32_bytes(TAG_END)));
        let total_size = this.alloc.current_offset() as u32;
        let size = u32_to_bytes(total_size);
        this.alloc.write_at(0, size.as_slice());
        proof {
            assert(Seq::<u8>::empty() + u32_bytes(TAG_END) + u32_bytes(8) =~= u32_bytes(TAG_END)
                + u32_bytes(8));
        }
        this.alloc.into_bytes()
    }
}

/// Whether the boot information for a kernel can be built at physical
/// address `buffer`: the address fits in 32 bits, the memory map can be read
/// and its tag's size fits in 32 bits, the name's tag size and the pitch fit
/// in 32 bits, and the information's size fits in a `usize`.
pub open spec fn boot_information_fits(
    buffer: u64,
    loader_name: Seq<u8>,
    pixels_per_scan_line: u32,
    mmap: Seq<u8>,
    mmap_size: usize,
    descriptor_size: usize,
) -> bool {
    let count = descriptor_count(mmap_size, descriptor_size);
    &&& buffer <= u32::MAX
    &&& descriptors_readable(mmap, mmap_size, descriptor_size)
    &&& lengths_fit(mmap, mmap_size, descriptor_size)
    &&& 24 * count + 16 <= u32::MAX
    &&& loader_name.len() + 9 <= u32::MAX
    &&& pixels_per_scan_line * 4 <= u32::MAX
    &&& mmap_size <= mmap.len()
    &&& loader_name.len() + 24 * count + mmap_size + 200 <= usize::MAX
}

/// The boot information handed to a kernel: after the header, an empty
/// command line, the boot loader's name, the memory map, the framebuffer and
/// the raw UEFI memory map, each tag at a multiple of 8, then the end tag,
/// with the total size in the first word.
pub open spec fn boot_information_bytes(
    loader_name: Seq<u8>,
    fb: FramebufferInfo,
    pixels_per_scan_line: u32,
    mmap: Seq<u8>,
    mmap_size: usize,
    descriptor_size: usize,
    descriptor_version: u32,
) -> Seq<u8> {
    let count = descriptor_count(mmap_size, descriptor_size);
    let b0 = seq![0u8, 0u8, 0u8, 0u8, 0u8, 0u8, 0u8, 0u8];
    let b1 = write_at(b0, 8, string_tag(TAG_COMMANDLINE, Seq::empty()));
    let o2 = align_up(17, 8);
    let b2 = write_at(b1, o2, string_tag(TAG_BOOTLOADER_NAME, loader_name));
    let o3 = align_up(o2 + loader_name.len() + 9, 8);
    let b3 = write_at(b2, o3, mmap_tag(mmap, descriptor_size, count));
    let o4 = o3 + 16 + 24 * count;
    let b4 = write_at(
        b3,
        o4,
        framebuffer_tag(
            fb.base,
            (pixels_per_scan_line * 4) as u32,
            fb.width,
            fb.height,
            fb.red_pos,
            fb.green_pos,
            fb.blue_pos,
        ),
    );
    let o5 = o4 + 40;
    let b5 = write_at(
        b4,
        o5,
        efi_memory_map_tag(mmap.subrange(0, mmap_size as int), descriptor_size, descriptor_version),
    );
    let o6 = align_up(o5 + 16 + mmap_size, 8);
    write_at(
        write_at(b5, o6, u32_bytes(TAG_END) + u32_bytes(8)),
        0,
        u32_bytes((o6 + 8) as u32),
    )
}

/// Builds the boot information handed to a kernel at physical address
/// `buffer`: an empty command line, `loader_name`, the memory map among the
/// first `mmap_size` bytes of `mmap`, the framebuffer `fb` and the raw
/// memory map. `None` when it cannot be built (`boot_information_fits`).
pub fn boot_information(
    buffer: u64,
    loader_name: &[u8],
    fb: &FramebufferInfo,
    pixels_per_scan_line: u32,
    mmap: &[u8],
    mmap_size: usize,
    descriptor_size: usize,
    descriptor_version: u32,
) -> (info: Option<Vec<u8>>)
    ensures
        info is Some <==> boot_information_fits(
            buffer,
            loader_name@,
            pixels_per_scan_line,
            mmap@,
            mmap_size,
            descriptor_size,
        ),
        info is Some ==> info->0@ == boot_information_bytes(
            loader_name@,
            *fb,
            pixels_per_scan_line,
            mmap@,
            mmap_size,
            descriptor_size,
            descriptor_version,
        ),
{
    if buffer > u32::MAX as u64 {
        return None;
    }
    if !memory_map_usable(mmap, mmap_size, descriptor_size) {
        return None;
    }
    let count = mmap_size / descriptor_size;
    if 24 * (count as u128) + 16 > u32::MAX as u128 {
        return None;
    }
    if (loader_name.len() as u128) + 9 > u32::MAX as u128 {
        return None;
    }
    if pixels_per_scan_line > u32::MAX / 4 {
        return None;
    }
    if mmap_size > mmap.len() {
        return None;
    }
    if (loader_name.len() as u128) + 24 * (count as u128) + (mmap_size as u128) + 200
        > usize::MAX as u128 {
        return None;
    }
    let mut builder = BootInfoBuilder::new(buffer);
    let cmdline: Vec<u8> = Vec::new();
    let ghost o1 = builder.offset() as int;
    builder.add_commandline(cmdline.as_slice());
    let ghost o2 = builder.offset() as int;
    proof {
        lemma_align_up_bounds(o1 + 9, 8);
    }
    builder.add_bootloader_name(loader_name);
    let ghost o3 = builder.offset() as int;
    proof {
        lemma_align_up_bounds(o2 + loader_name@.len() + 9, 8);
    }
    builder.add_mmap(mmap, mmap_size, descriptor_size);
    builder.add_framebuffer(
        fb.base,
        fb.width,
        fb.height,
        pixels_per_scan_line,
        fb.red_pos,
        fb.green_pos,
        fb.blue_pos,
    );
    let ghost o5 = builder.offset() as int;
    builder.add_efi_memory_map(mmap, mmap_size, descriptor_size, descriptor_version);
    proof {
        lemma_align_up_bounds(o5 + 16 + mmap_size, 8);
        assert(cmdline@ =~= Seq::<u8>::empty());
    }
    Some(builder.finish())
}

} // verus!
