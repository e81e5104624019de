//! The Limine protocol: the kernel embeds requests in its loaded image, and
//! the loader answers each request it knows by pointing it at a response
//! built in the boot-information buffer.
use vstd::prelude::*;
use crate::allocator::{BumpAllocator, write_at, align_up, lemma_small_powers, lemma_align_up_aligned};
use crate::bytes::{bytes_value, lemma_le_values, lemma_bytes_value_concat, lemma_encoded_values, le64, u16_bytes, u64_bytes, read_u64, u64_to_bytes, u16_to_bytes};
use crate::efi::{
    descriptor_type,
    descriptor_start,
    descriptor_pages,
    descriptor_count,
    descriptors_readable,
    lemma_descriptor_readable,
    lengths_fit,
    read_descriptor,
};
use crate::framebuffer::FramebufferInfo;
use crate::allocator::overwrite;
use super::BootProtocol;

verus! {

broadcast use {crate::allocator::lemma_write_at_len, crate::bytes::group_bytes_len};

/// The first word of the base-revision tag a Limine kernel embeds.
pub const BASE_REVISION_MAGIC_0: u64 = 0xf9562b2d5c95a6c8;
/// The second word of the base-revision tag.
pub const BASE_REVISION_MAGIC_1: u64 = 0x6a7b384944536bdc;
/// The first word every Limine request starts with.
pub const COMMON_MAGIC_0: u64 = 0xc7b1dd30df4c8b88;
/// The second word every Limine request starts with.
pub const COMMON_MAGIC_1: u64 = 0x0a82e883a194f07b;
/// The third word of a framebuffer request.
pub const FRAMEBUFFER_ID_0: u64 = 0x9d5827dcd881dd75;
/// The fourth word of a framebuffer request.
pub const FRAMEBUFFER_ID_1: u64 = 0xa3148604f6fab11b;
/// The third word of a memory-map request.
pub const MEMMAP_ID_0: u64 = 0x67cf3d9d378a806f;
/// The fourth word of a memory-map request.
pub const MEMMAP_ID_1: u64 = 0xe304acdfc50c3c62;
/// Where a request holds the address of its response.
pub const REQUEST_RESPONSE_OFFSET: usize = 40;

/// Limine memory-map entry types.
pub const USABLE: u64 = 0;
pub const RESERVED: u64 = 1;
pub const ACPI_RECLAIMABLE: u64 = 2;
pub const ACPI_NVS: u64 = 3;
pub const BOOTLOADER_RECLAIMABLE: u64 = 5;

/// The size of a framebuffer description.
pub const FRAMEBUFFER_SIZE: usize = 64;
/// The size of a response header, and of a memory-map entry.
pub const RESPONSE_SIZE: usize = 24;
pub const ENTRY_SIZE: usize = 24;

/// A memory-map entry as Limine lays it out.
#[derive(Copy, Clone)]
pub struct LimineMemoryMapEntry {
    pub base: u64,
    pub length: u64,
    pub entry_type: u64,
}

/// A memory-map response: the entries are reached through an array of
/// their addresses, at physical address `entries`.
#[derive(Copy, Clone)]
pub struct LimineMemoryMapResponse {
    pub revision: u64,
    pub entry_count: u64,
    pub entries: u64,
}

/// The Limine memory type for a UEFI memory type: loader code and data are
/// reclaimable by the bootloader; boot-services code and data and
/// conventional memory are usable; ACPI reclaim and NVS memory keep their
/// kind; everything else is reserved.
pub open spec fn limine_type(efi_type: u32) -> u64 {
    if efi_type == 1 || efi_type == 2 {
        BOOTLOADER_RECLAIMABLE
    } else if efi_type == 3 || efi_type == 4 || efi_type == 7 {
        USABLE
    } else if efi_type == 9 {
        ACPI_RECLAIMABLE
    } else if efi_type == 10 {
        ACPI_NVS
    } else {
        RESERVED
    }
}

/// The Limine type of each UEFI memory type: bootloader reclaimable (5)
/// exactly for loader code and data (UEFI types 1 and 2), usable (0) exactly
/// for boot-services code and data and conventional memory (3, 4, 7), ACPI
/// reclaimable (2) exactly for 9, ACPI NVS (3) exactly for 10, and reserved
/// (1) for every other type; loader memory is never reported usable.
pub proof fn lemma_limine_type_table(efi_type: u32)
    ensures
        limine_type(efi_type) == 5 <==> (efi_type == 1 || efi_type == 2),
        limine_type(efi_type) == 0 <==> (efi_type == 3 || efi_type == 4 || efi_type == 7),
        limine_type(efi_type) == 2 <==> efi_type == 9,
        limine_type(efi_type) == 3 <==> efi_type == 10,
        limine_type(efi_type) == 1 <==> !(efi_type == 1 || efi_type == 2 || efi_type == 3
            || efi_type == 4 || efi_type == 7 || efi_type == 9 || efi_type == 10),
{
}

/// Translates a UEFI memory type to the Limine one.
pub fn efi_type_to_limine(efi_type: u32) -> (t: u64)
    ensures
        t == limine_type(efi_type),
{
    match efi_type {
        1 | 2 => BOOTLOADER_RECLAIMABLE,
        3 | 4 | 7 => USABLE,
        9 => ACPI_RECLAIMABLE,
        10 => ACPI_NVS,
        _ => RESERVED,
    }
}

/// The image carries the base-revision tag at `off`.
pub open spec fn base_revision_at(s: Seq<u8>, off: int) -> bool {
    le64(s, off) == BASE_REVISION_MAGIC_0 && le64(s, off + 8) == BASE_REVISION_MAGIC_1
}

/// The kernel asks for Limine: the base-revision tag starts at a multiple
/// of 8 within the image.
pub open spec fn requests_limine(s: Seq<u8>) -> bool {
    exists|off: int| 0 <= off && off % 8 == 0 && off + 16 <= s.len() && #[trigger] base_revision_at(s, off)
}

/// The kernel asks for Limine exactly when, at an offset that is a multiple
/// of 8 with 16 bytes left in the image, it holds the base-revision tag: the
/// little-endian words 0xf9562b2d5c95a6c8 and 0x6a7b384944536bdc.
pub proof fn lemma_limine_base_revision(s: Seq<u8>)
    ensures
        requests_limine(s) <==> exists|off: int|
            0 <= off && off % 8 == 0 && off + 16 <= s.len() && #[trigger] bytes_value(s, off, 8)
                == 0xf9562b2d5c95a6c8 && bytes_value(s, off + 8, 8) == 0x6a7b384944536bdc,
{
    if requests_limine(s) {
        let off = choose|off: int|
            0 <= off && off % 8 == 0 && off + 16 <= s.len() && #[trigger] base_revision_at(s, off);
        lemma_le_values(s, off);
        lemma_le_values(s, off + 8);
        assert(bytes_value(s, off, 8) == 0xf9562b2d5c95a6c8);
    }
    if exists|off: int|
        0 <= off && off % 8 == 0 && off + 16 <= s.len() && #[trigger] bytes_value(s, off, 8)
            == 0xf9562b2d5c95a6c8 && bytes_value(s, off + 8, 8) == 0x6a7b384944536bdc {
        let off = choose|off: int|
            0 <= off && off % 8 == 0 && off + 16 <= s.len() && #[trigger] bytes_value(s, off, 8)
                == 0xf9562b2d5c95a6c8 && bytes_value(s, off + 8, 8) == 0x6a7b384944536bdc;
        lemma_le_values(s, off);
        lemma_le_values(s, off + 8);
        assert(base_revision_at(s, off));
    }
}

/// The Limine protocol.
pub struct Limine;

impl BootProtocol for Limine {
    fn detect(kernel: &[u8]) -> (found: bool)
        ensures
            found == requests_limine(kernel@),
    {
        let mut offset: usize = 0;
        while kernel.len() >= 16 && offset <= kernel.len() - 16
            invariant
                offset % 8 == 0,
                offset <= kernel@.len(),
                forall|off: int|
                    0 <= off < offset && off % 8 == 0 && off + 16 <= kernel@.len()
                        ==> !#[trigger] base_revision_at(kernel@, off),
            decreases kernel@.len() - offset,
        {
            let a = read_u64(kernel, offset);
            if a == BASE_REVISION_MAGIC_0 {
                let b = read_u64(kernel, offset + 8);
                if b == BASE_REVISION_MAGIC_1 {
                    assert(base_revision_at(kernel@, offset as int));
                    return true;
                }
            }
            offset = offset + 8;
        }
        false
    }
}

/// The framebuffer description Limine expects: 32 bits per pixel, RGB
/// memory model, 8-bit channels at the given positions, no EDID.
pub open spec fn framebuffer_record(fb: FramebufferInfo) -> Seq<u8> {
    u64_bytes(fb.base) + u64_bytes(fb.width as u64) + u64_bytes(fb.height as u64) + u64_bytes(
        fb.pitch as u64,
    ) + u16_bytes(32) + seq![1u8, 8u8, fb.red_pos, 8u8, fb.green_pos, 8u8, fb.blue_pos]
        + seq![0u8, 0u8, 0u8, 0u8, 0u8, 0u8, 0u8] + u64_bytes(0) + u64_bytes(0)
}

/// The framebuffer description is 64 bytes: address, width, height and
/// pitch (8 bytes each), 32 bits per pixel (2 bytes), the RGB memory model
/// (1), then size 8 and shift of red, green and blue, seven unused bytes, and
/// no EDID (size and address 0).
pub proof fn lemma_framebuffer_record_layout(fb: FramebufferInfo)
    ensures
        ({
            let r = framebuffer_record(fb);
            &&& r.len() == 64
            &&& bytes_value(r, 0, 8) == fb.base
            &&& bytes_value(r, 8, 8) == fb.width
            &&& bytes_value(r, 16, 8) == fb.height
            &&& bytes_value(r, 24, 8) == fb.pitch
            &&& bytes_value(r, 32, 2) == 32
            &&& r[34] == 1
            &&& r[35] == 8 && r[36] == fb.red_pos
            &&& r[37] == 8 && r[38] == fb.green_pos
            &&& r[39] == 8 && r[40] == fb.blue_pos
            &&& bytes_value(r, 48, 8) == 0
            &&& bytes_value(r, 56, 8) == 0
        }),
{
    let r = framebuffer_record(fb);
    lemma_encoded_values(32, 0, fb.base);
    lemma_encoded_values(0, 0, fb.width as u64);
    lemma_encoded_values(0, 0, fb.height as u64);
    lemma_encoded_values(0, 0, fb.pitch as u64);
    lemma_encoded_values(0, 0, 0);
    crate::bytes::lemma_bytes_value_frame(r, 0, u64_bytes(fb.base), 0, 8);
    crate::bytes::lemma_bytes_value_frame(r, 8, u64_bytes(fb.width as u64), 0, 8);
    crate::bytes::lemma_bytes_value_frame(r, 16, u64_bytes(fb.height as u64), 0, 8);
    crate::bytes::lemma_bytes_value_frame(r, 24, u64_bytes(fb.pitch as u64), 0, 8);
    crate::bytes::lemma_bytes_value_frame(r, 32, u16_bytes(32), 0, 2);
    crate::bytes::lemma_bytes_value_frame(r, 48, u64_bytes(0), 0, 8);
    crate::bytes::lemma_bytes_value_frame(r, 56, u64_bytes(0), 0, 8);
}

/// A response header: revision 0, a count, and the address of the array
/// of item addresses.
pub open spec fn response_record(count: u64, items: u64) -> Seq<u8> {
    u64_bytes(0) + u64_bytes(count) + u64_bytes(items)
}

/// The boot-information buffer after answering a framebuffer request, from
/// contents `b`, next offset `o` and physical address `base`: the
/// framebuffer description, an array holding its address, and the response
/// pointing at that array, one after the other from the next multiple of 8.
/// Gives the new contents, the new offset and the response's address.
pub open spec fn framebuffer_answer(b: Seq<u8>, o: int, base: u64, fb: FramebufferInfo) -> (
    Seq<u8>,
    int,
    u64,
) {
    let o0 = align_up(o, 8);
    let o1 = o0 + FRAMEBUFFER_SIZE;
    let o2 = o1 + 8;
    let b1 = write_at(b, o0, framebuffer_record(fb));
    let b2 = write_at(b1, o1, u64_bytes((base + o0) as u64));
    let b3 = write_at(b2, o2, response_record(1, (base + o1) as u64));
    (b3, o2 + RESPONSE_SIZE, (base + o2) as u64)
}

/// The framebuffer description's bytes.
fn framebuffer_bytes(fb: &FramebufferInfo) -> (v: Vec<u8>)
    ensures
        v@ == framebuffer_record(*fb),
{
    let mut v = u64_to_bytes(fb.base);
    let mut w = u64_to_bytes(fb.width as u64);
    v.append(&mut w);
    let mut h = u64_to_bytes(fb.height as u64);
    v.append(&mut h);
    let mut p = u64_to_bytes(fb.pitch as u64);
    v.append(&mut p);
    let mut bpp = u16_to_bytes(32);
    v.append(&mut bpp);
    let mut channels = vec![1u8, 8u8, fb.red_pos, 8u8, fb.green_pos, 8u8, fb.blue_pos];
    v.append(&mut channels);
    let mut unused = vec![0u8, 0u8, 0u8, 0u8, 0u8, 0u8, 0u8];
    v.append(&mut unused);
    let mut edid_size = u64_to_bytes(0);
    v.append(&mut edid_size);
    let mut edid = u64_to_bytes(0);
    v.append(&mut edid);
    assert(v@ =~= framebuffer_record(*fb));
    v
}

/// A response header's bytes.
fn response_bytes(count: u64, items: u64) -> (v: Vec<u8>)
    ensures
        v@ == response_record(count, items),
{
    let mut v = u64_to_bytes(0);
    let mut c = u64_to_bytes(count);
    v.append(&mut c);
    let mut i = u64_to_bytes(items);
    v.append(&mut i);
    assert(v@ =~= response_record(count, items));
    v
}

/// Answers a framebuffer request in the boot-information buffer; returns
/// the response's physical address.
fn fulfill_framebuffer(alloc: &mut BumpAllocator, fb_info: &FramebufferInfo) -> (response: u64)
    requires
        old(alloc).offset() + 128 <= usize::MAX,
        old(alloc).base() + old(alloc).offset() + 128 <= u64::MAX,
    ensures
        (final(alloc).bytes(), final(alloc).offset() as int, response) == framebuffer_answer(
            old(alloc).bytes(),
            old(alloc).offset() as int,
            old(alloc).base(),
            *fb_info,
        ),
        final(alloc).base() == old(alloc).base(),
{
    proof {
        lemma_small_powers();
    }
    let ghost o = alloc.offset() as int;
    assert(align_up(o, 8) <= o + 7) by (nonlinear_arith)
        requires
            o >= 0,
    ;
    assert(align_up(o, 8) % 8 == 0) by (nonlinear_arith)
        requires
            o >= 0,
    ;
    let fb_offset = alloc.alloc_raw(FRAMEBUFFER_SIZE, 8);
    proof {
        lemma_align_up_aligned(fb_offset + 64);
    }
    let array_offset = alloc.alloc_raw(8, 8);
    proof {
        lemma_align_up_aligned(array_offset + 8);
    }
    let response_offset = alloc.alloc_raw(RESPONSE_SIZE, 8);
    let fb_bytes = framebuffer_bytes(fb_info);
    alloc.write_at(fb_offset, fb_bytes.as_slice());
    let fb_address = alloc.ptr_at_offset(fb_offset);
    let array = u64_to_bytes(fb_address);
    alloc.write_at(array_offset, array.as_slice());
    let array_address = alloc.ptr_at_offset(array_offset);
    let response = response_bytes(1, array_address);
    alloc.write_at(response_offset, response.as_slice());
    alloc.ptr_at_offset(response_offset)
}

/// The Limine entry for UEFI descriptor `i`: its start, its length in
/// bytes and its type.
pub open spec fn descriptor_entry(mmap: Seq<u8>, size: usize, i: int) -> LimineMemoryMapEntry {
    LimineMemoryMapEntry {
        base: descriptor_start(mmap, size, i),
        length: (descriptor_pages(mmap, size, i) * 0x1000) as u64,
        entry_type: limine_type(descriptor_type(mmap, size, i)),
    }
}

/// The entries of the first `n` descriptors, in the firmware's order.
pub open spec fn descriptor_entries(mmap: Seq<u8>, size: usize, n: int) -> Seq<LimineMemoryMapEntry> {
    Seq::new(n as nat, |i: int| descriptor_entry(mmap, size, i))
}

/// Where an entry with base `b` goes among entries ordered by base, looking
/// from `i` on: before the first entry whose base is above `b`.
pub open spec fn insert_position(es: Seq<LimineMemoryMapEntry>, b: u64, i: int) -> int
    decreases es.len() - i,
{
    if i < 0 || i >= es.len() {
        es.len() as int
    } else if es[i].base > b {
        i
    } else {
        insert_position(es, b, i + 1)
    }
}

/// The entries of the first `n` descriptors ordered by base, lowest first;
/// entries with equal bases keep the firmware's order.
pub open spec fn sorted_entries(mmap: Seq<u8>, size: usize, n: int) -> Seq<LimineMemoryMapEntry>
    decreases n,
{
    if n <= 0 {
        Seq::empty()
    } else {
        let es = sorted_entries(mmap, size, n - 1);
        let e = descriptor_entry(mmap, size, n - 1);
        es.insert(insert_position(es, e.base, 0), e)
    }
}

/// Entries are ordered by base, lowest first.
pub open spec fn sorted_by_base(es: Seq<LimineMemoryMapEntry>) -> bool {
    forall|i: int, j: int| 0 <= i < j < es.len() ==> es[i].base <= es[j].base
}

/// An entry as Limine lays it out: base, length, type.
pub open spec fn entry_record(e: LimineMemoryMapEntry) -> Seq<u8> {
    u64_bytes(e.base) + u64_bytes(e.length) + u64_bytes(e.entry_type)
}

/// Entries laid out one after the other.
pub open spec fn entry_records(es: Seq<LimineMemoryMapEntry>) -> Seq<u8>
    decreases es.len(),
{
    if es.len() == 0 {
        Seq::empty()
    } else {
        entry_records(es.drop_last()) + entry_record(es.last())
    }
}

/// The records of `es` take 24 bytes each.
proof fn lemma_entry_records_len(es: Seq<LimineMemoryMapEntry>)
    ensures
        entry_records(es).len() == 24 * es.len(),
    decreases es.len(),
{
    if es.len() > 0 {
        lemma_entry_records_len(es.drop_last());
    }
}

/// Entry `i` is laid out as the 24 bytes at `24 * i`: its base, its length
/// and its type, 8 bytes each.
pub proof fn lemma_entry_records_layout(es: Seq<LimineMemoryMapEntry>, i: int)
    requires
        0 <= i < es.len(),
    ensures
        entry_records(es).len() == 24 * es.len(),
        bytes_value(entry_records(es), 24 * i, 8) == es[i].base,
        bytes_value(entry_records(es), 24 * i + 8, 8) == es[i].length,
        bytes_value(entry_records(es), 24 * i + 16, 8) == es[i].entry_type,
    decreases es.len(),
{
    lemma_entry_records_len(es);
    lemma_entry_records_len(es.drop_last());
    let prev = entry_records(es.drop_last());
    let last = entry_record(es.last());
    if i < es.len() - 1 {
        lemma_entry_records_layout(es.drop_last(), i);
        lemma_bytes_value_concat(prev, last, 24 * i, 8);
        lemma_bytes_value_concat(prev, last, 24 * i + 8, 8);
        lemma_bytes_value_concat(prev, last, 24 * i + 16, 8);
    } else {
        let e = es.last();
        let a = u64_bytes(e.base);
        let b = u64_bytes(e.length);
        let c = u64_bytes(e.entry_type);
        lemma_encoded_values(0, 0, e.base);
        lemma_encoded_values(0, 0, e.length);
        lemma_encoded_values(0, 0, e.entry_type);
        lemma_bytes_value_concat(prev, last, 24 * i, 8);
        lemma_bytes_value_concat(prev, last, 24 * i + 8, 8);
        lemma_bytes_value_concat(prev, last, 24 * i + 16, 8);
        lemma_bytes_value_concat(a + b, c, 0, 8);
        lemma_bytes_value_concat(a + b, c, 8, 8);
        lemma_bytes_value_concat(a + b, c, 16, 8);
        lemma_bytes_value_concat(a, b, 0, 8);
        lemma_bytes_value_concat(a, b, 8, 8);
    }
}

/// The entry for descriptor `i`, read from the descriptor's bytes: its
/// physical start, its length in bytes, and the Limine type of its UEFI type.
pub proof fn lemma_descriptor_entry_fields(mmap: Seq<u8>, size: usize, i: int)
    ensures
        descriptor_entry(mmap, size, i).base == bytes_value(mmap, i * size + 8, 8),
        descriptor_entry(mmap, size, i).length == (bytes_value(mmap, i * size + 24, 8) * 0x1000) as u64,
        descriptor_entry(mmap, size, i).entry_type == limine_type(bytes_value(mmap, i * size, 4) as u32),
{
    crate::efi::lemma_descriptor_layout(mmap, size, i);
}

/// What the insertion position is.
proof fn lemma_insert_position(es: Seq<LimineMemoryMapEntry>, b: u64, i: int)
    requires
        0 <= i <= es.len(),
    ensures
        i <= insert_position(es, b, i) <= es.len(),
        forall|k: int| i <= k < insert_position(es, b, i) ==> es[k].base <= b,
        insert_position(es, b, i) < es.len() ==> es[insert_position(es, b, i)].base > b,
    decreases es.len() - i,
{
    if i < es.len() && es[i].base <= b {
        lemma_insert_position(es, b, i + 1);
    }
}

/// The memory-map entries are those of the firmware's descriptors, each
/// once, ordered by base, lowest first.
pub proof fn lemma_sorted_entries(mmap: Seq<u8>, size: usize, n: int)
    requires
        0 <= n,
    ensures
        sorted_by_base(sorted_entries(mmap, size, n)),
        sorted_entries(mmap, size, n).len() == n,
        sorted_entries(mmap, size, n).to_multiset() == descriptor_entries(mmap, size, n).to_multiset(),
    decreases n,
{
    if n == 0 {
        assert(descriptor_entries(mmap, size, 0) =~= Seq::<LimineMemoryMapEntry>::empty());
    } else {
        lemma_sorted_entries(mmap, size, n - 1);
        let es = sorted_entries(mmap, size, n - 1);
        let e = descriptor_entry(mmap, size, n - 1);
        let p = insert_position(es, e.base, 0);
        lemma_insert_position(es, e.base, 0);
        let t = es.insert(p, e);
        es.insert_ensures(p, e);
        assert forall|i: int, j: int| 0 <= i < j < t.len() implies t[i].base <= t[j].base by {
            if j < p {
            } else if j == p {
                assert(t[i] == es[i]);
            } else if i < p {
                assert(t[j] == es[j - 1]);
                assert(t[i] == es[i]);
            } else if i == p {
                assert(t[j] == es[j - 1]);
                assert(es[p].base > e.base);
                if j - 1 > p {
                    assert(es[p].base <= es[j - 1].base);
                }
            } else {
                assert(t[j] == es[j - 1]);
                assert(t[i] == es[i - 1]);
            }
        }
        vstd::seq_lib::to_multiset_insert(es, p, e);
        assert(descriptor_entries(mmap, size, n) =~= descriptor_entries(mmap, size, n - 1).push(e));
        vstd::seq_lib::to_multiset_build(descriptor_entries(mmap, size, n - 1), e);
    }
}

/// The addresses of `n` consecutive entries, the first at `first`.
pub open spec fn entry_pointers(first: int, n: int) -> Seq<u8>
    decreases n,
{
    if n <= 0 {
        Seq::empty()
    } else {
        entry_pointers(first, n - 1) + u64_bytes((first + ENTRY_SIZE * (n - 1)) as u64)
    }
}

/// The boot-information buffer after answering a memory-map request, from
/// contents `b`, next offset `o` and physical address `base`: one entry
/// per UEFI descriptor among the first `mmap_size` bytes of `mmap`, ordered
/// by base, lowest first (`lemma_sorted_entries`), the
/// array of their addresses, and the response pointing at that array, one
/// after the other from the next multiple of 8. Gives the new contents, the
/// new offset and the response's address.
pub open spec fn memory_map_answer(
    b: Seq<u8>,
    o: int,
    base: u64,
    mmap: Seq<u8>,
    mmap_size: usize,
    size: usize,
) -> (Seq<u8>, int, u64) {
    let count = descriptor_count(mmap_size, size);
    let e0 = align_up(o, 8);
    let p0 = e0 + ENTRY_SIZE * count;
    let r0 = p0 + 8 * count;
    let b1 = write_at(b, e0, entry_records(sorted_entries(mmap, size, count)));
    let b2 = write_at(b1, p0, entry_pointers(base + e0, count));
    let b3 = write_at(b2, r0, response_record(count as u64, (base + p0) as u64));
    (b3, r0 + RESPONSE_SIZE, (base + r0) as u64)
}

/// The room a memory-map answer can take in the buffer.
pub open spec fn memory_map_room(mmap_size: usize, size: usize) -> int {
    32 * descriptor_count(mmap_size, size) + 128
}

/// The entries of the first `count` descriptors, ordered by base.
fn sorted_descriptor_entries(mmap: &[u8], mmap_size: usize, desc_size: usize) -> (es: Vec<
    LimineMemoryMapEntry,
>)
    requires
        descriptors_readable(mmap@, mmap_size, desc_size),
        lengths_fit(mmap@, mmap_size, desc_size),
    ensures
        es@ == sorted_entries(mmap@, desc_size, descriptor_count(mmap_size, desc_size)),
{
    let count = mmap_size / desc_size;
    let mut es: Vec<LimineMemoryMapEntry> = Vec::new();
    let mut i: usize = 0;
    while i < count
        invariant
            i <= count,
            count == descriptor_count(mmap_size, desc_size),
            descriptors_readable(mmap@, mmap_size, desc_size),
            lengths_fit(mmap@, mmap_size, desc_size),
            es@ == sorted_entries(mmap@, desc_size, i as int),
        decreases count - i,
    {
        proof {
            lemma_descriptor_readable(mmap@, mmap_size, desc_size, i as int);
            lemma_sorted_entries(mmap@, desc_size, i as int);
        }
        let (efi_type, start, pages) = read_descriptor(mmap, desc_size, i);
        assert(descriptor_pages(mmap@, desc_size, i as int) * 0x1000 <= u64::MAX);
        let entry = LimineMemoryMapEntry {
            base: start,
            length: pages * 0x1000,
            entry_type: efi_type_to_limine(efi_type),
        };
        let ghost es0 = es@;
        let mut p: usize = 0;
        while p < es.len() && es[p].base <= start
            invariant
                p <= es@.len(),
                es@ == es0,
                insert_position(es0, start, 0) == insert_position(es0, start, p as int),
            decreases es@.len() - p,
        {
            p = p + 1;
        }
        assert(entry == descriptor_entry(mmap@, desc_size, i as int));
        es.insert(p, entry);
        i = i + 1;
    }
    es
}

/// The entries laid out one after the other, and the array of their
/// addresses, the first entry being at physical `entries_address`.
fn memory_map_records(es: &Vec<LimineMemoryMapEntry>, entries_address: u64) -> (r: (Vec<u8>, Vec<u8>))
    requires
        entries_address + ENTRY_SIZE * es@.len() <= u64::MAX,
        ENTRY_SIZE * es@.len() <= usize::MAX,
    ensures
        r.0@ == entry_records(es@),
        r.0@.len() == ENTRY_SIZE * es@.len(),
        r.1@ == entry_pointers(entries_address as int, es@.len() as int),
        r.1@.len() == 8 * es@.len(),
{
    let mut records: Vec<u8> = Vec::new();
    let mut pointers: Vec<u8> = Vec::new();
    let mut i: usize = 0;
    while i < es.len()
        invariant
            i <= es@.len(),
            entries_address + ENTRY_SIZE * es@.len() <= u64::MAX,
            ENTRY_SIZE * es@.len() <= usize::MAX,
            records@ == entry_records(es@.take(i as int)),
            records@.len() == ENTRY_SIZE * i,
            pointers@ == entry_pointers(entries_address as int, i as int),
            pointers@.len() == 8 * i,
        decreases es@.len() - i,
    {
        let e = es[i];
        let mut record = u64_to_bytes(e.base);
        let mut length = u64_to_bytes(e.length);
        record.append(&mut length);
        let mut kind = u64_to_bytes(e.entry_type);
        record.append(&mut kind);
        assert(record@ =~= entry_record(es@[i as int]));
        assert(es@.take(i + 1).drop_last() =~= es@.take(i as int));
        records.append(&mut record);
        let mut pointer = u64_to_bytes(entries_address + (ENTRY_SIZE * i) as u64);
        pointers.append(&mut pointer);
        i = i + 1;
    }
    assert(es@.take(i as int) =~= es@);
    (records, pointers)
}

/// Answers a memory-map request in the boot-information buffer from the
/// UEFI memory map; returns the response's physical address.
fn fulfill_memory_map(
    alloc: &mut BumpAllocator,
    mmap: &[u8],
    mmap_size: usize,
    desc_size: usize,
) -> (response: u64)
    requires
        descriptors_readable(mmap@, mmap_size, desc_size),
        lengths_fit(mmap@, mmap_size, desc_size),
        old(alloc).offset() + memory_map_room(mmap_size, desc_size) <= usize::MAX,
        old(alloc).base() + old(alloc).offset() + memory_map_room(mmap_size, desc_size) <= u64::MAX,
    ensures
        (final(alloc).bytes(), final(alloc).offset() as int, response) == memory_map_answer(
            old(alloc).bytes(),
            old(alloc).offset() as int,
            old(alloc).base(),
            mmap@,
            mmap_size,
            desc_size,
        ),
        final(alloc).base() == old(alloc).base(),
{
    proof {
        lemma_small_powers();
    }
    let ghost o = alloc.offset() as int;
    assert(align_up(o, 8) <= o + 7 && align_up(o, 8) % 8 == 0) by (nonlinear_arith)
        requires
            o >= 0,
    ;
    let count = mmap_size / desc_size;
    let entries_offset = alloc.alloc_raw(ENTRY_SIZE * count, 8);
    proof {
        lemma_align_up_aligned(entries_offset + ENTRY_SIZE * count);
    }
    let pointers_offset = alloc.alloc_raw(8 * count, 8);
    proof {
        lemma_align_up_aligned(pointers_offset + 8 * count);
    }
    let response_offset = alloc.alloc_raw(RESPONSE_SIZE, 8);
    let entries_address = alloc.ptr_at_offset(entries_offset);
    let es = sorted_descriptor_entries(mmap, mmap_size, desc_size);
    proof {
        lemma_sorted_entries(mmap@, desc_size, count as int);
    }
    let (records, pointers) = memory_map_records(&es, entries_address);
    alloc.write_at(entries_offset, records.as_slice());
    let pointers_address = alloc.ptr_at_offset(pointers_offset);
    alloc.write_at(pointers_offset, pointers.as_slice());
    let response = response_bytes(count as u64, pointers_address);
    alloc.write_at(response_offset, response.as_slice());
    alloc.ptr_at_offset(response_offset)
}

/// Where a Limine request's words are read and written.
pub const REQUEST_SIZE: usize = 48;

/// The region `r` and the boot-information buffer (contents `b`, next
/// offset `o`) after looking for a request at offset `at` of `r`: a
/// base-revision tag there is marked supported (its third word set to 0);
/// a framebuffer or memory-map request there is answered in the buffer and
/// pointed at its response; anything else is left as it is.
pub open spec fn request_answer(
    r: Seq<u8>,
    b: Seq<u8>,
    o: int,
    base: u64,
    fb: FramebufferInfo,
    mmap: Seq<u8>,
    mmap_size: usize,
    size: usize,
    at: int,
) -> (Seq<u8>, Seq<u8>, int) {
    let id0 = le64(r, at);
    let r1 = if id0 == BASE_REVISION_MAGIC_0 && le64(r, at + 8) == BASE_REVISION_MAGIC_1 {
        write_at(r, at + 16, u64_bytes(0))
    } else {
        r
    };
    if id0 == COMMON_MAGIC_0 && le64(r1, at + 8) == COMMON_MAGIC_1 {
        if le64(r1, at + 16) == FRAMEBUFFER_ID_0 && le64(r1, at + 24) == FRAMEBUFFER_ID_1 {
            let (b2, o2, response) = framebuffer_answer(b, o, base, fb);
            (write_at(r1, at + REQUEST_RESPONSE_OFFSET, u64_bytes(response)), b2, o2)
        } else if le64(r1, at + 16) == MEMMAP_ID_0 && le64(r1, at + 24) == MEMMAP_ID_1 {
            let (b2, o2, response) = memory_map_answer(b, o, base, mmap, mmap_size, size);
            (write_at(r1, at + REQUEST_RESPONSE_OFFSET, u64_bytes(response)), b2, o2)
        } else {
            (r1, b, o)
        }
    } else {
        (r1, b, o)
    }
}

/// The region and the buffer after looking for requests at every multiple
/// of 8 from `at` on, as long as a whole request fits before `len`.
pub open spec fn scan_from(
    r: Seq<u8>,
    b: Seq<u8>,
    o: int,
    base: u64,
    fb: FramebufferInfo,
    mmap: Seq<u8>,
    mmap_size: usize,
    size: usize,
    len: int,
    at: int,
) -> (Seq<u8>, Seq<u8>, int)
    decreases len - at,
{
    if at < 0 || at + REQUEST_SIZE > len {
        (r, b, o)
    } else {
        let (r1, b1, o1) = request_answer(r, b, o, base, fb, mmap, mmap_size, size, at);
        scan_from(r1, b1, o1, base, fb, mmap, mmap_size, size, len, at + 8)
    }
}

/// The most room one scan of a region of `len` bytes can take in the buffer.
pub open spec fn scan_room(len: int, mmap_size: usize, size: usize) -> int {
    (len / 8) * memory_map_room(mmap_size, size)
}

/// Looks for Limine requests at every multiple of 8 in `region` (the bytes
/// of a loaded segment), marks the base revision supported, and answers the
/// framebuffer and memory-map requests in the boot-information buffer.
pub fn scan_region(
    region: &mut Vec<u8>,
    alloc: &mut BumpAllocator,
    fb_info: &FramebufferInfo,
    mmap: &[u8],
    mmap_size: usize,
    desc_size: usize,
)
    requires
        descriptors_readable(mmap@, mmap_size, desc_size),
        lengths_fit(mmap@, mmap_size, desc_size),
        old(alloc).offset() + scan_room(old(region)@.len() as int, mmap_size, desc_size) <= usize::MAX,
        old(alloc).base() + old(alloc).offset() + scan_room(old(region)@.len() as int, mmap_size, desc_size)
            <= u64::MAX,
    ensures
        (final(region)@, final(alloc).bytes(), final(alloc).offset() as int) == scan_from(
            old(region)@,
            old(alloc).bytes(),
            old(alloc).offset() as int,
            old(alloc).base(),
            *fb_info,
            mmap@,
            mmap_size,
            desc_size,
            old(region)@.len() as int,
            0,
        ),
        final(region)@.len() == old(region)@.len(),
        final(alloc).base() == old(alloc).base(),
        final(alloc).offset() <= old(alloc).offset() + scan_room(old(region)@.len() as int, mmap_size, desc_size),
{
    let len = region.len();
    let ghost room = memory_map_room(mmap_size, desc_size);
    let ghost o0 = alloc.offset() as int;
    let ghost end = scan_from(
        region@,
        alloc.bytes(),
        alloc.offset() as int,
        alloc.base(),
        *fb_info,
        mmap@,
        mmap_size,
        desc_size,
        len as int,
        0,
    );
    let mut at: usize = 0;
    while len >= REQUEST_SIZE && at <= len - REQUEST_SIZE
        invariant
            region@.len() == len,
            at % 8 == 0,
            at <= len,
            room == memory_map_room(mmap_size, desc_size),
            room >= 128,
            descriptors_readable(mmap@, mmap_size, desc_size),
            lengths_fit(mmap@, mmap_size, desc_size),
            alloc.base() == old(alloc).base(),
            o0 == old(alloc).offset(),
            alloc.offset() <= o0 + (at / 8) * room,
            o0 + (len as int / 8) * room <= usize::MAX,
            alloc.base() + o0 + (len as int / 8) * room <= u64::MAX,
            scan_from(
                region@,
                alloc.bytes(),
                alloc.offset() as int,
                alloc.base(),
                *fb_info,
                mmap@,
                mmap_size,
                desc_size,
                len as int,
                at as int,
            ) == end,
        decreases len - at,
    {
        proof {
            let k = at as int / 8;
            assert((k + 1) * room <= (len as int / 8) * room) by (nonlinear_arith)
                requires
                    k + 1 <= len as int / 8,
                    room >= 0,
            ;
            assert((k + 1) * room == k * room + room) by (nonlinear_arith);
            assert((at as int + 8) / 8 == k + 1);
        }
        let id0 = read_u64(region.as_slice(), at);
        if id0 == BASE_REVISION_MAGIC_0 {
            let id1 = read_u64(region.as_slice(), at + 8);
            if id1 == BASE_REVISION_MAGIC_1 {
                let zero = u64_to_bytes(0);
                overwrite(region, at + 16, zero.as_slice());
            }
        }
        if id0 == COMMON_MAGIC_0 {
            let id1 = read_u64(region.as_slice(), at + 8);
            if id1 == COMMON_MAGIC_1 {
                let id2 = read_u64(region.as_slice(), at + 16);
                let id3 = read_u64(region.as_slice(), at + 24);
                if id2 == FRAMEBUFFER_ID_0 && id3 == FRAMEBUFFER_ID_1 {
                    let response = fulfill_framebuffer(alloc, fb_info);
                    let pointer = u64_to_bytes(response);
                    overwrite(region, at + REQUEST_RESPONSE_OFFSET, pointer.as_slice());
                } else if id2 == MEMMAP_ID_0 && id3 == MEMMAP_ID_1 {
                    let response = fulfill_memory_map(alloc, mmap, mmap_size, desc_size);
                    let pointer = u64_to_bytes(response);
                    overwrite(region, at + REQUEST_RESPONSE_OFFSET, pointer.as_slice());
                }
            }
        }
        at = at + 8;
    }
    proof {
        assert((at as int / 8) * room <= (len as int / 8) * room) by (nonlinear_arith)
            requires
                at as int / 8 <= len as int / 8,
                room >= 0,
        ;
    }
}

/// The regions and the buffer after scanning each region in order.
pub open spec fn scan_regions(
    regions: Seq<Seq<u8>>,
    b: Seq<u8>,
    o: int,
    base: u64,
    fb: FramebufferInfo,
    mmap: Seq<u8>,
    mmap_size: usize,
    size: usize,
) -> (Seq<Seq<u8>>, Seq<u8>, int)
    decreases regions.len(),
{
    if regions.len() == 0 {
        (Seq::empty(), b, o)
    } else {
        let (rs, b1, o1) = scan_regions(regions.drop_last(), b, o, base, fb, mmap, mmap_size, size);
        let last = regions.last();
        let (r, b2, o2) = scan_from(last, b1, o1, base, fb, mmap, mmap_size, size, last.len() as int, 0);
        (rs.push(r), b2, o2)
    }
}

/// The most room scanning the first `n` regions can take in the buffer.
pub open spec fn regions_room(regions: Seq<Seq<u8>>, n: int, mmap_size: usize, size: usize) -> int
    decreases n,
{
    if n <= 0 {
        0
    } else {
        regions_room(regions, n - 1, mmap_size, size) + scan_room(regions[n - 1].len() as int, mmap_size, size)
    }
}

/// The room of a prefix is at most that of all regions.
proof fn lemma_regions_room_monotone(regions: Seq<Seq<u8>>, k: int, n: int, mmap_size: usize, size: usize)
    requires
        0 <= k <= n,
        size > 0,
    ensures
        regions_room(regions, k, mmap_size, size) <= regions_room(regions, n, mmap_size, size),
    decreases n - k,
{
    if k < n {
        lemma_regions_room_monotone(regions, k, n - 1, mmap_size, size);
        let len = regions[n - 1].len() as int;
        let room = memory_map_room(mmap_size, size);
        assert(descriptor_count(mmap_size, size) >= 0);
        assert((len / 8) * room >= 0) by (nonlinear_arith)
            requires
                len >= 0,
                room >= 0,
        ;
    }
}

/// Scans the bytes of each loaded segment, in order, for Limine requests,
/// answering them in the boot-information buffer; returns the segments'
/// bytes with the requests marked and pointed at their responses.
pub fn scan_and_fulfill_requests(
    regions: Vec<Vec<u8>>,
    alloc: &mut BumpAllocator,
    fb_info: &FramebufferInfo,
    mmap: &[u8],
    mmap_size: usize,
    desc_size: usize,
) -> (scanned: Vec<Vec<u8>>)
    requires
        descriptors_readable(mmap@, mmap_size, desc_size),
        lengths_fit(mmap@, mmap_size, desc_size),
        old(alloc).offset() + regions_room(regions.deep_view(), regions@.len() as int, mmap_size, desc_size)
            <= usize::MAX,
        old(alloc).base() + old(alloc).offset() + regions_room(
            regions.deep_view(),
            regions@.len() as int,
            mmap_size,
            desc_size,
        ) <= u64::MAX,
    ensures
        (scanned.deep_view(), final(alloc).bytes(), final(alloc).offset() as int) == scan_regions(
            regions.deep_view(),
            old(alloc).bytes(),
            old(alloc).offset() as int,
            old(alloc).base(),
            *fb_info,
            mmap@,
            mmap_size,
            desc_size,
        ),
        final(alloc).base() == old(alloc).base(),
{
    let ghost input = regions.deep_view();
    let ghost n = input.len() as int;
    let ghost o0 = alloc.offset() as int;
    let ghost b0 = alloc.bytes();
    let mut rest = regions;
    let mut out: Vec<Vec<u8>> = Vec::new();
    let ghost mut k: int = 0;
    proof {
        assert(input.take(0) =~= Seq::<Seq<u8>>::empty());
        assert(out.deep_view() =~= Seq::<Seq<u8>>::empty());
        assert(rest.deep_view() =~= input.subrange(0, n));
        lemma_regions_room_monotone(input, 0, n, mmap_size, desc_size);
    }
    while rest.len() > 0
        invariant
            0 <= k <= n,
            n == input.len(),
            rest.deep_view() == input.subrange(k, n),
            descriptors_readable(mmap@, mmap_size, desc_size),
            lengths_fit(mmap@, mmap_size, desc_size),
            alloc.base() == old(alloc).base(),
            o0 == old(alloc).offset(),
            b0 == old(alloc).bytes(),
            alloc.offset() <= o0 + regions_room(input, k, mmap_size, desc_size),
            o0 + regions_room(input, n, mmap_size, desc_size) <= usize::MAX,
            alloc.base() + o0 + regions_room(input, n, mmap_size, desc_size) <= u64::MAX,
            (out.deep_view(), alloc.bytes(), alloc.offset() as int) == scan_regions(
                input.take(k),
                b0,
                o0,
                alloc.base(),
                *fb_info,
                mmap@,
                mmap_size,
                desc_size,
            ),
        decreases rest@.len(),
    {
        let ghost old_rest = rest@;
        let ghost old_deep = rest.deep_view();
        proof {
            assert(rest.deep_view().len() == rest@.len());
            assert(rest.deep_view()[0] == input[k]);
        }
        let mut region = rest.remove(0);
        proof {
            assert(region.deep_view() =~= region@);
            assert forall|i: int| 0 <= i < rest.deep_view().len() implies rest.deep_view()[i]
                == input.subrange(k + 1, n)[i] by {
                assert(rest@[i] == old_rest[i + 1]);
                assert(old_deep[i + 1] == old_rest[i + 1].deep_view());
                assert(old_deep[i + 1] == input[k + 1 + i]);
            }
            assert(rest.deep_view() =~= input.subrange(k + 1, n));
            lemma_regions_room_monotone(input, k + 1, n, mmap_size, desc_size);
        }
        let ghost out_before = out.deep_view();
        let ghost old_out = out@;
        let ghost region_before = region@;
        scan_region(&mut region, alloc, fb_info, mmap, mmap_size, desc_size);
        let ghost region_after = region@;
        proof {
            assert(region.deep_view() =~= region@);
        }
        out.push(region);
        proof {
            assert forall|i: int| 0 <= i < out.deep_view().len() implies out.deep_view()[i]
                == out_before.push(region_after)[i] by {
                if i < old_out.len() {
                    assert(out@[i] == old_out[i]);
                    assert(out_before[i] == old_out[i].deep_view());
                } else {
                    assert(out@[i] == region);
                }
            }
            assert(out.deep_view() =~= out_before.push(region_after));
            assert(input.take(k + 1).drop_last() =~= input.take(k));
            assert(input.take(k + 1).last() == input[k]);
            assert(region_before == input[k]);
            k = k + 1;
        }
    }
    proof {
        assert(input.take(k) =~= input);
    }
    out
}

/// Whether the boot-information buffer, at physical `base` with next offset
/// `offset`, has the room scanning `regions` can take, below both `usize`
/// and 2^64.
pub fn scan_room_fits(regions: &Vec<Vec<u8>>, offset: usize, base: u64, mmap_size: usize, desc_size: usize) -> (fit: bool)
    requires
        desc_size > 0,
    ensures
        fit == (offset + regions_room(regions.deep_view(), regions@.len() as int, mmap_size, desc_size)
            <= usize::MAX && base + offset + regions_room(
            regions.deep_view(),
            regions@.len() as int,
            mmap_size,
            desc_size,
        ) <= u64::MAX),
{
    let ghost rs = regions.deep_view();
    let ghost n = regions@.len() as int;
    let count = mmap_size / desc_size;
    let per: u128 = 32 * (count as u128) + 128;
    assert(per == memory_map_room(mmap_size, desc_size));
    let mut total: u128 = 0;
    let mut k: usize = 0;
    proof {
        lemma_regions_room_monotone(rs, 0, n, mmap_size, desc_size);
    }
    while k < regions.len()
        invariant
            k <= n,
            n == regions@.len(),
            rs == regions.deep_view(),
            desc_size > 0,
            per == memory_map_room(mmap_size, desc_size),
            per >= 128,
            total == regions_room(rs, k as int, mmap_size, desc_size),
            total <= u64::MAX,
        decreases n - k,
    {
        let steps = (regions[k].len() / 8) as u128;
        assert(rs[k as int].len() == regions@[k as int]@.len());
        proof {
            lemma_regions_room_monotone(rs, k + 1, n, mmap_size, desc_size);
        }
        if steps > 0 && per > u64::MAX as u128 {
            assert(steps * per >= per) by (nonlinear_arith)
                requires
                    steps >= 1,
                    per >= 0,
            ;
            return false;
        }
        assert(steps * per <= 0x2000_0000_0000_0000 * 0x1_0000_0000_0000_0000) by (nonlinear_arith)
            requires
                steps <= 0x2000_0000_0000_0000,
                steps == 0 || per <= 0x1_0000_0000_0000_0000,
                per >= 0,
        ;
        let more: u128 = steps * per;
        assert(steps == rs[k as int].len() as int / 8);
        assert(more == scan_room(rs[k as int].len() as int, mmap_size, desc_size));
        total = total + more;
        if total > u64::MAX as u128 {
            return false;
        }
        k = k + 1;
    }
    (offset as u128) + total <= usize::MAX as u128 && (base as u128) + (offset as u128) + total <= u64::MAX as u128
}

} // verus!
