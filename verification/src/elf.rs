//! Loading an ELF kernel: reading its headers, placing its loadable
//! segments in physical pages, and resolving its relative relocations.
//!
//! The kernel file is read as bytes. What the loader decides (which pages to
//! allocate, what to zero, what to copy where, which words to patch) is
//! returned as a plan that the caller carries out on physical memory.
use vstd::prelude::*;
use crate::bytes::{le16, le32, le64, read_u16, read_u32, read_u64, bytes_value, lemma_le_values};
use crate::firmware::{Firmware, FirmwareInterface, FirmwareRequest};
use crate::segment_mapping::{SegmentMapping, covers, physical_from, lookup_fits, virtual_to_physical_address};
use crate::paging::mappings_fit;

verus! {

pub const ELF_MAGIC: u32 = 0x464C457F;
pub const EI_CLASS: usize = 4;
pub const ELFCLASS32: u8 = 1;
pub const ELFCLASS64: u8 = 2;
pub const PT_LOAD: u32 = 1;
pub const SHT_RELA: u32 = 4;
pub const ELF_R_RELATIVE: u32 = 8;
pub const PAGE_SIZE: u64 = 0x1000;
pub const PAGE_OFFSET_MASK: u64 = 0xFFF;
/// The most segment mappings the loader keeps.
pub const MAX_MAPPINGS: usize = 16;

/// Why an image cannot be loaded. The loader stops the machine on any of
/// them, as it does on a failed firmware call.
#[derive(Copy, Clone, Debug, PartialEq, Eq, Structural)]
pub enum ElfError {
    /// The image does not start with the ELF magic.
    BadMagic,
    /// The image is neither 32- nor 64-bit.
    UnsupportedClass,
    /// A header, segment or relocation lies past the end of the file.
    Truncated,
    /// An address or size computation would leave 64 bits.
    Overflow,
    /// The firmware could not extend a mapping in place.
    NoRoomToExtend,
    /// More than `MAX_MAPPINGS` mappings would be needed.
    TooManyMappings,
}

/// What the ELF header tells the loader.
#[derive(Copy, Clone)]
pub struct ElfHeader {
    pub class: u8,
    pub entry: u64,
    pub phoff: u64,
    pub phentsize: u16,
    pub phnum: u16,
    pub shoff: u64,
    pub shentsize: u16,
    pub shnum: u16,
}

/// The size of the ELF header of a class.
pub open spec fn header_size(class: u8) -> int {
    if class == ELFCLASS64 {
        64
    } else {
        52
    }
}

/// The ELF header of a 64-bit (class 2) or 32-bit image, as read from its bytes.
pub open spec fn spec_header(s: Seq<u8>) -> ElfHeader {
    let class = s[EI_CLASS as int];
    if class == ELFCLASS64 {
        ElfHeader {
            class,
            entry: le64(s, 24),
            phoff: le64(s, 32),
            phentsize: le16(s, 54),
            phnum: le16(s, 56),
            shoff: le64(s, 40),
            shentsize: le16(s, 58),
            shnum: le16(s, 60),
        }
    } else {
        ElfHeader {
            class,
            entry: le32(s, 24) as u64,
            phoff: le32(s, 28) as u64,
            phentsize: le16(s, 42),
            phnum: le16(s, 44),
            shoff: 0,
            shentsize: 0,
            shnum: 0,
        }
    }
}

/// What reading the ELF header gives: the header, or why the image is refused.
pub open spec fn header_result(s: Seq<u8>) -> Result<ElfHeader, ElfError> {
    if s.len() < 4 {
        Err(ElfError::Truncated)
    } else if le32(s, 0) != ELF_MAGIC {
        Err(ElfError::BadMagic)
    } else if s.len() < 5 {
        Err(ElfError::Truncated)
    } else if s[EI_CLASS as int] != ELFCLASS64 && s[EI_CLASS as int] != ELFCLASS32 {
        Err(ElfError::UnsupportedClass)
    } else if s.len() < header_size(s[EI_CLASS as int]) {
        Err(ElfError::Truncated)
    } else {
        Ok(spec_header(s))
    }
}

/// Reads the ELF header: the image must start with the ELF magic and be of
/// class 32 or 64.
pub fn parse_header(kernel: &[u8]) -> (r: Result<ElfHeader, ElfError>)
    ensures
        r == header_result(kernel@),
{
    if kernel.len() < 4 {
        return Err(ElfError::Truncated);
    }
    if read_u32(kernel, 0) != ELF_MAGIC {
        return Err(ElfError::BadMagic);
    }
    if kernel.len() < 5 {
        return Err(ElfError::Truncated);
    }
    let class = kernel[EI_CLASS];
    if class != ELFCLASS64 && class != ELFCLASS32 {
        return Err(ElfError::UnsupportedClass);
    }
    if class == ELFCLASS64 {
        if kernel.len() < 64 {
            return Err(ElfError::Truncated);
        }
        Ok(
            ElfHeader {
                class,
                entry: read_u64(kernel, 24),
                phoff: read_u64(kernel, 32),
                phentsize: read_u16(kernel, 54),
                phnum: read_u16(kernel, 56),
                shoff: read_u64(kernel, 40),
                shentsize: read_u16(kernel, 58),
                shnum: read_u16(kernel, 60),
            },
        )
    } else {
        if kernel.len() < 52 {
            return Err(ElfError::Truncated);
        }
        Ok(
            ElfHeader {
                class,
                entry: read_u32(kernel, 24) as u64,
                phoff: read_u32(kernel, 28) as u64,
                phentsize: read_u16(kernel, 42),
                phnum: read_u16(kernel, 44),
                shoff: 0,
                shentsize: 0,
                shnum: 0,
            },
        )
    }
}

/// The image is accepted exactly when it starts with the bytes 0x7F 'E' 'L'
/// 'F', its class byte (offset 4) is 1 or 2, and it holds the whole ELF
/// header (52 bytes for class 1, 64 for class 2); the header's fields are
/// then read where the ELF specification puts them, little-endian: for
/// class 2, e_entry at 24, e_phoff at 32, e_shoff at 40 (8 bytes each),
/// e_phentsize at 54, e_phnum at 56, e_shentsize at 58, e_shnum at 60 (2
/// bytes each); for class 1, e_entry at 24 and e_phoff at 28 (4 bytes each),
/// e_phentsize at 42 and e_phnum at 44, and no section table is read.
pub proof fn lemma_elf_header_layout(s: Seq<u8>)
    ensures
        header_result(s) is Ok <==> {
            &&& s.len() >= 52
            &&& s[0] == 0x7F && s[1] == 0x45 && s[2] == 0x4C && s[3] == 0x46
            &&& (s[4] == 1 || s[4] == 2)
            &&& s[4] == 2 ==> s.len() >= 64
        },
        header_result(s) matches Ok(h) ==> {
            &&& h.class == s[4]
            &&& h.entry == bytes_value(s, 24, if s[4] == 2 { 8 } else { 4 })
            &&& h.phoff == bytes_value(s, if s[4] == 2 { 32 } else { 28 }, if s[4] == 2 { 8 } else { 4 })
            &&& h.phentsize == bytes_value(s, if s[4] == 2 { 54 } else { 42 }, 2)
            &&& h.phnum == bytes_value(s, if s[4] == 2 { 56 } else { 44 }, 2)
            &&& s[4] == 2 ==> h.shoff == bytes_value(s, 40, 8) && h.shentsize == bytes_value(s, 58, 2)
                && h.shnum == bytes_value(s, 60, 2)
            &&& s[4] == 1 ==> h.shoff == 0 && h.shentsize == 0 && h.shnum == 0
        },
{
    lemma_le_values(s, 0);
    lemma_le_values(s, 24);
    lemma_le_values(s, 28);
    lemma_le_values(s, 32);
    lemma_le_values(s, 40);
    lemma_le_values(s, 42);
    lemma_le_values(s, 44);
    lemma_le_values(s, 54);
    lemma_le_values(s, 56);
    lemma_le_values(s, 58);
    lemma_le_values(s, 60);
    reveal_with_fuel(bytes_value, 5);
}

/// A program header, its 32-bit fields widened.
#[derive(Copy, Clone)]
pub struct ProgramHeader {
    pub p_type: u32,
    pub p_offset: u64,
    pub p_vaddr: u64,
    pub p_paddr: u64,
    pub p_filesz: u64,
    pub p_memsz: u64,
}

/// The size of a program header of a class.
pub open spec fn ph_size(class: u8) -> int {
    if class == ELFCLASS64 {
        56
    } else {
        32
    }
}

/// Where program header `i` starts in the file.
pub open spec fn ph_start(h: ElfHeader, i: int) -> int {
    h.phoff + i * h.phentsize
}

/// Program header `i`, read from the file.
pub open spec fn spec_program_header(s: Seq<u8>, h: ElfHeader, i: int) -> ProgramHeader {
    let a = ph_start(h, i);
    if h.class == ELFCLASS64 {
        ProgramHeader {
            p_type: le32(s, a),
            p_offset: le64(s, a + 8),
            p_vaddr: le64(s, a + 16),
            p_paddr: le64(s, a + 24),
            p_filesz: le64(s, a + 32),
            p_memsz: le64(s, a + 40),
        }
    } else {
        ProgramHeader {
            p_type: le32(s, a),
            p_offset: le32(s, a + 4) as u64,
            p_vaddr: le32(s, a + 8) as u64,
            p_paddr: le32(s, a + 12) as u64,
            p_filesz: le32(s, a + 16) as u64,
            p_memsz: le32(s, a + 20) as u64,
        }
    }
}

/// Program header `i` is read from `e_phoff + i * e_phentsize` with the
/// ELF layout of its class, little-endian: for class 2, p_type at +0,
/// p_offset at +8, p_vaddr at +16, p_paddr at +24, p_filesz at +32 and
/// p_memsz at +40 (8 bytes each but p_type); for class 1, p_type, p_offset,
/// p_vaddr, p_paddr, p_filesz and p_memsz at +0, +4, +8, +12, +16 and +20
/// (4 bytes each).
pub proof fn lemma_program_header_layout(s: Seq<u8>, h: ElfHeader, i: int)
    ensures
        ({
            let a = h.phoff + i * h.phentsize;
            let ph = spec_program_header(s, h, i);
            &&& ph.p_type == bytes_value(s, a, 4)
            &&& h.class == 2 ==> {
                &&& ph.p_offset == bytes_value(s, a + 8, 8)
                &&& ph.p_vaddr == bytes_value(s, a + 16, 8)
                &&& ph.p_paddr == bytes_value(s, a + 24, 8)
                &&& ph.p_filesz == bytes_value(s, a + 32, 8)
                &&& ph.p_memsz == bytes_value(s, a + 40, 8)
            }
            &&& h.class != 2 ==> {
                &&& ph.p_offset == bytes_value(s, a + 4, 4)
                &&& ph.p_vaddr == bytes_value(s, a + 8, 4)
                &&& ph.p_paddr == bytes_value(s, a + 12, 4)
                &&& ph.p_filesz == bytes_value(s, a + 16, 4)
                &&& ph.p_memsz == bytes_value(s, a + 20, 4)
            }
        }),
{
    let a = h.phoff + i * h.phentsize;
    lemma_le_values(s, a);
    lemma_le_values(s, a + 4);
    lemma_le_values(s, a + 8);
    lemma_le_values(s, a + 12);
    lemma_le_values(s, a + 16);
    lemma_le_values(s, a + 20);
    lemma_le_values(s, a + 24);
    lemma_le_values(s, a + 32);
    lemma_le_values(s, a + 40);
}

/// A segment the loader places: `PT_LOAD` with a non-empty memory image.
pub open spec fn is_loadable(ph: ProgramHeader) -> bool {
    ph.p_type == PT_LOAD && ph.p_memsz != 0
}

/// Program header `i` lies within the file, and so do the file bytes of the
/// segment it describes if that segment is loaded.
pub open spec fn ph_readable(s: Seq<u8>, h: ElfHeader, i: int) -> bool {
    &&& ph_start(h, i) + ph_size(h.class) <= s.len()
    &&& is_loadable(spec_program_header(s, h, i)) ==> spec_program_header(s, h, i).p_offset
        + spec_program_header(s, h, i).p_filesz <= s.len()
}

/// The loadable segments among the first `n` program headers, in order.
pub open spec fn loadable_upto(s: Seq<u8>, h: ElfHeader, n: int) -> Seq<ProgramHeader>
    decreases n,
{
    if n <= 0 {
        Seq::empty()
    } else if is_loadable(spec_program_header(s, h, n - 1)) {
        loadable_upto(s, h, n - 1).push(spec_program_header(s, h, n - 1))
    } else {
        loadable_upto(s, h, n - 1)
    }
}

/// The segments the loader places among the first `n` program headers are
/// exactly those of type 1 (PT_LOAD) with a nonempty memory image: each one
/// listed is such a header, each such header is listed, and there are no
/// more of them than headers.
pub proof fn lemma_loadable_segments(s: Seq<u8>, h: ElfHeader, n: int)
    ensures
        loadable_upto(s, h, n).len() <= if n < 0 { 0 } else { n },
        forall|k: int|
            0 <= k < loadable_upto(s, h, n).len() ==> (#[trigger] loadable_upto(s, h, n)[k]).p_type
                == 1 && loadable_upto(s, h, n)[k].p_memsz != 0,
        forall|i: int|
            0 <= i < n && (#[trigger] spec_program_header(s, h, i)).p_type == 1
                && spec_program_header(s, h, i).p_memsz != 0 ==> loadable_upto(s, h, n).contains(
                spec_program_header(s, h, i),
            ),
    decreases n,
{
    if n > 0 {
        lemma_loadable_segments(s, h, n - 1);
        let prev = loadable_upto(s, h, n - 1);
        let ph = spec_program_header(s, h, n - 1);
        assert forall|i: int|
            0 <= i < n && (#[trigger] spec_program_header(s, h, i)).p_type == 1
                && spec_program_header(s, h, i).p_memsz != 0 implies loadable_upto(s, h, n).contains(
            spec_program_header(s, h, i),
        ) by {
            if i < n - 1 {
                assert(prev.contains(spec_program_header(s, h, i)));
                if is_loadable(ph) {
                    let k = choose|k: int| 0 <= k < prev.len() && prev[k] == spec_program_header(s, h, i);
                    assert(prev.push(ph)[k] == spec_program_header(s, h, i));
                }
            } else {
                assert(loadable_upto(s, h, n) == prev.push(ph));
                assert(prev.push(ph)[prev.len() as int] == ph);
            }
        }
    }
}

/// Every program header, and every loadable segment's file bytes, lie within the file.
pub open spec fn program_headers_readable(s: Seq<u8>, h: ElfHeader) -> bool {
    forall|i: int| 0 <= i < h.phnum ==> #[trigger] ph_readable(s, h, i)
}

/// The product of two 16-bit values fits in 32 bits.
proof fn lemma_u16_product(a: u16, b: u16)
    ensures
        0 <= (a as int) * (b as int) <= 0xFFFF * 0xFFFF,
{
    assert(0 <= (a as int) * (b as int) <= 0xFFFF * 0xFFFF) by (nonlinear_arith)
        requires
            0 <= a <= 0xFFFF,
            0 <= b <= 0xFFFF,
    ;
}

/// Reads program header `i`.
fn read_program_header(kernel: &[u8], h: &ElfHeader, i: u16) -> (ph: ProgramHeader)
    requires
        ph_start(*h, i as int) + ph_size(h.class) <= kernel@.len(),
    ensures
        ph == spec_program_header(kernel@, *h, i as int),
{
    proof {
        lemma_u16_product(i, h.phentsize);
    }
    let start = (h.phoff as u128) + (i as u128) * (h.phentsize as u128);
    assert(start as int == ph_start(*h, i as int));
    let a = start as usize;
    assert(a as int + ph_size(h.class) <= kernel.len());
    if h.class == ELFCLASS64 {
        ProgramHeader {
            p_type: read_u32(kernel, a),
            p_offset: read_u64(kernel, a + 8),
            p_vaddr: read_u64(kernel, a + 16),
            p_paddr: read_u64(kernel, a + 24),
            p_filesz: read_u64(kernel, a + 32),
            p_memsz: read_u64(kernel, a + 40),
        }
    } else {
        ProgramHeader {
            p_type: read_u32(kernel, a),
            p_offset: read_u32(kernel, a + 4) as u64,
            p_vaddr: read_u32(kernel, a + 8) as u64,
            p_paddr: read_u32(kernel, a + 12) as u64,
            p_filesz: read_u32(kernel, a + 16) as u64,
            p_memsz: read_u32(kernel, a + 20) as u64,
        }
    }
}

/// The loadable segments of the image, in program-header order; `Truncated`
/// when a program header or a loadable segment's bytes lie past the end of
/// the file.
pub fn loadable_segments(kernel: &[u8], h: &ElfHeader) -> (r: Result<Vec<ProgramHeader>, ElfError>)
    ensures
        match r {
            Ok(v) => program_headers_readable(kernel@, *h) && v@ == loadable_upto(
                kernel@,
                *h,
                h.phnum as int,
            ),
            Err(e) => !program_headers_readable(kernel@, *h) && e == ElfError::Truncated,
        },
{
    let mut out: Vec<ProgramHeader> = Vec::new();
    let mut i: u16 = 0;
    while i < h.phnum
        invariant
            i <= h.phnum,
            out@ == loadable_upto(kernel@, *h, i as int),
            forall|j: int| 0 <= j < i ==> #[trigger] ph_readable(kernel@, *h, j),
        decreases h.phnum - i,
    {
        proof {
            lemma_u16_product(i, h.phentsize);
        }
        let start = (h.phoff as u128) + (i as u128) * (h.phentsize as u128);
        let size: u128 = if h.class == ELFCLASS64 {
            56
        } else {
            32
        };
        if start + size > kernel.len() as u128 {
            assert(!ph_readable(kernel@, *h, i as int));
            return Err(ElfError::Truncated);
        }
        let ph = read_program_header(kernel, h, i);
        if ph.p_type == PT_LOAD && ph.p_memsz != 0 {
            if (ph.p_offset as u128) + (ph.p_filesz as u128) > kernel.len() as u128 {
                assert(!ph_readable(kernel@, *h, i as int));
                return Err(ElfError::Truncated);
            }
            out.push(ph);
        }
        i = i + 1;
    }
    Ok(out)
}

/// The value of `a & !0xFFF`: `a` rounded down to its page.
pub open spec fn page_base(a: u64) -> int {
    a - a % 0x1000
}

/// The number of pages a segment spans from the start of its first page.
pub open spec fn page_count(ph: ProgramHeader) -> int {
    (ph.p_vaddr % 0x1000 + ph.p_memsz + 0xFFF) / 0x1000
}

/// The segment's page arithmetic stays within 64 bits and its page count in a `usize`.
pub open spec fn geometry_fits(ph: ProgramHeader) -> bool {
    &&& ph.p_vaddr + ph.p_memsz + 0xFFF < 0x1_0000_0000_0000_0000
    &&& page_count(ph) <= usize::MAX
}

/// A mapping the loader keeps: page aligned, with its virtual and physical
/// ends below 2^64.
pub open spec fn mapping_ok(m: SegmentMapping) -> bool {
    &&& m.virtual_page_base % 0x1000 == 0
    &&& m.virtual_page_base + m.pages * 0x1000 < 0x1_0000_0000_0000_0000
    &&& m.physical_base_address + m.pages * 0x1000 < 0x1_0000_0000_0000_0000
}

/// The mappings the loader keeps: at most `MAX_MAPPINGS`, each `mapping_ok`.
pub open spec fn mappings_ok(ms: Seq<SegmentMapping>) -> bool {
    &&& ms.len() <= MAX_MAPPINGS
    &&& forall|j: int| 0 <= j < ms.len() ==> mapping_ok(#[trigger] ms[j])
}

/// The first mapping from `i` on that covers `va`; `ms.len()` when none does.
pub open spec fn cover_index(ms: Seq<SegmentMapping>, va: int, i: int) -> int
    decreases ms.len() - i,
{
    if i < 0 || i >= ms.len() {
        ms.len() as int
    } else if covers(ms[i], va) {
        i
    } else {
        cover_index(ms, va, i + 1)
    }
}

/// Where a segment goes.
#[derive(Copy, Clone)]
pub enum Placement {
    /// Within mapping `index`; the segment's first page is at physical `dest`.
    Inside { index: usize, dest: u64 },
    /// Starts within mapping `index` (first page at `dest`) and runs past its
    /// end: `additional` pages are to be added in place at physical `at`.
    Extend { index: usize, dest: u64, at: u64, additional: usize },
    /// In no mapping: fresh pages, preferably at `preferred` when it is not 0.
    Fresh { preferred: u64 },
}

/// How a segment is laid out in pages, and where it goes.
#[derive(Copy, Clone)]
pub struct SegmentPlan {
    pub virtual_page_base: u64,
    pub page_offset: u64,
    pub pages: usize,
    pub placement: Placement,
}

/// The plan for a segment, given the mappings made so far: the page that
/// holds its start, its offset in that page and its page count; then the
/// first mapping that holds its first page, extended in place when the
/// segment runs past its end, or else a fresh mapping at the page of its
/// physical address.
pub open spec fn spec_plan(ph: ProgramHeader, ms: Seq<SegmentMapping>) -> Result<SegmentPlan, ElfError> {
    if !geometry_fits(ph) {
        Err(ElfError::Overflow)
    } else {
        let vpb = page_base(ph.p_vaddr);
        let pages = page_count(ph);
        let j = cover_index(ms, vpb, 0);
        let base = |placement: Placement|
            SegmentPlan {
                virtual_page_base: vpb as u64,
                page_offset: (ph.p_vaddr % 0x1000) as u64,
                pages: pages as usize,
                placement,
            };
        if j < ms.len() {
            let m = ms[j];
            let dest = (m.physical_base_address + (vpb - m.virtual_page_base)) as u64;
            let seg_end = vpb + pages * 0x1000;
            let m_end = m.virtual_page_base + m.pages * 0x1000;
            if seg_end > m_end {
                let additional = (seg_end - m_end) / 0x1000;
                if m.pages + additional > usize::MAX || m.physical_base_address + (m.pages
                    + additional) * 0x1000 >= 0x1_0000_0000_0000_0000 {
                    Err(ElfError::Overflow)
                } else {
                    Ok(
                        base(
                            Placement::Extend {
                                index: j as usize,
                                dest,
                                at: (m.physical_base_address + m.pages * 0x1000) as u64,
                                additional: additional as usize,
                            },
                        ),
                    )
                }
            } else {
                Ok(base(Placement::Inside { index: j as usize, dest }))
            }
        } else if ms.len() >= MAX_MAPPINGS {
            Err(ElfError::TooManyMappings)
        } else {
            Ok(base(Placement::Fresh { preferred: page_base(ph.p_paddr) as u64 }))
        }
    }
}

/// Rounding to pages with the mask, as the loader computes it.
proof fn lemma_page_mask(a: u64)
    ensures
        a & 0xFFF == a % 0x1000,
        a & !0xFFFu64 == a - a % 0x1000,
{
    assert(a & 0xFFF == a % 0x1000) by (bit_vector);
    assert(a & !0xFFFu64 == a - a % 0x1000) by (bit_vector);
}

/// The pages of a segment reach no further than its last byte's page.
proof fn lemma_page_count(off: int, memsz: int)
    requires
        0 <= off < 0x1000,
        0 <= memsz,
    ensures
        (off + memsz + 0xFFF) / 0x1000 * 0x1000 <= off + memsz + 0xFFF,
        off + memsz <= (off + memsz + 0xFFF) / 0x1000 * 0x1000,
{
    let n = off + memsz + 0xFFF;
    assert(n / 0x1000 * 0x1000 <= n && n < n / 0x1000 * 0x1000 + 0x1000) by (nonlinear_arith)
        requires
            n >= 0,
    ;
}

/// What the first covering mapping is.
proof fn lemma_cover_index(ms: Seq<SegmentMapping>, va: int, i: int)
    requires
        0 <= i <= ms.len(),
    ensures
        i <= cover_index(ms, va, i) <= ms.len(),
        cover_index(ms, va, i) < ms.len() ==> covers(ms[cover_index(ms, va, i)], va),
        forall|k: int| i <= k < cover_index(ms, va, i) ==> !covers(#[trigger] ms[k], va),
    decreases ms.len() - i,
{
    if i < ms.len() && !covers(ms[i], va) {
        lemma_cover_index(ms, va, i + 1);
    }
}

/// The index of the first mapping that covers `va`; `mappings.len()` when none does.
fn find_cover(mappings: &[SegmentMapping], va: u64) -> (j: usize)
    requires
        mappings_ok(mappings@),
    ensures
        j == cover_index(mappings@, va as int, 0),
{
    let mut j: usize = 0;
    while j < mappings.len()
        invariant
            j <= mappings@.len(),
            mappings_ok(mappings@),
            cover_index(mappings@, va as int, 0) == cover_index(mappings@, va as int, j as int),
        decreases mappings@.len() - j,
    {
        let m = mappings[j];
        assert(mapping_ok(mappings@[j as int]));
        if va >= m.virtual_page_base && va < m.virtual_page_base + m.pages as u64 * PAGE_SIZE {
            return j;
        }
        j = j + 1;
    }
    j
}

/// Plans where a segment goes among the mappings made so far.
pub fn segment_plan(ph: &ProgramHeader, mappings: &[SegmentMapping]) -> (r: Result<SegmentPlan, ElfError>)
    requires
        mappings_ok(mappings@),
    ensures
        r == spec_plan(*ph, mappings@),
{
    if (ph.p_vaddr as u128) + (ph.p_memsz as u128) + 0xFFF >= 0x1_0000_0000_0000_0000 {
        return Err(ElfError::Overflow);
    }
    let page_offset = ph.p_vaddr & PAGE_OFFSET_MASK;
    let virtual_page_base = ph.p_vaddr & !PAGE_OFFSET_MASK;
    proof {
        lemma_page_mask(ph.p_vaddr);
        lemma_page_count(page_offset as int, ph.p_memsz as int);
    }
    let pages64 = (page_offset + ph.p_memsz + PAGE_OFFSET_MASK) / PAGE_SIZE;
    if pages64 > usize::MAX as u64 {
        return Err(ElfError::Overflow);
    }
    let pages = pages64 as usize;
    let j = find_cover(mappings, virtual_page_base);
    proof {
        lemma_cover_index(mappings@, virtual_page_base as int, 0);
    }
    if j < mappings.len() {
        let m = mappings[j];
        assert(mapping_ok(mappings@[j as int]));
        let dest = m.physical_base_address + (virtual_page_base - m.virtual_page_base);
        let segment_end = virtual_page_base + pages as u64 * PAGE_SIZE;
        let existing_end = m.virtual_page_base + m.pages as u64 * PAGE_SIZE;
        if segment_end > existing_end {
            let additional64 = (segment_end - existing_end) / PAGE_SIZE;
            if additional64 > usize::MAX as u64 || (m.pages as u64) > usize::MAX as u64
                - additional64 {
                return Err(ElfError::Overflow);
            }
            let total = m.pages as u128 + additional64 as u128;
            if (m.physical_base_address as u128) + total * 0x1000 >= 0x1_0000_0000_0000_0000 {
                return Err(ElfError::Overflow);
            }
            let additional = additional64 as usize;
            let placement = Placement::Extend {
                index: j,
                dest,
                at: m.physical_base_address + m.pages as u64 * PAGE_SIZE,
                additional,
            };
            Ok(SegmentPlan { virtual_page_base, page_offset, pages, placement })
        } else {
            let placement = Placement::Inside { index: j, dest };
            Ok(SegmentPlan { virtual_page_base, page_offset, pages, placement })
        }
    } else if mappings.len() >= MAX_MAPPINGS {
        Err(ElfError::TooManyMappings)
    } else {
        let preferred = ph.p_paddr & !PAGE_OFFSET_MASK;
        proof {
            lemma_page_mask(ph.p_paddr);
        }
        let placement = Placement::Fresh { preferred };
        Ok(SegmentPlan { virtual_page_base, page_offset, pages, placement })
    }
}

/// A step of placing the image in physical memory, carried out in order by
/// whoever owns that memory.
#[derive(Copy, Clone, Debug, PartialEq, Eq, Structural)]
pub enum LoadStep {
    /// Fill `pages` 4 KiB pages at physical `address` with zeros.
    Zero { address: u64, pages: usize },
    /// Copy `length` bytes of the image, from `file_offset`, to physical `address`.
    Copy { file_offset: u64, address: u64, length: u64 },
}

/// The copy of a segment's file bytes to the physical page `dest` of its first page.
pub open spec fn copy_step(ph: ProgramHeader, plan: SegmentPlan, dest: u64) -> LoadStep {
    LoadStep::Copy {
        file_offset: ph.p_offset,
        address: (dest + plan.page_offset) as u64,
        length: ph.p_filesz,
    }
}

/// The mappings and steps a planned segment leads to, given what the
/// firmware answered: `granted` tells whether the in-place extension was
/// granted, `address` is where the pages it handed out start. A segment
/// inside a mapping is copied there; an extended mapping grows by the pages
/// granted, which are zeroed; a fresh mapping is added for the pages handed
/// out, which are zeroed, unless they end beyond 2^64.
pub open spec fn spec_commit(
    ms: Seq<SegmentMapping>,
    ph: ProgramHeader,
    plan: SegmentPlan,
    granted: bool,
    address: u64,
) -> Result<(Seq<SegmentMapping>, Seq<LoadStep>), ElfError> {
    match plan.placement {
        Placement::Inside { index, dest } => Ok((ms, seq![copy_step(ph, plan, dest)])),
        Placement::Extend { index, dest, at, additional } => {
            if !granted {
                Err(ElfError::NoRoomToExtend)
            } else {
                let m = ms[index as int];
                let grown = SegmentMapping {
                    virtual_page_base: m.virtual_page_base,
                    physical_base_address: m.physical_base_address,
                    pages: (m.pages + additional) as usize,
                };
                Ok(
                    (
                        ms.update(index as int, grown),
                        seq![LoadStep::Zero { address, pages: additional }, copy_step(ph, plan, dest)],
                    ),
                )
            }
        },
        Placement::Fresh { preferred } => {
            if address + plan.pages * 0x1000 >= 0x1_0000_0000_0000_0000 {
                Err(ElfError::Overflow)
            } else {
                let fresh = SegmentMapping {
                    virtual_page_base: plan.virtual_page_base,
                    physical_base_address: address,
                    pages: plan.pages,
                };
                Ok(
                    (
                        ms.push(fresh),
                        seq![LoadStep::Zero { address, pages: plan.pages }, copy_step(ph, plan, address)],
                    ),
                )
            }
        },
    }
}

/// The mappings and steps one segment leads to, given the firmware's answer.
pub open spec fn segment_outcome(
    ms: Seq<SegmentMapping>,
    ph: ProgramHeader,
    granted: bool,
    address: u64,
) -> Result<(Seq<SegmentMapping>, Seq<LoadStep>), ElfError> {
    match spec_plan(ph, ms) {
        Ok(plan) => spec_commit(ms, ph, plan, granted, address),
        Err(e) => Err(e),
    }
}

/// The address lookup uses the first mapping that covers the address.
proof fn lemma_physical_from_cover(ms: Seq<SegmentMapping>, va: u64, i: int)
    requires
        0 <= i <= ms.len(),
    ensures
        physical_from(ms, va, i) == if cover_index(ms, va as int, i) < ms.len() {
            ms[cover_index(ms, va as int, i)].physical_base_address + (va - ms[cover_index(
                ms,
                va as int,
                i,
            )].virtual_page_base)
        } else {
            0
        },
    decreases ms.len() - i,
{
    if i < ms.len() && !covers(ms[i], va as int) {
        lemma_physical_from_cover(ms, va, i + 1);
    }
}

/// A page-aligned mapping covers an address exactly when it covers the
/// address's page.
proof fn lemma_covers_page(m: SegmentMapping, va: int)
    requires
        m.virtual_page_base % 0x1000 == 0,
        0 <= va,
    ensures
        covers(m, va) == covers(m, va - va % 0x1000),
{
    let q = m.virtual_page_base / 0x1000;
    assert(m.virtual_page_base == 0x1000 * q);
    let r = va / 0x1000;
    assert(va == 0x1000 * r + va % 0x1000);
}

/// Among page-aligned mappings, an address and its page have the same
/// first covering mapping.
proof fn lemma_cover_index_page(ms: Seq<SegmentMapping>, va: int, i: int)
    requires
        mappings_ok(ms),
        0 <= i <= ms.len(),
        0 <= va,
    ensures
        cover_index(ms, va, i) == cover_index(ms, va - va % 0x1000, i),
    decreases ms.len() - i,
{
    if i < ms.len() {
        assert(mapping_ok(ms[i]));
        lemma_covers_page(ms[i], va);
        lemma_cover_index_page(ms, va, i + 1);
    }
}

/// Some mapping of `ms` covers `va`.
pub open spec fn covered(ms: Seq<SegmentMapping>, va: int) -> bool {
    exists|k: int| 0 <= k < ms.len() && #[trigger] covers(ms[k], va)
}

/// A loadable segment placed without error is mapped in full, and its file
/// bytes go where its first byte is mapped: every address from `p_vaddr` up to
/// `p_vaddr + p_memsz` is covered by one of the resulting mappings, and the
/// segment's last step copies `p_filesz` bytes from `p_offset` to the
/// physical address the resulting mappings give `p_vaddr`.
pub proof fn lemma_segment_placed(
    ms: Seq<SegmentMapping>,
    ph: ProgramHeader,
    granted: bool,
    address: u64,
)
    requires
        mappings_ok(ms),
        is_loadable(ph),
        segment_outcome(ms, ph, granted, address) is Ok,
    ensures
        ({
            let ms2 = segment_outcome(ms, ph, granted, address)->Ok_0.0;
            let steps = segment_outcome(ms, ph, granted, address)->Ok_0.1;
            &&& forall|va: int|
                ph.p_vaddr <= va < ph.p_vaddr + ph.p_memsz ==> #[trigger] covered(ms2, va)
            &&& steps.len() >= 1
            &&& steps.last() == LoadStep::Copy {
                file_offset: ph.p_offset,
                address: physical_from(ms2, ph.p_vaddr, 0) as u64,
                length: ph.p_filesz,
            }
        }),
{
    let plan = spec_plan(ph, ms)->Ok_0;
    let vpb = page_base(ph.p_vaddr);
    let off = ph.p_vaddr % 0x1000;
    let pages = page_count(ph);
    lemma_page_count(off as int, ph.p_memsz as int);
    assert(vpb + pages * 0x1000 >= ph.p_vaddr + ph.p_memsz);
    lemma_cover_index(ms, vpb, 0);
    lemma_cover_index_page(ms, ph.p_vaddr as int, 0);
    let j = cover_index(ms, vpb, 0);
    let ms2 = segment_outcome(ms, ph, granted, address)->Ok_0.0;
    let steps = segment_outcome(ms, ph, granted, address)->Ok_0.1;
    match plan.placement {
        Placement::Inside { index, dest } => {
            assert(j < ms.len());
            assert(ms2 == ms);
            let m = ms[j];
            assert(mapping_ok(m));
            assert forall|va: int| ph.p_vaddr <= va < ph.p_vaddr + ph.p_memsz implies covered(ms2, va) by {
                assert(covers(ms2[j], va));
            }
            lemma_physical_from_cover(ms2, ph.p_vaddr, 0);
        },
        Placement::Extend { index, dest, at, additional } => {
            assert(j < ms.len());
            let m = ms[j];
            assert(mapping_ok(m));
            let grown = ms2[j];
            let seg_end = vpb + pages * 0x1000;
            let m_end = m.virtual_page_base + m.pages * 0x1000;
            assert(vpb % 0x1000 == 0);
            assert((seg_end - m_end) % 0x1000 == 0) by {
                let a = vpb / 0x1000;
                let b = m.virtual_page_base / 0x1000;
                assert(vpb == 0x1000 * a);
                assert(m.virtual_page_base == 0x1000 * b);
                assert(seg_end - m_end == 0x1000 * (a + pages - b - m.pages)) by (nonlinear_arith)
                    requires
                        seg_end == vpb + pages * 0x1000,
                        m_end == m.virtual_page_base + m.pages * 0x1000,
                        vpb == 0x1000 * a,
                        m.virtual_page_base == 0x1000 * b,
                ;
            }
            assert(grown.virtual_page_base + grown.pages * 0x1000 == seg_end);
            assert forall|va: int| ph.p_vaddr <= va < ph.p_vaddr + ph.p_memsz implies covered(ms2, va) by {
                assert(covers(ms2[j], va));
            }
            assert forall|k: int| 0 <= k < j implies !covers(#[trigger] ms2[k], ph.p_vaddr as int) by {
                assert(ms2[k] == ms[k]);
                assert(!covers(ms[k], vpb));
                assert(mapping_ok(ms[k]));
                lemma_covers_page(ms[k], ph.p_vaddr as int);
            }
            assert(covers(ms2[j], ph.p_vaddr as int));
            lemma_cover_index(ms2, ph.p_vaddr as int, 0);
            assert(cover_index(ms2, ph.p_vaddr as int, 0) == j);
            lemma_physical_from_cover(ms2, ph.p_vaddr, 0);
        },
        Placement::Fresh { preferred } => {
            assert(j == ms.len());
            let k0 = ms.len() as int;
            assert(ms2 == ms.push(ms2[k0]));
            assert forall|va: int| ph.p_vaddr <= va < ph.p_vaddr + ph.p_memsz implies covered(ms2, va) by {
                assert(covers(ms2[k0], va));
            }
            assert forall|k: int| 0 <= k < k0 implies !covers(#[trigger] ms2[k], ph.p_vaddr as int) by {
                assert(ms2[k] == ms[k]);
                assert(!covers(ms[k], vpb));
                assert(mapping_ok(ms[k]));
                lemma_covers_page(ms[k], ph.p_vaddr as int);
            }
            assert(covers(ms2[k0], ph.p_vaddr as int));
            lemma_cover_index(ms2, ph.p_vaddr as int, 0);
            assert(cover_index(ms2, ph.p_vaddr as int, 0) == k0);
            lemma_physical_from_cover(ms2, ph.p_vaddr, 0);
        },
    }
}

/// The mappings and steps the segments `segs` lead to, one after the
/// other from the mappings `ms`, given the firmware's answer for each; the
/// first error stops the load.
pub open spec fn load_outcome(
    ms: Seq<SegmentMapping>,
    segs: Seq<ProgramHeader>,
    answers: Seq<(bool, u64)>,
) -> Result<(Seq<SegmentMapping>, Seq<LoadStep>), ElfError>
    decreases segs.len(),
{
    if segs.len() == 0 {
        Ok((ms, Seq::empty()))
    } else {
        match load_outcome(ms, segs.drop_last(), answers.drop_last()) {
            Ok((ms1, steps1)) => match segment_outcome(
                ms1,
                segs.last(),
                answers.last().0,
                answers.last().1,
            ) {
                Ok((ms2, steps2)) => Ok((ms2, steps1 + steps2)),
                Err(e) => Err(e),
            },
            Err(e) => Err(e),
        }
    }
}

/// The requests one segment makes of the firmware, given its answer: none
/// for a segment inside a mapping; for an extension, the pages in place at
/// the end of the mapping; for a fresh mapping, its pages at its preferred
/// address when that is not 0, and anywhere when that was refused or there is
/// no preferred address. `granted` tells whether the in-place request was
/// granted, `address` is where the pages handed out start.
pub open spec fn segment_requests(
    ms: Seq<SegmentMapping>,
    ph: ProgramHeader,
    granted: bool,
    address: u64,
) -> Seq<FirmwareRequest> {
    match spec_plan(ph, ms) {
        Err(_) => Seq::empty(),
        Ok(plan) => match plan.placement {
            Placement::Inside { .. } => Seq::empty(),
            Placement::Extend { at, additional, .. } => seq![
                FirmwareRequest::AllocatePagesAt {
                    address: at,
                    count: additional,
                    granted: if granted {
                        Some(address)
                    } else {
                        None
                    },
                },
            ],
            Placement::Fresh { preferred } => {
                if preferred == 0 {
                    seq![FirmwareRequest::AllocatePages { count: plan.pages, address }]
                } else if granted {
                    seq![
                        FirmwareRequest::AllocatePagesAt {
                            address: preferred,
                            count: plan.pages,
                            granted: Some(address),
                        },
                    ]
                } else {
                    seq![
                        FirmwareRequest::AllocatePagesAt {
                            address: preferred,
                            count: plan.pages,
                            granted: None,
                        },
                        FirmwareRequest::AllocatePages { count: plan.pages, address },
                    ]
                }
            },
        },
    }
}

/// The requests the segments `segs` make of the firmware, one after the
/// other from the mappings `ms`, given its answer for each; none after the
/// first error.
pub open spec fn load_requests(
    ms: Seq<SegmentMapping>,
    segs: Seq<ProgramHeader>,
    answers: Seq<(bool, u64)>,
) -> Seq<FirmwareRequest>
    decreases segs.len(),
{
    if segs.len() == 0 {
        Seq::empty()
    } else {
        let prev = load_requests(ms, segs.drop_last(), answers.drop_last());
        match load_outcome(ms, segs.drop_last(), answers.drop_last()) {
            Ok((ms1, _)) => prev + segment_requests(
                ms1,
                segs.last(),
                answers.last().0,
                answers.last().1,
            ),
            Err(_) => prev,
        }
    }
}

/// A step result seen as mappings and steps.
pub open spec fn steps_view(r: Result<Vec<LoadStep>, ElfError>, ms: Seq<SegmentMapping>) -> Result<
    (Seq<SegmentMapping>, Seq<LoadStep>),
    ElfError,
> {
    match r {
        Ok(v) => Ok((ms, v@)),
        Err(e) => Err(e),
    }
}

/// Two page-aligned addresses a page apart or more.
proof fn lemma_aligned_lt(a: int, b: int)
    requires
        a % 0x1000 == 0,
        b % 0x1000 == 0,
        a < b,
    ensures
        a + 0x1000 <= b,
{
    assert(a + 0x1000 <= b) by (nonlinear_arith)
        requires
            a % 0x1000 == 0,
            b % 0x1000 == 0,
            a < b,
    ;
}

/// Records a planned segment once the firmware has answered: `granted`
/// tells whether an in-place extension was granted, `address` is where the
/// pages it handed out start.
pub fn commit_segment(
    mappings: &mut Vec<SegmentMapping>,
    ph: &ProgramHeader,
    plan: &SegmentPlan,
    granted: bool,
    address: u64,
) -> (r: Result<Vec<LoadStep>, ElfError>)
    requires
        mappings_ok(old(mappings)@),
        spec_plan(*ph, old(mappings)@) == Ok::<SegmentPlan, ElfError>(*plan),
    ensures
        steps_view(r, final(mappings)@) == spec_commit(old(mappings)@, *ph, *plan, granted, address),
        r is Err ==> final(mappings)@ == old(mappings)@,
        mappings_ok(final(mappings)@),
{
    let ghost ms = mappings@;
    proof {
        lemma_page_mask(ph.p_vaddr);
        lemma_page_count((ph.p_vaddr % 0x1000) as int, ph.p_memsz as int);
        lemma_cover_index(ms, page_base(ph.p_vaddr), 0);
    }
    match plan.placement {
        Placement::Inside { index, dest } => {
            let m = mappings[index];
            assert(mapping_ok(ms[index as int]));
            proof {
                lemma_aligned_lt(plan.virtual_page_base as int, m.virtual_page_base + m.pages * 0x1000);
            }
            let mut steps = Vec::new();
            steps.push(
                LoadStep::Copy {
                    file_offset: ph.p_offset,
                    address: dest + plan.page_offset,
                    length: ph.p_filesz,
                },
            );
            assert(steps@ =~= seq![copy_step(*ph, *plan, dest)]);
            Ok(steps)
        },
        Placement::Extend { index, dest, at, additional } => {
            if !granted {
                return Err(ElfError::NoRoomToExtend);
            }
            let m = mappings[index];
            assert(mapping_ok(ms[index as int]));
            proof {
                lemma_aligned_lt(plan.virtual_page_base as int, m.virtual_page_base + m.pages * 0x1000);
            }
            let grown = SegmentMapping {
                virtual_page_base: m.virtual_page_base,
                physical_base_address: m.physical_base_address,
                pages: m.pages + additional,
            };
            mappings.set(index, grown);
            assert forall|j: int| 0 <= j < mappings@.len() implies mapping_ok(#[trigger] mappings@[j]) by {
                if j != index {
                    assert(mapping_ok(ms[j]));
                }
            }
            let mut steps = Vec::new();
            steps.push(LoadStep::Zero { address, pages: additional });
            steps.push(
                LoadStep::Copy {
                    file_offset: ph.p_offset,
                    address: dest + plan.page_offset,
                    length: ph.p_filesz,
                },
            );
            assert(steps@ =~= seq![
                LoadStep::Zero { address, pages: additional },
                copy_step(*ph, *plan, dest),
            ]);
            Ok(steps)
        },
        Placement::Fresh { preferred } => {
            if (address as u128) + (plan.pages as u128) * 0x1000 >= 0x1_0000_0000_0000_0000 {
                return Err(ElfError::Overflow);
            }
            let fresh = SegmentMapping {
                virtual_page_base: plan.virtual_page_base,
                physical_base_address: address,
                pages: plan.pages,
            };
            mappings.push(fresh);
            assert forall|j: int| 0 <= j < mappings@.len() implies mapping_ok(#[trigger] mappings@[j]) by {
                if j < ms.len() {
                    assert(mapping_ok(ms[j]));
                }
            }
            let mut steps = Vec::new();
            steps.push(LoadStep::Zero { address, pages: plan.pages });
            steps.push(
                LoadStep::Copy {
                    file_offset: ph.p_offset,
                    address: address + plan.page_offset,
                    length: ph.p_filesz,
                },
            );
            assert(steps@ =~= seq![
                LoadStep::Zero { address, pages: plan.pages },
                copy_step(*ph, *plan, address),
            ]);
            Ok(steps)
        },
    }
}

/// Places one segment: plans it, asks the firmware for the pages the plan
/// needs (in place at the end of the mapping it extends; for a fresh
/// mapping at its preferred address when that is not 0, and anywhere when
/// that is refused or there is none), and records it. The requests made and
/// the outcome are those of the firmware's answer.
fn load_segment<F: FirmwareInterface>(
    firmware: &mut Firmware<F>,
    mappings: &mut Vec<SegmentMapping>,
    ph: &ProgramHeader,
) -> (r: Result<Vec<LoadStep>, ElfError>)
    requires
        mappings_ok(old(mappings)@),
    ensures
        mappings_ok(final(mappings)@),
        r is Err ==> final(mappings)@ == old(mappings)@,
        exists|granted: bool, address: u64|
            #![trigger segment_outcome(old(mappings)@, *ph, granted, address)]
            segment_outcome(old(mappings)@, *ph, granted, address) == steps_view(
                r,
                final(mappings)@,
            ) && final(firmware).requests() == old(firmware).requests() + segment_requests(
                old(mappings)@,
                *ph,
                granted,
                address,
            ),
{
    let ghost r0 = firmware.requests();
    let plan = match segment_plan(ph, mappings.as_slice()) {
        Ok(plan) => plan,
        Err(e) => {
            assert(segment_outcome(mappings@, *ph, true, 0) == steps_view(
                Err::<Vec<LoadStep>, ElfError>(e),
                mappings@,
            ));
            assert(r0 + segment_requests(mappings@, *ph, true, 0) =~= r0);
            return Err(e);
        },
    };
    let ghost ms = mappings@;
    match plan.placement {
        Placement::Inside { .. } => {
            let r = commit_segment(mappings, ph, &plan, true, 0);
            assert(segment_outcome(ms, *ph, true, 0) == steps_view(r, mappings@));
            assert(r0 + segment_requests(ms, *ph, true, 0) =~= r0);
            r
        },
        Placement::Extend { at, additional, .. } => {
            match firmware.try_allocate_pages_at(at, additional) {
                Some(address) => {
                    let r = commit_segment(mappings, ph, &plan, true, address);
                    assert(segment_outcome(ms, *ph, true, address) == steps_view(r, mappings@));
                    assert(r0 + segment_requests(ms, *ph, true, address) =~= firmware.requests());
                    r
                },
                None => {
                    let r = commit_segment(mappings, ph, &plan, false, 0);
                    assert(segment_outcome(ms, *ph, false, 0) == steps_view(r, mappings@));
                    assert(r0 + segment_requests(ms, *ph, false, 0) =~= firmware.requests());
                    r
                },
            }
        },
        Placement::Fresh { preferred } => {
            if preferred != 0 {
                match firmware.try_allocate_pages_at(preferred, plan.pages) {
                    Some(address) => {
                        let r = commit_segment(mappings, ph, &plan, true, address);
                        assert(segment_outcome(ms, *ph, true, address) == steps_view(r, mappings@));
                        assert(r0 + segment_requests(ms, *ph, true, address) =~= firmware.requests());
                        r
                    },
                    None => {
                        let address = firmware.allocate_pages(plan.pages);
                        let r = commit_segment(mappings, ph, &plan, true, address);
                        assert(segment_outcome(ms, *ph, false, address) == steps_view(r, mappings@));
                        assert(r0 + segment_requests(ms, *ph, false, address) =~= firmware.requests());
                        r
                    },
                }
            } else {
                let address = firmware.allocate_pages(plan.pages);
                let r = commit_segment(mappings, ph, &plan, true, address);
                assert(segment_outcome(ms, *ph, true, address) == steps_view(r, mappings@));
                assert(r0 + segment_requests(ms, *ph, true, address) =~= firmware.requests());
                r
            }
        },
    }
}

/// An error partway through the segments is the error of the whole load,
/// whatever the firmware answers for the segments after it.
proof fn lemma_outcome_err_extends(
    ms: Seq<SegmentMapping>,
    segs: Seq<ProgramHeader>,
    answers: Seq<(bool, u64)>,
    k: int,
)
    requires
        0 <= k <= segs.len(),
        answers.len() == segs.len(),
        load_outcome(ms, segs.take(k), answers.take(k)) is Err,
    ensures
        load_outcome(ms, segs, answers) == load_outcome(ms, segs.take(k), answers.take(k)),
        load_requests(ms, segs, answers) == load_requests(ms, segs.take(k), answers.take(k)),
    decreases segs.len(),
{
    if k == segs.len() {
        assert(segs.take(k) =~= segs);
        assert(answers.take(k) =~= answers);
    } else {
        assert(segs.drop_last().take(k) =~= segs.take(k));
        assert(answers.drop_last().take(k) =~= answers.take(k));
        lemma_outcome_err_extends(ms, segs.drop_last(), answers.drop_last(), k);
    }
}

/// Places the loadable segments of the image, in program-header order,
/// adding to `mappings`. `Truncated` when a program header or a loadable
/// segment's file bytes lie past the end of the file; otherwise the outcome
/// is that of the segments one after the other for some answers of the
/// firmware.
fn load_segments<F: FirmwareInterface>(
    firmware: &mut Firmware<F>,
    kernel: &[u8],
    h: &ElfHeader,
    mappings: &mut Vec<SegmentMapping>,
) -> (r: Result<Vec<LoadStep>, ElfError>)
    requires
        mappings_ok(old(mappings)@),
    ensures
        mappings_ok(final(mappings)@),
        !program_headers_readable(kernel@, *h) ==> r == Err::<Vec<LoadStep>, ElfError>(
            ElfError::Truncated,
        ) && final(mappings)@ == old(mappings)@ && final(firmware).requests() == old(
            firmware,
        ).requests(),
        program_headers_readable(kernel@, *h) ==> exists|answers: Seq<(bool, u64)>|
            #![trigger load_outcome(old(mappings)@, loadable_upto(kernel@, *h, h.phnum as int), answers)]
            answers.len() == loadable_upto(kernel@, *h, h.phnum as int).len() && load_outcome(
                old(mappings)@,
                loadable_upto(kernel@, *h, h.phnum as int),
                answers,
            ) == steps_view(r, final(mappings)@) && final(firmware).requests() == old(
                firmware,
            ).requests() + load_requests(
                old(mappings)@,
                loadable_upto(kernel@, *h, h.phnum as int),
                answers,
            ),
{
    let segs = match loadable_segments(kernel, h) {
        Ok(segs) => segs,
        Err(e) => {
            return Err(e);
        },
    };
    let ghost ms0 = mappings@;
    let ghost r0 = firmware.requests();
    let ghost mut answers: Seq<(bool, u64)> = Seq::empty();
    let mut steps: Vec<LoadStep> = Vec::new();
    let mut k: usize = 0;
    assert(segs@.take(0) =~= Seq::<ProgramHeader>::empty());
    assert(r0 + Seq::<FirmwareRequest>::empty() =~= r0);
    while k < segs.len()
        invariant
            k <= segs@.len(),
            answers.len() == k,
            ms0 == old(mappings)@,
            r0 == old(firmware).requests(),
            firmware.requests() == r0 + load_requests(ms0, segs@.take(k as int), answers),
            program_headers_readable(kernel@, *h),
            segs@ == loadable_upto(kernel@, *h, h.phnum as int),
            mappings_ok(mappings@),
            load_outcome(ms0, segs@.take(k as int), answers) == Ok::<
                (Seq<SegmentMapping>, Seq<LoadStep>),
                ElfError,
            >((mappings@, steps@)),
        decreases segs@.len() - k,
    {
        let ghost before = mappings@;
        let ghost rb = firmware.requests();
        let r = load_segment(firmware, mappings, &segs[k]);
        let ghost (g, a) = choose|g: bool, a: u64|
            #![trigger segment_outcome(before, segs@[k as int], g, a)]
            segment_outcome(before, segs@[k as int], g, a) == steps_view(r, mappings@)
                && firmware.requests() == rb + segment_requests(before, segs@[k as int], g, a);
        let ghost next = answers.push((g, a));
        assert(segs@.take(k + 1).drop_last() =~= segs@.take(k as int));
        assert(next.drop_last() =~= answers);
        assert(segs@.take(k + 1).last() == segs@[k as int]);
        assert(firmware.requests() =~= r0 + load_requests(ms0, segs@.take(k + 1), next));
        match r {
            Ok(mut more) => {
                steps.append(&mut more);
                proof {
                    answers = next;
                }
            },
            Err(e) => {
                proof {
                    let rest = Seq::new((segs@.len() - k - 1) as nat, |i: int| (true, 0u64));
                    let all = next + rest;
                    assert(all.take(k + 1) =~= next);
                    lemma_outcome_err_extends(ms0, segs@, all, k + 1);
                    assert(segs@.take(segs@.len() as int) =~= segs@);
                    assert(load_outcome(ms0, segs@, all) == steps_view(
                        Err::<Vec<LoadStep>, ElfError>(e),
                        mappings@,
                    ));
                    assert(firmware.requests() == r0 + load_requests(ms0, segs@, all));
                }
                return Err(e);
            },
        }
        k = k + 1;
    }
    assert(segs@.take(k as int) =~= segs@);
    Ok(steps)
}

/// A word to write once the segments are in place: `value` at physical `address`.
#[derive(Copy, Clone, Debug, PartialEq, Eq, Structural)]
pub struct Relocation {
    pub address: u64,
    pub value: u64,
}

/// The size of a 64-bit section header.
pub const SECTION_HEADER_SIZE: u64 = 64;

/// The size of a 64-bit relocation entry with addend.
pub const RELA_SIZE: u64 = 24;

/// Where section header `idx` starts in the file.
pub open spec fn sh_start(h: ElfHeader, idx: int) -> int {
    h.shoff + idx * h.shentsize
}

/// The type of section `idx`.
pub open spec fn sh_type(s: Seq<u8>, h: ElfHeader, idx: int) -> u32 {
    le32(s, sh_start(h, idx) + 4)
}

/// Where the contents of section `idx` start in the file.
pub open spec fn sh_offset(s: Seq<u8>, h: ElfHeader, idx: int) -> u64 {
    le64(s, sh_start(h, idx) + 24)
}

/// The size of the contents of section `idx`.
pub open spec fn sh_size(s: Seq<u8>, h: ElfHeader, idx: int) -> u64 {
    le64(s, sh_start(h, idx) + 32)
}

/// The entry size of section `idx`.
pub open spec fn sh_entsize(s: Seq<u8>, h: ElfHeader, idx: int) -> u64 {
    le64(s, sh_start(h, idx) + 56)
}

/// Section `idx` holds relocations with addends, in entries of a nonzero size.
pub open spec fn is_rela(s: Seq<u8>, h: ElfHeader, idx: int) -> bool {
    sh_type(s, h, idx) == SHT_RELA && sh_entsize(s, h, idx) != 0
}

/// The number of entries of section `idx`.
pub open spec fn rela_count(s: Seq<u8>, h: ElfHeader, idx: int) -> int {
    (sh_size(s, h, idx) / sh_entsize(s, h, idx)) as int
}

/// Where entry `r` of section `idx` starts in the file.
pub open spec fn rela_start(s: Seq<u8>, h: ElfHeader, idx: int, r: int) -> int {
    sh_offset(s, h, idx) + r * sh_entsize(s, h, idx)
}

/// Section header `idx` lies within the file, and so does every entry of
/// the section when it holds relocations.
pub open spec fn section_readable(s: Seq<u8>, h: ElfHeader, idx: int) -> bool {
    &&& sh_start(h, idx) + SECTION_HEADER_SIZE <= s.len()
    &&& is_rela(s, h, idx) ==> forall|r: int|
        0 <= r < rela_count(s, h, idx) ==> #[trigger] rela_start(s, h, idx, r) + RELA_SIZE <= s.len()
}

/// The image has no section table to read (offset or entry size 0).
pub open spec fn no_sections(h: ElfHeader) -> bool {
    h.shoff == 0 || h.shentsize == 0
}

/// Every section header, and every relocation entry, lies within the file.
pub open spec fn sections_readable(s: Seq<u8>, h: ElfHeader) -> bool {
    no_sections(h) || forall|idx: int| 0 <= idx < h.shnum ==> #[trigger] section_readable(s, h, idx)
}

/// What relocation entry `r` of section `idx` asks for: a relative
/// relocation (its type, the low 32 bits of `r_info`, is `ELF_R_RELATIVE`)
/// of an address some mapping covers writes its addend at the physical
/// address of its offset.
pub open spec fn entry_relocation(
    s: Seq<u8>,
    h: ElfHeader,
    ms: Seq<SegmentMapping>,
    idx: int,
    r: int,
) -> Option<Relocation> {
    let e = rela_start(s, h, idx, r);
    let target = physical_from(ms, le64(s, e), 0);
    if le64(s, e + 8) % 0x1_0000_0000 == ELF_R_RELATIVE && target != 0 {
        Some(Relocation { address: target as u64, value: le64(s, e + 16) })
    } else {
        None
    }
}

/// Section header `idx` is read from `e_shoff + idx * e_shentsize` with the
/// 64-bit layout (sh_type at +4, sh_offset at +24, sh_size at +32,
/// sh_entsize at +56); a section holds relocations with addends when its
/// type is 4 (SHT_RELA) and its entries have a size; entry `r` of such a
/// section starts `r` entries past sh_offset and holds r_offset, r_info and
/// r_addend as three 8-byte words. The entry asks for a relative relocation
/// when the low 32 bits of r_info are 8 (R_X86_64_RELATIVE), and then, where
/// a mapping covers r_offset, the addend is written at its physical address.
pub proof fn lemma_relocation_layout(s: Seq<u8>, h: ElfHeader, ms: Seq<SegmentMapping>, idx: int, r: int)
    ensures
        ({
            let sh = h.shoff + idx * h.shentsize;
            let e = bytes_value(s, sh + 24, 8) + r * bytes_value(s, sh + 56, 8);
            let target = physical_from(ms, bytes_value(s, e, 8) as u64, 0);
            &&& sh_type(s, h, idx) == bytes_value(s, sh + 4, 4)
            &&& sh_offset(s, h, idx) == bytes_value(s, sh + 24, 8)
            &&& sh_size(s, h, idx) == bytes_value(s, sh + 32, 8)
            &&& sh_entsize(s, h, idx) == bytes_value(s, sh + 56, 8)
            &&& is_rela(s, h, idx) <==> (bytes_value(s, sh + 4, 4) == 4 && bytes_value(s, sh + 56, 8) != 0)
            &&& rela_start(s, h, idx, r) == e
            &&& entry_relocation(s, h, ms, idx, r) == if bytes_value(s, e + 8, 4) == 8 && target != 0 {
                Some(Relocation { address: target as u64, value: bytes_value(s, e + 16, 8) as u64 })
            } else {
                None
            }
        }),
{
    let sh = h.shoff + idx * h.shentsize;
    lemma_le_values(s, sh + 4);
    lemma_le_values(s, sh + 24);
    lemma_le_values(s, sh + 32);
    lemma_le_values(s, sh + 56);
    let e = bytes_value(s, sh + 24, 8) + r * bytes_value(s, sh + 56, 8);
    assert(rela_start(s, h, idx, r) == e);
    lemma_le_values(s, e);
    lemma_le_values(s, e + 8);
    lemma_le_values(s, e + 12);
    lemma_le_values(s, e + 16);
    reveal_with_fuel(bytes_value, 9);
    assert(bytes_value(s, e + 8, 8) == bytes_value(s, e + 8, 4) + 0x1_0000_0000 * bytes_value(
        s,
        e + 12,
        4,
    ));
    assert(0 <= bytes_value(s, e + 8, 4) < 0x1_0000_0000);
    assert(le64(s, e + 8) % 0x1_0000_0000 == bytes_value(s, e + 8, 4));
}

/// The relocations among the first `n` entries of section `idx`, in order.
pub open spec fn entry_relocations(
    s: Seq<u8>,
    h: ElfHeader,
    ms: Seq<SegmentMapping>,
    idx: int,
    n: int,
) -> Seq<Relocation>
    decreases n,
{
    if n <= 0 {
        Seq::empty()
    } else {
        match entry_relocation(s, h, ms, idx, n - 1) {
            Some(w) => entry_relocations(s, h, ms, idx, n - 1).push(w),
            None => entry_relocations(s, h, ms, idx, n - 1),
        }
    }
}

/// The relocations of section `idx`: none unless it holds relocations.
pub open spec fn section_relocations(s: Seq<u8>, h: ElfHeader, ms: Seq<SegmentMapping>, idx: int) -> Seq<
    Relocation,
> {
    if is_rela(s, h, idx) {
        entry_relocations(s, h, ms, idx, rela_count(s, h, idx))
    } else {
        Seq::empty()
    }
}

/// The relocations of the first `k` sections, in order.
pub open spec fn relocations_upto(s: Seq<u8>, h: ElfHeader, ms: Seq<SegmentMapping>, k: int) -> Seq<
    Relocation,
>
    decreases k,
{
    if k <= 0 {
        Seq::empty()
    } else {
        relocations_upto(s, h, ms, k - 1) + section_relocations(s, h, ms, k - 1)
    }
}

/// The relocations of the image under the mappings `ms`.
pub open spec fn spec_relocations(s: Seq<u8>, h: ElfHeader, ms: Seq<SegmentMapping>) -> Seq<Relocation> {
    if no_sections(h) {
        Seq::empty()
    } else {
        relocations_upto(s, h, ms, h.shnum as int)
    }
}

/// Lookups through the loader's mappings never leave 64 bits.
proof fn lemma_lookup_fits(ms: Seq<SegmentMapping>, va: u64, i: int)
    requires
        mappings_ok(ms),
        0 <= i,
    ensures
        lookup_fits(ms, va, i),
    decreases ms.len() - i,
{
    if i < ms.len() {
        assert(mapping_ok(ms[i]));
        lemma_lookup_fits(ms, va, i + 1);
    }
}

/// The entries before the count end no later than the contents.
proof fn lemma_entry_within(r: int, count: int, size: int, entsize: int)
    requires
        0 <= r < count,
        entsize > 0,
        size >= 0,
        count == size / entsize,
    ensures
        0 <= r * entsize,
        r * entsize + entsize <= size,
{
    assert(0 <= r * entsize && r * entsize + entsize <= size) by (nonlinear_arith)
        requires
            0 <= r < count,
            entsize > 0,
            size >= 0,
            count == size / entsize,
    ;
}

/// The relocations of section `idx`, whose header lies within the file;
/// `Truncated` when one of its entries does not.
fn read_section_relocations(
    kernel: &[u8],
    h: &ElfHeader,
    mappings: &[SegmentMapping],
    idx: u16,
) -> (r: Result<Vec<Relocation>, ElfError>)
    requires
        mappings_ok(mappings@),
        sh_start(*h, idx as int) + SECTION_HEADER_SIZE <= kernel@.len(),
    ensures
        match r {
            Ok(v) => section_readable(kernel@, *h, idx as int) && v@ == section_relocations(
                kernel@,
                *h,
                mappings@,
                idx as int,
            ),
            Err(e) => !section_readable(kernel@, *h, idx as int) && e == ElfError::Truncated,
        },
{
    let ghost s = kernel@;
    proof {
        lemma_u16_product(idx, h.shentsize);
    }
    let start = (h.shoff as u128) + (idx as u128) * (h.shentsize as u128);
    assert(start as int == sh_start(*h, idx as int));
    let base = start as usize;
    assert(base as int + SECTION_HEADER_SIZE <= kernel.len());
    let section_type = read_u32(kernel, base + 4);
    let offset = read_u64(kernel, base + 24);
    let size = read_u64(kernel, base + 32);
    let entsize = read_u64(kernel, base + 56);
    let mut out: Vec<Relocation> = Vec::new();
    if section_type != SHT_RELA || entsize == 0 {
        return Ok(out);
    }
    let count = size / entsize;
    let mut r: u64 = 0;
    while r < count
        invariant
            r <= count,
            count == rela_count(s, *h, idx as int),
            offset == sh_offset(s, *h, idx as int),
            entsize == sh_entsize(s, *h, idx as int),
            size == sh_size(s, *h, idx as int),
            entsize > 0,
            is_rela(s, *h, idx as int),
            mappings_ok(mappings@),
            s == kernel@,
            out@ == entry_relocations(s, *h, mappings@, idx as int, r as int),
            forall|q: int| 0 <= q < r ==> #[trigger] rela_start(s, *h, idx as int, q) + RELA_SIZE
                <= s.len(),
        decreases count - r,
    {
        proof {
            lemma_entry_within(r as int, count as int, size as int, entsize as int);
        }
        let e = (offset as u128) + (r as u128) * (entsize as u128);
        assert(e as int == rela_start(s, *h, idx as int, r as int));
        if e + (RELA_SIZE as u128) > kernel.len() as u128 {
            return Err(ElfError::Truncated);
        }
        let at = e as usize;
        let r_offset = read_u64(kernel, at);
        let r_info = read_u64(kernel, at + 8);
        let r_addend = read_u64(kernel, at + 16);
        if r_info as u32 == ELF_R_RELATIVE {
            proof {
                lemma_lookup_fits(mappings@, r_offset, 0);
            }
            let target = virtual_to_physical_address(r_offset, mappings);
            if target != 0 {
                out.push(Relocation { address: target, value: r_addend });
            }
        }
        proof {
            assert((r_info as u32) == r_info % 0x1_0000_0000) by (bit_vector);
        }
        r = r + 1;
    }
    Ok(out)
}

/// The relative relocations of a 64-bit image, resolved to physical
/// addresses through `mappings`; none when it has no section table;
/// `Truncated` when a section header or a relocation entry lies past the
/// end of the file.
pub fn read_relocations(kernel: &[u8], h: &ElfHeader, mappings: &[SegmentMapping]) -> (r: Result<
    Vec<Relocation>,
    ElfError,
>)
    requires
        mappings_ok(mappings@),
    ensures
        match r {
            Ok(v) => sections_readable(kernel@, *h) && v@ == spec_relocations(kernel@, *h, mappings@),
            Err(e) => !sections_readable(kernel@, *h) && e == ElfError::Truncated,
        },
{
    let mut out: Vec<Relocation> = Vec::new();
    if h.shoff == 0 || h.shentsize == 0 {
        return Ok(out);
    }
    let mut idx: u16 = 0;
    while idx < h.shnum
        invariant
            idx <= h.shnum,
            !no_sections(*h),
            mappings_ok(mappings@),
            out@ == relocations_upto(kernel@, *h, mappings@, idx as int),
            forall|j: int| 0 <= j < idx ==> #[trigger] section_readable(kernel@, *h, j),
        decreases h.shnum - idx,
    {
        proof {
            lemma_u16_product(idx, h.shentsize);
        }
        let start = (h.shoff as u128) + (idx as u128) * (h.shentsize as u128);
        if start + (SECTION_HEADER_SIZE as u128) > kernel.len() as u128 {
            assert(!section_readable(kernel@, *h, idx as int));
            return Err(ElfError::Truncated);
        }
        match read_section_relocations(kernel, h, mappings, idx) {
            Ok(mut more) => {
                out.append(&mut more);
            },
            Err(e) => {
                return Err(e);
            },
        }
        idx = idx + 1;
    }
    Ok(out)
}

/// What loading an image yields: its entry point, the mappings of its
/// segments, the steps that place them in physical memory, and the words
/// its relocations write once they are placed.
pub struct LoadedKernel {
    pub entry: u64,
    pub mappings: Vec<SegmentMapping>,
    pub steps: Vec<LoadStep>,
    pub relocations: Vec<Relocation>,
}

/// A loaded image as values: entry, mappings, steps, relocations.
pub type KernelView = (u64, Seq<SegmentMapping>, Seq<LoadStep>, Seq<Relocation>);

/// The result of a load, seen as values.
pub open spec fn kernel_view(r: Result<LoadedKernel, ElfError>) -> Result<KernelView, ElfError> {
    match r {
        Ok(k) => Ok((k.entry, k.mappings@, k.steps@, k.relocations@)),
        Err(e) => Err(e),
    }
}

/// Loading the image `s`, given the firmware's answer for each loadable
/// segment: the header is read; every program header and loadable
/// segment's bytes must lie within the file; the segments are placed one
/// after the other from no mappings; a 64-bit image's relocations are then
/// resolved through the mappings made, every section header and relocation
/// entry lying within the file.
pub open spec fn elf_outcome(s: Seq<u8>, answers: Seq<(bool, u64)>) -> Result<KernelView, ElfError> {
    match header_result(s) {
        Err(e) => Err(e),
        Ok(h) => {
            if !program_headers_readable(s, h) {
                Err(ElfError::Truncated)
            } else {
                match load_outcome(Seq::empty(), loadable_upto(s, h, h.phnum as int), answers) {
                    Err(e) => Err(e),
                    Ok((ms, steps)) => {
                        if h.class != ELFCLASS64 {
                            Ok((h.entry, ms, steps, Seq::empty()))
                        } else if !sections_readable(s, h) {
                            Err(ElfError::Truncated)
                        } else {
                            Ok((h.entry, ms, steps, spec_relocations(s, h, ms)))
                        }
                    },
                }
            }
        },
    }
}

/// The requests loading the image `s` makes of the firmware, given its answer
/// for each loadable segment: none when the header or a program header is
/// refused; otherwise those of the segments, one after the other.
pub open spec fn elf_requests(s: Seq<u8>, answers: Seq<(bool, u64)>) -> Seq<FirmwareRequest> {
    match header_result(s) {
        Err(_) => Seq::empty(),
        Ok(h) => {
            if !program_headers_readable(s, h) {
                Seq::empty()
            } else {
                load_requests(Seq::empty(), loadable_upto(s, h, h.phnum as int), answers)
            }
        },
    }
}

/// Loads an ELF image: reads its header, places its loadable segments and,
/// for a 64-bit image, resolves its relative relocations. For some answers
/// of the firmware, the result is `elf_outcome` and the requests made of the
/// firmware are `elf_requests`. The caller carries out the steps, writes the
/// relocations, then releases the file's buffer.
pub fn load_elf<F: FirmwareInterface>(firmware: &mut Firmware<F>, kernel: &[u8]) -> (r: Result<
    LoadedKernel,
    ElfError,
>)
    ensures
        exists|answers: Seq<(bool, u64)>|
            #![trigger elf_outcome(kernel@, answers)]
            elf_outcome(kernel@, answers) == kernel_view(r) && final(firmware).requests() == old(
                firmware,
            ).requests() + elf_requests(kernel@, answers),
        r is Ok ==> mappings_ok(r->Ok_0.mappings@),
{
    let ghost r0 = firmware.requests();
    let h = match parse_header(kernel) {
        Ok(h) => h,
        Err(e) => {
            assert(elf_outcome(kernel@, Seq::empty()) == kernel_view(Err(e)));
            assert(r0 + elf_requests(kernel@, Seq::empty()) =~= r0);
            return Err(e);
        },
    };
    let mut mappings: Vec<SegmentMapping> = Vec::new();
    let steps = match load_segments(firmware, kernel, &h, &mut mappings) {
        Ok(steps) => steps,
        Err(e) => {
            proof {
                if program_headers_readable(kernel@, h) {
                    let answers = choose|answers: Seq<(bool, u64)>|
                        #![trigger load_outcome(Seq::empty(), loadable_upto(kernel@, h, h.phnum as int), answers)]
                        answers.len() == loadable_upto(kernel@, h, h.phnum as int).len()
                            && load_outcome(
                            Seq::empty(),
                            loadable_upto(kernel@, h, h.phnum as int),
                            answers,
                        ) == steps_view(Err::<Vec<LoadStep>, ElfError>(e), mappings@)
                            && firmware.requests() == r0 + load_requests(
                            Seq::empty(),
                            loadable_upto(kernel@, h, h.phnum as int),
                            answers,
                        );
                    assert(elf_outcome(kernel@, answers) == kernel_view(Err(e)));
                    assert(firmware.requests() == r0 + elf_requests(kernel@, answers));
                } else {
                    assert(elf_outcome(kernel@, Seq::empty()) == kernel_view(Err(e)));
                    assert(r0 + elf_requests(kernel@, Seq::empty()) =~= r0);
                }
            }
            return Err(e);
        },
    };
    let ghost answers = choose|answers: Seq<(bool, u64)>|
        #![trigger load_outcome(Seq::empty(), loadable_upto(kernel@, h, h.phnum as int), answers)]
        answers.len() == loadable_upto(kernel@, h, h.phnum as int).len() && load_outcome(
            Seq::empty(),
            loadable_upto(kernel@, h, h.phnum as int),
            answers,
        ) == steps_view(Ok::<Vec<LoadStep>, ElfError>(steps), mappings@) && firmware.requests()
            == r0 + load_requests(Seq::empty(), loadable_upto(kernel@, h, h.phnum as int), answers);
    assert(firmware.requests() == r0 + elf_requests(kernel@, answers));
    let relocations = if h.class == ELFCLASS64 {
        match read_relocations(kernel, &h, mappings.as_slice()) {
            Ok(relocations) => relocations,
            Err(e) => {
                assert(elf_outcome(kernel@, answers) == kernel_view(Err(e)));
                return Err(e);
            },
        }
    } else {
        Vec::new()
    };
    let loaded = LoadedKernel { entry: h.entry, mappings, steps, relocations };
    assert(elf_outcome(kernel@, answers) == kernel_view(Ok(loaded)));
    Ok(loaded)
}

/// The mappings the loader makes can be handed to the page-table builder:
/// every page of each of them has its virtual and physical address below 2^64.
pub proof fn lemma_loaded_mappings_fit(ms: Seq<SegmentMapping>)
    requires
        mappings_ok(ms),
    ensures
        mappings_fit(ms),
{
    assert forall|j: int| 0 <= j < ms.len() implies (#[trigger] ms[j]).pages == 0 || (
    ms[j].virtual_page_base + (ms[j].pages - 1) * 0x1000 < 0x1_0000_0000_0000_0000
        && ms[j].physical_base_address + (ms[j].pages - 1) * 0x1000 < 0x1_0000_0000_0000_0000) by {
        assert(mapping_ok(ms[j]));
    }
}

/// `pa` lies in the physical pages of one of the mappings.
pub open spec fn inside_some_mapping(ms: Seq<SegmentMapping>, pa: int) -> bool {
    exists|j: int|
        0 <= j < ms.len() && #[trigger] ms[j].physical_base_address <= pa < ms[j].physical_base_address
            + ms[j].pages * 0x1000
}

/// A lookup that finds an address finds it in the physical pages of the
/// mapping that covers it.
proof fn lemma_physical_inside(ms: Seq<SegmentMapping>, va: u64, i: int)
    requires
        0 <= i,
        physical_from(ms, va, i) != 0,
    ensures
        inside_some_mapping(ms, physical_from(ms, va, i)),
    decreases ms.len() - i,
{
    if i < ms.len() && !covers(ms[i], va as int) {
        lemma_physical_inside(ms, va, i + 1);
    } else if i < ms.len() {
        assert(ms[i].physical_base_address <= physical_from(ms, va, i));
    }
}

/// The relocations among the first `n` entries of a section write inside the mappings.
proof fn lemma_entry_relocations_inside(s: Seq<u8>, h: ElfHeader, ms: Seq<SegmentMapping>, idx: int, n: int)
    requires
        mappings_ok(ms),
    ensures
        forall|k: int|
            0 <= k < entry_relocations(s, h, ms, idx, n).len() ==> inside_some_mapping(
                ms,
                #[trigger] entry_relocations(s, h, ms, idx, n)[k].address as int,
            ),
    decreases n,
{
    if n > 0 {
        lemma_entry_relocations_inside(s, h, ms, idx, n - 1);
        let e = rela_start(s, h, idx, n - 1);
        let va = le64(s, e);
        let prev = entry_relocations(s, h, ms, idx, n - 1);
        if physical_from(ms, va, 0) != 0 {
            lemma_physical_inside(ms, va, 0);
            lemma_physical_fits(ms, va, 0);
        }
        assert forall|k: int| 0 <= k < entry_relocations(s, h, ms, idx, n).len() implies inside_some_mapping(
            ms,
            #[trigger] entry_relocations(s, h, ms, idx, n)[k].address as int,
        ) by {
            if k < prev.len() {
                assert(entry_relocations(s, h, ms, idx, n)[k] == prev[k]);
            }
        }
    }
}

/// A lookup through the loader's mappings gives an address below 2^64.
proof fn lemma_physical_fits(ms: Seq<SegmentMapping>, va: u64, i: int)
    requires
        mappings_ok(ms),
        0 <= i,
    ensures
        0 <= physical_from(ms, va, i) < 0x1_0000_0000_0000_0000,
    decreases ms.len() - i,
{
    if i < ms.len() {
        assert(mapping_ok(ms[i]));
        lemma_physical_fits(ms, va, i + 1);
    }
}

/// The relocations of the first `k` sections write inside the mappings.
proof fn lemma_relocations_upto_inside(s: Seq<u8>, h: ElfHeader, ms: Seq<SegmentMapping>, k: int)
    requires
        mappings_ok(ms),
    ensures
        forall|i: int|
            0 <= i < relocations_upto(s, h, ms, k).len() ==> inside_some_mapping(
                ms,
                #[trigger] relocations_upto(s, h, ms, k)[i].address as int,
            ),
    decreases k,
{
    if k > 0 {
        lemma_relocations_upto_inside(s, h, ms, k - 1);
        let prev = relocations_upto(s, h, ms, k - 1);
        let sec = section_relocations(s, h, ms, k - 1);
        if is_rela(s, h, k - 1) {
            lemma_entry_relocations_inside(s, h, ms, k - 1, rela_count(s, h, k - 1));
        }
        assert forall|i: int| 0 <= i < relocations_upto(s, h, ms, k).len() implies inside_some_mapping(
            ms,
            #[trigger] relocations_upto(s, h, ms, k)[i].address as int,
        ) by {
            if i < prev.len() {
                assert(relocations_upto(s, h, ms, k)[i] == prev[i]);
            } else {
                assert(relocations_upto(s, h, ms, k)[i] == sec[i - prev.len()]);
            }
        }
    }
}

/// Every word a relocation writes lies in the physical pages of a loaded segment.
pub proof fn lemma_relocations_inside(s: Seq<u8>, h: ElfHeader, ms: Seq<SegmentMapping>)
    requires
        mappings_ok(ms),
    ensures
        forall|i: int|
            0 <= i < spec_relocations(s, h, ms).len() ==> inside_some_mapping(
                ms,
                #[trigger] spec_relocations(s, h, ms)[i].address as int,
            ),
{
    if !no_sections(h) {
        lemma_relocations_upto_inside(s, h, ms, h.shnum as int);
    }
}

/// Every copy step writes its first byte into the physical pages of one of the mappings.
pub open spec fn copies_inside(ms: Seq<SegmentMapping>, steps: Seq<LoadStep>) -> bool {
    forall|i: int|
        0 <= i < steps.len() ==> (#[trigger] steps[i] matches LoadStep::Copy { address, .. }
            ==> inside_some_mapping(ms, address as int))
}

/// `b` keeps every mapping of `a` where it was, each at least as long.
pub open spec fn grows(a: Seq<SegmentMapping>, b: Seq<SegmentMapping>) -> bool {
    &&& a.len() <= b.len()
    &&& forall|j: int|
        0 <= j < a.len() ==> (#[trigger] b[j]).virtual_page_base == a[j].virtual_page_base
            && b[j].physical_base_address == a[j].physical_base_address && b[j].pages >= a[j].pages
}

/// An address in the pages of a mapping stays there as the mappings grow.
proof fn lemma_inside_grows(a: Seq<SegmentMapping>, b: Seq<SegmentMapping>, pa: int)
    requires
        inside_some_mapping(a, pa),
        grows(a, b),
    ensures
        inside_some_mapping(b, pa),
{
    let j = choose|j: int|
        0 <= j < a.len() && #[trigger] a[j].physical_base_address <= pa < a[j].physical_base_address
            + a[j].pages * 0x1000;
    assert(b[j].physical_base_address <= pa < b[j].physical_base_address + b[j].pages * 0x1000) by (nonlinear_arith)
        requires
            b[j].physical_base_address == a[j].physical_base_address,
            b[j].pages >= a[j].pages,
            a[j].physical_base_address <= pa < a[j].physical_base_address + a[j].pages * 0x1000,
    ;
}

/// One loadable segment keeps the mappings well formed, only grows them, and
/// copies its bytes into the pages of one of them.
proof fn lemma_segment_outcome(
    ms: Seq<SegmentMapping>,
    ph: ProgramHeader,
    granted: bool,
    address: u64,
)
    requires
        mappings_ok(ms),
        is_loadable(ph),
        segment_outcome(ms, ph, granted, address) is Ok,
    ensures
        ({
            let (ms2, steps) = segment_outcome(ms, ph, granted, address)->Ok_0;
            &&& mappings_ok(ms2)
            &&& grows(ms, ms2)
            &&& copies_inside(ms2, steps)
        }),
{
    let plan = spec_plan(ph, ms)->Ok_0;
    let (ms2, steps) = segment_outcome(ms, ph, granted, address)->Ok_0;
    let vpb = page_base(ph.p_vaddr);
    let off = ph.p_vaddr % 0x1000;
    lemma_cover_index(ms, vpb, 0);
    lemma_page_count(off as int, ph.p_memsz as int);
    match plan.placement {
        Placement::Inside { index, dest } => {
            let m = ms[index as int];
            assert(mapping_ok(m));
            lemma_aligned_lt(vpb, m.virtual_page_base + m.pages * 0x1000);
            assert(steps[0] == copy_step(ph, plan, dest));
            assert(m.physical_base_address <= dest + off < m.physical_base_address + m.pages * 0x1000);
            assert(inside_some_mapping(ms2, (dest + off) as u64 as int));
        },
        Placement::Extend { index, dest, at, additional } => {
            let m = ms[index as int];
            assert(mapping_ok(m));
            lemma_aligned_lt(vpb, m.virtual_page_base + m.pages * 0x1000);
            let g = ms2[index as int];
            assert(g.pages == m.pages + additional);
            assert(m.physical_base_address <= dest + off < g.physical_base_address + g.pages * 0x1000) by (nonlinear_arith)
                requires
                    g.physical_base_address == m.physical_base_address,
                    g.pages >= m.pages,
                    m.physical_base_address <= dest + off < m.physical_base_address + m.pages * 0x1000,
            ;
            assert(inside_some_mapping(ms2, (dest + off) as u64 as int));
            assert forall|j: int| 0 <= j < ms2.len() implies mapping_ok(#[trigger] ms2[j]) by {
                if j != index {
                    assert(mapping_ok(ms[j]));
                }
            }
            assert(steps[1] == copy_step(ph, plan, dest));
        },
        Placement::Fresh { preferred } => {
            let f = ms2[ms.len() as int];
            assert(f.physical_base_address == address);
            assert(address <= address + off < address + plan.pages * 0x1000);
            assert(inside_some_mapping(ms2, (address + off) as u64 as int));
            assert forall|j: int| 0 <= j < ms2.len() implies mapping_ok(#[trigger] ms2[j]) by {
                if j < ms.len() {
                    assert(mapping_ok(ms[j]));
                }
            }
            assert(steps[1] == copy_step(ph, plan, address));
        },
    }
}

/// Placing loadable segments one after the other from well-formed mappings
/// keeps them well formed and copies each segment's bytes into the physical
/// pages of one of the resulting mappings: whatever the firmware answers,
/// nothing is copied outside the pages the loader set aside.
pub proof fn lemma_copies_land_in_mappings(
    ms: Seq<SegmentMapping>,
    segs: Seq<ProgramHeader>,
    answers: Seq<(bool, u64)>,
)
    requires
        mappings_ok(ms),
        forall|i: int| 0 <= i < segs.len() ==> is_loadable(#[trigger] segs[i]),
        load_outcome(ms, segs, answers) is Ok,
    ensures
        ({
            let (ms2, steps) = load_outcome(ms, segs, answers)->Ok_0;
            &&& mappings_ok(ms2)
            &&& grows(ms, ms2)
            &&& copies_inside(ms2, steps)
        }),
    decreases segs.len(),
{
    if segs.len() > 0 {
        let prefix = segs.drop_last();
        assert forall|i: int| 0 <= i < prefix.len() implies is_loadable(#[trigger] prefix[i]) by {
            assert(prefix[i] == segs[i]);
        }
        lemma_copies_land_in_mappings(ms, prefix, answers.drop_last());
        let (ms1, steps1) = load_outcome(ms, prefix, answers.drop_last())->Ok_0;
        assert(is_loadable(segs[segs.len() - 1]));
        lemma_segment_outcome(ms1, segs.last(), answers.last().0, answers.last().1);
        let (ms2, steps2) = segment_outcome(ms1, segs.last(), answers.last().0, answers.last().1)->Ok_0;
        let steps = steps1 + steps2;
        assert forall|i: int| 0 <= i < steps.len() implies (#[trigger] steps[i] matches LoadStep::Copy { address, .. }
            ==> inside_some_mapping(ms2, address as int)) by {
            if i < steps1.len() {
                assert(steps[i] == steps1[i]);
                if let LoadStep::Copy { address, .. } = steps1[i] {
                    lemma_inside_grows(ms1, ms2, address as int);
                }
            } else {
                assert(steps[i] == steps2[i - steps1.len()]);
            }
        }
        assert(grows(ms, ms2));
    }
}

/// The segments kept from the program headers are all loadable.
proof fn lemma_loadable_upto(s: Seq<u8>, h: ElfHeader, n: int)
    ensures
        forall|i: int|
            0 <= i < loadable_upto(s, h, n).len() ==> is_loadable(#[trigger] loadable_upto(s, h, n)[i]),
    decreases n,
{
    if n > 0 {
        lemma_loadable_upto(s, h, n - 1);
        let prev = loadable_upto(s, h, n - 1);
        assert forall|i: int| 0 <= i < loadable_upto(s, h, n).len() implies is_loadable(
            #[trigger] loadable_upto(s, h, n)[i],
        ) by {
            if i < prev.len() {
                assert(loadable_upto(s, h, n)[i] == prev[i]);
            }
        }
    }
}

/// Whatever the firmware answers, a loaded image's mappings are well formed
/// (so the page-table builder accepts them), every copy of a segment lands in
/// their physical pages, and so does every word a relocation writes.
pub proof fn lemma_loaded_image(s: Seq<u8>, answers: Seq<(bool, u64)>)
    requires
        elf_outcome(s, answers) is Ok,
    ensures
        ({
            let (entry, ms, steps, relocations) = elf_outcome(s, answers)->Ok_0;
            &&& mappings_ok(ms)
            &&& mappings_fit(ms)
            &&& copies_inside(ms, steps)
            &&& forall|i: int|
                0 <= i < relocations.len() ==> inside_some_mapping(ms, #[trigger] relocations[i].address as int)
        }),
{
    let h = header_result(s)->Ok_0;
    let segs = loadable_upto(s, h, h.phnum as int);
    lemma_loadable_upto(s, h, h.phnum as int);
    assert(mappings_ok(Seq::<SegmentMapping>::empty()));
    lemma_copies_land_in_mappings(Seq::empty(), segs, answers);
    let (ms, steps) = load_outcome(Seq::empty(), segs, answers)->Ok_0;
    lemma_loaded_mappings_fit(ms);
    lemma_relocations_inside(s, h, ms);
}

} // verus!
