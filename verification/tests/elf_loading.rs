use lib::elf::{
    load_elf, loadable_segments, parse_header, read_relocations, segment_plan, commit_segment,
    ElfError, LoadStep, Placement, ProgramHeader, Relocation,
};
use lib::firmware::{Firmware, FirmwareInterface};
use lib::segment_mapping::SegmentMapping;

/// Hands out pages from a running address; grants in-place requests when told to.
struct TestFirmware {
    next: u64,
    grant_at: bool,
    at_requests: Vec<(u64, usize)>,
    any_requests: Vec<usize>,
    freed: Vec<u64>,
}

impl TestFirmware {
    fn new(next: u64, grant_at: bool) -> Self {
        TestFirmware { next, grant_at, at_requests: Vec::new(), any_requests: Vec::new(), freed: Vec::new() }
    }
}

impl FirmwareInterface for TestFirmware {
    fn allocate_pages(&mut self, count: usize) -> u64 {
        self.any_requests.push(count);
        let a = self.next;
        self.next += count as u64 * 0x1000;
        a
    }

    fn try_allocate_pages_at(&mut self, address: u64, count: usize) -> Option<u64> {
        self.at_requests.push((address, count));
        if self.grant_at {
            Some(address)
        } else {
            None
        }
    }

    fn free_buffer(&mut self, address: u64) {
        self.freed.push(address);
    }
}

struct Seg {
    vaddr: u64,
    paddr: u64,
    offset: u64,
    filesz: u64,
    memsz: u64,
    kind: u32,
}

fn put16(b: &mut [u8], at: usize, v: u16) {
    b[at..at + 2].copy_from_slice(&v.to_le_bytes());
}

fn put32(b: &mut [u8], at: usize, v: u32) {
    b[at..at + 4].copy_from_slice(&v.to_le_bytes());
}

fn put64(b: &mut [u8], at: usize, v: u64) {
    b[at..at + 8].copy_from_slice(&v.to_le_bytes());
}

/// A 64-bit image: header, program headers at 64, then `size` bytes in all.
fn elf64(entry: u64, segs: &[Seg], size: usize) -> Vec<u8> {
    let mut b = vec![0u8; size];
    b[0..4].copy_from_slice(&[0x7F, b'E', b'L', b'F']);
    b[4] = 2;
    b[5] = 1;
    put64(&mut b, 24, entry);
    put64(&mut b, 32, 64);
    put16(&mut b, 54, 56);
    put16(&mut b, 56, segs.len() as u16);
    for (i, s) in segs.iter().enumerate() {
        let a = 64 + 56 * i;
        put32(&mut b, a, s.kind);
        put64(&mut b, a + 8, s.offset);
        put64(&mut b, a + 16, s.vaddr);
        put64(&mut b, a + 24, s.paddr);
        put64(&mut b, a + 32, s.filesz);
        put64(&mut b, a + 40, s.memsz);
    }
    b
}

/// Adds a section table at `shoff` whose one section holds relocations at `relaoff`.
fn add_rela(b: &mut Vec<u8>, shoff: u64, relaoff: u64, relas: &[(u64, u64, u64)]) {
    put64(b, 40, shoff);
    put16(b, 58, 64);
    put16(b, 60, 2);
    let sh = shoff as usize + 64;
    put32(b, sh + 4, 4);
    put64(b, sh + 24, relaoff);
    put64(b, sh + 32, 24 * relas.len() as u64);
    put64(b, sh + 56, 24);
    for (i, r) in relas.iter().enumerate() {
        let a = relaoff as usize + 24 * i;
        put64(b, a, r.0);
        put64(b, a + 8, r.1);
        put64(b, a + 16, r.2);
    }
}

fn load(vaddr: u64, paddr: u64, offset: u64, filesz: u64, memsz: u64) -> Seg {
    Seg { vaddr, paddr, offset, filesz, memsz, kind: 1 }
}

#[test]
fn header_is_read_for_both_classes() {
    let b = elf64(0xFFFF_8000_0010_0000, &[], 256);
    let h = parse_header(&b).unwrap();
    assert_eq!(h.class, 2);
    assert_eq!(h.entry, 0xFFFF_8000_0010_0000);
    assert_eq!(h.phoff, 64);
    assert_eq!(h.phentsize, 56);

    let mut c = vec![0u8; 128];
    c[0..4].copy_from_slice(&[0x7F, b'E', b'L', b'F']);
    c[4] = 1;
    put32(&mut c, 24, 0x10_0000);
    put32(&mut c, 28, 52);
    put16(&mut c, 42, 32);
    put16(&mut c, 44, 0);
    let h = parse_header(&c).unwrap();
    assert_eq!(h.class, 1);
    assert_eq!(h.entry, 0x10_0000);
    assert_eq!(h.phoff, 52);
    assert_eq!(h.phentsize, 32);
}

#[test]
fn bad_images_are_refused() {
    let mut fw = Firmware::new(TestFirmware::new(0x40_0000, true));
    let mut bad = elf64(0, &[load(0x1000, 0, 0x200, 0x10, 0x10)], 0x400);
    bad[0] = 0;
    assert_eq!(load_elf(&mut fw, &bad).err(), Some(ElfError::BadMagic));
    assert!(fw.inner().at_requests.is_empty() && fw.inner().any_requests.is_empty());
    assert_eq!(parse_header(&[0x7F, b'E']).err(), Some(ElfError::Truncated));
    let mut b = elf64(0, &[], 128);
    b[1] = b'X';
    assert_eq!(parse_header(&b).err(), Some(ElfError::BadMagic));
    let mut b = elf64(0, &[], 128);
    b[4] = 3;
    assert_eq!(parse_header(&b).err(), Some(ElfError::UnsupportedClass));
    let b = elf64(0, &[], 128);
    assert_eq!(parse_header(&b[..40]).err(), Some(ElfError::Truncated));
}

#[test]
fn only_nonempty_load_segments_are_kept() {
    let segs = [
        load(0x1000, 0, 0x200, 0x10, 0x10),
        Seg { kind: 2, ..load(0x2000, 0, 0x200, 0x10, 0x10) },
        load(0x3000, 0, 0x200, 0, 0),
        load(0x4000, 0, 0x210, 0x8, 0x20),
    ];
    let b = elf64(0, &segs, 0x400);
    let h = parse_header(&b).unwrap();
    let kept = loadable_segments(&b, &h).unwrap();
    assert_eq!(kept.len(), 2);
    assert_eq!(kept[0].p_vaddr, 0x1000);
    assert_eq!(kept[1].p_vaddr, 0x4000);
    assert_eq!(kept[1].p_memsz, 0x20);
}

#[test]
fn segment_bytes_past_the_file_are_refused() {
    let b = elf64(0, &[load(0x1000, 0, 0x300, 0x200, 0x200)], 0x400);
    let h = parse_header(&b).unwrap();
    assert_eq!(loadable_segments(&b, &h).err(), Some(ElfError::Truncated));
}

#[test]
fn fresh_segments_get_fresh_zeroed_pages() {
    let segs = [
        load(0xFFFF_8000_0000_0000, 0, 0x200, 0x100, 0x1800),
        load(0xFFFF_8000_0000_3010, 0, 0x300, 0x20, 0x20),
    ];
    let b = elf64(0xFFFF_8000_0000_0040, &segs, 0x400);
    let mut fw = Firmware::new(TestFirmware::new(0x40_0000, false));
    let k = load_elf(&mut fw, &b).unwrap();
    assert_eq!(k.entry, 0xFFFF_8000_0000_0040);
    assert_eq!(
        k.mappings,
        vec![
            SegmentMapping { virtual_page_base: 0xFFFF_8000_0000_0000, physical_base_address: 0x40_0000, pages: 2 },
            SegmentMapping { virtual_page_base: 0xFFFF_8000_0000_3000, physical_base_address: 0x40_2000, pages: 1 },
        ]
    );
    assert_eq!(
        k.steps,
        vec![
            LoadStep::Zero { address: 0x40_0000, pages: 2 },
            LoadStep::Copy { file_offset: 0x200, address: 0x40_0000, length: 0x100 },
            LoadStep::Zero { address: 0x40_2000, pages: 1 },
            LoadStep::Copy { file_offset: 0x300, address: 0x40_2010, length: 0x20 },
        ]
    );
    assert!(k.relocations.is_empty());
    assert!(fw.inner().at_requests.is_empty());
    assert_eq!(fw.inner().any_requests, vec![2, 1]);
}

#[test]
fn a_physical_address_is_asked_for_first() {
    let b = elf64(0x10_0000, &[load(0x10_0000, 0x10_0123, 0x200, 0x10, 0x10)], 0x400);
    let mut fw = Firmware::new(TestFirmware::new(0x80_0000, true));
    let k = load_elf(&mut fw, &b).unwrap();
    assert_eq!(fw.inner().at_requests, vec![(0x10_0000, 1)]);
    assert!(fw.inner().any_requests.is_empty());
    assert_eq!(k.mappings[0].physical_base_address, 0x10_0000);

    let mut refusing = Firmware::new(TestFirmware::new(0x80_0000, false));
    let k = load_elf(&mut refusing, &b).unwrap();
    assert_eq!(refusing.inner().at_requests, vec![(0x10_0000, 1)]);
    assert_eq!(refusing.inner().any_requests, vec![1]);
    assert_eq!(k.mappings[0].physical_base_address, 0x80_0000);
}

#[test]
fn a_segment_sharing_a_page_extends_the_mapping() {
    let segs = [
        load(0x20_0000, 0, 0x200, 0x100, 0x800),
        load(0x20_0800, 0, 0x300, 0x40, 0x1000),
    ];
    let b = elf64(0x20_0000, &segs, 0x400);
    let mut fw = Firmware::new(TestFirmware::new(0x50_0000, true));
    let k = load_elf(&mut fw, &b).unwrap();
    assert_eq!(fw.inner().at_requests, vec![(0x50_1000, 1)]);
    assert_eq!(
        k.mappings,
        vec![SegmentMapping { virtual_page_base: 0x20_0000, physical_base_address: 0x50_0000, pages: 2 }]
    );
    assert_eq!(
        k.steps,
        vec![
            LoadStep::Zero { address: 0x50_0000, pages: 1 },
            LoadStep::Copy { file_offset: 0x200, address: 0x50_0000, length: 0x100 },
            LoadStep::Zero { address: 0x50_1000, pages: 1 },
            LoadStep::Copy { file_offset: 0x300, address: 0x50_0800, length: 0x40 },
        ]
    );
}

#[test]
fn a_segment_inside_a_mapping_is_only_copied() {
    let segs = [
        load(0x20_0000, 0, 0x200, 0x100, 0x2000),
        load(0x20_1000, 0, 0x300, 0x40, 0x40),
    ];
    let b = elf64(0x20_0000, &segs, 0x400);
    let mut fw = Firmware::new(TestFirmware::new(0x50_0000, false));
    let k = load_elf(&mut fw, &b).unwrap();
    assert_eq!(k.mappings.len(), 1);
    assert_eq!(k.steps[2], LoadStep::Copy { file_offset: 0x300, address: 0x50_1000, length: 0x40 });
    assert_eq!(k.steps.len(), 3);
}

#[test]
fn a_refused_extension_stops_the_load() {
    let segs = [
        load(0x20_0000, 0, 0x200, 0x100, 0x800),
        load(0x20_0800, 0, 0x300, 0x40, 0x1000),
    ];
    let b = elf64(0x20_0000, &segs, 0x400);
    let mut fw = Firmware::new(TestFirmware::new(0x50_0000, false));
    assert_eq!(load_elf(&mut fw, &b).err(), Some(ElfError::NoRoomToExtend));
}

#[test]
fn more_than_sixteen_mappings_are_refused() {
    let segs: Vec<Seg> = (0..17u64).map(|i| load(0x100_0000 + i * 0x10_0000, 0, 0x800, 0, 0x10)).collect();
    let b = elf64(0, &segs, 0x1000);
    let mut fw = Firmware::new(TestFirmware::new(0x40_0000, false));
    assert_eq!(load_elf(&mut fw, &b).err(), Some(ElfError::TooManyMappings));
    let b = elf64(0, &segs[..16], 0x1000);
    let mut fw = Firmware::new(TestFirmware::new(0x40_0000, false));
    assert_eq!(load_elf(&mut fw, &b).unwrap().mappings.len(), 16);
}

#[test]
fn segments_reaching_past_64_bits_are_refused() {
    let b = elf64(0, &[load(0xFFFF_FFFF_FFFF_F000, 0, 0x200, 0x10, 0x2000)], 0x400);
    let mut fw = Firmware::new(TestFirmware::new(0x40_0000, false));
    assert_eq!(load_elf(&mut fw, &b).err(), Some(ElfError::Overflow));
}

#[test]
fn pages_handed_out_too_high_are_refused() {
    let b = elf64(0, &[load(0x1000, 0, 0x200, 0x10, 0x10)], 0x400);
    let mut fw = Firmware::new(TestFirmware::new(0xFFFF_FFFF_FFFF_F000, false));
    assert_eq!(load_elf(&mut fw, &b).err(), Some(ElfError::Overflow));
}

#[test]
fn relative_relocations_are_resolved_to_physical_words() {
    let mut b = elf64(0x20_0000, &[load(0x20_0000, 0, 0x200, 0x100, 0x2000)], 0x800);
    add_rela(
        &mut b,
        0x400,
        0x600,
        &[
            (0x20_0010, 8, 0x20_0100),
            (0x20_1008, 8 | (5 << 32), 0x1234),
            (0x20_0018, 7, 0x5555),
            (0x90_0000, 8, 0x6666),
        ],
    );
    let mut fw = Firmware::new(TestFirmware::new(0x70_0000, false));
    let k = load_elf(&mut fw, &b).unwrap();
    assert_eq!(
        k.relocations,
        vec![
            Relocation { address: 0x70_0010, value: 0x20_0100 },
            Relocation { address: 0x70_1008, value: 0x1234 },
        ]
    );
}

#[test]
fn relocation_entries_past_the_file_are_refused() {
    let mut b = elf64(0x20_0000, &[load(0x20_0000, 0, 0x200, 0x100, 0x2000)], 0x800);
    add_rela(&mut b, 0x400, 0x600, &[(0x20_0010, 8, 1)]);
    put64(&mut b, 0x400 + 64 + 32, 24 * 100);
    let h = parse_header(&b).unwrap();
    let mappings = [SegmentMapping { virtual_page_base: 0x20_0000, physical_base_address: 0x70_0000, pages: 2 }];
    assert_eq!(read_relocations(&b, &h, &mappings).err(), Some(ElfError::Truncated));
    let mut fw = Firmware::new(TestFirmware::new(0x70_0000, false));
    assert_eq!(load_elf(&mut fw, &b).err(), Some(ElfError::Truncated));
}

#[test]
fn an_image_without_sections_has_no_relocations() {
    let b = elf64(0, &[load(0x1000, 0, 0x200, 0x10, 0x10)], 0x400);
    let h = parse_header(&b).unwrap();
    assert_eq!(read_relocations(&b, &h, &[]).unwrap(), vec![]);
}

#[test]
fn a_32_bit_image_loads_without_relocations() {
    let mut c = vec![0u8; 0x400];
    c[0..4].copy_from_slice(&[0x7F, b'E', b'L', b'F']);
    c[4] = 1;
    put32(&mut c, 24, 0x10_000C);
    put32(&mut c, 28, 52);
    put16(&mut c, 42, 32);
    put16(&mut c, 44, 1);
    put32(&mut c, 52, 1);
    put32(&mut c, 56, 0x200);
    put32(&mut c, 60, 0x10_0000);
    put32(&mut c, 64, 0);
    put32(&mut c, 68, 0x80);
    put32(&mut c, 72, 0x1000);
    let mut fw = Firmware::new(TestFirmware::new(0x30_0000, false));
    let k = load_elf(&mut fw, &c).unwrap();
    assert_eq!(k.entry, 0x10_000C);
    assert_eq!(
        k.mappings,
        vec![SegmentMapping { virtual_page_base: 0x10_0000, physical_base_address: 0x30_0000, pages: 1 }]
    );
    assert_eq!(k.steps[1], LoadStep::Copy { file_offset: 0x200, address: 0x30_0000, length: 0x80 });
    assert!(k.relocations.is_empty());
}

#[test]
fn plans_and_commits_follow_the_firmware_answer() {
    let ph = ProgramHeader { p_type: 1, p_offset: 0x100, p_vaddr: 0x5010, p_paddr: 0x7010, p_filesz: 8, p_memsz: 0x1000 };
    let plan = segment_plan(&ph, &[]).unwrap();
    assert_eq!(plan.virtual_page_base, 0x5000);
    assert_eq!(plan.page_offset, 0x10);
    assert_eq!(plan.pages, 2);
    assert!(matches!(plan.placement, Placement::Fresh { preferred: 0x7000 }));
    let mut mappings = Vec::new();
    let steps = commit_segment(&mut mappings, &ph, &plan, true, 0xA000).unwrap();
    assert_eq!(
        steps,
        vec![
            LoadStep::Zero { address: 0xA000, pages: 2 },
            LoadStep::Copy { file_offset: 0x100, address: 0xA010, length: 8 },
        ]
    );
    assert_eq!(mappings, vec![SegmentMapping { virtual_page_base: 0x5000, physical_base_address: 0xA000, pages: 2 }]);

    let ph2 = ProgramHeader { p_type: 1, p_offset: 0x200, p_vaddr: 0x6800, p_paddr: 0, p_filesz: 4, p_memsz: 0x1000 };
    let plan2 = segment_plan(&ph2, &mappings).unwrap();
    assert!(matches!(plan2.placement, Placement::Extend { index: 0, dest: 0xB000, at: 0xC000, additional: 1 }));
    let mut copy = mappings.clone();
    assert_eq!(commit_segment(&mut copy, &ph2, &plan2, false, 0).err(), Some(ElfError::NoRoomToExtend));
    assert_eq!(copy, mappings);
}
