use lib::firmware::{Firmware, FirmwareInterface};
use lib::paging::{build_page_tables, entry_address, PhysicalMemory};
use lib::segment_mapping::SegmentMapping;

/// Hands out distinct page-aligned pages one after another.
struct PageSource {
    next: u64,
}

impl FirmwareInterface for PageSource {
    fn allocate_pages(&mut self, count: usize) -> u64 {
        let a = self.next;
        self.next += count as u64 * 0x1000;
        a
    }

    fn try_allocate_pages_at(&mut self, _address: u64, _count: usize) -> Option<u64> {
        None
    }

    fn free_buffer(&mut self, _address: u64) {}
}

/// Walks the four levels of the tables as the processor does.
fn walk(memory: &PhysicalMemory, pml4: u64, va: u64) -> Option<u64> {
    let index = |shift: u64| ((va >> shift) & 0x1FF) as usize;
    let e4 = memory.read(entry_address(pml4, index(39)));
    if e4 & 3 != 3 {
        return None;
    }
    let e3 = memory.read(entry_address(e4 & !0xFFF, index(30)));
    if e3 & 3 != 3 {
        return None;
    }
    let e2 = memory.read(entry_address(e3 & !0xFFF, index(21)));
    if e2 & 3 != 3 {
        return None;
    }
    if e2 & 0x80 != 0 {
        return Some((e2 & !0x1F_FFFF) + (va & 0x1F_FFFF));
    }
    let e1 = memory.read(entry_address(e2 & !0xFFF, index(12)));
    if e1 & 3 != 3 {
        return None;
    }
    Some((e1 & !0xFFF) + (va & 0xFFF))
}

#[test]
fn the_first_four_gib_are_identity_mapped() {
    let mut fw = Firmware::new(PageSource { next: 0x1000_0000 });
    let mut memory = PhysicalMemory::new();
    let pml4 = build_page_tables(&mut fw, &mut memory, &[]);
    assert_eq!(pml4, 0x1000_0000);
    assert_eq!(memory.frame_count(), 6);
    assert_eq!(fw.inner().next, 0x1000_0000 + 6 * 0x1000);
    assert_eq!(memory.frame(0), 0x1000_0000);
    assert_eq!(walk(&memory, pml4, 0), Some(0));
    assert_eq!(walk(&memory, pml4, 0x1234_5678), Some(0x1234_5678));
    assert_eq!(walk(&memory, pml4, 0xFFFF_FFFF), Some(0xFFFF_FFFF));
    assert_eq!(walk(&memory, pml4, 0x1_0000_0000), None);
    assert_eq!(walk(&memory, pml4, 0xFFFF_8000_0000_0000), None);
}

#[test]
fn segments_are_mapped_page_by_page() {
    let mut fw = Firmware::new(PageSource { next: 0x1000_0000 });
    let mut memory = PhysicalMemory::new();
    let mappings = [
        SegmentMapping { virtual_page_base: 0xFFFF_8000_0000_0000, physical_base_address: 0x40_0000, pages: 2 },
    ];
    let pml4 = build_page_tables(&mut fw, &mut memory, &mappings);
    assert_eq!(walk(&memory, pml4, 0xFFFF_8000_0000_0123), Some(0x40_0123));
    assert_eq!(walk(&memory, pml4, 0xFFFF_8000_0000_1FFF), Some(0x40_1FFF));
    assert_eq!(walk(&memory, pml4, 0xFFFF_8000_0000_2000), None);
    assert_eq!(walk(&memory, pml4, 0x40_0000), Some(0x40_0000));
}

#[test]
fn a_segment_in_low_memory_splits_its_huge_page() {
    let mut fw = Firmware::new(PageSource { next: 0x1000_0000 });
    let mut memory = PhysicalMemory::new();
    let mappings = [
        SegmentMapping { virtual_page_base: 0x20_0000, physical_base_address: 0x90_0000, pages: 1 },
    ];
    let pml4 = build_page_tables(&mut fw, &mut memory, &mappings);
    assert_eq!(walk(&memory, pml4, 0x20_0010), Some(0x90_0010));
    assert_eq!(walk(&memory, pml4, 0x20_1010), Some(0x20_1010));
    assert_eq!(walk(&memory, pml4, 0x3F_FFFF), Some(0x3F_FFFF));
    assert_eq!(walk(&memory, pml4, 0x40_0000), Some(0x40_0000));
}

#[test]
fn later_mappings_win_where_they_overlap() {
    let mut fw = Firmware::new(PageSource { next: 0x1000_0000 });
    let mut memory = PhysicalMemory::new();
    let mappings = [
        SegmentMapping { virtual_page_base: 0xFFFF_C000_0000_0000, physical_base_address: 0x50_0000, pages: 2 },
        SegmentMapping { virtual_page_base: 0xFFFF_C000_0000_1000, physical_base_address: 0x70_0000, pages: 1 },
    ];
    let pml4 = build_page_tables(&mut fw, &mut memory, &mappings);
    assert_eq!(walk(&memory, pml4, 0xFFFF_C000_0000_0008), Some(0x50_0008));
    assert_eq!(walk(&memory, pml4, 0xFFFF_C000_0000_1008), Some(0x70_0008));
}

#[test]
fn memory_reads_what_was_written() {
    let mut memory = PhysicalMemory::new();
    assert_eq!(memory.read(0x1000), 0);
    memory.write(0x1000, 42);
    assert_eq!(memory.read(0x1000), 42);
    assert_eq!(entry_address(0x2000, 3), 0x2018);
}

/// The entries the walk for `va` reads, top level first.
fn walk_entries(memory: &PhysicalMemory, pml4: u64, va: u64) -> Vec<u64> {
    let index = |shift: u64| ((va >> shift) & 0x1FF) as usize;
    let e4 = memory.read(entry_address(pml4, index(39)));
    let e3 = memory.read(entry_address(e4 & !0xFFF, index(30)));
    let e2 = memory.read(entry_address(e3 & !0xFFF, index(21)));
    if e2 & 0x80 != 0 {
        return vec![e4, e3, e2];
    }
    let e1 = memory.read(entry_address(e2 & !0xFFF, index(12)));
    vec![e4, e3, e2, e1]
}

#[test]
fn entries_carry_exactly_present_and_writable() {
    let mut fw = Firmware::new(PageSource { next: 0x100_0000 });
    let mut memory = PhysicalMemory::new();
    let mappings = [
        SegmentMapping { virtual_page_base: 0xFFFF_8000_0000_0000, physical_base_address: 0x40_0000, pages: 2 },
        SegmentMapping { virtual_page_base: 0x20_0000, physical_base_address: 0x90_0000, pages: 1 },
    ];
    let pml4 = build_page_tables(&mut fw, &mut memory, &mappings);
    let leaf = walk_entries(&memory, pml4, 0xFFFF_8000_0000_1234);
    assert_eq!(leaf.len(), 4);
    assert_eq!(leaf[3], 0x40_1000 | 3);
    assert!(leaf[..3].iter().all(|e| e & 0xFFF == 3));
    let split = walk_entries(&memory, pml4, 0x20_1000);
    assert_eq!(split.len(), 4);
    assert_eq!(split[3], 0x20_1000 | 3);
    assert_eq!(walk_entries(&memory, pml4, 0x20_0000)[3], 0x90_0000 | 3);
    let identity = walk_entries(&memory, pml4, 0x8060_0000);
    assert_eq!(identity.len(), 3);
    assert_eq!(identity[2], 0x8060_0000 | 0x83);
    assert!(identity[..2].iter().all(|e| e & 0xFFF == 3));
}
