use lib::elf::{load_elf, LoadStep};
use lib::firmware::{Firmware, FirmwareInterface};
use lib::paging::{build_page_tables, entry_address, PhysicalMemory};

/// Hands out distinct page-aligned pages one after another; never grants a fixed address.
struct Pages {
    next: u64,
}

impl FirmwareInterface for Pages {
    fn allocate_pages(&mut self, count: usize) -> u64 {
        let a = self.next;
        self.next += count as u64 * 0x1000;
        a
    }

    fn try_allocate_pages_at(&mut self, _address: u64, _count: usize) -> Option<u64> {
        None
    }

    fn free_buffer(&mut self, _address: u64) {}
}

fn walk(memory: &PhysicalMemory, pml4: u64, va: u64) -> Option<u64> {
    let mut table = pml4;
    for (level, shift) in [39u64, 30, 21, 12].iter().enumerate() {
        let e = memory.read(entry_address(table, ((va >> shift) & 0x1FF) as usize));
        if e & 1 == 0 {
            return None;
        }
        if level == 2 && e & 0x80 != 0 {
            return Some((e & !0x1F_FFFF) + (va & 0x1F_FFFF));
        }
        table = e & !0xFFF;
    }
    Some(table + (va & 0xFFF))
}

fn put(b: &mut [u8], at: usize, v: &[u8]) {
    b[at..at + v.len()].copy_from_slice(v);
}

/// A 64-bit image with one segment at a higher-half address and one relocation in it.
fn image() -> Vec<u8> {
    let mut b = vec![0u8; 0x800];
    put(&mut b, 0, &[0x7F, b'E', b'L', b'F', 2, 1]);
    put(&mut b, 24, &0xFFFF_FFFF_8000_0010u64.to_le_bytes());
    put(&mut b, 32, &64u64.to_le_bytes());
    put(&mut b, 54, &56u16.to_le_bytes());
    put(&mut b, 56, &1u16.to_le_bytes());
    put(&mut b, 64, &1u32.to_le_bytes());
    put(&mut b, 72, &0x200u64.to_le_bytes());
    put(&mut b, 80, &0xFFFF_FFFF_8000_0000u64.to_le_bytes());
    put(&mut b, 96, &0x100u64.to_le_bytes());
    put(&mut b, 104, &0x3000u64.to_le_bytes());
    put(&mut b, 40, &0x400u64.to_le_bytes());
    put(&mut b, 58, &64u16.to_le_bytes());
    put(&mut b, 60, &1u16.to_le_bytes());
    put(&mut b, 0x400 + 4, &4u32.to_le_bytes());
    put(&mut b, 0x400 + 24, &0x600u64.to_le_bytes());
    put(&mut b, 0x400 + 32, &24u64.to_le_bytes());
    put(&mut b, 0x400 + 56, &24u64.to_le_bytes());
    put(&mut b, 0x600, &0xFFFF_FFFF_8000_2008u64.to_le_bytes());
    put(&mut b, 0x608, &8u64.to_le_bytes());
    put(&mut b, 0x610, &0xFFFF_FFFF_8000_0100u64.to_le_bytes());
    b
}

#[test]
fn the_page_tables_map_the_entry_to_where_the_segment_was_copied() {
    let mut fw = Firmware::new(Pages { next: 0x80_0000 });
    let k = load_elf(&mut fw, &image()).unwrap();
    let copied_to = match k.steps[1] {
        LoadStep::Copy { address, .. } => address,
        _ => panic!("the second step copies the segment"),
    };
    let mut memory = PhysicalMemory::new();
    let pml4 = build_page_tables(&mut fw, &mut memory, &k.mappings);
    assert_eq!(walk(&memory, pml4, 0xFFFF_FFFF_8000_0000), Some(copied_to));
    assert_eq!(walk(&memory, pml4, k.entry), Some(copied_to + 0x10));
    assert_eq!(walk(&memory, pml4, 0x80_0000), Some(0x80_0000));
}

#[test]
fn relocations_land_inside_the_loaded_segment() {
    let mut fw = Firmware::new(Pages { next: 0x80_0000 });
    let k = load_elf(&mut fw, &image()).unwrap();
    assert_eq!(k.relocations.len(), 1);
    let m = k.mappings[0];
    let r = k.relocations[0];
    assert!(m.physical_base_address <= r.address);
    assert!(r.address < m.physical_base_address + m.pages as u64 * 0x1000);
    assert_eq!(r.address, m.physical_base_address + 0x2008);
    assert_eq!(r.value, 0xFFFF_FFFF_8000_0100);
}
