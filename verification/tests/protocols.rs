use lib::allocator::BumpAllocator;
use lib::firmware::{Firmware, FirmwareInterface};
use lib::framebuffer::FramebufferInfo;
use lib::protocols::limine::{
    efi_type_to_limine, scan_and_fulfill_requests, scan_region, Limine, ACPI_NVS,
    ACPI_RECLAIMABLE, BOOTLOADER_RECLAIMABLE, RESERVED, USABLE,
};
use lib::protocols::linux::{prepare, Linux};
use lib::protocols::multiboot1::{self, efi_type_to_multiboot1, Multiboot1};
use lib::protocols::multiboot2::{self, efi_type_to_multiboot2, Multiboot2};
use lib::protocols::{detect_protocol, BootProtocol, Protocol};

fn put16(b: &mut [u8], at: usize, v: u16) {
    b[at..at + 2].copy_from_slice(&v.to_le_bytes());
}

fn put32(b: &mut [u8], at: usize, v: u32) {
    b[at..at + 4].copy_from_slice(&v.to_le_bytes());
}

fn put64(b: &mut [u8], at: usize, v: u64) {
    b[at..at + 8].copy_from_slice(&v.to_le_bytes());
}

fn get16(b: &[u8], at: usize) -> u16 {
    u16::from_le_bytes([b[at], b[at + 1]])
}

fn get32(b: &[u8], at: usize) -> u32 {
    u32::from_le_bytes(b[at..at + 4].try_into().unwrap())
}

fn get64(b: &[u8], at: usize) -> u64 {
    u64::from_le_bytes(b[at..at + 8].try_into().unwrap())
}

fn bzimage() -> Vec<u8> {
    let mut k = vec![0u8; 0x2000];
    put16(&mut k, 0x1FE, 0xAA55);
    put32(&mut k, 0x202, 0x53726448);
    k
}

fn limine_image() -> Vec<u8> {
    let mut k = vec![0u8; 0x100];
    put64(&mut k, 0x48, 0xf9562b2d5c95a6c8);
    put64(&mut k, 0x50, 0x6a7b384944536bdc);
    k
}

fn multiboot2_image() -> Vec<u8> {
    let mut k = vec![0u8; 0x200];
    let (magic, arch, len) = (0xE85250D6u32, 0u32, 16u32);
    put32(&mut k, 0x40, magic);
    put32(&mut k, 0x44, arch);
    put32(&mut k, 0x48, len);
    put32(&mut k, 0x4C, 0u32.wrapping_sub(magic).wrapping_sub(arch).wrapping_sub(len));
    k
}

fn multiboot1_image() -> Vec<u8> {
    let mut k = vec![0u8; 0x200];
    let (magic, flags) = (0x1BADB002u32, 3u32);
    put32(&mut k, 0x24, magic);
    put32(&mut k, 0x28, flags);
    put32(&mut k, 0x2C, 0u32.wrapping_sub(magic).wrapping_sub(flags));
    k
}

#[test]
fn each_protocol_is_recognised_by_its_header() {
    assert!(Linux::detect(&bzimage()));
    assert!(!Linux::detect(&bzimage()[..0x26F]));
    assert!(Limine::detect(&limine_image()));
    assert!(Multiboot2::detect(&multiboot2_image()));
    assert!(Multiboot1::detect(&multiboot1_image()));
    let mut bad = multiboot1_image();
    put32(&mut bad, 0x2C, 0);
    assert!(!Multiboot1::detect(&bad));
    let mut unaligned = vec![0u8; 0x100];
    put64(&mut unaligned, 0x44, 0xf9562b2d5c95a6c8);
    put64(&mut unaligned, 0x4C, 0x6a7b384944536bdc);
    assert!(!Limine::detect(&unaligned));
}

#[test]
fn headers_beyond_the_search_limit_are_not_seen() {
    let mut k = vec![0u8; 0x9000];
    let (magic, flags) = (0x1BADB002u32, 0u32);
    put32(&mut k, 0x2000, magic);
    put32(&mut k, 0x2004, flags);
    put32(&mut k, 0x2008, 0u32.wrapping_sub(magic));
    assert!(!Multiboot1::detect(&k));
    put32(&mut k, 0x1FF0, magic);
    put32(&mut k, 0x1FF4, flags);
    put32(&mut k, 0x1FF8, 0u32.wrapping_sub(magic));
    assert!(Multiboot1::detect(&k));
}

#[test]
fn protocols_are_tried_in_order() {
    assert_eq!(detect_protocol(&bzimage()), Some(Protocol::Linux));
    assert_eq!(detect_protocol(&limine_image()), Some(Protocol::Limine));
    assert_eq!(detect_protocol(&multiboot2_image()), Some(Protocol::Multiboot2));
    assert_eq!(detect_protocol(&multiboot1_image()), Some(Protocol::Multiboot1));
    assert_eq!(detect_protocol(&[0u8; 64]), None);
    let mut both = multiboot1_image();
    put64(&mut both, 0x100, 0xf9562b2d5c95a6c8);
    put64(&mut both, 0x108, 0x6a7b384944536bdc);
    assert_eq!(detect_protocol(&both), Some(Protocol::Limine));
}

#[test]
fn multiboot_headers_are_valid_when_they_sum_to_zero() {
    let h = multiboot1::Header { magic: 0x1BADB002, flags: 0, checksum: 0u32.wrapping_sub(0x1BADB002) };
    assert!(h.is_valid());
    let h = multiboot1::Header { magic: 0x1BADB002, flags: 1, checksum: 0u32.wrapping_sub(0x1BADB002) };
    assert!(!h.is_valid());
    let c = 0u32.wrapping_sub(0xE85250D6).wrapping_sub(24);
    let h = multiboot2::Header { magic: 0xE85250D6, architecture: 0, header_length: 24, checksum: c };
    assert!(h.is_valid());
    let h = multiboot2::Header { magic: 0xE85250D6, architecture: 4, header_length: 24, checksum: c };
    assert!(!h.is_valid());
}

#[test]
fn memory_types_translate() {
    assert_eq!(efi_type_to_limine(1), BOOTLOADER_RECLAIMABLE);
    assert_eq!(efi_type_to_limine(7), USABLE);
    assert_eq!(efi_type_to_limine(9), ACPI_RECLAIMABLE);
    assert_eq!(efi_type_to_limine(10), ACPI_NVS);
    assert_eq!(efi_type_to_limine(11), RESERVED);
    assert_eq!(efi_type_to_multiboot1(4), 1);
    assert_eq!(efi_type_to_multiboot1(9), 3);
    assert_eq!(efi_type_to_multiboot1(10), 4);
    assert_eq!(efi_type_to_multiboot1(0), 2);
    assert_eq!(efi_type_to_multiboot2(2), 1);
    assert_eq!(efi_type_to_multiboot2(6), 2);
}

/// Two descriptors, 48 bytes apart: low conventional memory and 127 MiB above 1 MiB.
fn memory_map() -> Vec<u8> {
    let mut m = vec![0u8; 96];
    put32(&mut m, 0, 7);
    put64(&mut m, 8, 0);
    put64(&mut m, 24, 0x9F);
    put32(&mut m, 48, 7);
    put64(&mut m, 56, 0x10_0000);
    put64(&mut m, 72, 0x7F00);
    m
}

#[test]
fn multiboot1_information_is_laid_out() {
    let mmap = memory_map();
    let mut b = multiboot1::BootInfoBuilder::new(0x10_0000, 0x10_0000);
    b.add_cmdline(b"");
    b.add_loader_name(b"boot");
    b.add_mmap(&mmap, 96, 48);
    b.add_framebuffer(0xE000_0000, 800, 600, 800, 16, 8, 0);
    let info = b.finish();
    assert_eq!(info.len(), 4096);
    assert_eq!(get32(&info, 0), 0x4 | 0x200 | 0x40 | 0x1 | 0x1000);
    assert_eq!(get32(&info, 16), 0x10_0000 + 120);
    assert_eq!(info[120], 0);
    assert_eq!(get32(&info, 64), 0x10_0000 + 121);
    assert_eq!(&info[121..126], b"boot\0");
    assert_eq!(get32(&info, 4), 636);
    assert_eq!(get32(&info, 8), 130048);
    assert_eq!(get32(&info, 48), 0x10_0000 + 126);
    assert_eq!(get32(&info, 44), 48);
    assert_eq!(get32(&info, 126), 20);
    assert_eq!(get64(&info, 130), 0);
    assert_eq!(get64(&info, 138), 0x9F000);
    assert_eq!(get32(&info, 146), 1);
    assert_eq!(get32(&info, 150), 20);
    assert_eq!(get64(&info, 154), 0x10_0000);
    assert_eq!(get64(&info, 162), 0x7F0_0000);
    assert_eq!(get32(&info, 170), 1);
    assert_eq!(get64(&info, 88), 0xE000_0000);
    assert_eq!(get32(&info, 96), 3200);
    assert_eq!(get32(&info, 100), 800);
    assert_eq!(get32(&info, 104), 600);
    assert_eq!(&info[108..116], &[32, 1, 16, 8, 8, 8, 0, 8]);
}

#[test]
fn multiboot2_information_is_laid_out() {
    let mmap = memory_map();
    let mut b = multiboot2::BootInfoBuilder::new(0x10_0000);
    b.add_commandline(b"");
    b.add_bootloader_name(b"boot");
    b.add_mmap(&mmap, 96, 48);
    b.add_framebuffer(0xE000_0000, 800, 600, 800, 0, 8, 16);
    b.add_efi_memory_map(&mmap, 96, 48, 1);
    let info = b.finish();
    assert_eq!(get32(&info, 0), 264);
    assert_eq!(get32(&info, 8), 1);
    assert_eq!(get32(&info, 12), 9);
    assert_eq!(info[16], 0);
    assert_eq!(get32(&info, 24), 2);
    assert_eq!(get32(&info, 28), 13);
    assert_eq!(&info[32..37], b"boot\0");
    assert_eq!(get32(&info, 40), 6);
    assert_eq!(get32(&info, 44), 64);
    assert_eq!(get32(&info, 48), 24);
    assert_eq!(get64(&info, 56), 0);
    assert_eq!(get64(&info, 64), 0x9F000);
    assert_eq!(get32(&info, 72), 1);
    assert_eq!(get64(&info, 80), 0x10_0000);
    assert_eq!(get64(&info, 88), 0x7F0_0000);
    assert_eq!(get32(&info, 104), 8);
    assert_eq!(get32(&info, 108), 38);
    assert_eq!(get64(&info, 112), 0xE000_0000);
    assert_eq!(get32(&info, 120), 3200);
    assert_eq!(get32(&info, 124), 800);
    assert_eq!(get32(&info, 128), 600);
    assert_eq!(&info[132..142], &[32, 1, 0, 0, 0, 8, 8, 8, 16, 8]);
    assert_eq!(get32(&info, 144), 17);
    assert_eq!(get32(&info, 148), 112);
    assert_eq!(get32(&info, 152), 48);
    assert_eq!(get32(&info, 156), 1);
    assert_eq!(&info[160..256], &mmap[..]);
    assert_eq!(get32(&info, 256), 0);
    assert_eq!(get32(&info, 260), 8);
    assert_eq!(info.len(), 264);
}

fn display() -> FramebufferInfo {
    FramebufferInfo { base: 0xE000_0000, width: 800, height: 600, pitch: 3200, red_pos: 16, green_pos: 8, blue_pos: 0 }
}

#[test]
fn multiboot1_boot_information_composes_the_builder_steps() {
    let mmap = memory_map();
    let info = multiboot1::boot_information(0x10_0000, b"boot", &display(), 800, &mmap, 96, 48).unwrap();
    let mut b = multiboot1::BootInfoBuilder::new(0x10_0000, 0x10_0000);
    b.add_cmdline(b"");
    b.add_loader_name(b"boot");
    b.add_mmap(&mmap, 96, 48);
    b.add_framebuffer(0xE000_0000, 800, 600, 800, 16, 8, 0);
    assert_eq!(info, b.finish());
    assert_eq!(get32(&info, 0), 0x4 | 0x200 | 0x40 | 0x1 | 0x1000);
    assert_eq!(&info[121..126], b"boot\0");
}

#[test]
fn multiboot1_boot_information_refuses_what_does_not_fit() {
    let mmap = memory_map();
    let fb = display();
    assert!(multiboot1::boot_information(0xFFFF_FF82, b"boot", &fb, 800, &mmap, 96, 48).is_none());
    assert!(multiboot1::boot_information(0xFFFF_FF81, b"boot", &fb, 800, &mmap, 96, 48).is_some());
    assert!(multiboot1::boot_information(0x10_0000, b"boot", &fb, 800, &mmap, 96, 0).is_none());
    assert!(multiboot1::boot_information(0x10_0000, b"boot", &fb, 800, &mmap[..64], 96, 48).is_none());
    assert!(multiboot1::boot_information(0x10_0000, b"boot", &fb, 0x4000_0000, &mmap, 96, 48).is_none());
    let mut huge = memory_map();
    put64(&mut huge, 8, 0x20_0000);
    put64(&mut huge, 24, 0x3FFF_FFFF);
    put64(&mut huge, 72, 0x3FFF_FFFF);
    assert!(multiboot1::boot_information(0x10_0000, b"boot", &fb, 800, &huge, 96, 48).is_none());
}

#[test]
fn multiboot2_boot_information_composes_the_builder_steps() {
    let mmap = memory_map();
    let info = multiboot2::boot_information(0x10_0000, b"boot", &display(), 800, &mmap, 96, 48, 1).unwrap();
    let mut b = multiboot2::BootInfoBuilder::new(0x10_0000);
    b.add_commandline(b"");
    b.add_bootloader_name(b"boot");
    b.add_mmap(&mmap, 96, 48);
    b.add_framebuffer(0xE000_0000, 800, 600, 800, 16, 8, 0);
    b.add_efi_memory_map(&mmap, 96, 48, 1);
    assert_eq!(info, b.finish());
    assert_eq!(get32(&info, 0), 264);
    assert_eq!(get32(&info, 8), 1);
    assert_eq!(get32(&info, 24), 2);
    assert_eq!(get32(&info, 40), 6);
    assert_eq!(get32(&info, 104), 8);
    assert_eq!(get32(&info, 144), 17);
}

#[test]
fn multiboot2_boot_information_refuses_what_does_not_fit() {
    let mmap = memory_map();
    let fb = display();
    assert!(multiboot2::boot_information(0x1_0000_0000, b"boot", &fb, 800, &mmap, 96, 48, 1).is_none());
    assert!(multiboot2::boot_information(0xFFFF_F000, b"boot", &fb, 800, &mmap, 96, 48, 1).is_some());
    assert!(multiboot2::boot_information(0x10_0000, b"boot", &fb, 800, &mmap, 96, 0, 1).is_none());
    assert!(multiboot2::boot_information(0x10_0000, b"boot", &fb, 800, &mmap[..64], 96, 48, 1).is_none());
    assert!(multiboot2::boot_information(0x10_0000, b"boot", &fb, 800, &mmap[..90], 96, 48, 1).is_none());
    assert!(multiboot2::boot_information(0x10_0000, b"boot", &fb, 0x4000_0000, &mmap, 96, 48, 1).is_none());
}

fn framebuffer() -> FramebufferInfo {
    FramebufferInfo { base: 0x1_E000_0000, width: 1024, height: 768, pitch: 4096, red_pos: 16, green_pos: 8, blue_pos: 0 }
}

fn limine_region() -> Vec<u8> {
    let mut r = vec![0u8; 256];
    put64(&mut r, 0, 0xf9562b2d5c95a6c8);
    put64(&mut r, 8, 0x6a7b384944536bdc);
    put64(&mut r, 16, 3);
    put64(&mut r, 64, 0xc7b1dd30df4c8b88);
    put64(&mut r, 72, 0x0a82e883a194f07b);
    put64(&mut r, 80, 0x9d5827dcd881dd75);
    put64(&mut r, 88, 0xa3148604f6fab11b);
    put64(&mut r, 128, 0xc7b1dd30df4c8b88);
    put64(&mut r, 136, 0x0a82e883a194f07b);
    put64(&mut r, 144, 0x67cf3d9d378a806f);
    put64(&mut r, 152, 0xe304acdfc50c3c62);
    r
}

#[test]
fn limine_requests_are_answered() {
    let mmap = memory_map();
    let mut region = limine_region();
    let mut alloc = BumpAllocator::new(0x8000);
    scan_region(&mut region, &mut alloc, &framebuffer(), &mmap, 96, 48);
    assert_eq!(get64(&region, 16), 0);
    assert_eq!(get64(&region, 104), 0x8048);
    assert_eq!(get64(&region, 168), 0x80A0);
    assert_eq!(alloc.current_offset(), 184);
    let info = alloc.into_bytes();
    assert_eq!(get64(&info, 0), 0x1_E000_0000);
    assert_eq!(get64(&info, 8), 1024);
    assert_eq!(get64(&info, 16), 768);
    assert_eq!(get64(&info, 24), 4096);
    assert_eq!(get16(&info, 32), 32);
    assert_eq!(&info[34..41], &[1, 8, 16, 8, 8, 8, 0]);
    assert_eq!(get64(&info, 64), 0x8000);
    assert_eq!((get64(&info, 72), get64(&info, 80), get64(&info, 88)), (0, 1, 0x8040));
    assert_eq!((get64(&info, 96), get64(&info, 104), get64(&info, 112)), (0, 0x9F000, USABLE));
    assert_eq!((get64(&info, 120), get64(&info, 128), get64(&info, 136)), (0x10_0000, 0x7F0_0000, USABLE));
    assert_eq!((get64(&info, 144), get64(&info, 152)), (0x8060, 0x8078));
    assert_eq!((get64(&info, 160), get64(&info, 168), get64(&info, 176)), (0, 2, 0x8090));
}

#[test]
fn limine_memory_map_is_ordered_by_base() {
    let forward = memory_map();
    let mut reversed = vec![0u8; 96];
    reversed[..48].copy_from_slice(&forward[48..]);
    reversed[48..].copy_from_slice(&forward[..48]);
    let mut region = limine_region();
    let mut alloc = BumpAllocator::new(0x8000);
    scan_region(&mut region, &mut alloc, &framebuffer(), &reversed, 96, 48);
    let info = alloc.into_bytes();
    assert_eq!((get64(&info, 96), get64(&info, 104)), (0, 0x9F000));
    assert_eq!((get64(&info, 120), get64(&info, 128)), (0x10_0000, 0x7F0_0000));
}

#[test]
fn limine_scan_covers_every_region_in_order() {
    let mmap = memory_map();
    let mut plain = vec![0u8; 64];
    plain[0] = 0xAA;
    let regions = vec![plain.clone(), limine_region()];
    let mut alloc = BumpAllocator::new(0x8000);
    let scanned = scan_and_fulfill_requests(regions, &mut alloc, &framebuffer(), &mmap, 96, 48);
    assert_eq!(scanned.len(), 2);
    assert_eq!(scanned[0], plain);
    assert_eq!(get64(&scanned[1], 104), 0x8048);
    assert_eq!(get64(&scanned[1], 168), 0x80A0);
}

struct OnePage {
    counts: Vec<usize>,
}

impl FirmwareInterface for OnePage {
    fn allocate_pages(&mut self, count: usize) -> u64 {
        self.counts.push(count);
        0x100_0000
    }

    fn try_allocate_pages_at(&mut self, _address: u64, _count: usize) -> Option<u64> {
        None
    }

    fn free_buffer(&mut self, _address: u64) {}
}

#[test]
fn linux_boot_parameters_are_filled_in() {
    let mut k = bzimage();
    k[0x1F1] = 0;
    k[0x211] = 0x20;
    put32(&mut k, 0x260, 0x3000);
    put32(&mut k, 0x264, 0x190);
    let mut params = vec![0u8; 4096];
    let mut fw = Firmware::new(OnePage { counts: Vec::new() });
    let load = prepare(&mut fw, &k, &mut params, 0x9_0000, &framebuffer());
    assert_eq!(load.pm_offset, 0xA00);
    assert_eq!(load.pm_size, 0x1600);
    assert_eq!(load.pages, 3);
    assert_eq!(fw.inner().counts, vec![3]);
    assert_eq!(load.pm_base, 0x100_0000);
    assert_eq!(load.entry, 0x100_0000 + 0x190 + 512);
    assert_eq!(get16(&params, 0x1FE), 0xAA55);
    assert_eq!(params[0x210], 0xFF);
    assert_eq!(params[0x211], 0xA1);
    assert_eq!(get16(&params, 0x224), 0xFE00);
    assert_eq!(get32(&params, 0x228), 0x9_0000);
    assert_eq!(params[0x0C], 0x70);
    assert_eq!(get16(&params, 0x0F), 1024);
    assert_eq!(get16(&params, 0x11), 768);
    assert_eq!(get16(&params, 0x13), 32);
    assert_eq!(get32(&params, 0x15), 0xE000_0000);
    assert_eq!(get32(&params, 0x19), 4096 * 768);
    assert_eq!(get16(&params, 0x21), 4096);
    assert_eq!(&params[0x23..0x29], &[8, 16, 8, 8, 8, 0]);
    assert_eq!(get32(&params, 0x37), 1);
}
