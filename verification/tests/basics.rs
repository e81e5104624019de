use lib::allocator::{overwrite, BumpAllocator};
use lib::bytes::{read_u16, read_u32, read_u64, read_u8, u16_to_bytes, u32_to_bytes, u64_to_bytes};
use lib::efi::{
    check, find_rsdp, guid_eq, is_acpi_guid, read_descriptor, real_mode_segment, rsdp_size,
    EfiConfigurationTable, EfiGraphicsOutputModeInformation, EfiGuid, EFI_SUCCESS,
};
use lib::framebuffer::{pixel_positions, FramebufferInfo};
use lib::gdt::{Gdtr, GDT32_ENTRIES};
use lib::segment_mapping::{virtual_to_physical_address, SegmentMapping};

#[test]
fn integers_encode_little_endian() {
    assert_eq!(u16_to_bytes(0x1234), vec![0x34, 0x12]);
    assert_eq!(u32_to_bytes(0xDEADBEEF), vec![0xEF, 0xBE, 0xAD, 0xDE]);
    assert_eq!(
        u64_to_bytes(0x0102030405060708),
        vec![8, 7, 6, 5, 4, 3, 2, 1]
    );
}

#[test]
fn integers_round_trip_through_bytes() {
    let b = u64_to_bytes(0xFEDC_BA98_7654_3210);
    assert_eq!(read_u64(&b, 0), 0xFEDC_BA98_7654_3210);
    let b = u32_to_bytes(0x8000_0001);
    assert_eq!(read_u32(&b, 0), 0x8000_0001);
    let b = u16_to_bytes(0xBEEF);
    assert_eq!(read_u16(&b, 0), 0xBEEF);
    let s = [1u8, 2, 3, 4, 5, 6, 7, 8, 9];
    assert_eq!(read_u8(&s, 8), 9);
    assert_eq!(read_u16(&s, 1), 0x0302);
    assert_eq!(read_u32(&s, 5), 0x0908_0706);
}

#[test]
fn overwrite_replaces_only_the_given_bytes() {
    let mut v = vec![0u8; 6];
    overwrite(&mut v, 2, &[7, 8]);
    assert_eq!(v, vec![0, 0, 7, 8, 0, 0]);
}

#[test]
fn bump_allocator_aligns_and_skips() {
    let mut a = BumpAllocator::new(0x1000);
    assert_eq!(a.current_offset(), 0);
    a.skip(3);
    assert_eq!(a.current_offset(), 3);
    a.align_to(8);
    assert_eq!(a.current_offset(), 8);
    a.align_to(8);
    assert_eq!(a.current_offset(), 8);
    a.skip(1);
    a.align_to(4);
    assert_eq!(a.current_offset(), 12);
    assert_eq!(a.ptr_at_offset(12), 0x100C);
}

#[test]
fn bump_allocator_hands_out_aligned_regions() {
    let mut a = BumpAllocator::new(0);
    a.skip(1);
    let first = a.alloc_raw(10, 8);
    assert_eq!(first, 8);
    assert_eq!(a.current_offset(), 18);
    let second = a.alloc_raw(4, 4);
    assert_eq!(second, 20);
    assert_eq!(a.current_offset(), 24);
}

#[test]
fn bump_allocator_writes_values_at_their_alignment() {
    let mut a = BumpAllocator::new(0);
    a.write_u8(0xAA);
    a.write_u16(0x1122);
    a.write_u32(0x33445566);
    a.write_u64(0x778899AABBCCDDEE);
    assert_eq!(a.current_offset(), 16);
    let bytes = a.into_bytes();
    assert_eq!(
        bytes,
        vec![
            0xAA, 0, 0x22, 0x11, 0x66, 0x55, 0x44, 0x33, 0xEE, 0xDD, 0xCC, 0xBB, 0xAA, 0x99,
            0x88, 0x77
        ]
    );
}

#[test]
fn bump_allocator_write_at_grows_with_zeros() {
    let mut a = BumpAllocator::new(0);
    a.write_at(4, &[9, 9]);
    assert_eq!(a.bytes_slice(), &[0, 0, 0, 0, 9, 9]);
    assert_eq!(a.current_offset(), 0);
    a.append(&[1, 2, 3]);
    assert_eq!(a.bytes_slice(), &[1, 2, 3, 0, 9, 9]);
    assert_eq!(a.current_offset(), 3);
}

#[test]
fn check_accepts_only_success() {
    assert_eq!(check(EFI_SUCCESS), Ok(()));
    assert_eq!(check(0x8000_0000_0000_000E), Err(0x8000_0000_0000_000E));
}

fn acpi20() -> EfiGuid {
    EfiGuid {
        data1: 0x8868e871,
        data2: 0xe4f1,
        data3: 0x11d3,
        data4: [0xbc, 0x22, 0x00, 0x80, 0xc7, 0x3c, 0x88, 0x81],
    }
}

fn acpi10() -> EfiGuid {
    EfiGuid {
        data1: 0xeb9d2d30,
        data2: 0x2d88,
        data3: 0x11d3,
        data4: [0x9a, 0x16, 0x00, 0x90, 0x27, 0x3f, 0xc1, 0x4d],
    }
}

fn other_guid() -> EfiGuid {
    EfiGuid { data1: 1, data2: 2, data3: 3, data4: [4, 5, 6, 7, 8, 9, 10, 11] }
}

#[test]
fn guids_compare_by_every_field() {
    assert!(guid_eq(&acpi20(), &acpi20()));
    assert!(!guid_eq(&acpi20(), &acpi10()));
    let mut g = acpi20();
    g.data4[7] = 0;
    assert!(!guid_eq(&acpi20(), &g));
}

#[test]
fn acpi_guids_are_recognised() {
    assert!(is_acpi_guid(&acpi20()));
    assert!(is_acpi_guid(&acpi10()));
    assert!(!is_acpi_guid(&other_guid()));
}

#[test]
fn rsdp_is_the_first_acpi_table() {
    let tables = vec![
        EfiConfigurationTable { vendor_guid: other_guid(), vendor_table: 0x1000 },
        EfiConfigurationTable { vendor_guid: acpi10(), vendor_table: 0x2000 },
        EfiConfigurationTable { vendor_guid: acpi20(), vendor_table: 0x3000 },
    ];
    assert_eq!(find_rsdp(&tables), Some(0x2000));
    assert_eq!(find_rsdp(&tables[..1]), None);
    let null_first = vec![
        EfiConfigurationTable { vendor_guid: acpi20(), vendor_table: 0 },
        EfiConfigurationTable { vendor_guid: acpi10(), vendor_table: 0x2000 },
    ];
    assert_eq!(find_rsdp(&null_first), None);
}

#[test]
fn rsdp_size_follows_revision() {
    assert_eq!(rsdp_size(0), 20);
    assert_eq!(rsdp_size(1), 20);
    assert_eq!(rsdp_size(2), 36);
    assert_eq!(rsdp_size(6), 36);
}

#[test]
fn real_mode_segment_shifts_and_truncates() {
    assert_eq!(real_mode_segment(0x9F000), 0x9F00);
    assert_eq!(real_mode_segment(0x12_3456_7890), 0x6789);
}

#[test]
fn descriptors_are_read_at_their_stride() {
    let mut mmap = vec![0u8; 96];
    mmap[48..52].copy_from_slice(&7u32.to_le_bytes());
    mmap[56..64].copy_from_slice(&0x10_0000u64.to_le_bytes());
    mmap[72..80].copy_from_slice(&0x20u64.to_le_bytes());
    assert_eq!(read_descriptor(&mmap, 48, 1), (7, 0x10_0000, 0x20));
}

#[test]
fn pixel_formats_give_channel_positions() {
    assert_eq!(pixel_positions(0), Some((0, 8, 16)));
    assert_eq!(pixel_positions(1), Some((16, 8, 0)));
    assert_eq!(pixel_positions(2), None);
}

#[test]
fn framebuffer_from_mode_uses_four_bytes_per_pixel() {
    let info = EfiGraphicsOutputModeInformation {
        version: 0,
        horizontal_resolution: 1024,
        vertical_resolution: 768,
        pixel_format: 1,
        pixel_bitmask: [0; 4],
        pixels_per_scan_line: 1280,
    };
    let fb = FramebufferInfo::from_mode(0xE000_0000, &info).unwrap();
    assert_eq!(fb.base, 0xE000_0000);
    assert_eq!(fb.width, 1024);
    assert_eq!(fb.height, 768);
    assert_eq!(fb.pitch, 5120);
    assert_eq!((fb.red_pos, fb.green_pos, fb.blue_pos), (16, 8, 0));
    let bad = EfiGraphicsOutputModeInformation { pixel_format: 3, ..info };
    assert!(FramebufferInfo::from_mode(0, &bad).is_none());
}

#[test]
fn gdtr_limit_is_last_byte_offset() {
    let g = Gdtr::for_table(0x5000, GDT32_ENTRIES);
    assert_eq!(g.limit, 23);
    assert_eq!(g.base, 0x5000);
}

#[test]
fn virtual_addresses_resolve_through_the_first_covering_mapping() {
    let mappings = vec![
        SegmentMapping { virtual_page_base: 0xFFFF_8000_0000_0000, physical_base_address: 0x20_0000, pages: 2 },
        SegmentMapping { virtual_page_base: 0xFFFF_8000_0000_1000, physical_base_address: 0x90_0000, pages: 4 },
    ];
    assert_eq!(virtual_to_physical_address(0xFFFF_8000_0000_0010, &mappings), 0x20_0010);
    assert_eq!(virtual_to_physical_address(0xFFFF_8000_0000_1234, &mappings), 0x20_1234);
    assert_eq!(virtual_to_physical_address(0xFFFF_8000_0000_2000, &mappings), 0x90_1000);
    assert_eq!(virtual_to_physical_address(0xFFFF_8000_0000_5000, &mappings), 0);
    assert_eq!(virtual_to_physical_address(0x1000, &[]), 0);
}
