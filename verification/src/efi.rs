//! The UEFI values the loader reads and checks: status codes, memory-map
//! descriptors, GUIDs and the plain-data structures it takes fields from.
use vstd::prelude::*;
use crate::bytes::{bytes_value, lemma_le_values, le32, le64, read_u32, read_u64};

verus! {

/// A UEFI status code.
pub type EfiStatus = usize;

pub const EFI_SUCCESS: EfiStatus = 0;

pub const EFI_LOADER_CODE: u32 = 1;
pub const EFI_LOADER_DATA: u32 = 2;
pub const EFI_BOOT_SERVICES_CODE: u32 = 3;
pub const EFI_BOOT_SERVICES_DATA: u32 = 4;
pub const EFI_CONVENTIONAL_MEMORY: u32 = 7;
pub const EFI_ACPI_RECLAIM_MEMORY: u32 = 9;
pub const EFI_ACPI_MEMORY_NVS: u32 = 10;

pub const EFI_ALLOCATE_ANY_PAGES: u32 = 0;
pub const EFI_ALLOCATE_MAX_ADDRESS: u32 = 1;
pub const EFI_ALLOCATE_ADDRESS: u32 = 2;

pub const EFI_OPEN_PROTOCOL_BY_HANDLE_PROTOCOL: u32 = 0x01;
pub const EFI_OPEN_PROTOCOL_GET_PROTOCOL: u32 = 0x02;
pub const EFI_OPEN_PROTOCOL_TEST_PROTOCOL: u32 = 0x04;
pub const EFI_OPEN_PROTOCOL_BY_CHILD_CONTROLLER: u32 = 0x08;
pub const EFI_OPEN_PROTOCOL_BY_DRIVER: u32 = 0x10;
pub const EFI_OPEN_PROTOCOL_EXCLUSIVE: u32 = 0x20;

pub const EFI_FILE_MODE_READ: u64 = 0x1;
pub const EFI_FILE_MODE_WRITE: u64 = 0x2;
pub const EFI_FILE_MODE_CREATE: u64 = 0x8000000000000000;

pub const EFI_FILE_READ_ONLY: u64 = 0x1;
pub const EFI_FILE_HIDDEN: u64 = 0x2;
pub const EFI_FILE_SYSTEM: u64 = 0x4;
pub const EFI_FILE_DIRECTORY: u64 = 0x10;

/// Whether a firmware call succeeded: `Ok` on `EFI_SUCCESS`, else the
/// status as the error. The caller stops the machine on an error.
pub fn check(status: EfiStatus) -> (r: Result<(), EfiStatus>)
    ensures
        r == if status == EFI_SUCCESS {
            Ok::<(), EfiStatus>(())
        } else {
            Err::<(), EfiStatus>(status)
        },
{
    if status != EFI_SUCCESS {
        Err(status)
    } else {
        Ok(())
    }
}

/// A UEFI GUID.
#[derive(Copy, Clone)]
pub struct EfiGuid {
    pub data1: u32,
    pub data2: u16,
    pub data3: u16,
    pub data4: [u8; 8],
}

/// Whether two GUIDs are the same.
pub fn guid_eq(a: &EfiGuid, b: &EfiGuid) -> (same: bool)
    ensures
        same == (a.data1 == b.data1 && a.data2 == b.data2 && a.data3 == b.data3 && a.data4@
            == b.data4@),
{
    if a.data1 != b.data1 || a.data2 != b.data2 || a.data3 != b.data3 {
        return false;
    }
    let mut i: usize = 0;
    while i < 8
        invariant
            i <= 8,
            a.data4@.len() == 8,
            b.data4@.len() == 8,
            forall|j: int| 0 <= j < i ==> a.data4@[j] == b.data4@[j],
        decreases 8 - i,
    {
        if a.data4[i] != b.data4[i] {
            return false;
        }
        i = i + 1;
    }
    assert(a.data4@ =~= b.data4@);
    true
}

/// A UEFI time stamp.
#[derive(Copy, Clone)]
pub struct EfiTime {
    pub year: u16,
    pub month: u8,
    pub day: u8,
    pub hour: u8,
    pub minute: u8,
    pub second: u8,
    pub pad1: u8,
    pub nanosecond: u32,
    pub time_zone: i16,
    pub daylight: u8,
    pub pad2: u8,
}

/// What `GetInfo` reports of a file; the loader reads `file_size`.
#[derive(Copy, Clone)]
pub struct EfiFileInfo {
    pub size: u64,
    pub file_size: u64,
    pub physical_size: u64,
    pub create_time: EfiTime,
    pub last_access_time: EfiTime,
    pub modification_time: EfiTime,
    pub attribute: u64,
    pub file_name: [u16; 32],
}

/// A graphics mode as the Graphics Output Protocol describes it.
#[derive(Copy, Clone)]
pub struct EfiGraphicsOutputModeInformation {
    pub version: u32,
    pub horizontal_resolution: u32,
    pub vertical_resolution: u32,
    pub pixel_format: u32,
    pub pixel_bitmask: [u32; 4],
    pub pixels_per_scan_line: u32,
}

/// The memory type of descriptor `i` in a UEFI memory map whose descriptors
/// are `size` bytes apart.
pub open spec fn descriptor_type(mmap: Seq<u8>, size: usize, i: int) -> u32 {
    le32(mmap, i * size)
}

/// The physical start of descriptor `i`.
pub open spec fn descriptor_start(mmap: Seq<u8>, size: usize, i: int) -> u64 {
    le64(mmap, i * size + 8)
}

/// The number of 4 KiB pages descriptor `i` covers.
pub open spec fn descriptor_pages(mmap: Seq<u8>, size: usize, i: int) -> u64 {
    le64(mmap, i * size + 24)
}

/// Descriptor `i` starts `i * size` bytes into the map and holds its type in
/// its first 4 bytes, its physical start at +8 and its page count at +24
/// (8 bytes each), little-endian.
pub proof fn lemma_descriptor_layout(mmap: Seq<u8>, size: usize, i: int)
    ensures
        descriptor_type(mmap, size, i) == bytes_value(mmap, i * size, 4),
        descriptor_start(mmap, size, i) == bytes_value(mmap, i * size + 8, 8),
        descriptor_pages(mmap, size, i) == bytes_value(mmap, i * size + 24, 8),
{
    lemma_le_values(mmap, i * size);
    lemma_le_values(mmap, i * size + 8);
    lemma_le_values(mmap, i * size + 24);
}

/// The number of descriptors in the first `mmap_size` bytes.
pub open spec fn descriptor_count(mmap_size: usize, size: usize) -> int {
    mmap_size as int / size as int
}

/// Every descriptor among the first `mmap_size` bytes can be read in full
/// (type, start and page count) from `mmap`.
pub open spec fn descriptors_readable(mmap: Seq<u8>, mmap_size: usize, size: usize) -> bool {
    &&& size > 0
    &&& descriptor_count(mmap_size, size) > 0 ==> (descriptor_count(mmap_size, size) - 1) * size
        + 32 <= mmap.len()
}

/// Each descriptor of a readable map lies within it.
pub proof fn lemma_descriptor_readable(mmap: Seq<u8>, mmap_size: usize, size: usize, i: int)
    requires
        descriptors_readable(mmap, mmap_size, size),
        0 <= i < descriptor_count(mmap_size, size),
    ensures
        i * size + 32 <= mmap.len(),
{
    let c = descriptor_count(mmap_size, size);
    assert(i * size <= (c - 1) * size) by (nonlinear_arith)
        requires
            0 <= i <= c - 1,
            size > 0,
    ;
}

/// Reads the type, physical start and page count of descriptor `i`.
pub fn read_descriptor(mmap: &[u8], size: usize, i: usize) -> (d: (u32, u64, u64))
    requires
        i * size + 32 <= mmap.len(),
    ensures
        d.0 == descriptor_type(mmap@, size, i as int),
        d.1 == descriptor_start(mmap@, size, i as int),
        d.2 == descriptor_pages(mmap@, size, i as int),
{
    let off = i * size;
    (read_u32(mmap, off), read_u64(mmap, off + 8), read_u64(mmap, off + 24))
}

/// An entry of the firmware's configuration table: the GUID that names a
/// table and the table's physical address.
#[derive(Copy, Clone)]
pub struct EfiConfigurationTable {
    pub vendor_guid: EfiGuid,
    pub vendor_table: u64,
}

/// The GUID of the ACPI 2.0 (or later) RSDP.
pub open spec fn is_acpi_20_guid(g: EfiGuid) -> bool {
    g.data1 == 0x8868e871 && g.data2 == 0xe4f1 && g.data3 == 0x11d3 && g.data4@ == seq![
        0xbcu8,
        0x22u8,
        0x00u8,
        0x80u8,
        0xc7u8,
        0x3cu8,
        0x88u8,
        0x81u8,
    ]
}

/// The GUID of the ACPI 1.0 RSDP.
pub open spec fn is_acpi_10_guid(g: EfiGuid) -> bool {
    g.data1 == 0xeb9d2d30 && g.data2 == 0x2d88 && g.data3 == 0x11d3 && g.data4@ == seq![
        0x9au8,
        0x16u8,
        0x00u8,
        0x90u8,
        0x27u8,
        0x3fu8,
        0xc1u8,
        0x4du8,
    ]
}

/// Whether a GUID names an ACPI RSDP, of version 2.0 or 1.0.
pub fn is_acpi_guid(g: &EfiGuid) -> (acpi: bool)
    ensures
        acpi == (is_acpi_20_guid(*g) || is_acpi_10_guid(*g)),
{
    let d = g.data4;
    let v20 = g.data1 == 0x8868e871 && g.data2 == 0xe4f1 && g.data3 == 0x11d3 && d[0] == 0xbc
        && d[1] == 0x22 && d[2] == 0x00 && d[3] == 0x80 && d[4] == 0xc7 && d[5] == 0x3c && d[6]
        == 0x88 && d[7] == 0x81;
    let v10 = g.data1 == 0xeb9d2d30 && g.data2 == 0x2d88 && g.data3 == 0x11d3 && d[0] == 0x9a
        && d[1] == 0x16 && d[2] == 0x00 && d[3] == 0x90 && d[4] == 0x27 && d[5] == 0x3f && d[6]
        == 0xc1 && d[7] == 0x4d;
    assert(v20 == is_acpi_20_guid(*g)) by {
        if v20 {
            assert(d@ =~= seq![0xbcu8, 0x22u8, 0x00u8, 0x80u8, 0xc7u8, 0x3cu8, 0x88u8, 0x81u8]);
        }
    }
    assert(v10 == is_acpi_10_guid(*g)) by {
        if v10 {
            assert(d@ =~= seq![0x9au8, 0x16u8, 0x00u8, 0x90u8, 0x27u8, 0x3fu8, 0xc1u8, 0x4du8]);
        }
    }
    v20 || v10
}

/// The index of the first configuration table from `i` on that is an ACPI
/// RSDP; `tables.len()` when none is.
pub open spec fn first_acpi_table(tables: Seq<EfiConfigurationTable>, i: int) -> int
    decreases tables.len() - i,
{
    if i < 0 || i >= tables.len() {
        tables.len() as int
    } else if is_acpi_20_guid(tables[i].vendor_guid) || is_acpi_10_guid(tables[i].vendor_guid) {
        i
    } else {
        first_acpi_table(tables, i + 1)
    }
}

/// The address of the RSDP: that of the first ACPI table in the
/// configuration table; `None` when there is none or its address is 0.
pub open spec fn spec_rsdp(tables: Seq<EfiConfigurationTable>) -> Option<u64> {
    let i = first_acpi_table(tables, 0);
    if i < tables.len() && tables[i].vendor_table != 0 {
        Some(tables[i].vendor_table)
    } else {
        None
    }
}

/// What the first ACPI table from `i` on is.
proof fn lemma_first_acpi_table(tables: Seq<EfiConfigurationTable>, i: int)
    requires
        0 <= i <= tables.len(),
    ensures
        i <= first_acpi_table(tables, i) <= tables.len(),
        first_acpi_table(tables, i) < tables.len() ==> is_acpi_20_guid(
            tables[first_acpi_table(tables, i)].vendor_guid,
        ) || is_acpi_10_guid(tables[first_acpi_table(tables, i)].vendor_guid),
        forall|j: int|
            i <= j < first_acpi_table(tables, i) ==> !is_acpi_20_guid((#[trigger] tables[j]).vendor_guid)
                && !is_acpi_10_guid(tables[j].vendor_guid),
    decreases tables.len() - i,
{
    if i < tables.len() && !(is_acpi_20_guid(tables[i].vendor_guid) || is_acpi_10_guid(
        tables[i].vendor_guid,
    )) {
        lemma_first_acpi_table(tables, i + 1);
    }
}

/// The RSDP is the address of the first configuration table named by an
/// ACPI GUID (2.0 or 1.0), whichever comes first: when one is found, it is
/// that table's nonzero address and no table before it is ACPI; when none is
/// found, either no table is ACPI or the first ACPI table's address is 0.
pub proof fn lemma_rsdp_first_acpi(tables: Seq<EfiConfigurationTable>)
    ensures
        spec_rsdp(tables) matches Some(a) ==> exists|i: int|
            0 <= i < tables.len() && (is_acpi_20_guid((#[trigger] tables[i]).vendor_guid)
                || is_acpi_10_guid(tables[i].vendor_guid)) && tables[i].vendor_table == a && a != 0
                && forall|j: int|
                0 <= j < i ==> !is_acpi_20_guid((#[trigger] tables[j]).vendor_guid)
                    && !is_acpi_10_guid(tables[j].vendor_guid),
        spec_rsdp(tables) is None ==> forall|i: int|
            0 <= i < tables.len() && (is_acpi_20_guid((#[trigger] tables[i]).vendor_guid)
                || is_acpi_10_guid(tables[i].vendor_guid)) ==> tables[i].vendor_table == 0
                || exists|j: int|
                0 <= j < i && (is_acpi_20_guid((#[trigger] tables[j]).vendor_guid)
                    || is_acpi_10_guid(tables[j].vendor_guid)),
{
    lemma_first_acpi_table(tables, 0);
    let f = first_acpi_table(tables, 0);
    if f < tables.len() {
        assert(tables[f] == tables[f]);
    }
    assert forall|i: int|
        0 <= i < tables.len() && (is_acpi_20_guid((#[trigger] tables[i]).vendor_guid)
            || is_acpi_10_guid(tables[i].vendor_guid)) && spec_rsdp(tables) is None implies tables[i].vendor_table
        == 0 || exists|j: int|
        0 <= j < i && (is_acpi_20_guid((#[trigger] tables[j]).vendor_guid) || is_acpi_10_guid(
            tables[j].vendor_guid,
        )) by {
        if i > f {
            assert(0 <= f < i);
            assert(is_acpi_20_guid(tables[f].vendor_guid) || is_acpi_10_guid(tables[f].vendor_guid));
        }
    }
}

/// Finds the RSDP in the firmware's configuration table.
pub fn find_rsdp(tables: &[EfiConfigurationTable]) -> (rsdp: Option<u64>)
    ensures
        rsdp == spec_rsdp(tables@),
{
    let mut i: usize = 0;
    while i < tables.len()
        invariant
            i <= tables@.len(),
            first_acpi_table(tables@, 0) == first_acpi_table(tables@, i as int),
        decreases tables@.len() - i,
    {
        if is_acpi_guid(&tables[i].vendor_guid) {
            let table = tables[i].vendor_table;
            if table == 0 {
                return None;
            }
            return Some(table);
        }
        i = i + 1;
    }
    None
}

/// Where the RSDP holds its revision.
pub const RSDP_REVISION_OFFSET: usize = 15;
/// The first revision with the extended (ACPI 2.0) RSDP.
pub const RSDP_V2_REVISION: u8 = 2;
/// The size of an ACPI 1.0 RSDP.
pub const RSDP_V1_SIZE: usize = 20;
/// The size of an ACPI 2.0 RSDP.
pub const RSDP_V2_SIZE: usize = 36;
/// The highest address the RSDP copy may take, so that real-mode code finds it.
pub const RSDP_MAX_ADDRESS: u64 = 0x9FFFF;
/// Where the BIOS data area holds the segment of the extended BIOS data area.
pub const EBDA_SEGMENT_PTR: u64 = 0x40E;
/// A real-mode segment is an address shifted right by this much.
pub const REAL_MODE_SEGMENT_SHIFT: u64 = 4;

/// The size of an RSDP of a revision: the extended one from revision 2 on.
/// An ACPI 1.0 RSDP is 20 bytes; from revision 2 on it is 36.
pub fn rsdp_size(revision: u8) -> (size: usize)
    ensures
        size == if revision >= 2 {
            36usize
        } else {
            20usize
        },
        size == if revision >= RSDP_V2_REVISION {
            RSDP_V2_SIZE
        } else {
            RSDP_V1_SIZE
        },
{
    if revision >= RSDP_V2_REVISION {
        RSDP_V2_SIZE
    } else {
        RSDP_V1_SIZE
    }
}

/// The real-mode segment of an address, truncated to 16 bits.
pub fn real_mode_segment(address: u64) -> (segment: u16)
    ensures
        segment == (address / 16) % 0x1_0000,
{
    let shifted = address >> REAL_MODE_SEGMENT_SHIFT;
    assert(shifted == address / 16) by (bit_vector)
        requires
            shifted == address >> 4u64,
    ;
    assert((shifted as u16) == shifted % 0x1_0000) by (bit_vector);
    shifted as u16
}

/// Every descriptor's length in bytes fits in 64 bits.
pub open spec fn lengths_fit(mmap: Seq<u8>, mmap_size: usize, size: usize) -> bool {
    forall|i: int|
        0 <= i < descriptor_count(mmap_size, size) ==> #[trigger] descriptor_pages(mmap, size, i)
            * 0x1000 <= u64::MAX
}

/// Whether the boot-information builders can take the memory map: every
/// descriptor among the first `mmap_size` bytes can be read in full and its
/// length in bytes fits in 64 bits.
pub fn memory_map_usable(mmap: &[u8], mmap_size: usize, size: usize) -> (usable: bool)
    ensures
        usable == (descriptors_readable(mmap@, mmap_size, size) && lengths_fit(mmap@, mmap_size, size)),
{
    if size == 0 {
        return false;
    }
    let count = mmap_size / size;
    if count > 0 {
        assert((count - 1) * size <= mmap_size) by (nonlinear_arith)
            requires
                count == mmap_size / size,
                size > 0,
                count >= 1,
        ;
        let last = (count - 1) * size;
        if mmap.len() < 32 || last > mmap.len() - 32 {
            return false;
        }
    }
    proof {
        assert(count as int == descriptor_count(mmap_size, size));
    }
    let mut i: usize = 0;
    while i < count
        invariant
            i <= count,
            count == descriptor_count(mmap_size, size),
            descriptors_readable(mmap@, mmap_size, size),
            forall|j: int| 0 <= j < i ==> #[trigger] descriptor_pages(mmap@, size, j) * 0x1000 <= u64::MAX,
        decreases count - i,
    {
        proof {
            lemma_descriptor_readable(mmap@, mmap_size, size, i as int);
        }
        let (_, _, pages) = read_descriptor(mmap, size, i);
        if pages > u64::MAX / 0x1000 {
            return false;
        }
        i = i + 1;
    }
    true
}

} // verus!
