//! The flat 32-bit segments a kernel entered in protected mode runs on.
use vstd::prelude::*;

verus! {

/// The null descriptor.
pub const GDT32_NULL: u64 = 0;
/// A flat 4 GiB ring-0 code segment (selector 0x08).
pub const GDT32_CODE: u64 = 0x00CF_9A00_0000_FFFF;
/// A flat 4 GiB ring-0 data segment (selector 0x10).
pub const GDT32_DATA: u64 = 0x00CF_9200_0000_FFFF;
/// The number of descriptors in the table.
pub const GDT32_ENTRIES: u16 = 3;

/// What `lgdt` loads: the table's last byte offset and its address.
#[derive(Copy, Clone)]
pub struct Gdtr {
    pub limit: u16,
    pub base: u64,
}

impl Gdtr {
    /// The register value for a table of `entries` 8-byte descriptors at `base`.
    pub fn for_table(base: u64, entries: u16) -> (g: Gdtr)
        requires
            1 <= entries <= 0x2000,
        ensures
            g.limit == entries * 8 - 1,
            g.base == base,
    {
        Gdtr { limit: (entries - 1) * 8 + 7, base }
    }
}

} // verus!
