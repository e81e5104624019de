//! The verified core of a UEFI bootloader: ELF loading, page tables, boot
//! protocol detection and the boot information each protocol receives.
use vstd::prelude::*;

pub mod allocator;
pub mod boot_info;
pub mod bytes;
pub mod efi;
pub mod elf;
pub mod firmware;
pub mod framebuffer;
pub mod gdt;
pub mod paging;
pub mod protocols;
pub mod segment_mapping;

verus! {

} // verus!
