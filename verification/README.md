# bootloader-core

A UEFI bootloader core whose logic is verified with Verus: ELF loading, x86-64
page-table construction, boot-protocol detection and the boot information for
Limine, Multiboot1, Multiboot2 and the Linux EFI hand-over.

## Layout

- `src/` is the verified library. It works on bytes and values: the kernel file
  is a byte slice, physical memory the library writes is modelled
  (`paging::PhysicalMemory`, `allocator::BumpAllocator`), and placing the kernel
  is returned as a list of steps (`elf::LoadStep`) and relocation words.
  - `bytes`, `allocator`: little-endian fields and the bump allocator that lays
    out boot structures.
  - `elf`: headers, segment placement, relocations, `load_elf`.
  - `paging`: the 4 GiB identity map plus the kernel's segments, with the
    statement that the tables translate every address as the mappings say,
    through entries that carry exactly the present and writable bits (and the
    page-size bit for 2 MiB pages), one page asked of the firmware per table
    page; `map_4kb` on its own changes the translation of one page only.
  - `protocols`: detection of each protocol and the boot information each one
    receives, composed in full for Multiboot1 and Multiboot2
    (`boot_information`).
  - `efi`, `framebuffer`, `segment_mapping`, `gdt`, `boot_info`: firmware
    values and the checks the entry point runs before calling the library.
  - `firmware`: the `FirmwareInterface` trait a firmware entry point
    implements, and `Firmware`, through which the library calls it and which
    records every request with its answer, so that contracts state the
    requests made.
- `app/` is the UEFI entry point: firmware calls, file reading, carrying the
  library's results into physical memory, and the jumps into the kernel.
- `tests/` exercise the library on concrete images and buffers.
