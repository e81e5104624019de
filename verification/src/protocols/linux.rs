//! The Linux x86 boot protocol: recognising a bzImage and filling in the
//! boot parameters ("zero page") for the EFI hand-over entry point.
use vstd::prelude::*;
use crate::allocator::{write_at, overwrite};
use crate::bytes::{bytes_value, lemma_le_values, lemma_bytes_value_frame, lemma_encoded_values, le16, le32, u16_bytes, u32_bytes, read_u16, read_u32, u16_to_bytes, u32_to_bytes};
use crate::firmware::{Firmware, FirmwareInterface, FirmwareRequest};
use crate::framebuffer::FramebufferInfo;
use super::BootProtocol;

verus! {

broadcast use {crate::allocator::lemma_write_at_len, crate::bytes::group_bytes_len};

pub const LINUX_BOOT_FLAG_MAGIC: u16 = 0xAA55;
pub const LINUX_HEADER_MAGIC: u32 = 0x53726448;
pub const HEADER_BOOT_FLAG: usize = 0x1FE;
pub const HEADER_MAGIC: usize = 0x202;
pub const HEADER_MIN_SIZE: usize = 0x270;

pub const HEADER_SETUP_SECTS: usize = 0x1F1;
pub const HEADER_TYPE_OF_LOADER: usize = 0x210;
pub const HEADER_LOADFLAGS: usize = 0x211;
pub const HEADER_RAMDISK_IMAGE: usize = 0x218;
pub const HEADER_RAMDISK_SIZE: usize = 0x21C;
pub const HEADER_HEAP_END_PTR: usize = 0x224;
pub const HEADER_CMD_LINE_PTR: usize = 0x228;
pub const HEADER_INIT_SIZE: usize = 0x260;
pub const HEADER_HANDOVER_OFFSET: usize = 0x264;
pub const HEADER_COPY_SIZE: usize = 0x7F;

pub const SI_ORIG_VIDEO_IS_VGA: usize = 0x0C;
pub const SI_LFB_WIDTH: usize = 0x0F;
pub const SI_LFB_HEIGHT: usize = 0x11;
pub const SI_LFB_DEPTH: usize = 0x13;
pub const SI_LFB_BASE: usize = 0x15;
pub const SI_LFB_SIZE: usize = 0x19;
pub const SI_LFB_LINELENGTH: usize = 0x21;
pub const SI_RED_SIZE: usize = 0x23;
pub const SI_RED_POS: usize = 0x24;
pub const SI_GREEN_SIZE: usize = 0x25;
pub const SI_GREEN_POS: usize = 0x26;
pub const SI_BLUE_SIZE: usize = 0x27;
pub const SI_BLUE_POS: usize = 0x28;
pub const SI_EXT_LFB_BASE: usize = 0x37;

pub const VIDEO_TYPE_EFI: u8 = 0x70;
pub const LOADFLAGS_LOADED_HIGH: u8 = 1;
pub const LOADFLAGS_CAN_USE_HEAP: u8 = 0x80;

pub const PAGE_SIZE: u64 = 0x1000;
pub const PAGE_OFFSET_MASK: u64 = 0xFFF;

/// The image is a Linux bzImage: long enough for the setup header, with the
/// boot-sector signature and the "HdrS" magic in place.
pub open spec fn is_bzimage(s: Seq<u8>) -> bool {
    &&& s.len() >= HEADER_MIN_SIZE
    &&& le16(s, HEADER_BOOT_FLAG as int) == LINUX_BOOT_FLAG_MAGIC
    &&& le32(s, HEADER_MAGIC as int) == LINUX_HEADER_MAGIC
}

/// An image is a bzImage exactly when it holds at least 0x270 bytes, the
/// boot-sector signature 0x55 0xAA at 0x1FE and the bytes "HdrS" at 0x202.
pub proof fn lemma_bzimage_marks(s: Seq<u8>)
    ensures
        is_bzimage(s) <==> {
            &&& s.len() >= 0x270
            &&& s[0x1FE] == 0x55 && s[0x1FF] == 0xAA
            &&& s[0x202] == 0x48 && s[0x203] == 0x64 && s[0x204] == 0x72 && s[0x205] == 0x53
        },
{
    lemma_le_values(s, 0x1FE);
    lemma_le_values(s, 0x202);
    reveal_with_fuel(bytes_value, 5);
}

/// The Linux boot protocol.
pub struct Linux;

impl BootProtocol for Linux {
    fn detect(kernel: &[u8]) -> (found: bool)
        ensures
            found == is_bzimage(kernel@),
    {
        if kernel.len() < HEADER_MIN_SIZE {
            return false;
        }
        let boot_flag = read_u16(kernel, HEADER_BOOT_FLAG);
        if boot_flag != LINUX_BOOT_FLAG_MAGIC {
            return false;
        }
        let magic = read_u32(kernel, HEADER_MAGIC);
        magic == LINUX_HEADER_MAGIC
    }
}

/// The number of 512-byte setup sectors; 0 in the header means 4.
pub open spec fn setup_sects(kernel: Seq<u8>) -> int {
    if kernel[HEADER_SETUP_SECTS as int] == 0 {
        4
    } else {
        kernel[HEADER_SETUP_SECTS as int] as int
    }
}

/// Where the protected-mode kernel starts in the image.
pub open spec fn pm_offset(kernel: Seq<u8>) -> int {
    (setup_sects(kernel) + 1) * 512
}

/// The pages the protected-mode kernel needs: enough for the larger of its
/// size in the image and the `init_size` it asks for.
pub open spec fn pm_pages(kernel: Seq<u8>) -> int {
    let pm_size = kernel.len() - pm_offset(kernel);
    let init = le32(kernel, HEADER_INIT_SIZE as int) as int;
    ((if init > pm_size {
        init
    } else {
        pm_size
    }) + 0xFFF) / 0x1000
}

/// The protected-mode kernel starts right after the boot sector and the
/// setup sectors the header declares at 0x1F1 (0 there meaning 4), and the
/// pages asked for are the fewest that hold both the rest of the image and
/// the `init_size` (the word at 0x260) the kernel asks for.
pub proof fn lemma_setup_layout(kernel: Seq<u8>)
    ensures
        pm_offset(kernel) == (if kernel[0x1F1] == 0 {
            5
        } else {
            kernel[0x1F1] + 1
        }) * 512,
        ({
            let need = if bytes_value(kernel, 0x260, 4) > kernel.len() - pm_offset(kernel) {
                bytes_value(kernel, 0x260, 4)
            } else {
                kernel.len() - pm_offset(kernel)
            };
            need >= 0 ==> pm_pages(kernel) * 0x1000 >= need && (pm_pages(kernel) - 1) * 0x1000 < need
        }),
{
    lemma_le_values(kernel, 0x260);
    let need = if bytes_value(kernel, 0x260, 4) > kernel.len() - pm_offset(kernel) {
        bytes_value(kernel, 0x260, 4)
    } else {
        kernel.len() - pm_offset(kernel)
    };
    if need >= 0 {
        assert(pm_pages(kernel) == (need + 0xFFF) / 0x1000);
        assert(pm_pages(kernel) * 0x1000 >= need && (pm_pages(kernel) - 1) * 0x1000 < need)
            by (nonlinear_arith)
            requires
                pm_pages(kernel) == (need + 0xFFF) / 0x1000,
                need >= 0,
        ;
    }
}

/// The boot parameters after the loader has filled them in: the kernel's
/// setup header copied in, then the loader's fields and the framebuffer's.
pub open spec fn filled_boot_params(
    bp: Seq<u8>,
    kernel: Seq<u8>,
    cmdline_addr: u32,
    fb: FramebufferInfo,
) -> Seq<u8> {
    let b0 = write_at(
        bp,
        HEADER_SETUP_SECTS as int,
        kernel.subrange(HEADER_SETUP_SECTS as int, HEADER_SETUP_SECTS + HEADER_COPY_SIZE),
    );
    let b1 = write_at(b0, HEADER_TYPE_OF_LOADER as int, seq![0xFFu8]);
    let b2 = write_at(
        b1,
        HEADER_LOADFLAGS as int,
        seq![b1[HEADER_LOADFLAGS as int] | LOADFLAGS_LOADED_HIGH | LOADFLAGS_CAN_USE_HEAP],
    );
    let b3 = write_at(b2, HEADER_HEAP_END_PTR as int, u16_bytes(0xFE00));
    let b4 = write_at(b3, HEADER_CMD_LINE_PTR as int, u32_bytes(cmdline_addr));
    let b5 = write_at(b4, HEADER_RAMDISK_IMAGE as int, u32_bytes(0));
    let b6 = write_at(b5, HEADER_RAMDISK_SIZE as int, u32_bytes(0));
    let b7 = write_at(b6, SI_ORIG_VIDEO_IS_VGA as int, seq![VIDEO_TYPE_EFI]);
    let b8 = write_at(b7, SI_LFB_WIDTH as int, u16_bytes(fb.width as u16));
    let b9 = write_at(b8, SI_LFB_HEIGHT as int, u16_bytes(fb.height as u16));
    let b10 = write_at(b9, SI_LFB_DEPTH as int, u16_bytes(32));
    let b11 = write_at(b10, SI_LFB_BASE as int, u32_bytes(fb.base as u32));
    let b12 = write_at(b11, SI_LFB_SIZE as int, u32_bytes((fb.pitch * fb.height) as u32));
    let b13 = write_at(b12, SI_LFB_LINELENGTH as int, u16_bytes(fb.pitch as u16));
    let b14 = write_at(b13, SI_RED_SIZE as int, seq![8u8]);
    let b15 = write_at(b14, SI_RED_POS as int, seq![fb.red_pos]);
    let b16 = write_at(b15, SI_GREEN_SIZE as int, seq![8u8]);
    let b17 = write_at(b16, SI_GREEN_POS as int, seq![fb.green_pos]);
    let b18 = write_at(b17, SI_BLUE_SIZE as int, seq![8u8]);
    let b19 = write_at(b18, SI_BLUE_POS as int, seq![fb.blue_pos]);
    write_at(b19, SI_EXT_LFB_BASE as int, u32_bytes((fb.base / 0x1_0000_0000) as u32))
}

/// The setup header (0x1F1 to 0x270) is the kernel's, but for the fields
/// the loader sets: type_of_loader (0x210) is 0xFF, loadflags (0x211) is
/// the kernel's with LOADED_HIGH and CAN_USE_HEAP set, the ramdisk address
/// and size (0x218, 0x21C) are 0, heap_end_ptr (0x224) is 0xFE00 and
/// cmd_line_ptr (0x228) is the command line's address. Nothing past the
/// boot parameters' end is added.
pub proof fn lemma_setup_header_fields(bp: Seq<u8>, kernel: Seq<u8>, cmdline_addr: u32, fb: FramebufferInfo)
    requires
        bp.len() >= 0x270,
        kernel.len() >= 0x270,
    ensures
        ({
            let p = filled_boot_params(bp, kernel, cmdline_addr, fb);
            &&& p.len() == bp.len()
            &&& p[0x210] == 0xFF
            &&& p[0x211] == kernel[0x211] | 0x81
            &&& bytes_value(p, 0x218, 4) == 0
            &&& bytes_value(p, 0x21C, 4) == 0
            &&& bytes_value(p, 0x224, 2) == 0xFE00
            &&& bytes_value(p, 0x228, 4) == cmdline_addr
            &&& forall|k: int|
                0x1F1 <= k < 0x270 && k != 0x210 && k != 0x211 && !(0x218 <= k < 0x220) && !(0x224
                    <= k < 0x226) && !(0x228 <= k < 0x22C) ==> #[trigger] p[k] == kernel[k]
        }),
{
    reveal(write_at);
    reveal(u16_bytes);
    reveal(u32_bytes);
    let p = filled_boot_params(bp, kernel, cmdline_addr, fb);
    lemma_encoded_values(0xFE00, cmdline_addr, 0);
    lemma_encoded_values(0, 0, 0);
    lemma_bytes_value_frame(p, 0x228, u32_bytes(cmdline_addr), 0, 4);
    lemma_bytes_value_frame(p, 0x218, u32_bytes(0), 0, 4);
    lemma_bytes_value_frame(p, 0x21C, u32_bytes(0), 0, 4);
    lemma_bytes_value_frame(p, 0x224, u16_bytes(0xFE00), 0, 2);
    let x = kernel[0x211];
    assert(x | LOADFLAGS_LOADED_HIGH | LOADFLAGS_CAN_USE_HEAP == x | 0x81) by (bit_vector);
    assert(p.len() == bp.len());
    assert(p[0x210] == 0xFF);
    assert(p[0x211] == kernel[0x211] | 0x81);
}

/// The screen information describes the framebuffer: video type 0x70
/// (EFI) at 0x0C, width at 0x0F, height at 0x11, depth 32 at 0x13, the low
/// 32 bits of the base at 0x15, the size in bytes at 0x19, the bytes per
/// line at 0x21, then size 8 and position of red, green and blue at 0x23 to
/// 0x28, and the high 32 bits of the base at 0x37.
pub proof fn lemma_screen_info_fields(bp: Seq<u8>, kernel: Seq<u8>, cmdline_addr: u32, fb: FramebufferInfo)
    requires
        bp.len() >= 0x270,
        kernel.len() >= 0x270,
    ensures
        ({
            let p = filled_boot_params(bp, kernel, cmdline_addr, fb);
            &&& p[0x0C] == 0x70
            &&& bytes_value(p, 0x0F, 2) == fb.width % 0x1_0000
            &&& bytes_value(p, 0x11, 2) == fb.height % 0x1_0000
            &&& bytes_value(p, 0x13, 2) == 32
            &&& bytes_value(p, 0x15, 4) == fb.base % 0x1_0000_0000
            &&& bytes_value(p, 0x19, 4) == (fb.pitch * fb.height) as u32
            &&& bytes_value(p, 0x21, 2) == fb.pitch % 0x1_0000
            &&& p[0x23] == 8 && p[0x24] == fb.red_pos
            &&& p[0x25] == 8 && p[0x26] == fb.green_pos
            &&& p[0x27] == 8 && p[0x28] == fb.blue_pos
            &&& bytes_value(p, 0x37, 4) == fb.base / 0x1_0000_0000
        }),
{
    reveal(write_at);
    reveal(u16_bytes);
    reveal(u32_bytes);
    let p = filled_boot_params(bp, kernel, cmdline_addr, fb);
    let w = fb.width as u16;
    let h = fb.height as u16;
    let lo = fb.base as u32;
    let sz = (fb.pitch * fb.height) as u32;
    let ll = fb.pitch as u16;
    let hi = (fb.base / 0x1_0000_0000) as u32;
    lemma_encoded_values(w, lo, 0);
    lemma_encoded_values(h, sz, 0);
    lemma_encoded_values(32, hi, 0);
    lemma_encoded_values(ll, 0, 0);
    lemma_bytes_value_frame(p, 0x0F, u16_bytes(w), 0, 2);
    lemma_bytes_value_frame(p, 0x11, u16_bytes(h), 0, 2);
    lemma_bytes_value_frame(p, 0x13, u16_bytes(32), 0, 2);
    lemma_bytes_value_frame(p, 0x15, u32_bytes(lo), 0, 4);
    lemma_bytes_value_frame(p, 0x19, u32_bytes(sz), 0, 4);
    lemma_bytes_value_frame(p, 0x21, u16_bytes(ll), 0, 2);
    lemma_bytes_value_frame(p, 0x37, u32_bytes(hi), 0, 4);
    let (fw, fh, fp, fbase) = (fb.width, fb.height, fb.pitch, fb.base);
    assert(fw as u16 == fw % 0x1_0000 && fh as u16 == fh % 0x1_0000 && fp as u16 == fp % 0x1_0000
        && fbase as u32 == fbase % 0x1_0000_0000) by (bit_vector);
    assert(p[0x0C] == 0x70);
    assert(bytes_value(p, 0x0F, 2) == fb.width % 0x1_0000);
    assert(bytes_value(p, 0x11, 2) == fb.height % 0x1_0000);
    assert(bytes_value(p, 0x13, 2) == 32);
    assert(bytes_value(p, 0x15, 4) == fb.base % 0x1_0000_0000);
    assert(bytes_value(p, 0x19, 4) == (fb.pitch * fb.height) as u32);
    assert(bytes_value(p, 0x21, 2) == fb.pitch % 0x1_0000);
    assert(p[0x23] == 8 && p[0x24] == fb.red_pos);
    assert(bytes_value(p, 0x37, 4) == fb.base / 0x1_0000_0000);
}

/// Where the protected-mode kernel goes and where to enter it.
#[derive(Copy, Clone)]
pub struct LinuxLoad {
    /// The physical address of the pages allocated for the kernel.
    pub pm_base: u64,
    /// How many pages were allocated (and are to be zeroed).
    pub pages: usize,
    /// Where in the image the protected-mode kernel starts.
    pub pm_offset: usize,
    /// How many bytes of it are to be copied to `pm_base`.
    pub pm_size: usize,
    /// The EFI hand-over entry point: 512 bytes past the hand-over offset.
    pub entry: u64,
}

fn put_u8(bp: &mut Vec<u8>, offset: usize, v: u8)
    requires
        offset + 1 <= old(bp)@.len(),
    ensures
        final(bp)@ == write_at(old(bp)@, offset as int, seq![v]),
{
    let b = [v];
    assert(b@ =~= seq![v]);
    overwrite(bp, offset, &b);
}

fn put_u16(bp: &mut Vec<u8>, offset: usize, v: u16)
    requires
        offset + 2 <= old(bp)@.len(),
    ensures
        final(bp)@ == write_at(old(bp)@, offset as int, u16_bytes(v)),
{
    let b = u16_to_bytes(v);
    overwrite(bp, offset, b.as_slice());
}

fn put_u32(bp: &mut Vec<u8>, offset: usize, v: u32)
    requires
        offset + 4 <= old(bp)@.len(),
    ensures
        final(bp)@ == write_at(old(bp)@, offset as int, u32_bytes(v)),
{
    let b = u32_to_bytes(v);
    overwrite(bp, offset, b.as_slice());
}

/// Prepares a bzImage for the EFI hand-over: asks the firmware for pages to
/// hold the protected-mode kernel, fills in the boot parameters `boot_params`
/// from the image's setup header, the command line's address and the
/// framebuffer, and returns where the kernel is to be copied and entered.
/// The firmware is asked once, for the kernel's pages; the caller zeroes
/// them, copies the kernel to them, and releases the image.
pub fn prepare<F: FirmwareInterface>(
    firmware: &mut Firmware<F>,
    kernel: &[u8],
    boot_params: &mut Vec<u8>,
    cmdline_addr: u32,
    fb_info: &FramebufferInfo,
) -> (load: LinuxLoad)
    requires
        kernel@.len() >= HEADER_MIN_SIZE,
        kernel@.len() >= pm_offset(kernel@),
        kernel@.len() + 0xFFF <= usize::MAX,
        le32(kernel@, HEADER_INIT_SIZE as int) + 0xFFF <= usize::MAX,
        old(boot_params)@.len() >= HEADER_MIN_SIZE,
        fb_info.pitch * fb_info.height <= u32::MAX,
    ensures
        load.pm_offset == (if kernel@[0x1F1] == 0 {
            5
        } else {
            kernel@[0x1F1] + 1
        }) * 512,
        load.pm_size == kernel@.len() - load.pm_offset,
        load.pm_offset == pm_offset(kernel@),
        load.pm_size == kernel@.len() - pm_offset(kernel@),
        load.pages == pm_pages(kernel@),
        final(firmware).requests() == old(firmware).requests().push(
            FirmwareRequest::AllocatePages { count: load.pages, address: load.pm_base },
        ),
        load.entry == (load.pm_base + le32(kernel@, HEADER_HANDOVER_OFFSET as int) + 512)
            % 0x1_0000_0000_0000_0000,
        final(boot_params)@ == filled_boot_params(old(boot_params)@, kernel@, cmdline_addr, *fb_info),
{
    let mut setup_sects: u8 = kernel[HEADER_SETUP_SECTS];
    if setup_sects == 0 {
        setup_sects = 4;
    }
    let pm_offset: usize = (setup_sects as usize + 1) * 512;
    let pm_size: usize = kernel.len() - pm_offset;
    let init_size: u32 = read_u32(kernel, HEADER_INIT_SIZE);
    let handover_offset: u32 = read_u32(kernel, HEADER_HANDOVER_OFFSET);
    let larger: usize = if (init_size as usize) > pm_size {
        init_size as usize
    } else {
        pm_size
    };
    let alloc_pages: usize = (larger + PAGE_OFFSET_MASK as usize) / PAGE_SIZE as usize;
    let pm_base: u64 = firmware.allocate_pages(alloc_pages);

    let header = vstd::slice::slice_subrange(kernel, HEADER_SETUP_SECTS, HEADER_SETUP_SECTS + HEADER_COPY_SIZE);
    overwrite(boot_params, HEADER_SETUP_SECTS, header);
    put_u8(boot_params, HEADER_TYPE_OF_LOADER, 0xFF);
    let loadflags = boot_params[HEADER_LOADFLAGS];
    put_u8(boot_params, HEADER_LOADFLAGS, loadflags | LOADFLAGS_LOADED_HIGH | LOADFLAGS_CAN_USE_HEAP);
    put_u16(boot_params, HEADER_HEAP_END_PTR, 0xFE00);
    put_u32(boot_params, HEADER_CMD_LINE_PTR, cmdline_addr);
    put_u32(boot_params, HEADER_RAMDISK_IMAGE, 0);
    put_u32(boot_params, HEADER_RAMDISK_SIZE, 0);

    let fb_size: u32 = fb_info.pitch * fb_info.height;

    put_u8(boot_params, SI_ORIG_VIDEO_IS_VGA, VIDEO_TYPE_EFI);
    put_u16(boot_params, SI_LFB_WIDTH, fb_info.width as u16);
    put_u16(boot_params, SI_LFB_HEIGHT, fb_info.height as u16);
    put_u16(boot_params, SI_LFB_DEPTH, 32);
    put_u32(boot_params, SI_LFB_BASE, fb_info.base as u32);
    put_u32(boot_params, SI_LFB_SIZE, fb_size);
    put_u16(boot_params, SI_LFB_LINELENGTH, fb_info.pitch as u16);
    put_u8(boot_params, SI_RED_SIZE, 8);
    put_u8(boot_params, SI_RED_POS, fb_info.red_pos);
    put_u8(boot_params, SI_GREEN_SIZE, 8);
    put_u8(boot_params, SI_GREEN_POS, fb_info.green_pos);
    put_u8(boot_params, SI_BLUE_SIZE, 8);
    put_u8(boot_params, SI_BLUE_POS, fb_info.blue_pos);
    let base = fb_info.base;
    proof {
        assert((base >> 32) as u32 == (base / 0x1_0000_0000) as u32) by (bit_vector);
    }
    put_u32(boot_params, SI_EXT_LFB_BASE, (base >> 32) as u32);

    let entry = pm_base.wrapping_add(handover_offset as u64).wrapping_add(512);
    LinuxLoad { pm_base, pages: alloc_pages, pm_offset, pm_size, entry }
}

} // verus!
