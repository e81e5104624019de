//! The framebuffer the kernel is told about.
use vstd::prelude::*;
use crate::efi::EfiGraphicsOutputModeInformation;

verus! {

/// A 32-bit linear framebuffer: where it is, its size in pixels, the bytes
/// per scan line, and the bit positions of the 8-bit colour channels.
#[derive(Copy, Clone)]
pub struct FramebufferInfo {
    pub base: u64,
    pub width: u32,
    pub height: u32,
    pub pitch: u32,
    pub red_pos: u8,
    pub green_pos: u8,
    pub blue_pos: u8,
}

/// The red, green and blue bit positions of a UEFI pixel format: RGB
/// (format 0) has red at bit 0, BGR (format 1) has blue at bit 0; other
/// formats are not supported.
pub open spec fn channel_positions(pixel_format: u32) -> Option<(u8, u8, u8)> {
    if pixel_format == 0 {
        Some((0u8, 8u8, 16u8))
    } else if pixel_format == 1 {
        Some((16u8, 8u8, 0u8))
    } else {
        None
    }
}

/// The channel positions of a pixel format, or `None` for a format the
/// loader cannot describe.
pub fn pixel_positions(pixel_format: u32) -> (p: Option<(u8, u8, u8)>)
    ensures
        p == channel_positions(pixel_format),
{
    match pixel_format {
        0 => Some((0, 8, 16)),
        1 => Some((16, 8, 0)),
        _ => None,
    }
}

impl FramebufferInfo {
    /// The framebuffer at `base` in the graphics mode `info`: four bytes per
    /// pixel, so the pitch is four times the pixels per scan line. `None`
    /// when the pixel format is neither RGB nor BGR.
    pub fn from_mode(base: u64, info: &EfiGraphicsOutputModeInformation) -> (fb: Option<FramebufferInfo>)
        requires
            info.pixels_per_scan_line * 4 <= u32::MAX,
        ensures
            match channel_positions(info.pixel_format) {
                None => fb is None,
                Some((r, g, b)) => fb == Some(FramebufferInfo {
                    base,
                    width: info.horizontal_resolution,
                    height: info.vertical_resolution,
                    pitch: (info.pixels_per_scan_line * 4) as u32,
                    red_pos: r,
                    green_pos: g,
                    blue_pos: b,
                }),
            },
    {
        match pixel_positions(info.pixel_format) {
            None => None,
            Some((r, g, b)) => Some(
                FramebufferInfo {
                    base,
                    width: info.horizontal_resolution,
                    height: info.vertical_resolution,
                    pitch: info.pixels_per_scan_line * 4,
                    red_pos: r,
                    green_pos: g,
                    blue_pos: b,
                },
            ),
        }
    }
}

} // verus!
