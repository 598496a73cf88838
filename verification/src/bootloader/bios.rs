//! What the BIOS stages of the bootloader compute from the VESA mode
//! information.
use vstd::prelude::*;

use crate::bootloader::boot_info::{FrameBufferInfo, PixelFormat};

verus! {

/// The pixel format that the bit positions of red, green and blue give:
/// `None` for a layout other than RGB or BGR.
pub open spec fn pixel_format_of(red: u8, green: u8, blue: u8) -> Option<PixelFormat> {
    if red == 0 && green == 8 && blue == 16 {
        Some(PixelFormat::RGB)
    } else if red == 16 && green == 8 && blue == 0 {
        Some(PixelFormat::BGR)
    } else {
        None
    }
}

/// The pixel format that the bit positions of red, green and blue give.
pub fn pixel_format(red: u8, green: u8, blue: u8) -> (r: Option<PixelFormat>)
    ensures
        r == pixel_format_of(red, green, blue),
{
    if red == 0 && green == 8 && blue == 16 {
        Some(PixelFormat::RGB)
    } else if red == 16 && green == 8 && blue == 0 {
        Some(PixelFormat::BGR)
    } else {
        None
    }
}

/// The framebuffer that the VESA mode describes: its physical address and
/// its layout. The colour positions must be those of RGB or BGR, and a
/// pixel at least a byte wide.
pub fn make_framebuffer(
    physbaseptr: u32,
    bytes_per_scanline: u16,
    x_resolution: u16,
    y_resolution: u16,
    bits_per_pixel: u8,
    red_position: u8,
    green_position: u8,
    blue_position: u8,
) -> (r: (u64, FrameBufferInfo))
    requires
        pixel_format_of(red_position, green_position, blue_position) is Some,
        bits_per_pixel >= 8,
    ensures
        r.0 == physbaseptr,
        r.1 == (FrameBufferInfo {
            byte_len: (y_resolution * bytes_per_scanline) as usize,
            horizontal_resolution: x_resolution as usize,
            vertical_resolution: y_resolution as usize,
            bytes_per_pixel: (bits_per_pixel / 8) as usize,
            stride: (bytes_per_scanline / (bits_per_pixel / 8) as u16) as usize,
            pixel_format: pixel_format_of(red_position, green_position, blue_position)->Some_0,
        }),
{
    let addr = physbaseptr as u64;
    proof {
        assert(y_resolution * bytes_per_scanline <= 0xffff * 0xffff) by (nonlinear_arith)
            requires
                y_resolution <= 0xffff,
                bytes_per_scanline <= 0xffff;
    }
    let framebuffer_size = (y_resolution as u64 * bytes_per_scanline as u64) as usize;
    let bytes_per_pixel = bits_per_pixel / 8;
    let pixel_format = pixel_format(red_position, green_position, blue_position).unwrap();
    let info = FrameBufferInfo {
        byte_len: framebuffer_size,
        horizontal_resolution: x_resolution as usize,
        vertical_resolution: y_resolution as usize,
        bytes_per_pixel: bytes_per_pixel as usize,
        stride: (bytes_per_scanline / (bytes_per_pixel as u16)) as usize,
        pixel_format,
    };
    (addr, info)
}

} // verus!
