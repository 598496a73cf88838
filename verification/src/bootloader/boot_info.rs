//! What the bootloader hands to the kernel: its memory map, the thread local
//! storage template and the framebuffer description.
use vstd::prelude::*;

verus! {

/// What a region of physical memory holds.
#[derive(Clone, Copy, PartialEq, Eq, Structural, Debug)]
pub enum MemoryRegionKind {
    /// Free for the kernel to use.
    Usable,
    /// In use by the bootloader, or by what it loaded.
    Bootloader,
    /// A region type reported by the UEFI firmware.
    UnknownUefi(u32),
    /// A region type reported by the BIOS.
    UnknownBios(u32),
}

/// A region of physical memory: the addresses `start..end`.
#[derive(Clone, Copy, PartialEq, Eq, Structural, Debug)]
pub struct MemoryRegion {
    pub start: u64,
    pub end: u64,
    pub kind: MemoryRegionKind,
}

/// Where the thread local storage template of the kernel lies.
#[derive(Clone, Copy, PartialEq, Eq, Structural, Debug)]
pub struct TlsTemplate {
    /// Virtual address of the template.
    pub start_addr: u64,
    /// Bytes of the template that are initialised from the file.
    pub file_size: u64,
    /// Bytes of the template in memory.
    pub mem_size: u64,
}

/// The order of the colour bytes of a pixel.
#[derive(Clone, Copy, PartialEq, Eq, Structural, Debug)]
pub enum PixelFormat {
    RGB,
    BGR,
    U8,
}

/// The layout of a framebuffer.
#[derive(Clone, Copy, PartialEq, Eq, Structural, Debug)]
pub struct FrameBufferInfo {
    pub byte_len: usize,
    pub horizontal_resolution: usize,
    pub vertical_resolution: usize,
    pub pixel_format: PixelFormat,
    pub bytes_per_pixel: usize,
    pub stride: usize,
}

/// A framebuffer the kernel can draw on.
#[derive(Clone, Copy, PartialEq, Eq, Structural, Debug)]
pub struct FrameBuffer {
    /// Virtual address of its first byte.
    pub buffer_start: u64,
    /// Its length in bytes.
    pub buffer_byte_len: usize,
    /// Its layout.
    pub info: FrameBufferInfo,
}

/// What the bootloader hands to the kernel.
pub struct BootInfo {
    pub version_major: u16,
    pub version_minor: u16,
    pub version_patch: u16,
    pub pre_release: bool,
    /// The physical memory, region by region.
    pub memory_regions: Vec<MemoryRegion>,
    pub framebuffer: Option<FrameBuffer>,
    /// Where all of physical memory is mapped in the kernel's address space.
    pub physical_memory_offset: Option<u64>,
    /// Physical address of the root system descriptor of ACPI.
    pub rsdp_addr: Option<u64>,
    pub tls_template: Option<TlsTemplate>,
}

} // verus!
