//! The parts of the bootloader that run before the kernel.
use vstd::prelude::*;

use crate::addr::page_floor;
use crate::bootloader::binary::memory::BiosFrameAllocator;
use crate::bootloader::boot_info::{BootInfo, MemoryRegion};

pub mod bootloader;
pub mod copied;
pub mod elf;
pub mod legacy_memory_region;
pub mod level_4_entries;
pub mod load_kernel;
pub mod memory;
pub mod memory_descriptor;

verus! {

/// `a` rounded up to a multiple of `align`.
pub open spec fn round_up(a: int, align: int) -> int {
    if a % align == 0 {
        a
    } else {
        a + (align - a % align)
    }
}

/// Where the boot info and the memory map after it lie, and the pages they
/// fill, the first and the last one included.
#[derive(Clone, Copy, PartialEq, Eq, Structural, Debug)]
pub struct BootInfoLayout {
    pub boot_info_addr: u64,
    pub memory_map_addr: u64,
    /// Room for this many regions in the memory map.
    pub regions: usize,
    pub first_page: u64,
    pub last_page: u64,
}

/// The layout of a boot info of `boot_info_size` bytes at `addr`, followed,
/// at the next multiple of `region_align`, by room for one region more
/// than the allocator's memory map holds, since the allocator may split one
/// region into a used and an unused part; each region takes `region_size`
/// bytes.
pub open spec fn boot_info_layout(addr: int, boot_info_size: int, region_align: int, region_size: int, len: int) -> BootInfoLayout {
    let map_addr = round_up(addr + boot_info_size, region_align);
    let map_end = map_addr + (len + 1) * region_size;
    BootInfoLayout {
        boot_info_addr: addr as u64,
        memory_map_addr: map_addr as u64,
        regions: (len + 1) as usize,
        first_page: page_floor(addr) as u64,
        last_page: page_floor(map_end) as u64,
    }
}

/// Lays out the boot info and the memory map the kernel gets; mapping its
/// pages is left to the caller.
pub fn create_boot_info(
    boot_info_addr: u64,
    boot_info_size: u64,
    region_align: u64,
    region_size: u64,
    frame_allocator: &BiosFrameAllocator,
) -> (r: BootInfoLayout)
    requires
        region_align > 0,
        frame_allocator.regions().len() < usize::MAX,
        boot_info_addr + boot_info_size + region_align + (frame_allocator.regions().len() + 1) * region_size <= u64::MAX,
    ensures
        r == boot_info_layout(
            boot_info_addr as int,
            boot_info_size as int,
            region_align as int,
            region_size as int,
            frame_allocator.regions().len() as int,
        ),
        r.first_page <= r.last_page,
{
    let boot_info_end = boot_info_addr + boot_info_size;
    let rem = boot_info_end % region_align;
    let memory_map_addr = if rem == 0 {
        boot_info_end
    } else {
        boot_info_end + (region_align - rem)
    };
    let len = frame_allocator.len();
    let regions = len + 1;
    proof {
        assert(regions * region_size <= u64::MAX);
        assert(memory_map_addr <= boot_info_end + region_align);
    }
    let memory_map_end = memory_map_addr + regions as u64 * region_size;
    let first_page = crate::addr::frame_containing(boot_info_addr);
    let last_page = crate::addr::frame_containing(memory_map_end);
    BootInfoLayout { boot_info_addr, memory_map_addr, regions, first_page, last_page }
}

/// The boot info as the bootloader first writes it: the bootloader's
/// version, an empty memory map, and no framebuffer, thread local storage
/// template or ACPI table yet.
pub fn boot_info_header(version_major: u16, version_minor: u16, version_patch: u16, version_pre: bool) -> (r: BootInfo)
    ensures
        r.version_major == version_major,
        r.version_minor == version_minor,
        r.version_patch == version_patch,
        r.pre_release == version_pre,
        r.memory_regions@ == Seq::<MemoryRegion>::empty(),
        r.framebuffer is None,
        r.physical_memory_offset is None,
        r.rsdp_addr is None,
        r.tls_template is None,
{
    BootInfo {
        version_major,
        version_minor,
        version_patch,
        pre_release: version_pre,
        memory_regions: Vec::new(),
        framebuffer: None,
        physical_memory_offset: None,
        rsdp_addr: None,
        tls_template: None,
    }
}

} // verus!
