//! A memory region as the BIOS reports it.
use vstd::prelude::*;

use crate::addr::PhysicalAddr;
use crate::bootloader::boot_info::MemoryRegionKind;

verus! {

/// A physical memory region returned by an `e820` BIOS call.
#[derive(Clone, Copy, PartialEq, Eq, Structural, Debug)]
pub struct E820MemoryRegion {
    pub start_addr: u64,
    pub len: u64,
    pub region_type: u32,
    pub acpi_extended_attributes: u32,
}

/// The kind of a region of the given BIOS type: type 1 is usable memory.
pub open spec fn e820_kind(region_type: u32) -> MemoryRegionKind {
    if region_type == 1 {
        MemoryRegionKind::Usable
    } else {
        MemoryRegionKind::UnknownBios(region_type)
    }
}

impl E820MemoryRegion {
    /// Where the region starts.
    pub fn start(&self) -> (r: PhysicalAddr)
        ensures
            r.addr == self.start_addr,
    {
        PhysicalAddr::new(self.start_addr)
    }

    /// Length of the region.
    pub fn len(&self) -> (r: u64)
        ensures
            r == self.len,
    {
        self.len
    }

    /// What the region holds.
    pub fn kind(&self) -> (r: MemoryRegionKind)
        ensures
            r == e820_kind(self.region_type),
    {
        match self.region_type {
            1 => MemoryRegionKind::Usable,
            other => MemoryRegionKind::UnknownBios(other),
        }
    }
}

} // verus!
