//! Page-granular kernel allocators and the bin records they keep.
pub mod model;
pub mod requests;
pub mod buddy;
pub mod slab;

use vstd::prelude::*;
use crate::addr::{PageRange, VirtualAddr};

verus! {

/// An allocation request could not be served.
#[derive(Clone, Copy, PartialEq, Eq, Structural, Debug)]
pub struct AllocError;

/// Bytes the caller of an allocator must move after a block moved: `len`
/// bytes from `from` to `to`.
#[derive(Clone, Copy, PartialEq, Eq, Structural, Debug)]
pub struct CopyStep {
    pub from: u64,
    pub to: u64,
    pub len: usize,
}

/// Flag bits of an allocator bin.
#[derive(Clone, Copy, PartialEq, Eq, Structural, Debug)]
pub struct AllocatorBinFlags {
    pub bits: u64,
}

impl AllocatorBinFlags {
    /// The bin record is in use by an allocator.
    pub fn used() -> (r: Self)
        ensures
            r.bits == 1,
    {
        AllocatorBinFlags { bits: 1 }
    }

    /// First bit left to the user of the record.
    pub fn usr_bit1() -> (r: Self)
        ensures
            r.bits == 0x1000_0000_0000_0000,
    {
        AllocatorBinFlags { bits: 0x1000_0000_0000_0000 }
    }

    /// Second bit left to the user of the record.
    pub fn usr_bit2() -> (r: Self)
        ensures
            r.bits == 0x2000_0000_0000_0000,
    {
        AllocatorBinFlags { bits: 0x2000_0000_0000_0000 }
    }

    /// Third bit left to the user of the record.
    pub fn usr_bit3() -> (r: Self)
        ensures
            r.bits == 0x4000_0000_0000_0000,
    {
        AllocatorBinFlags { bits: 0x4000_0000_0000_0000 }
    }

    /// Fourth bit left to the user of the record.
    pub fn usr_bit4() -> (r: Self)
        ensures
            r.bits == 0x8000_0000_0000_0000,
    {
        AllocatorBinFlags { bits: 0x8000_0000_0000_0000 }
    }

    pub fn empty() -> (r: Self)
        ensures
            r.bits == 0,
    {
        AllocatorBinFlags { bits: 0 }
    }

    pub fn bits(&self) -> (r: u64)
        ensures
            r == self.bits,
    {
        self.bits
    }

    /// All the bits of `other` are set in `self`.
    pub fn contains(&self, other: AllocatorBinFlags) -> (r: bool)
        ensures
            r == (self.bits & other.bits == other.bits),
    {
        self.bits & other.bits == other.bits
    }

    /// Sets the bits of `other`.
    pub fn insert(&mut self, other: AllocatorBinFlags)
        ensures
            final(self).bits == old(self).bits | other.bits,
    {
        self.bits = self.bits | other.bits;
    }

    /// Clears the bits of `other`.
    pub fn remove(&mut self, other: AllocatorBinFlags)
        ensures
            final(self).bits == old(self).bits & !other.bits,
    {
        self.bits = self.bits & !other.bits;
    }

    /// The bits of both.
    pub fn union(self, other: AllocatorBinFlags) -> (r: AllocatorBinFlags)
        ensures
            r.bits == self.bits | other.bits,
    {
        AllocatorBinFlags { bits: self.bits | other.bits }
    }
}

/// A record describing a range of memory handed out by an allocator.
#[derive(Clone, Copy, PartialEq, Eq, Structural, Debug)]
pub struct AllocatorBin {
    pub flags: AllocatorBinFlags,
    pub start: VirtualAddr,
    pub end: VirtualAddr,
    pub data: usize,
}

impl AllocatorBin {
    /// A blank record: no flags, an empty range at zero and no data.
    pub fn new() -> (r: Self)
        ensures
            r.flags.bits == 0,
            r.start.addr == 0,
            r.end.addr == 0,
            r.data == 0,
    {
        AllocatorBin {
            flags: AllocatorBinFlags::empty(),
            start: VirtualAddr::new(0),
            end: VirtualAddr::new(0),
            data: 0,
        }
    }

    /// A blank record with the given flags.
    pub fn with_flags(flags: AllocatorBinFlags) -> (r: Self)
        ensures
            r.flags == flags,
            r.start.addr == 0,
            r.end.addr == 0,
            r.data == 0,
    {
        AllocatorBin { flags, start: VirtualAddr::new(0), end: VirtualAddr::new(0), data: 0 }
    }

    /// The pages between the start and the end address.
    pub fn range(&self) -> (r: PageRange)
        requires
            self.start.addr <= self.end.addr,
        ensures
            r.start == crate::addr::page_floor(self.start.addr as int),
            r.len == (crate::addr::page_floor(self.end.addr as int) - crate::addr::page_floor(
                self.start.addr as int,
            )) / 4096,
    {
        PageRange::new_addr(self.start.addr, self.end.addr)
    }

    /// The number of pages between the start and the end address.
    pub fn len(&self) -> (r: u64)
        requires
            self.start.addr <= self.end.addr,
        ensures
            r == (crate::addr::page_floor(self.end.addr as int) - crate::addr::page_floor(
                self.start.addr as int,
            )) / 4096,
    {
        self.range().len()
    }

    pub fn data_ref(&self) -> (r: &usize)
        ensures
            *r == self.data,
    {
        &self.data
    }
}

} // verus!
