//! Addresses and page ranges of the x86_64 address space.
use vstd::prelude::*;

verus! {

/// Size of a base page, in bytes.
pub const PAGE_4KB: u64 = 4096;

/// The start of the page of size `PAGE_4KB` that contains `addr`.
pub open spec fn page_floor(addr: int) -> int {
    addr - addr % (PAGE_4KB as int)
}

/// A virtual address.
#[derive(Clone, Copy, PartialEq, Eq, Structural, Debug)]
pub struct VirtualAddr {
    pub addr: u64,
}

impl VirtualAddr {
    pub fn new(addr: u64) -> (r: Self)
        ensures
            r.addr == addr,
    {
        VirtualAddr { addr }
    }

    pub fn null() -> (r: Self)
        ensures
            r.addr == 0,
    {
        VirtualAddr { addr: 0 }
    }

    pub fn as_u64(&self) -> (r: u64)
        ensures
            r == self.addr,
    {
        self.addr
    }
}

/// A physical address.
#[derive(Clone, Copy, PartialEq, Eq, Structural, Debug)]
pub struct PhysicalAddr {
    pub addr: u64,
}

impl PhysicalAddr {
    pub fn new(addr: u64) -> (r: Self)
        ensures
            r.addr == addr,
    {
        PhysicalAddr { addr }
    }

    pub fn as_u64(&self) -> (r: u64)
        ensures
            r == self.addr,
    {
        self.addr
    }

    /// The address is a multiple of `align`.
    pub fn is_aligned(&self, align: u64) -> (r: bool)
        requires
            align > 0,
        ensures
            r == (self.addr % align == 0),
    {
        self.addr % align == 0
    }
}

/// A run of `len` pages of size `PAGE_4KB`, the first of which starts at
/// `start`.
#[derive(Clone, Copy, PartialEq, Eq, Structural, Debug)]
pub struct PageRange {
    pub start: u64,
    pub len: u64,
}

impl PageRange {
    /// The pages that a region of `size` bytes laid out from the page that
    /// contains `addr` fills.
    pub fn with_size(addr: u64, size: u64) -> (r: Self)
        ensures
            r.start == page_floor(addr as int),
            r.len == size / PAGE_4KB,
    {
        PageRange { start: addr - addr % PAGE_4KB, len: size / PAGE_4KB }
    }

    /// The pages from the one containing `start` up to the one containing
    /// `end`, that one excluded.
    pub fn new_addr(start: u64, end: u64) -> (r: Self)
        requires
            start <= end,
        ensures
            r.start == page_floor(start as int),
            r.len == (page_floor(end as int) - page_floor(start as int)) / PAGE_4KB as int,
    {
        let s = start - start % PAGE_4KB;
        let e = end - end % PAGE_4KB;
        PageRange { start: s, len: (e - s) / PAGE_4KB }
    }

    pub fn len(&self) -> (r: u64)
        ensures
            r == self.len,
    {
        self.len
    }

    pub fn start(&self) -> (r: u64)
        ensures
            r == self.start,
    {
        self.start
    }
}

/// A frame could not be had.
#[derive(Clone, Copy, PartialEq, Eq, Structural, Debug)]
pub enum FrameError {
    /// No free frame is left.
    Alloc,
    /// A page table entry on the way is not present.
    EntryMissing,
    /// A huge page lies where a page table was expected.
    HugePage,
}

/// The start of the frame of size `PAGE_4KB` that contains `addr`.
pub fn frame_containing(addr: u64) -> (r: u64)
    ensures
        r == page_floor(addr as int),
{
    addr - addr % PAGE_4KB
}

} // verus!
