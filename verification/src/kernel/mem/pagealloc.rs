//! The frame allocator the kernel maps its pages with.
use vstd::prelude::*;

use crate::addr::{page_floor, FrameError};
use crate::bootloader::boot_info::MemoryRegion;
use crate::kalloc::AllocatorBin;
use crate::kernel::mem::context::first_usable;
use crate::kernel::mem::pmm::{buddy_pairs, fresh_buddy, pmm_allocate, PhysicalMemoryManager, BUDDY_BYTES};
use crate::klib::kalloc::buddy::{bin_allocated, bin_empty};

verus! {

/// Hands out frames from the kernel's physical memory manager.
pub struct BootInfoFrameAllocator {
    pub alloc: PhysicalMemoryManager,
}

impl BootInfoFrameAllocator {
    /// The allocator over the manager that `PhysicalMemoryManager::init`
    /// sets up.
    pub fn init(memory_map: &Vec<MemoryRegion>, prealloc_addr: u64, allocator_size: usize, bins: Vec<AllocatorBin>) -> (r: Self)
        requires
            first_usable(memory_map@) is Some,
            memory_map@[first_usable(memory_map@)->Some_0].start <= memory_map@[first_usable(memory_map@)->Some_0].end,
            memory_map@[first_usable(memory_map@)->Some_0].end + 64 * 4096 <= u64::MAX,
            allocator_size > 0,
            8 * allocator_size <= usize::MAX,
            prealloc_addr + 0x4000 <= u64::MAX,
            forall|i: int| 0 <= i < bins@.len() ==> bin_empty(#[trigger] bins@[i]) && !bin_allocated(bins@[i]),
        ensures
            r.alloc.wf(),
            ({
                let region = memory_map@[first_usable(memory_map@)->Some_0];
                let first = page_floor(region.start as int);
                let frames = (page_floor(region.end as int) - first) / 4096;
                let slots = ((page_floor(prealloc_addr + 0x4000) - page_floor(prealloc_addr as int)) / 4096 * 4096) / (8 * allocator_size);
                let pairs = buddy_pairs(frames, bins@.len() as int);
                let count = if pairs < slots { pairs } else { slots };
                &&& r.alloc.views() == Some(Seq::new(count as nat, |i: int| fresh_buddy(first + i * BUDDY_BYTES)))
                &&& r.alloc.at == if pairs < slots { pairs as usize } else { 0 }
            }),
    {
        BootInfoFrameAllocator { alloc: PhysicalMemoryManager::init(memory_map, prealloc_addr, allocator_size, bins) }
    }

    /// A frame of 4 KiB, as `PhysicalMemoryManager::alloc_frame` hands it
    /// out.
    pub fn allocate_frame(&mut self) -> (r: Result<u64, FrameError>)
        requires
            old(self).alloc.wf(),
        ensures
            final(self).alloc.wf(),
            final(self).alloc.at == old(self).alloc.at,
            match old(self).alloc.views() {
                None => r is Err && final(self).alloc.views() == old(self).alloc.views(),
                Some(vs) => {
                    let (ws, p) = pmm_allocate(vs, 0, old(self).alloc.at as int, 512);
                    &&& final(self).alloc.views() == Some(ws)
                    &&& match p {
                        Some(q) => r == Ok::<u64, FrameError>(page_floor(q.0) as u64),
                        None => r == Err::<u64, FrameError>(FrameError::Alloc),
                    }
                },
            },
    {
        self.alloc.alloc_frame()
    }
}

} // verus!
