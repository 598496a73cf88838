//! Where the kernel finds its usable memory.
use vstd::prelude::*;

use crate::addr::page_floor;
use crate::bootloader::boot_info::{MemoryRegion, MemoryRegionKind};

verus! {

/// The kernel's page mapper and frame allocator, with the layout they work on.
pub struct MemoryContext<M, A> {
    pub layout: MemoryLayout,
    pub mapper: M,
    pub alloc: A,
}

/// The memory map the kernel got, and the frames it allocates from: those
/// of the first usable region, first and last frame included.
pub struct MemoryLayout {
    pub memory_map: Vec<MemoryRegion>,
    pub usable: (u64, u64),
}

/// The memory map holds no usable region.
#[derive(Clone, Copy, PartialEq, Eq, Structural, Debug)]
pub struct MemoryInitError;

impl<M, A> MemoryContext<M, A> {
    pub fn new(layout: MemoryLayout, mapper: M, alloc: A) -> (r: Self)
        ensures
            r.mapper == mapper,
            r.alloc == alloc,
    {
        MemoryContext { layout, mapper, alloc }
    }

    /// The page mapper.
    pub fn mapper(&mut self) -> (r: &mut M)
        ensures
            *r == old(self).mapper,
            final(self).mapper == *final(r),
            final(self).alloc == old(self).alloc,
    {
        &mut self.mapper
    }
}

/// The index of the first usable region of `map`, if there is one.
pub open spec fn first_usable(map: Seq<MemoryRegion>) -> Option<int>
    decreases map.len(),
{
    if map.len() == 0 {
        None
    } else if map[0].kind == MemoryRegionKind::Usable {
        Some(0)
    } else {
        match first_usable(map.drop_first()) {
            Some(i) => Some(i + 1),
            None => None,
        }
    }
}

proof fn lemma_first_usable_step(map: Seq<MemoryRegion>, i: int)
    requires
        0 <= i < map.len(),
        forall|k: int| 0 <= k < i ==> map[k].kind != MemoryRegionKind::Usable,
    ensures
        first_usable(map) == (if map[i].kind == MemoryRegionKind::Usable {
            Some(i)
        } else {
            match first_usable(map.skip(i + 1)) {
                Some(j) => Some(j + i + 1),
                None => None::<int>,
            }
        }),
    decreases i,
{
    if i > 0 {
        lemma_first_usable_step(map.drop_first(), i - 1);
        assert(map.drop_first().skip(i) =~= map.skip(i + 1));
    } else {
        assert(map.skip(1) =~= map.drop_first());
    }
}

pub proof fn lemma_first_usable_none(map: Seq<MemoryRegion>)
    requires
        forall|k: int| 0 <= k < map.len() ==> map[k].kind != MemoryRegionKind::Usable,
    ensures
        first_usable(map) is None,
    decreases map.len(),
{
    if map.len() > 0 {
        lemma_first_usable_none(map.drop_first());
    }
}

/// The first usable region is the one the scan stops at.
pub proof fn lemma_first_usable_at(map: Seq<MemoryRegion>, i: int)
    requires
        0 <= i < map.len(),
        map[i].kind == MemoryRegionKind::Usable,
        forall|k: int| 0 <= k < i ==> map[k].kind != MemoryRegionKind::Usable,
    ensures
        first_usable(map) == Some(i),
{
    lemma_first_usable_step(map, i);
}

impl MemoryLayout {
    /// The memory map the layout was made from.
    pub closed spec fn spec_memory_map(&self) -> Seq<MemoryRegion> {
        self.memory_map@
    }

    /// The layout of `memory_map`: its first usable region gives the frames
    /// to allocate from; without one it fails.
    pub fn init(memory_map: Vec<MemoryRegion>) -> (r: Result<Self, MemoryInitError>)
        ensures
            match first_usable(memory_map@) {
                Some(i) => (r matches Ok(l) && l.spec_memory_map() == memory_map@
                    && l.usable == (page_floor(memory_map@[i].start as int) as u64, page_floor(memory_map@[i].end as int) as u64)),
                None => r == Err::<Self, MemoryInitError>(MemoryInitError),
            },
    {
        let n = memory_map.len();
        let mut i: usize = 0;
        while i < n
            invariant
                i <= n,
                n == memory_map@.len(),
                forall|k: int| 0 <= k < i ==> memory_map@[k].kind != MemoryRegionKind::Usable,
            decreases n - i,
        {
            let r = memory_map[i];
            if r.kind == MemoryRegionKind::Usable {
                proof {
                    lemma_first_usable_step(memory_map@, i as int);
                }
                let start = crate::addr::frame_containing(r.start);
                let end = crate::addr::frame_containing(r.end);
                return Ok(MemoryLayout { memory_map, usable: (start, end) });
            }
            i = i + 1;
        }
        proof {
            lemma_first_usable_none(memory_map@);
        }
        Err(MemoryInitError)
    }

    /// The memory map the layout was made from.
    pub fn memory_map(&self) -> (r: &Vec<MemoryRegion>)
        ensures
            r@ == self.spec_memory_map(),
    {
        &self.memory_map
    }
}

} // verus!
