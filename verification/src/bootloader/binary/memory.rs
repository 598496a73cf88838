//! The memory map reported by the BIOS, a frame allocator over it, and the
//! memory map it leaves for the kernel.
use vstd::prelude::*;

use crate::addr::{frame_containing, page_floor, FrameError, PhysicalAddr, PAGE_4KB};
use crate::bootloader::binary::legacy_memory_region::{
    alloc_spec, ends_fit, map_ok, max_end, memory_regions, region_ok, regions_upto, scan_regions, take_frame,
    lemma_regions_grow, lemma_regions_prefix, regions_for, inside_bios_region, lemma_memory_map_respects_next_free,
};
use crate::bootloader::binary::memory_descriptor;
use crate::bootloader::boot_info::{MemoryRegion, MemoryRegionKind};

verus! {

/// A physical memory region returned by an `e820` BIOS call.
#[derive(Clone, Copy, PartialEq, Eq, Structural, Debug)]
pub struct E820MemoryRegion {
    /// Start address.
    pub start_addr: u64,
    /// Length.
    pub len: u64,
    /// Region type: 1 for usable memory.
    pub region_type: u32,
    /// ACPI extended attributes.
    pub acpi_extended_attributes: u32,
}

/// The same region, as the BIOS descriptor type.
pub open spec fn descriptor_of(r: E820MemoryRegion) -> memory_descriptor::E820MemoryRegion {
    memory_descriptor::E820MemoryRegion {
        start_addr: r.start_addr,
        len: r.len,
        region_type: r.region_type,
        acpi_extended_attributes: r.acpi_extended_attributes,
    }
}

/// A whole map as BIOS descriptors.
pub open spec fn descriptors_of(map: Seq<E820MemoryRegion>) -> Seq<memory_descriptor::E820MemoryRegion> {
    map.map_values(|r: E820MemoryRegion| descriptor_of(r))
}

impl E820MemoryRegion {
    /// Where the region starts.
    pub fn start(&self) -> (r: PhysicalAddr)
        ensures
            r.addr == self.start_addr,
    {
        PhysicalAddr::new(self.start_addr)
    }

    /// Length of the region.
    pub fn len(&self) -> (r: u64)
        ensures
            r == self.len,
    {
        self.len
    }

    /// What the region holds.
    pub fn kind(&self) -> (r: MemoryRegionKind)
        ensures
            r == memory_descriptor::e820_kind(self.region_type),
    {
        match self.region_type {
            1 => MemoryRegionKind::Usable,
            other => MemoryRegionKind::UnknownBios(other),
        }
    }

    /// The same region, as a BIOS descriptor.
    fn descriptor(&self) -> (r: memory_descriptor::E820MemoryRegion)
        ensures
            r == descriptor_of(*self),
    {
        memory_descriptor::E820MemoryRegion {
            start_addr: self.start_addr,
            len: self.len,
            region_type: self.region_type,
            acpi_extended_attributes: self.acpi_extended_attributes,
        }
    }
}

/// The regions reported by the BIOS and the next frame free for use.
pub struct E820MemoryMap {
    /// The regions.
    pub memory_map: Vec<E820MemoryRegion>,
    /// The next frame that is free for use.
    pub next_frame: u64,
}

impl E820MemoryMap {
    /// The largest end address of the regions.
    pub fn max_phys_addr(&self) -> (r: PhysicalAddr)
        requires
            ends_fit(descriptors_of(self.memory_map@)),
            self.memory_map@.len() > 0,
        ensures
            r.addr == max_end(descriptors_of(self.memory_map@), self.memory_map@.len() as int),
    {
        let ghost d = descriptors_of(self.memory_map@);
        let mut k: usize = 0;
        let mut m: u64 = 0;
        while k < self.memory_map.len()
            invariant
                d == descriptors_of(self.memory_map@),
                ends_fit(d),
                k <= self.memory_map@.len(),
                m == max_end(d, k as int),
            decreases self.memory_map@.len() - k,
        {
            let r = self.memory_map[k];
            assert(d[k as int].start_addr + d[k as int].len <= u64::MAX);
            let e = r.start().as_u64() + r.len();
            if e > m {
                m = e;
            }
            k = k + 1;
        }
        PhysicalAddr::new(m)
    }

    /// Number of regions.
    pub fn len(&self) -> (r: usize)
        ensures
            r == self.memory_map@.len(),
    {
        self.memory_map.len()
    }
}

/// A physical frame allocator based on a BIOS provided memory map.
pub struct BiosFrameAllocator {
    memory_map: E820MemoryMap,
    current_descriptor: Option<E820MemoryRegion>,
    idx: usize,
}

impl BiosFrameAllocator {
    /// The regions of the map, as BIOS descriptors.
    pub closed spec fn regions(&self) -> Seq<memory_descriptor::E820MemoryRegion> {
        descriptors_of(self.memory_map.memory_map@)
    }

    /// Index of the next region to look at.
    pub closed spec fn index(&self) -> int {
        self.idx as int
    }

    /// The region a frame was last taken from.
    pub closed spec fn current(&self) -> Option<memory_descriptor::E820MemoryRegion> {
        match self.current_descriptor {
            Some(d) => Some(descriptor_of(d)),
            None => None,
        }
    }

    /// The next frame free for use.
    pub closed spec fn next(&self) -> int {
        self.memory_map.next_frame as int
    }

    /// The allocator is consistent: the next free frame is page aligned,
    /// every region's end can be computed, and the region it last took from
    /// is a usable one.
    pub open spec fn wf(&self) -> bool {
        &&& self.next() % 4096 == 0
        &&& map_ok(self.regions())
        &&& self.current() matches Some(d) ==> region_ok(d) && d.region_type == 1
        &&& 0 <= self.index() <= self.regions().len()
    }

    /// An allocator that takes its frames from `memory_map`.
    pub fn new(memory_map: E820MemoryMap) -> (r: Result<Self, FrameError>)
        ensures
            r matches Ok(a) && a.regions() == descriptors_of(memory_map.memory_map@) && a.index() == 0
                && a.current() is None && a.next() == memory_map.next_frame,
    {
        Ok(BiosFrameAllocator { memory_map, idx: 0, current_descriptor: None })
    }

    /// Number of regions in the memory map; allocating frames leaves it as
    /// it is.
    pub fn len(&self) -> (r: usize)
        ensures
            r == self.regions().len(),
    {
        self.memory_map.len()
    }

    /// The underlying memory map.
    pub fn memory_map(&self) -> (r: &E820MemoryMap)
        ensures
            descriptors_of(r.memory_map@) == self.regions(),
            r.next_frame == self.next(),
    {
        &self.memory_map
    }

    /// The underlying memory map, the allocator given up.
    pub fn into_memory_map(self) -> (r: E820MemoryMap)
        ensures
            descriptors_of(r.memory_map@) == self.regions(),
            r.next_frame == self.next(),
    {
        self.memory_map
    }

    /// The next region of the map, moving past it.
    fn next_entry(&mut self) -> (r: Option<E820MemoryRegion>)
        requires
            old(self).wf(),
        ensures
            final(self).wf(),
            final(self).regions() == old(self).regions(),
            final(self).current() == old(self).current(),
            final(self).next() == old(self).next(),
            old(self).index() < old(self).regions().len() ==> (r matches Some(d) && descriptor_of(d)
                == old(self).regions()[old(self).index()]) && final(self).index() == old(self).index() + 1,
            old(self).index() >= old(self).regions().len() ==> r is None && final(self).index()
                == old(self).index(),
    {
        if self.idx < self.memory_map.memory_map.len() {
            let ret = self.memory_map.memory_map[self.idx];
            self.idx = self.idx + 1;
            Some(ret)
        } else {
            None
        }
    }

    /// Takes a frame from `descriptor`, raising the next free frame to the
    /// frame of its start first.
    fn allocate_frame_from_descriptor(&mut self, descriptor: E820MemoryRegion) -> (r: Option<u64>)
        requires
            old(self).wf(),
            region_ok(descriptor_of(descriptor)),
            descriptor_of(descriptor).region_type == 1,
        ensures
            final(self).wf(),
            final(self).regions() == old(self).regions(),
            final(self).index() == old(self).index(),
            final(self).current() == old(self).current(),
            final(self).next() == take_frame(descriptor_of(descriptor), old(self).next()).0,
            take_frame(descriptor_of(descriptor), old(self).next()).1 == (match r {
                Some(f) => Some(f as int),
                None => None,
            }),
    {
        let start_addr = descriptor.start();
        let start_frame = frame_containing(start_addr.as_u64());
        let end_addr = start_addr.as_u64() + descriptor.len();
        let end_frame = frame_containing(end_addr - 1);
        if self.memory_map.next_frame < start_frame {
            self.memory_map.next_frame = start_frame;
        }
        if self.memory_map.next_frame < end_frame {
            let ret = self.memory_map.next_frame;
            self.memory_map.next_frame = frame_containing(self.memory_map.next_frame + PAGE_4KB);
            Some(ret)
        } else {
            None
        }
    }

    /// Allocates a frame: from the region that gave the last one while it
    /// has frames left, else from the next usable region that has one.
    pub fn allocate_frame(&mut self) -> (r: Result<u64, FrameError>)
        requires
            old(self).wf(),
        ensures
            final(self).wf(),
            final(self).regions() == old(self).regions(),
            ({
                let (idx, cur, next, f) = alloc_spec(
                    old(self).regions(),
                    old(self).index(),
                    old(self).current(),
                    old(self).next(),
                );
                &&& final(self).index() == idx
                &&& final(self).current() == cur
                &&& final(self).next() == next
                &&& f == (match r {
                    Ok(x) => Some(x as int),
                    Err(_) => None,
                })
            }),
    {
        if let Some(current_descriptor) = self.current_descriptor {
            match self.allocate_frame_from_descriptor(current_descriptor) {
                Some(frame) => {
                    return Ok(frame);
                },
                None => {
                    self.current_descriptor = None;
                },
            }
        }
        loop
            invariant
                self.wf(),
                self.regions() == old(self).regions(),
                self.current() is None,
                scan_regions(self.regions(), self.index(), self.next()) == alloc_spec(
                    old(self).regions(),
                    old(self).index(),
                    old(self).current(),
                    old(self).next(),
                ),
            decreases self.regions().len() - self.index(),
        {
            match self.next_entry() {
                None => {
                    return Err(FrameError::Alloc);
                },
                Some(descriptor) => {
                    proof {
                        assert(region_ok(self.regions()[self.index() - 1]));
                    }
                    if descriptor.kind() != MemoryRegionKind::Usable {
                        continue;
                    }
                    if let Some(frame) = self.allocate_frame_from_descriptor(descriptor) {
                        self.current_descriptor = Some(descriptor);
                        return Ok(frame);
                    }
                },
            }
        }
    }

    /// Writes the memory map for the kernel into a space of `capacity`
    /// regions.
    pub fn write_memory_map(&self, capacity: usize) -> (r: Result<Vec<MemoryRegion>, ()>)
        requires
            self.wf(),
        ensures
            memory_regions(self.regions(), self.next()).len() <= capacity ==> (r matches Ok(v) && v@
                == memory_regions(self.regions(), self.next())),
            memory_regions(self.regions(), self.next()).len() > capacity ==> r is Err,
    {
        let mut space: Vec<MemoryRegion> = Vec::new();
        let mut i: usize = 0;
        while i < capacity
            invariant
                space@.len() == i,
                i <= capacity,
            decreases capacity - i,
        {
            space.push(MemoryRegion { start: 0, end: 0, kind: MemoryRegionKind::Usable });
            i = i + 1;
        }
        match construct_memory_map(self.memory_map(), &mut space) {
            Ok(c) => {
                space.truncate(c);
                proof {
                    let o = memory_regions(self.regions(), self.next());
                    assert(space@ =~= o);
                }
                Ok(space)
            },
            Err(()) => Err(()),
        }
    }

    /// The largest end address of the regions of the map.
    pub fn max_physical_address(&self) -> (r: PhysicalAddr)
        requires
            self.wf(),
            self.regions().len() > 0,
        ensures
            r.addr == max_end(self.regions(), self.regions().len() as int),
    {
        self.memory_map().max_phys_addr()
    }
}

/// Writes `region` at index `*next` of `regions`, the space for the memory
/// map, and moves `*next` on; fails when the space is full.
fn add_region(region: MemoryRegion, regions: &mut Vec<MemoryRegion>, next: &mut usize) -> (r: Result<(), ()>)
    ensures
        final(regions)@.len() == old(regions)@.len(),
        *old(next) < old(regions)@.len() ==> r is Ok && final(regions)@ == old(regions)@.update(*old(next) as int, region)
            && *final(next) == *old(next) + 1,
        *old(next) >= old(regions)@.len() ==> r is Err && final(regions)@ == old(regions)@ && *final(next) == *old(next),
{
    if *next < regions.len() {
        regions.set(*next, region);
        *next = *next + 1;
        Ok(())
    } else {
        Err(())
    }
}

/// The memory map for the kernel, written into `regions` from its start: a
/// usable region below the next free frame is marked as used by the
/// bootloader, one that straddles it is split there. Gives the number of
/// regions written, the rest of the space left as it was; where the space
/// is too small, fails having filled all of it with the first regions.
pub fn construct_memory_map(mem: &E820MemoryMap, regions: &mut Vec<MemoryRegion>) -> (r: Result<usize, ()>)
    requires
        map_ok(descriptors_of(mem.memory_map@)),
    ensures
        final(regions)@.len() == old(regions)@.len(),
        ({
            let o = memory_regions(descriptors_of(mem.memory_map@), mem.next_frame as int);
            if o.len() <= old(regions)@.len() {
                r == Ok::<usize, ()>(o.len() as usize) && final(regions)@ == o + old(regions)@.skip(o.len() as int)
            } else {
                r is Err && final(regions)@ == o.take(old(regions)@.len() as int)
            }
        }),
        r matches Ok(c) ==> forall|k: int|
            0 <= k < c ==> {
                let reg = #[trigger] final(regions)@[k];
                &&& reg.kind == MemoryRegionKind::Usable ==> reg.start >= mem.next_frame
                &&& reg.kind == MemoryRegionKind::Bootloader ==> reg.end <= mem.next_frame
                &&& inside_bios_region(descriptors_of(mem.memory_map@), reg)
            },
{
    proof {
        let d = descriptors_of(mem.memory_map@);
        assert(ends_fit(d)) by {
            assert forall|k: int| 0 <= k < d.len() implies #[trigger] d[k].start_addr + d[k].len <= u64::MAX by {
                assert(region_ok(d[k]));
            }
        }
        lemma_memory_map_respects_next_free(d, mem.next_frame as int);
    }
    let ghost map = descriptors_of(mem.memory_map@);
    let ghost space = regions@;
    let ghost o = memory_regions(map, mem.next_frame as int);
    let next_free = mem.next_frame;
    let mut next: usize = 0;
    let mut k: usize = 0;
    proof {
        assert(regions@ =~= regions_upto(map, 0, next_free as int) + space.skip(0));
    }
    while k < mem.memory_map.len()
        invariant
            map == descriptors_of(mem.memory_map@),
            map_ok(map),
            o == memory_regions(map, mem.next_frame as int),
            next_free == mem.next_frame,
            k <= map.len(),
            space == old(regions)@,
            regions@.len() == space.len(),
            next == regions_upto(map, k as int, next_free as int).len(),
            next <= space.len(),
            regions@ == regions_upto(map, k as int, next_free as int) + space.skip(next as int),
        decreases map.len() - k,
    {
        let descriptor = mem.memory_map[k];
        let ghost p = regions_upto(map, k as int + 1, next_free as int);
        proof {
            assert(region_ok(map[k as int]));
            assert(map[k as int] == descriptor_of(descriptor));
            lemma_regions_grow(map, k as int + 1, map.len() as int, next_free as int);
            lemma_regions_prefix(map, k as int + 1, map.len() as int, next_free as int);
            assert(p =~= regions_upto(map, k as int, next_free as int) + regions_for(map[k as int], next_free as int));
            assert(regions@.take(next as int) =~= p.take(next as int));
        }
        let mut start = descriptor.start().as_u64();
        let end = start + descriptor.len();
        let kind = match descriptor.kind() {
            MemoryRegionKind::Usable => {
                if end <= next_free {
                    MemoryRegionKind::Bootloader
                } else if descriptor.start().as_u64() >= next_free {
                    MemoryRegionKind::Usable
                } else {
                    let used_region = MemoryRegion {
                        start: descriptor.start().as_u64(),
                        end: next_free,
                        kind: MemoryRegionKind::Bootloader,
                    };
                    let ghost before = next;
                    if add_region(used_region, regions, &mut next).is_err() {
                        proof {
                            assert(regions@ =~= p.take(before as int));
                            assert(o.take(space.len() as int) =~= p.take(space.len() as int));
                        }
                        return Err(());
                    }
                    proof {
                        assert(regions@.take(next as int) =~= p.take(next as int));
                        assert(regions@.skip(next as int) =~= space.skip(next as int));
                    }
                    start = next_free;
                    MemoryRegionKind::Usable
                }
            },
            other => other,
        };
        let region = MemoryRegion { start, end, kind };
        let ghost before = next;
        if add_region(region, regions, &mut next).is_err() {
            proof {
                assert(regions@ =~= p.take(before as int));
                assert(o.take(space.len() as int) =~= p.take(space.len() as int));
            }
            return Err(());
        }
        proof {
            assert(regions@ =~= regions_upto(map, k as int + 1, next_free as int) + space.skip(next as int));
        }
        k = k + 1;
    }
    Ok(next)
}

} // verus!
