//! A physical frame allocator over a memory map reported by the BIOS, and
//! the memory map it leaves for the kernel.
use vstd::prelude::*;

use crate::addr::{frame_containing, page_floor, FrameError, PhysicalAddr, PAGE_4KB};
use crate::bootloader::binary::memory_descriptor::{e820_kind, E820MemoryRegion};
use crate::bootloader::boot_info::{MemoryRegion, MemoryRegionKind};

verus! {

/// A region whose end can be computed, and, where frames may be taken
/// from it (a usable one), whose last byte is an address.
pub open spec fn region_ok(d: E820MemoryRegion) -> bool {
    &&& d.start_addr + d.len <= u64::MAX
    &&& d.region_type == 1 ==> 1 <= d.start_addr + d.len
}

/// Every region of the map ends below the top of the address space.
pub open spec fn ends_fit(map: Seq<E820MemoryRegion>) -> bool {
    forall|k: int| 0 <= k < map.len() ==> #[trigger] map[k].start_addr + map[k].len <= u64::MAX
}

/// Every region of the map is one whose end can be computed.
pub open spec fn map_ok(map: Seq<E820MemoryRegion>) -> bool {
    forall|k: int| 0 <= k < map.len() ==> region_ok(#[trigger] map[k])
}

/// Taking a frame from a region, the next free frame being `next`: the
/// frames of the region run from the one of its start up to, and not
/// including, the one of its last byte. Gives the next free frame after it
/// and the frame taken, if any.
pub open spec fn take_frame(d: E820MemoryRegion, next: int) -> (int, Option<int>) {
    let start_frame = page_floor(d.start_addr as int);
    let end_frame = page_floor(d.start_addr + d.len - 1);
    let n = if next < start_frame {
        start_frame
    } else {
        next
    };
    if n < end_frame {
        (n + 4096, Some(n))
    } else {
        (n, None)
    }
}

/// Looking for a frame in the usable regions from index `idx` on: the index
/// after the region that gave one, that region, the next free frame and the
/// frame, if any.
pub open spec fn scan_regions(map: Seq<E820MemoryRegion>, idx: int, next: int) -> (
    int,
    Option<E820MemoryRegion>,
    int,
    Option<int>,
)
    decreases map.len() - idx,
{
    if idx < 0 || idx >= map.len() {
        (idx, None, next, None)
    } else if map[idx].region_type != 1 {
        scan_regions(map, idx + 1, next)
    } else {
        let (n1, r) = take_frame(map[idx], next);
        if r is Some {
            (idx + 1, Some(map[idx]), n1, r)
        } else {
            scan_regions(map, idx + 1, n1)
        }
    }
}

/// Allocating a frame: from the region that gave the last one while it has
/// frames left, else from the next usable regions of the map.
pub open spec fn alloc_spec(map: Seq<E820MemoryRegion>, idx: int, cur: Option<E820MemoryRegion>, next: int) -> (
    int,
    Option<E820MemoryRegion>,
    int,
    Option<int>,
) {
    match cur {
        Some(d) => {
            let (n1, r) = take_frame(d, next);
            if r is Some {
                (idx, cur, n1, r)
            } else {
                scan_regions(map, idx, n1)
            }
        },
        None => scan_regions(map, idx, next),
    }
}

/// The regions of the boot memory map for one region of the BIOS map: a
/// usable region below the next free frame was used by the bootloader, one
/// that straddles it is split there.
pub open spec fn regions_for(d: E820MemoryRegion, next_free: int) -> Seq<MemoryRegion> {
    let start = d.start_addr as int;
    let end = d.start_addr + d.len;
    if d.region_type == 1 {
        if end <= next_free {
            seq![MemoryRegion { start: start as u64, end: end as u64, kind: MemoryRegionKind::Bootloader }]
        } else if start >= next_free {
            seq![MemoryRegion { start: start as u64, end: end as u64, kind: MemoryRegionKind::Usable }]
        } else {
            seq![
                MemoryRegion { start: start as u64, end: next_free as u64, kind: MemoryRegionKind::Bootloader },
                MemoryRegion { start: next_free as u64, end: end as u64, kind: MemoryRegionKind::Usable },
            ]
        }
    } else {
        seq![MemoryRegion { start: start as u64, end: end as u64, kind: e820_kind(d.region_type) }]
    }
}

/// The boot memory map for the first `n` regions of the BIOS map.
pub open spec fn regions_upto(map: Seq<E820MemoryRegion>, n: int, next_free: int) -> Seq<MemoryRegion>
    decreases n,
{
    if n <= 0 {
        Seq::empty()
    } else {
        regions_upto(map, n - 1, next_free) + regions_for(map[n - 1], next_free)
    }
}

/// The boot memory map of a BIOS map, the next free frame being `next_free`.
pub open spec fn memory_regions(map: Seq<E820MemoryRegion>, next_free: int) -> Seq<MemoryRegion> {
    regions_upto(map, map.len() as int, next_free)
}

/// Region `r` of the boot memory map lies inside a region of the BIOS map
/// `map`: it is usable or the bootloader's exactly where that region is
/// usable, and keeps its BIOS kind otherwise.
pub open spec fn inside_bios_region(map: Seq<E820MemoryRegion>, r: MemoryRegion) -> bool {
    exists|k: int|
        #![trigger map[k]]
        0 <= k < map.len() && map[k].start_addr <= r.start && r.end <= map[k].start_addr + map[k].len && (
        map[k].region_type == 1 ==> (r.kind == MemoryRegionKind::Usable || r.kind
            == MemoryRegionKind::Bootloader)) && (map[k].region_type != 1 ==> r.kind
            == MemoryRegionKind::UnknownBios(map[k].region_type))
}

proof fn lemma_regions_upto_respect(map: Seq<E820MemoryRegion>, n: int, next_free: int)
    requires
        0 <= next_free <= u64::MAX,
        0 <= n <= map.len(),
        ends_fit(map),
    ensures
        forall|j: int|
            0 <= j < regions_upto(map, n, next_free).len() ==> {
                let r = #[trigger] regions_upto(map, n, next_free)[j];
                &&& r.kind == MemoryRegionKind::Usable ==> r.start >= next_free
                &&& r.kind == MemoryRegionKind::Bootloader ==> r.end <= next_free
                &&& inside_bios_region(map, r)
            },
    decreases n,
{
    if n > 0 {
        lemma_regions_upto_respect(map, n - 1, next_free);
        let prev = regions_upto(map, n - 1, next_free);
        let d = map[n - 1];
        let last = regions_for(d, next_free);
        assert(d.start_addr + d.len <= u64::MAX);
        assert forall|j: int| 0 <= j < regions_upto(map, n, next_free).len() implies {
            let r = #[trigger] regions_upto(map, n, next_free)[j];
            &&& r.kind == MemoryRegionKind::Usable ==> r.start >= next_free
            &&& r.kind == MemoryRegionKind::Bootloader ==> r.end <= next_free
            &&& inside_bios_region(map, r)
        } by {
            let r = regions_upto(map, n, next_free)[j];
            if j < prev.len() {
                assert(r == prev[j]);
            } else {
                assert(r == last[j - prev.len()]);
                assert(map[n - 1] == d);
            }
        }
    }
}

/// The boot memory map keeps every frame the bootloader has handed out (every
/// address below the next free frame `next_free`) out of the regions given
/// to the kernel: a usable region starts at or above `next_free`, and a
/// region marked as the bootloader's ends at or below it. Every region lies
/// inside a region of the BIOS map, usable or the bootloader's exactly where
/// that region is usable, with the BIOS kind otherwise.
pub proof fn lemma_memory_map_respects_next_free(map: Seq<E820MemoryRegion>, next_free: int)
    requires
        0 <= next_free <= u64::MAX,
        ends_fit(map),
    ensures
        forall|j: int|
            0 <= j < memory_regions(map, next_free).len() ==> {
                let r = #[trigger] memory_regions(map, next_free)[j];
                &&& r.kind == MemoryRegionKind::Usable ==> r.start >= next_free
                &&& r.kind == MemoryRegionKind::Bootloader ==> r.end <= next_free
                &&& inside_bios_region(map, r)
            },
{
    lemma_regions_upto_respect(map, map.len() as int, next_free);
}

/// The largest end address of the regions among the first `n`.
pub open spec fn max_end(map: Seq<E820MemoryRegion>, n: int) -> int
    decreases n,
{
    if n <= 0 {
        0
    } else {
        let e = map[n - 1].start_addr + map[n - 1].len;
        let m = max_end(map, n - 1);
        if e > m {
            e
        } else {
            m
        }
    }
}

/// A physical frame allocator based on a BIOS provided memory map.
pub struct LegacyFrameAllocator {
    /// The regions reported by the BIOS.
    pub memory_map: Vec<E820MemoryRegion>,
    idx: usize,
    current_descriptor: Option<E820MemoryRegion>,
    next_frame: u64,
}

/// The allocator's state: its map, the index of the next region to look
/// at, the region it last took a frame from and the next free frame.
pub ghost struct FrameAllocState {
    pub map: Seq<E820MemoryRegion>,
    pub idx: int,
    pub current: Option<E820MemoryRegion>,
    pub next: int,
}

impl View for LegacyFrameAllocator {
    type V = FrameAllocState;

    closed spec fn view(&self) -> FrameAllocState {
        FrameAllocState {
            map: self.memory_map@,
            idx: self.idx as int,
            current: self.current_descriptor,
            next: self.next_frame as int,
        }
    }
}

impl LegacyFrameAllocator {
    /// The allocator is consistent: the next free frame is page aligned,
    /// every region's end can be computed and the region it last took from
    /// is one of them.
    pub open spec fn wf(&self) -> bool {
        &&& self@.next % 4096 == 0
        &&& map_ok(self@.map)
        &&& self@.current matches Some(d) ==> region_ok(d) && d.region_type == 1
        &&& 0 <= self@.idx <= self@.map.len()
    }

    /// An allocator over `memory_map` that skips the frame at address zero.
    pub fn new(memory_map: Vec<E820MemoryRegion>) -> (r: Self)
        ensures
            r@ == (FrameAllocState { map: memory_map@, idx: 0, current: None, next: 0x1000 }),
    {
        let start_frame = frame_containing(PhysicalAddr::new(0x1000).as_u64());
        Self::new_starting_at(start_frame, memory_map)
    }

    /// An allocator over `memory_map` that skips the frames before `frame`.
    pub fn new_starting_at(frame: u64, memory_map: Vec<E820MemoryRegion>) -> (r: Self)
        ensures
            r@ == (FrameAllocState { map: memory_map@, idx: 0, current: None, next: frame as int }),
    {
        LegacyFrameAllocator { memory_map, idx: 0, current_descriptor: None, next_frame: frame }
    }

    /// Takes a frame from `descriptor`, raising the next free frame to the
    /// frame of its start first.
    fn allocate_frame_from_descriptor(&mut self, descriptor: E820MemoryRegion) -> (r: Option<u64>)
        requires
            old(self).wf(),
            region_ok(descriptor),
            descriptor.region_type == 1,
        ensures
            final(self).wf(),
            final(self)@ == (FrameAllocState { next: take_frame(descriptor, old(self)@.next).0, ..old(self)@ }),
            take_frame(descriptor, old(self)@.next).1 == (match r {
                Some(f) => Some(f as int),
                None => None,
            }),
    {
        let start_addr = descriptor.start();
        let start_frame = frame_containing(start_addr.as_u64());
        let end_addr = start_addr.as_u64() + descriptor.len();
        let end_frame = frame_containing(end_addr - 1);
        if self.next_frame < start_frame {
            self.next_frame = start_frame;
        }
        if self.next_frame < end_frame {
            let ret = self.next_frame;
            self.next_frame = frame_containing(self.next_frame + PAGE_4KB);
            Some(ret)
        } else {
            None
        }
    }

    /// Number of regions in the memory map; allocating frames leaves it as
    /// it is.
    pub fn len(&self) -> (r: usize)
        ensures
            r == self@.map.len(),
    {
        self.memory_map.len()
    }

    /// The largest end address of the regions of the map.
    pub fn max_phys_addr(&self) -> (r: PhysicalAddr)
        requires
            self.wf(),
            self@.map.len() > 0,
        ensures
            r.addr == max_end(self@.map, self@.map.len() as int),
    {
        let mut k: usize = 0;
        let mut m: u64 = 0;
        while k < self.memory_map.len()
            invariant
                self.wf(),
                k <= self@.map.len(),
                m == max_end(self@.map, k as int),
            decreases self@.map.len() - k,
        {
            let r = self.memory_map[k];
            assert(region_ok(self@.map[k as int]));
            let e = r.start().as_u64() + r.len();
            if e > m {
                m = e;
            }
            k = k + 1;
        }
        PhysicalAddr::new(m)
    }

    /// The next region of the map, moving past it.
    fn next_entry(&mut self) -> (r: Option<E820MemoryRegion>)
        requires
            old(self).wf(),
        ensures
            final(self).wf(),
            old(self)@.idx < old(self)@.map.len() ==> r == Some(old(self)@.map[old(self)@.idx])
                && final(self)@ == (FrameAllocState { idx: old(self)@.idx + 1, ..old(self)@ }),
            old(self)@.idx >= old(self)@.map.len() ==> r is None && final(self)@ == old(self)@,
    {
        if self.idx < self.memory_map.len() {
            let ret = self.memory_map[self.idx];
            self.idx = self.idx + 1;
            Some(ret)
        } else {
            None
        }
    }

    /// Allocates a frame: from the region that gave the last one while it
    /// has frames left, else from the next usable region that has one.
    pub fn allocate_frame(&mut self) -> (r: Result<u64, FrameError>)
        requires
            old(self).wf(),
        ensures
            final(self).wf(),
            ({
                let s = old(self)@;
                let (idx, cur, next, f) = alloc_spec(s.map, s.idx, s.current, s.next);
                &&& final(self)@ == (FrameAllocState { idx, current: cur, next, ..s })
                &&& f == (match r {
                    Ok(x) => Some(x as int),
                    Err(_) => None,
                })
            }),
    {
        let ghost s = self@;
        if let Some(current_descriptor) = self.current_descriptor {
            match self.allocate_frame_from_descriptor(current_descriptor) {
                Some(frame) => {
                    return Ok(frame);
                },
                None => {
                    self.current_descriptor = None;
                },
            }
        }
        loop
            invariant
                self.wf(),
                s == old(self)@,
                self@.map == s.map,
                self@.current is None,
                scan_regions(self@.map, self@.idx, self@.next) == alloc_spec(s.map, s.idx, s.current, s.next),
            decreases self@.map.len() - self@.idx,
        {
            match self.next_entry() {
                None => {
                    return Err(FrameError::Alloc);
                },
                Some(descriptor) => {
                    proof {
                        assert(region_ok(self@.map[self@.idx - 1]));
                    }
                    if descriptor.kind() != MemoryRegionKind::Usable {
                        continue;
                    }
                    if let Some(frame) = self.allocate_frame_from_descriptor(descriptor) {
                        self.current_descriptor = Some(descriptor);
                        return Ok(frame);
                    }
                },
            }
        }
    }

    /// Adds `region` at `*next_index` in `regions`, which holds `capacity`
    /// entries at most; fails when it is full.
    fn add_region(region: MemoryRegion, regions: &mut Vec<MemoryRegion>, capacity: usize) -> (r: Result<(), ()>)
        ensures
            old(regions)@.len() < capacity ==> r is Ok && final(regions)@ == old(regions)@.push(region),
            old(regions)@.len() >= capacity ==> r is Err && final(regions)@ == old(regions)@,
    {
        if regions.len() < capacity {
            regions.push(region);
            Ok(())
        } else {
            Err(())
        }
    }

    /// The memory map for the kernel, in a space for `capacity` regions: a
    /// region below the next free frame is marked as used by the bootloader,
    /// one that straddles it is split there. The space must hold them all.
    pub fn construct_memory_map(self, capacity: usize) -> (r: Result<Vec<MemoryRegion>, ()>)
        requires
            self.wf(),
            memory_regions(self@.map, self@.next).len() <= capacity,
        ensures
            r matches Ok(v) && v@ == memory_regions(self@.map, self@.next),
            r matches Ok(v) ==> forall|k: int|
                0 <= k < v@.len() ==> {
                    let reg = #[trigger] v@[k];
                    &&& reg.kind == MemoryRegionKind::Usable ==> reg.start >= self@.next
                    &&& reg.kind == MemoryRegionKind::Bootloader ==> reg.end <= self@.next
                    &&& inside_bios_region(self@.map, reg)
                },
    {
        proof {
            assert(ends_fit(self@.map)) by {
                assert forall|k: int| 0 <= k < self@.map.len() implies #[trigger] self@.map[k].start_addr
                    + self@.map[k].len <= u64::MAX by {
                    assert(region_ok(self@.map[k]));
                }
            }
            lemma_memory_map_respects_next_free(self@.map, self@.next as int);
        }
        let ghost map = self@.map;
        let next_free = self.next_frame;
        let mut regions: Vec<MemoryRegion> = Vec::new();
        let mut k: usize = 0;
        while k < self.memory_map.len()
            invariant
                self.wf(),
                map == self@.map,
                next_free == self@.next,
                k <= map.len(),
                regions@ == regions_upto(map, k as int, next_free as int),
                regions@.len() <= capacity,
                memory_regions(map, next_free as int).len() <= capacity,
            decreases map.len() - k,
        {
            let descriptor = self.memory_map[k];
            proof {
                assert(region_ok(map[k as int]));
                lemma_regions_grow(map, k as int + 1, map.len() as int, next_free as int);
            }
            let mut start = descriptor.start().as_u64();
            let end = start + descriptor.len();
            let kind = match descriptor.kind() {
                MemoryRegionKind::Usable => {
                    if end <= next_free {
                        MemoryRegionKind::Bootloader
                    } else if descriptor.start().as_u64() >= next_free {
                        MemoryRegionKind::Usable
                    } else {
                        let used_region = MemoryRegion {
                            start: descriptor.start().as_u64(),
                            end: next_free,
                            kind: MemoryRegionKind::Bootloader,
                        };
                        if Self::add_region(used_region, &mut regions, capacity).is_err() {
                            return Err(());
                        }
                        start = next_free;
                        MemoryRegionKind::Usable
                    }
                },
                other => other,
            };
            let region = MemoryRegion { start, end, kind };
            if Self::add_region(region, &mut regions, capacity).is_err() {
                return Err(());
            }
            proof {
                assert(regions@ =~= regions_upto(map, k as int + 1, next_free as int));
            }
            k = k + 1;
        }
        Ok(regions)
    }
}

/// The boot memory map of the first regions is a prefix of the one of more
/// regions, and grows with them.
pub proof fn lemma_regions_grow(map: Seq<E820MemoryRegion>, n: int, m: int, next_free: int)
    requires
        0 <= n <= m <= map.len(),
    ensures
        regions_upto(map, n, next_free).len() <= regions_upto(map, m, next_free).len(),
    decreases m - n,
{
    if n < m {
        lemma_regions_grow(map, n, m - 1, next_free);
    }
}

/// The boot memory map of the first `n` regions starts that of the first
/// `m`, for `n <= m`.
pub proof fn lemma_regions_prefix(map: Seq<E820MemoryRegion>, n: int, m: int, next_free: int)
    requires
        0 <= n <= m <= map.len(),
    ensures
        regions_upto(map, n, next_free) =~= regions_upto(map, m, next_free).take(regions_upto(map, n, next_free).len() as int),
    decreases m - n,
{
    if n < m {
        lemma_regions_prefix(map, n, m - 1, next_free);
        lemma_regions_grow(map, n, m - 1, next_free);
        let l = regions_upto(map, n, next_free).len() as int;
        assert(regions_upto(map, m, next_free).take(l) =~= regions_upto(map, m - 1, next_free).take(l));
    }
}

/// The start of a page is page aligned.
pub proof fn lemma_page_floor(a: int)
    requires
        a >= 0,
    ensures
        page_floor(a) % 4096 == 0,
        0 <= page_floor(a) <= a,
        a - page_floor(a) < 4096,
{
    vstd::arithmetic::div_mod::lemma_fundamental_div_mod(a, 4096);
    vstd::arithmetic::div_mod::lemma_mod_multiples_basic(a / 4096, 4096);
    assert(page_floor(a) == 4096 * (a / 4096));
    assert(4096 * (a / 4096) == (a / 4096) * 4096) by (nonlinear_arith);
}

/// Taking a frame from a region never lowers the next free frame, keeps it
/// page aligned, and hands out the aligned frame just below it, inside the
/// region.
pub proof fn lemma_take_frame(d: E820MemoryRegion, next: int)
    requires
        next % 4096 == 0,
        next >= 0,
        region_ok(d),
        d.region_type == 1,
    ensures
        take_frame(d, next).0 >= next,
        take_frame(d, next).0 % 4096 == 0,
        take_frame(d, next).1 matches Some(x) ==> {
            &&& x % 4096 == 0
            &&& next <= x
            &&& take_frame(d, next).0 == x + 4096
            &&& page_floor(d.start_addr as int) <= x < page_floor(d.start_addr + d.len - 1)
        },
{
    lemma_page_floor(d.start_addr as int);
    lemma_page_floor(d.start_addr + d.len - 1);
    let start_frame = page_floor(d.start_addr as int);
    let n = if next < start_frame {
        start_frame
    } else {
        next
    };
    assert(n % 4096 == 0);
    assert((n + 4096) % 4096 == 0) by {
        vstd::arithmetic::div_mod::lemma_mod_add_multiples_vanish(n, 4096);
    }
}

/// Looking for a frame in the regions never lowers the next free frame and
/// hands out an aligned frame from a usable region, just below the new next
/// free frame.
pub proof fn lemma_scan_regions(map: Seq<E820MemoryRegion>, idx: int, next: int)
    requires
        next % 4096 == 0,
        next >= 0,
        map_ok(map),
    ensures
        ({
            let (i2, c2, n2, f) = scan_regions(map, idx, next);
            &&& n2 >= next
            &&& n2 % 4096 == 0
            &&& f matches Some(x) ==> {
                &&& x % 4096 == 0
                &&& next <= x
                &&& n2 == x + 4096
                &&& c2 matches Some(d) && d.region_type == 1 && page_floor(d.start_addr as int) <= x
                    < page_floor(d.start_addr + d.len - 1)
            }
            &&& f is None ==> c2 is None
        }),
    decreases map.len() - idx,
{
    if idx < 0 || idx >= map.len() {
    } else if map[idx].region_type != 1 {
        lemma_scan_regions(map, idx + 1, next);
    } else {
        assert(region_ok(map[idx]));
        lemma_take_frame(map[idx], next);
        let (n1, r) = take_frame(map[idx], next);
        if r is None {
            lemma_scan_regions(map, idx + 1, n1);
        }
    }
}

/// Frames are handed out in increasing order: each one is page aligned, at
/// least the next free frame before the call, and just below the next free
/// frame after it, in a usable region of the map; so no frame is handed out
/// twice.
pub proof fn lemma_alloc_increasing(map: Seq<E820MemoryRegion>, idx: int, cur: Option<E820MemoryRegion>, next: int)
    requires
        next % 4096 == 0,
        next >= 0,
        map_ok(map),
        cur matches Some(d) ==> region_ok(d) && d.region_type == 1,
    ensures
        ({
            let (i2, c2, n2, f) = alloc_spec(map, idx, cur, next);
            &&& n2 >= next
            &&& n2 % 4096 == 0
            &&& f matches Some(x) ==> {
                &&& x % 4096 == 0
                &&& next <= x
                &&& n2 == x + 4096
                &&& c2 matches Some(d) && d.region_type == 1 && page_floor(d.start_addr as int) <= x
                    < page_floor(d.start_addr + d.len - 1)
            }
        }),
{
    match cur {
        Some(d) => {
            lemma_take_frame(d, next);
            let (n1, r) = take_frame(d, next);
            if r is None {
                lemma_scan_regions(map, idx, n1);
            }
        },
        None => {
            lemma_scan_regions(map, idx, next);
        },
    }
}

/// A region whose address range holds the next free frame strictly inside
/// is split in two in the boot memory map.
pub open spec fn straddles(d: E820MemoryRegion, next_free: int) -> bool {
    d.region_type == 1 && d.start_addr < next_free < d.start_addr + d.len
}

/// Number of regions among the first `n` that are split.
pub open spec fn splits_upto(map: Seq<E820MemoryRegion>, n: int, next_free: int) -> int
    decreases n,
{
    if n <= 0 {
        0
    } else {
        splits_upto(map, n - 1, next_free) + if straddles(map[n - 1], next_free) {
            1int
        } else {
            0int
        }
    }
}

/// No two regions of the map overlap.
pub open spec fn pairwise_disjoint(map: Seq<E820MemoryRegion>) -> bool {
    forall|i: int, j: int|
        0 <= i < j < map.len() ==> #[trigger] map[i].start_addr + map[i].len <= #[trigger] map[j].start_addr
            || map[j].start_addr + map[j].len <= map[i].start_addr
}

/// The boot memory map has one region per region of the BIOS map, and one
/// more for each split one.
proof fn lemma_regions_count(map: Seq<E820MemoryRegion>, n: int, next_free: int)
    requires
        0 <= n <= map.len(),
    ensures
        regions_upto(map, n, next_free).len() == n + splits_upto(map, n, next_free),
        splits_upto(map, n, next_free) >= 1 ==> exists|k: int| 0 <= k < n && #[trigger] straddles(map[k], next_free),
        splits_upto(map, n, next_free) >= 0,
    decreases n,
{
    if n > 0 {
        lemma_regions_count(map, n - 1, next_free);
    }
}

/// With no two regions overlapping, at most one region is split, so the
/// boot memory map fits in one region more than the BIOS map has.
pub proof fn lemma_memory_map_size(map: Seq<E820MemoryRegion>, next_free: int)
    requires
        pairwise_disjoint(map),
    ensures
        memory_regions(map, next_free).len() <= map.len() + 1,
{
    lemma_splits_at_most_one(map, map.len() as int, next_free);
    lemma_regions_count(map, map.len() as int, next_free);
}

proof fn lemma_splits_at_most_one(map: Seq<E820MemoryRegion>, n: int, next_free: int)
    requires
        pairwise_disjoint(map),
        0 <= n <= map.len(),
    ensures
        splits_upto(map, n, next_free) <= 1,
    decreases n,
{
    if n > 0 {
        lemma_splits_at_most_one(map, n - 1, next_free);
        lemma_regions_count(map, n - 1, next_free);
        if straddles(map[n - 1], next_free) && splits_upto(map, n - 1, next_free) >= 1 {
            let k = choose|k: int| 0 <= k < n - 1 && #[trigger] straddles(map[k], next_free);
            assert(map[k].start_addr + map[k].len <= map[n - 1].start_addr || map[n - 1].start_addr
                + map[n - 1].len <= map[k].start_addr);
        }
    }
}

} // verus!
