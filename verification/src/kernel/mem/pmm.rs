//! The kernel's physical memory manager: buddy allocators of 64 frames
//! each, laid over the first usable region of the memory map.
use vstd::prelude::*;

use crate::addr::{page_floor, FrameError, PageRange};
use crate::bits::next_pow2;
use crate::bootloader::boot_info::{MemoryRegion, MemoryRegionKind};
use crate::kalloc::model::{bsz, occ};
use crate::kalloc::requests::{
    allocate_spec, deallocate_spec, lemma_allocate_deallocate, lemma_allocate_fits, lemma_allocate_keeps_settled,
    req_size, settled, slot_of, BuddyView,
};
use crate::kalloc::{AllocError, AllocatorBin};
use crate::kernel::mem::context::{first_usable, lemma_first_usable_at, lemma_first_usable_none};
use crate::klib::kalloc::buddy::{bin_allocated, bin_empty, BuddyAllocator};

verus! {

/// Bytes of memory under one buddy allocator: 64 frames.
pub const BUDDY_BYTES: u64 = 0x4_0000;

/// A buddy allocator fresh over the 64 frames from `base` on.
pub open spec fn fresh_buddy(base: int) -> BuddyView {
    BuddyView {
        bins: Seq::new(64, |i: int| if i == 0 { Some((0int, 64int)) } else { None }),
        used: Set::empty(),
        flagged: Set::empty(),
        base,
    }
}

/// `ptr` lies in the memory of the buddy allocator `v`.
pub open spec fn in_buddy(v: BuddyView, ptr: int) -> bool {
    v.base <= ptr < v.base + BUDDY_BYTES
}

/// `ptr` starts a block of `v` in use that is at least `l` bytes long.
pub open spec fn frees_ok(v: BuddyView, ptr: int, l: int) -> bool {
    &&& v.base <= ptr
    &&& slot_of(v, ptr, 4096) < 64
    &&& occ(v.bins, slot_of(v, ptr, 4096))
    &&& l <= bsz(v.bins, slot_of(v, ptr, 4096)) * 4096
}

/// A request of `l` bytes tried on the allocators `j..at` in order: the
/// first one that serves it does, and the others stay as they are.
pub open spec fn pmm_allocate(vs: Seq<BuddyView>, j: int, at: int, l: int) -> (Seq<BuddyView>, Option<(int, int)>)
    decreases at - j,
{
    if j >= at {
        (vs, None)
    } else {
        let (w, p) = allocate_spec(vs[j], l, 4096);
        if p is Some {
            (vs.update(j, w), p)
        } else {
            pmm_allocate(vs, j + 1, at, l)
        }
    }
}

/// The allocators after `ptr` is given back to every one of the first `at`
/// that it lies in.
pub open spec fn pmm_deallocate(vs: Seq<BuddyView>, at: int, ptr: int) -> Seq<BuddyView> {
    Seq::new(vs.len(), |j: int| if j < at && in_buddy(vs[j], ptr) { deallocate_spec(vs[j], ptr, 4096, 64) } else { vs[j] })
}

/// How many allocators a range of `frames` frames and `bins` bin records
/// can feed: one per 64 frames begun, and one per 64 records.
pub open spec fn buddy_pairs(frames: int, bins: int) -> int {
    let by_frames = (frames + 63) / 64;
    let by_bins = bins / 64;
    if by_frames < by_bins { by_frames } else { by_bins }
}

/// The allocators in service are consistent, their slots in use are exactly
/// the bins flagged as handed out, their free blocks cannot merge, and
/// their memories do not overlap.
pub open spec fn pmm_settled(vs: Seq<BuddyView>, at: int) -> bool {
    &&& 0 <= at <= vs.len()
    &&& forall|j: int| 0 <= j < at ==> settled(#[trigger] vs[j], 64)
    &&& forall|i: int, j: int| 0 <= i < at && 0 <= j < at && i != j ==> #[trigger] vs[i].base + BUDDY_BYTES <= #[trigger] vs[j].base
        || vs[j].base + BUDDY_BYTES <= vs[i].base
}

proof fn lemma_pmm_allocate_from(vs: Seq<BuddyView>, j: int, at: int, l: int)
    requires
        pmm_settled(vs, at),
        0 <= j <= at,
        l >= 0,
        pmm_allocate(vs, j, at, l).1 is Some,
    ensures
        pmm_deallocate(pmm_allocate(vs, j, at, l).0, at, (pmm_allocate(vs, j, at, l).1->0).0) == vs,
    decreases at - j,
{
    let (w, p) = allocate_spec(vs[j], l, 4096);
    if p is Some {
        lemma_allocate_fits(vs[j], l, 4096);
        lemma_allocate_deallocate(vs[j], l, 4096);
        let ws = vs.update(j, w);
        let a = (p->0).0;
        assert(in_buddy(ws[j], a));
        assert forall|i: int| 0 <= i < ws.len() implies #[trigger] pmm_deallocate(ws, at, a)[i] == vs[i] by {
            if i != j && i < at {
                assert(vs[i].base + BUDDY_BYTES <= vs[j].base || vs[j].base + BUDDY_BYTES <= vs[i].base);
                assert(!in_buddy(ws[i], a));
            }
        }
        assert(pmm_deallocate(ws, at, a) =~= vs);
    } else {
        lemma_pmm_allocate_from(vs, j + 1, at, l);
    }
}

proof fn lemma_pmm_allocate_settled_from(vs: Seq<BuddyView>, j: int, at: int, l: int)
    requires
        pmm_settled(vs, at),
        0 <= j <= at,
    ensures
        pmm_settled(pmm_allocate(vs, j, at, l).0, at),
    decreases at - j,
{
    if j < at {
        let (w, p) = allocate_spec(vs[j], l, 4096);
        if p is Some {
            lemma_allocate_keeps_settled(vs[j], l, 4096);
            let ws = vs.update(j, w);
            assert(w.base == vs[j].base);
            assert forall|i: int| 0 <= i < at implies settled(#[trigger] ws[i], 64) by {
                if i != j {
                    assert(ws[i] == vs[i]);
                }
            }
            assert forall|a: int, b: int| 0 <= a < at && 0 <= b < at && a != b implies #[trigger] ws[a].base + BUDDY_BYTES
                <= #[trigger] ws[b].base || ws[b].base + BUDDY_BYTES <= ws[a].base by {
                assert(ws[a].base == vs[a].base && ws[b].base == vs[b].base);
                assert(vs[a].base + BUDDY_BYTES <= vs[b].base || vs[b].base + BUDDY_BYTES <= vs[a].base);
            }
        } else {
            lemma_pmm_allocate_settled_from(vs, j + 1, at, l);
        }
    }
}

/// Every request keeps the allocators in service settled.
pub proof fn lemma_pmm_allocate_keeps_settled(vs: Seq<BuddyView>, at: int, l: int)
    requires
        pmm_settled(vs, at),
    ensures
        pmm_settled(pmm_allocate(vs, 0, at, l).0, at),
{
    lemma_pmm_allocate_settled_from(vs, 0, at, l);
}

/// Giving back the block a request was just served with, of the length
/// asked for, restores the allocators in service, when they are settled.
pub proof fn lemma_pmm_allocate_deallocate(vs: Seq<BuddyView>, at: int, l: int)
    requires
        pmm_settled(vs, at),
        l >= 0,
        pmm_allocate(vs, 0, at, l).1 is Some,
    ensures
        pmm_deallocate(pmm_allocate(vs, 0, at, l).0, at, (pmm_allocate(vs, 0, at, l).1->0).0) == vs,
{
    lemma_pmm_allocate_from(vs, 0, at, l);
}

/// The kernel's buddy allocators, of which the first `at` are in service.
pub struct PhysicalMemoryManager {
    pub buddies: Option<Vec<BuddyAllocator<4096>>>,
    pub at: usize,
}

impl PhysicalMemoryManager {
    /// The allocators, by their views.
    pub closed spec fn views(&self) -> Option<Seq<BuddyView>> {
        match self.buddies {
            Some(v) => Some(Seq::new(v@.len(), |i: int| v@[i]@)),
            None => None,
        }
    }

    /// Every allocator is consistent and lies below the top of memory, and
    /// those in service exist.
    pub closed spec fn wf(&self) -> bool {
        match self.buddies {
            Some(v) => {
                &&& self.at <= v@.len()
                &&& forall|i: int| 0 <= i < v@.len() ==> (#[trigger] v@[i]).wf() && v@[i]@.base + BUDDY_BYTES <= u64::MAX
            },
            None => true,
        }
    }

    /// No allocator yet.
    pub fn new() -> (r: Self)
        ensures
            r.wf(),
            r.views() is None,
            r.at == 0,
    {
        PhysicalMemoryManager { buddies: None, at: 0 }
    }

    /// Sets up room for `slots` allocators, and as many of them as fit:
    /// allocator `i` takes bin records `64 * i` to `64 * i + 63` and the 64
    /// frames from `first_frame + 64 * i * 4096` on, for as long as the
    /// `frames` frames and the records last. Where they run out first, the
    /// allocators made are those in service.
    pub fn populate_buddies(&mut self, slots: usize, bins: Vec<AllocatorBin>, first_frame: u64, frames: u64)
        requires
            old(self).at == 0,
            first_frame + (frames + 64) * 4096 <= u64::MAX,
            forall|i: int| 0 <= i < bins@.len() ==> bin_empty(#[trigger] bins@[i]) && !bin_allocated(bins@[i]),
        ensures
            ({
                let pairs = buddy_pairs(frames as int, bins@.len() as int);
                let count = if pairs < slots { pairs } else { slots as int };
                &&& final(self).wf()
                &&& final(self).views() == Some(Seq::new(count as nat, |i: int| fresh_buddy(first_frame + i * BUDDY_BYTES)))
                &&& final(self).at == if pairs < slots { pairs as usize } else { old(self).at }
            }),
    {
        let by_frames = (frames + 63) / 64;
        let by_bins = (bins.len() / 64) as u64;
        let pairs = if by_frames < by_bins { by_frames } else { by_bins };
        let mut buddies: Vec<BuddyAllocator<4096>> = Vec::new();
        let blen = bins.len();
        let mut i: usize = 0;
        let ghost target = Seq::new(
            (if (pairs as int) < slots { pairs as int } else { slots as int }) as nat,
            |i: int| fresh_buddy(first_frame + i * BUDDY_BYTES),
        );
        while i < slots
            invariant_except_break
                i <= slots,
                buddies@.len() == i,
                (i as int) <= pairs,
            invariant
                pairs == buddy_pairs(frames as int, bins@.len() as int),
                blen == bins@.len(),
                first_frame + (frames + 64) * 4096 <= u64::MAX,
                forall|k: int| 0 <= k < bins@.len() ==> bin_empty(#[trigger] bins@[k]) && !bin_allocated(bins@[k]),
                target == Seq::new(
                    (if (pairs as int) < slots { pairs as int } else { slots as int }) as nat,
                    |i: int| fresh_buddy(first_frame + i * BUDDY_BYTES),
                ),
                forall|k: int| 0 <= k < buddies@.len() ==> (#[trigger] buddies@[k]).wf()
                    && buddies@[k]@ == target[k] && buddies@[k]@.base + BUDDY_BYTES <= u64::MAX,
                buddies@.len() <= target.len(),
                self.buddies == old(self).buddies,
                self.at == old(self).at,
            ensures
                buddies@.len() == target.len(),
                forall|k: int| 0 <= k < buddies@.len() ==> (#[trigger] buddies@[k]).wf()
                    && buddies@[k]@ == target[k] && buddies@[k]@.base + BUDDY_BYTES <= u64::MAX,
                self.buddies == old(self).buddies,
                (pairs as int) < slots ==> i == pairs,
                i < slots ==> (pairs as int) < slots,
                i <= slots,
            decreases slots - i,
        {
            if i as u64 >= pairs {
                break;
            }
            let mut chunk: Vec<AllocatorBin> = Vec::new();
            let mut k: usize = 0;
            proof {
                assert(64 * i + 64 <= bins@.len()) by (nonlinear_arith)
                    requires
                        i < pairs,
                        pairs <= bins@.len() / 64;
            }
            while k < 64
                invariant
                    k <= 64,
                    blen == bins@.len(),
                    64 * i + 64 <= bins@.len(),
                    chunk@.len() == k,
                    forall|m: int| 0 <= m < bins@.len() ==> bin_empty(#[trigger] bins@[m]) && !bin_allocated(bins@[m]),
                    forall|m: int| 0 <= m < k ==> bin_empty(#[trigger] chunk@[m]) && !bin_allocated(chunk@[m]),
                decreases 64 - k,
            {
                chunk.push(bins[64 * i + k]);
                k = k + 1;
            }
            proof {
                assert(first_frame + (i as int) * BUDDY_BYTES + BUDDY_BYTES <= first_frame + (frames + 64) * 4096) by (nonlinear_arith)
                    requires
                        i < pairs,
                        pairs <= (frames + 63) / 64;
            }
            let base = first_frame + i as u64 * BUDDY_BYTES;
            proof {
                reveal_with_fuel(crate::bits::is_pow2, 13);
            }
            let b = match BuddyAllocator::<4096>::new(chunk, PageRange { start: base, len: 64 }) {
                Ok(b) => b,
                Err(_) => {
                    proof {
                        reveal_with_fuel(crate::bits::is_pow2, 13);
                    }
                    return;
                },
            };
            proof {
                assert(b@ =~= fresh_buddy(base as int)) by {
                    assert forall|m: int| 0 <= m < 64 implies #[trigger] b@.bins[m] == fresh_buddy(base as int).bins[m] by {
                        if m > 0 {
                            assert(bin_empty(chunk@[m]));
                        }
                    }
                    assert(b@.bins =~= fresh_buddy(base as int).bins);
                    assert(b@.flagged =~= Set::<int>::empty());
                }
            }
            buddies.push(b);
            i = i + 1;
        }
        if i < slots {
            self.at = i;
        }
        self.buddies = Some(buddies);
        proof {
            let v = self.buddies->Some_0;
            assert(Seq::new(v@.len(), |j: int| v@[j]@) =~= target);
        }
    }

    /// Serves a request of `l` bytes from the first allocator in service
    /// that can: the start of the block and its length in bytes.
    pub fn allocate(&mut self, l: usize) -> (r: Result<(u64, usize), AllocError>)
        requires
            old(self).wf(),
            8 * next_pow2(l as int) <= usize::MAX,
        ensures
            final(self).wf(),
            final(self).at == old(self).at,
            match old(self).views() {
                None => r is Err && final(self).views() == old(self).views(),
                Some(vs) => {
                    let (ws, p) = pmm_allocate(vs, 0, old(self).at as int, l as int);
                    &&& final(self).views() == Some(ws)
                    &&& p == match r {
                        Ok(x) => Some((x.0 as int, x.1 as int)),
                        Err(_) => None,
                    }
                },
            },
    {
        let mut buds = match self.buddies.take() {
            Some(b) => b,
            None => {
                return Err(AllocError);
            },
        };
        let ghost vs = Seq::new(buds@.len(), |i: int| buds@[i]@);
        let at = self.at;
        let mut j: usize = 0;
        while j < at
            invariant
                j <= at <= buds@.len(),
                at == old(self).at,
                self.at == at,
                self.buddies is None,
                vs.len() == buds@.len(),
                8 * next_pow2(l as int) <= usize::MAX,
                forall|i: int| 0 <= i < buds@.len() ==> (#[trigger] buds@[i]).wf() && buds@[i]@.base + BUDDY_BYTES <= u64::MAX,
                forall|i: int| 0 <= i < buds@.len() ==> #[trigger] buds@[i]@ == vs[i],
                pmm_allocate(vs, j as int, at as int, l as int) == pmm_allocate(vs, 0, at as int, l as int),
                old(self).views() == Some(vs),
            decreases at - j,
        {
            let mut b = buds.remove(j);
            let res = b.allocate_mut(l);
            buds.insert(j, b);
            match res {
                Ok(p) => {
                    self.buddies = Some(buds);
                    proof {
                        let v = self.buddies->Some_0;
                        let (w, q) = allocate_spec(vs[j as int], l as int, 4096);
                        assert(Seq::new(v@.len(), |i: int| v@[i]@) =~= vs.update(j as int, w));
                    }
                    return Ok(p);
                },
                Err(e) => {
                    proof {
                        assert(forall|i: int| 0 <= i < buds@.len() ==> #[trigger] buds@[i]@ == vs[i]);
                    }
                },
            }
            j = j + 1;
        }
        self.buddies = Some(buds);
        proof {
            let v = self.buddies->Some_0;
            assert(Seq::new(v@.len(), |i: int| v@[i]@) =~= vs);
        }
        Err(AllocError)
    }

    /// Gives back the block at `ptr`, of `l` bytes, to each allocator in
    /// service it lies in.
    pub fn deallocate(&mut self, ptr: u64, l: usize)
        requires
            old(self).wf(),
            old(self).views() is Some,
            forall|j: int| 0 <= j < old(self).at && in_buddy(#[trigger] old(self).views()->Some_0[j], ptr as int)
                ==> frees_ok(old(self).views()->Some_0[j], ptr as int, l as int),
        ensures
            final(self).wf(),
            final(self).at == old(self).at,
            final(self).views() == Some(pmm_deallocate(old(self).views()->Some_0, old(self).at as int, ptr as int)),
    {
        let mut buds = self.buddies.take().unwrap();
        let ghost vs = Seq::new(buds@.len(), |i: int| buds@[i]@);
        proof {
            assert(vs =~= old(self).views()->Some_0);
        }
        let at = self.at;
        let mut j: usize = 0;
        while j < at
            invariant
                j <= at <= buds@.len(),
                at == old(self).at,
                self.at == at,
                vs.len() == buds@.len(),
                old(self).views() == Some(vs),
                forall|i: int| 0 <= i < buds@.len() ==> (#[trigger] buds@[i]).wf() && buds@[i]@.base + BUDDY_BYTES <= u64::MAX,
                forall|i: int| 0 <= i < buds@.len() ==> #[trigger] buds@[i]@.base == vs[i].base,
                forall|i: int| j <= i < buds@.len() ==> #[trigger] buds@[i]@ == vs[i],
                forall|i: int| 0 <= i < j ==> #[trigger] buds@[i]@ == pmm_deallocate(vs, at as int, ptr as int)[i],
                forall|i: int| 0 <= i < at && in_buddy(#[trigger] vs[i], ptr as int) ==> frees_ok(vs[i], ptr as int, l as int),
            decreases at - j,
        {
            let mut b = buds.remove(j);
            if b.contains(ptr) {
                b.deallocate_mut(ptr, l);
            }
            buds.insert(j, b);
            j = j + 1;
        }
        self.buddies = Some(buds);
        proof {
            let v = self.buddies->Some_0;
            assert(Seq::new(v@.len(), |i: int| v@[i]@) =~= pmm_deallocate(vs, at as int, ptr as int));
        }
    }

    /// A frame of 4 KiB: the page that a 512 byte block served by the
    /// allocators starts in.
    pub fn alloc_frame(&mut self) -> (r: Result<u64, FrameError>)
        requires
            old(self).wf(),
        ensures
            final(self).wf(),
            final(self).at == old(self).at,
            match old(self).views() {
                None => r is Err && final(self).views() == old(self).views(),
                Some(vs) => {
                    let (ws, p) = pmm_allocate(vs, 0, old(self).at as int, 512);
                    &&& final(self).views() == Some(ws)
                    &&& match p {
                        Some(q) => r == Ok::<u64, FrameError>(page_floor(q.0) as u64),
                        None => r == Err::<u64, FrameError>(FrameError::Alloc),
                    }
                },
            },
    {
        proof {
            crate::bits::lemma_next_pow2_from(1, 512);
        }
        match self.allocate(512) {
            Ok((ptr, _)) => Ok(crate::addr::frame_containing(ptr)),
            Err(_) => Err(FrameError::Alloc),
        }
    }

    /// The manager over the first usable region of `memory_map`, from its
    /// first frame to the frame its end falls in, with room for as many
    /// allocators of `allocator_size` bytes as the 16 KiB from
    /// `prealloc_addr` on, counted in whole frames, hold an eighth of; its
    /// allocators keep their blocks in `bins`.
    pub fn init(memory_map: &Vec<MemoryRegion>, prealloc_addr: u64, allocator_size: usize, bins: Vec<AllocatorBin>) -> (r: Self)
        requires
            first_usable(memory_map@) is Some,
            memory_map@[first_usable(memory_map@)->Some_0].start <= memory_map@[first_usable(memory_map@)->Some_0].end,
            memory_map@[first_usable(memory_map@)->Some_0].end + 64 * 4096 <= u64::MAX,
            allocator_size > 0,
            8 * allocator_size <= usize::MAX,
            prealloc_addr + 0x4000 <= u64::MAX,
            forall|i: int| 0 <= i < bins@.len() ==> bin_empty(#[trigger] bins@[i]) && !bin_allocated(bins@[i]),
        ensures
            r.wf(),
            ({
                let region = memory_map@[first_usable(memory_map@)->Some_0];
                let first = page_floor(region.start as int);
                let frames = (page_floor(region.end as int) - first) / 4096;
                let slots = ((page_floor(prealloc_addr + 0x4000) - page_floor(prealloc_addr as int)) / 4096 * 4096) / (8 * allocator_size);
                let pairs = buddy_pairs(frames, bins@.len() as int);
                let count = if pairs < slots { pairs } else { slots };
                &&& r.views() == Some(Seq::new(count as nat, |i: int| fresh_buddy(first + i * BUDDY_BYTES)))
                &&& r.at == if pairs < slots { pairs as usize } else { 0 }
            }),
    {
        let n = memory_map.len();
        let mut i: usize = 0;
        while i < n
            invariant
                i <= n,
                n == memory_map@.len(),
                first_usable(memory_map@) is Some,
                forall|k: int| 0 <= k < i ==> memory_map@[k].kind != MemoryRegionKind::Usable,
            ensures
                i <= n,
                i < n ==> memory_map@[i as int].kind == MemoryRegionKind::Usable,
                forall|k: int| 0 <= k < i ==> memory_map@[k].kind != MemoryRegionKind::Usable,
            decreases n - i,
        {
            if memory_map[i].kind == MemoryRegionKind::Usable {
                break;
            }
            i = i + 1;
        }
        proof {
            if i == n {
                lemma_first_usable_none(memory_map@);
            }
            lemma_first_usable_at(memory_map@, i as int);
        }
        let region = memory_map[i];
        let page = PageRange::new_addr(region.start, region.end);
        let vec = PageRange::new_addr(prealloc_addr, prealloc_addr + 0x4000);
        proof {
            assert(vec.len * 4096 <= 0x4000 + 4096);
        }
        let slots = (vec.len as usize * 4096) / (8 * allocator_size);
        let mut alloc = Self::new();
        proof {
            assert(page.start + (page.len + 64) * 4096 <= u64::MAX);
        }
        alloc.populate_buddies(slots, bins, page.start, page.len);
        alloc
    }
}

} // verus!
