//! Objects that live in pages of their own, mapped on demand.
use vstd::prelude::*;

use crate::addr::{FrameError, PageRange};
use crate::drivers::page_mapper::{
    lemma_map_4k_mapped, lemma_map_keeps_mapped, lemma_map_leveled, lemma_mapped_4k_resolves, leveled, map_spec,
    mapped_4k, resolve, unmap_spec, FrameAllocator, OffsetMapper, PageSize, PtView, ADDR_MASK, PRESENT,
};
use crate::kernel::mem::context::MemoryContext;

verus! {

/// The flags the pages of an object are mapped with: present, writable,
/// reachable from user mode.
pub const OBJECT_FLAGS: u64 = 0x7;

/// What the allocator hands out while one page is mapped: the frame of the
/// page, then a frame for a new table at each level on the way.
pub type PageOutcomes = (Result<u64, FrameError>, Result<u64, FrameError>, Result<u64, FrameError>, Result<u64, FrameError>);

/// Mapping one page to a frame from the allocator.
pub open spec fn map_page_spec(v: PtView, page: u64, outs: PageOutcomes) -> (PtView, Result<(), FrameError>) {
    match outs.0 {
        Err(x) => (v, Err(x)),
        Ok(frame) => map_spec(v, page, frame, OBJECT_FLAGS, PageSize::Page4Kb, outs.1, outs.2, outs.3),
    }
}

/// Mapping the first `n` pages from `start` on, one after the other, until
/// one fails.
pub open spec fn map_pages_spec(v: PtView, start: u64, n: nat, outs: Seq<PageOutcomes>) -> (PtView, Result<(), FrameError>)
    decreases n,
{
    if n == 0 {
        (v, Ok(()))
    } else {
        let (w, r) = map_pages_spec(v, start, (n - 1) as nat, outs);
        match r {
            Err(x) => (w, Err(x)),
            Ok(_) => map_page_spec(w, (start + (n - 1) * 4096) as u64, outs[n - 1]),
        }
    }
}

/// Unmapping the first `n` pages from `start` on, one after the other,
/// until one fails.
pub open spec fn unmap_pages_spec(v: PtView, start: u64, n: nat) -> (PtView, Result<(), FrameError>)
    decreases n,
{
    if n == 0 {
        (v, Ok(()))
    } else {
        let (w, r) = unmap_pages_spec(v, start, (n - 1) as nat);
        match r {
            Err(x) => (w, Err(x)),
            Ok(_) => unmap_spec(w, (start + (n - 1) * 4096) as u64, PageSize::Page4Kb),
        }
    }
}

proof fn lemma_map_pages_prefix(v: PtView, start: u64, n: nat, outs: Seq<PageOutcomes>, more: Seq<PageOutcomes>)
    requires
        n <= outs.len(),
        outs =~= more.take(outs.len() as int),
        outs.len() <= more.len(),
    ensures
        map_pages_spec(v, start, n, outs) == map_pages_spec(v, start, n, more),
    decreases n,
{
    if n > 0 {
        lemma_map_pages_prefix(v, start, (n - 1) as nat, outs, more);
        assert(outs[n - 1] == more[n - 1]);
    }
}

proof fn lemma_map_pages_stop(v: PtView, start: u64, m: nat, n: nat, outs: Seq<PageOutcomes>)
    requires
        m <= n,
        map_pages_spec(v, start, m, outs).1 is Err,
    ensures
        map_pages_spec(v, start, n, outs) == map_pages_spec(v, start, m, outs),
    decreases n - m,
{
    if m < n {
        lemma_map_pages_stop(v, start, m, (n - 1) as nat, outs);
    }
}

proof fn lemma_unmap_pages_stop(v: PtView, start: u64, m: nat, n: nat)
    requires
        m <= n,
        unmap_pages_spec(v, start, m).1 is Err,
    ensures
        unmap_pages_spec(v, start, n) == unmap_pages_spec(v, start, m),
    decreases n - m,
{
    if m < n {
        lemma_unmap_pages_stop(v, start, m, (n - 1) as nat);
    }
}

proof fn lemma_map_pages_leveled(v: PtView, start: u64, n: nat, outs: Seq<PageOutcomes>)
    requires
        leveled(v),
    ensures
        leveled(map_pages_spec(v, start, n, outs).0),
    decreases n,
{
    if n > 0 {
        lemma_map_pages_leveled(v, start, (n - 1) as nat, outs);
        let (w, r) = map_pages_spec(v, start, (n - 1) as nat, outs);
        let q = outs[n - 1];
        if r is Ok && q.0 is Ok {
            lemma_map_leveled(w, (start + (n - 1) * 4096) as u64, q.0->Ok_0, OBJECT_FLAGS, PageSize::Page4Kb, q.1, q.2, q.3);
        }
    }
}

/// Once the pages of an object are mapped, every address in them lands in
/// a present page, writable and reachable from user mode.
pub proof fn lemma_object_mapped(v: PtView, start: u64, n: nat, outs: Seq<PageOutcomes>, a: u64)
    requires
        leveled(v),
        start % 4096 == 0,
        start + n * 4096 <= u64::MAX,
        start <= a < start + n * 4096,
        map_pages_spec(v, start, n, outs).1 is Ok,
    ensures
        mapped_4k(map_pages_spec(v, start, n, outs).0, a, OBJECT_FLAGS),
        resolve(map_pages_spec(v, start, n, outs).0, a) is Ok,
        resolve(map_pages_spec(v, start, n, outs).0, a)->Ok_0.flags == OBJECT_FLAGS,
    decreases n,
{
    let (w, r) = map_pages_spec(v, start, (n - 1) as nat, outs);
    let q = outs[n - 1];
    let page = (start + (n - 1) * 4096) as u64;
    lemma_map_pages_leveled(v, start, (n - 1) as nat, outs);
    assert(r is Ok);
    assert(q.0 is Ok);
    let f = q.0->Ok_0;
    assert(OBJECT_FLAGS == 7u64 && ADDR_MASK == 0x000f_ffff_ffff_f000u64 && PRESENT == 1u64);
    assert(7u64 & 1u64 != 0 && 7u64 & !0x000f_ffff_ffff_f000u64 == 7u64) by (bit_vector);
    if a >= page {
        lemma_map_4k_mapped(w, page, f, OBJECT_FLAGS, q.1, q.2, q.3, a);
    } else {
        lemma_object_mapped(v, start, (n - 1) as nat, outs, a);
        lemma_map_keeps_mapped(w, page, f, OBJECT_FLAGS, q.1, q.2, q.3, a);
    }
    lemma_mapped_4k_resolves(map_pages_spec(v, start, n, outs).0, a, OBJECT_FLAGS);
}

/// An object together with the pages it lives in.
pub struct MemoryMappedObject<T> {
    resource: T,
    pages: PageRange,
}

impl<T> MemoryMappedObject<T> {
    pub closed spec fn resource_spec(&self) -> T {
        self.resource
    }

    pub closed spec fn pages_spec(&self) -> PageRange {
        self.pages
    }

    pub fn new(resource: T, pages: PageRange) -> (r: Self)
        ensures
            r.resource_spec() == resource,
            r.pages_spec() == pages,
    {
        MemoryMappedObject { resource, pages }
    }

    pub fn resource(&self) -> (r: &T)
        ensures
            *r == self.resource_spec(),
    {
        &self.resource
    }

    pub fn into_resource(self) -> (r: T)
        ensures
            r == self.resource_spec(),
    {
        self.resource
    }

    pub fn pages(&self) -> (r: &PageRange)
        ensures
            *r == self.pages_spec(),
    {
        &self.pages
    }

    /// Maps each page of the object, in order, to a frame from the
    /// allocator of `ctx`, writable and reachable from user mode; stops at
    /// the first page that cannot be mapped.
    pub fn map<A: FrameAllocator>(&self, ctx: &mut MemoryContext<OffsetMapper, A>) -> (r: Result<(), FrameError>)
        requires
            old(ctx).mapper.wf(),
            self.pages_spec().start + self.pages_spec().len * 4096 <= u64::MAX,
        ensures
            final(ctx).mapper.wf(),
            exists|outs: Seq<PageOutcomes>|
                map_pages_spec(old(ctx).mapper@, self.pages_spec().start, self.pages_spec().len as nat, outs) == (
                final(ctx).mapper@,
                r,
                ),
    {
        let ghost v = ctx.mapper@;
        let ghost mut outs: Seq<PageOutcomes> = Seq::empty();
        let start = self.pages.start;
        let n = self.pages.len;
        let mut k: u64 = 0;
        while k < n
            invariant
                k <= n,
                start == self.pages_spec().start,
                n == self.pages_spec().len,
                v == old(ctx).mapper@,
                start + n * 4096 <= u64::MAX,
                ctx.mapper.wf(),
                outs.len() == k,
                map_pages_spec(v, start, k as nat, outs) == (ctx.mapper@, Ok::<(), FrameError>(())),
            decreases n - k,
        {
            let page = start + k * 4096;
            let ghost w = ctx.mapper@;
            let ghost fail = Err::<u64, FrameError>(FrameError::Alloc);
            let frame = ctx.alloc.allocate_frame();
            let f = match frame {
                Ok(f) => f,
                Err(x) => {
                    let ghost q: PageOutcomes = (frame, fail, fail, fail);
                    proof {
                        lemma_map_pages_prefix(v, start, k as nat, outs, outs.push(q));
                        outs = outs.push(q);
                        assert(map_pages_spec(v, start, (k + 1) as nat, outs) == (ctx.mapper@, Err::<(), FrameError>(x)));
                        lemma_map_pages_stop(v, start, (k + 1) as nat, n as nat, outs);
                        assert(map_pages_spec(v, start, n as nat, outs) == (ctx.mapper@, Err::<(), FrameError>(x)));
                    }
                    return Err(x);
                },
            };
            let r = ctx.mapper.map(page, f, OBJECT_FLAGS, PageSize::Page4Kb, &mut ctx.alloc);
            let ghost (o4, o3, o2) = choose|o4: Result<u64, FrameError>, o3: Result<u64, FrameError>, o2: Result<u64, FrameError>|
                map_spec(w, page, f, OBJECT_FLAGS, PageSize::Page4Kb, o4, o3, o2) == (ctx.mapper@, r);
            let ghost q: PageOutcomes = (frame, o4, o3, o2);
            proof {
                lemma_map_pages_prefix(v, start, k as nat, outs, outs.push(q));
                outs = outs.push(q);
                assert(map_pages_spec(v, start, (k + 1) as nat, outs) == (ctx.mapper@, r));
            }
            if r.is_err() {
                proof {
                    lemma_map_pages_stop(v, start, (k + 1) as nat, n as nat, outs);
                    assert(map_pages_spec(v, start, n as nat, outs) == (ctx.mapper@, r));
                }
                return r;
            }
            k += 1;
        }
        assert(map_pages_spec(v, start, n as nat, outs) == (ctx.mapper@, Ok::<(), FrameError>(())));
        Ok(())
    }

    /// Unmaps each page of the object, in order; stops at the first page
    /// that cannot be unmapped.
    pub fn unmap(self, mapper: &mut OffsetMapper) -> (r: Result<(), FrameError>)
        requires
            old(mapper).wf(),
            self.pages_spec().start + self.pages_spec().len * 4096 <= u64::MAX,
        ensures
            final(mapper).wf(),
            unmap_pages_spec(old(mapper)@, self.pages_spec().start, self.pages_spec().len as nat) == (final(mapper)@, r),
    {
        let ghost v = mapper@;
        let start = self.pages.start;
        let n = self.pages.len;
        let mut k: u64 = 0;
        while k < n
            invariant
                k <= n,
                start == self.pages_spec().start,
                n == self.pages_spec().len,
                v == old(mapper)@,
                start + n * 4096 <= u64::MAX,
                mapper.wf(),
                unmap_pages_spec(v, start, k as nat) == (mapper@, Ok::<(), FrameError>(())),
            decreases n - k,
        {
            let r = mapper.unmap(start + k * 4096, PageSize::Page4Kb);
            assert(unmap_pages_spec(v, start, (k + 1) as nat) == (mapper@, r));
            if r.is_err() {
                proof {
                    lemma_unmap_pages_stop(v, start, (k + 1) as nat, n as nat);
                }
                return r;
            }
            k += 1;
        }
        Ok(())
    }
}

} // verus!
