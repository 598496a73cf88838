//! Pages of the kernel's Load segments start out mapped to the frames of
//! the ELF file itself. Before one is written to, it gets a frame of its
//! own, holding a copy of the old one, and its entry is marked `COPIED`;
//! once loading is done, the marks are cleared.
use vstd::prelude::*;

use crate::addr::{page_floor, FrameError};
use crate::bootloader::binary::elf::{Segment, SegmentKind};
use crate::drivers::page_mapper::{
    lemma_map_translate, lemma_resolve_present, lemma_unmap_leveled, lemma_update_flags_leveled,
    lemma_update_flags_translate, lemma_update_keeps_clear, leveled, map_spec, resolve, unmap_spec, update_flags_spec,
    FrameAllocator, OffsetMapper, PageSize, PtView, ADDR_MASK, PRESENT,
};

verus! {

/// An available bit of an entry, set on pages that got a frame of their own.
pub const COPIED: u64 = 0x400;

/// The frame a page can be written through, and the frame whose bytes must
/// first be copied into it, if the page just got it.
#[derive(Clone, Copy, PartialEq, Eq, Structural, Debug)]
pub struct MadeMut {
    pub frame: u64,
    pub copy_from: Option<u64>,
}

/// Giving the page at `page` a frame of its own: the allocator hands out
/// `o0` for it, then `o4`, `o3`, `o2` for tables on the way.
pub open spec fn make_mut_spec(
    v: PtView,
    page: u64,
    o0: Result<u64, FrameError>,
    o4: Result<u64, FrameError>,
    o3: Result<u64, FrameError>,
    o2: Result<u64, FrameError>,
) -> (PtView, Result<MadeMut, FrameError>) {
    let t = resolve(v, page)->Ok_0;
    let frame = page_floor(t.addr as int) as u64;
    if t.flags & COPIED != 0 {
        (v, Ok(MadeMut { frame, copy_from: None }))
    } else {
        match o0 {
            Err(x) => (v, Err(x)),
            Ok(nf) => {
                let (v1, r1) = unmap_spec(v, page, PageSize::Page4Kb);
                match r1 {
                    Err(x) => (v1, Err(x)),
                    Ok(_) => {
                        let (v2, r2) = map_spec(v1, page, nf, t.flags | COPIED, PageSize::Page4Kb, o4, o3, o2);
                        match r2 {
                            Err(x) => (v2, Err(x)),
                            Ok(_) => (v2, Ok(MadeMut { frame: nf, copy_from: Some(frame) })),
                        }
                    },
                }
            },
        }
    }
}

/// Makes the page at `page`, which must be mapped, safe to write: a page
/// already marked `COPIED` keeps its frame; any other gets a new frame from
/// `allocator`, mapped with its flags and `COPIED`; where the allocator has
/// none, its error is returned. The caller copies the bytes of the old
/// frame into the new one.
pub fn make_mut<A: FrameAllocator>(mapper: &mut OffsetMapper, page: u64, allocator: &mut A) -> (r: Result<
    MadeMut,
    FrameError,
>)
    requires
        old(mapper).wf(),
        resolve(old(mapper)@, page) is Ok,
    ensures
        final(mapper).wf(),
        exists|
            o0: Result<u64, FrameError>,
            o4: Result<u64, FrameError>,
            o3: Result<u64, FrameError>,
            o2: Result<u64, FrameError>,
        | make_mut_spec(old(mapper)@, page, o0, o4, o3, o2) == (final(mapper)@, r),
{
    let ghost v = mapper@;
    let ghost fail = Err::<u64, FrameError>(FrameError::Alloc);
    let t = match mapper.try_translate(page) {
        Ok(t) => t,
        Err(x) => {
            return Err(x);
        },
    };
    let frame = t.addr - t.addr % 4096;
    if (t.flags & COPIED) != 0 {
        let r = Ok(MadeMut { frame, copy_from: None });
        assert(make_mut_spec(v, page, fail, fail, fail, fail) == (mapper@, r));
        return r;
    }
    let o0 = allocator.allocate_frame();
    let nf = match o0 {
        Ok(nf) => nf,
        Err(x) => {
            assert(make_mut_spec(v, page, o0, fail, fail, fail) == (mapper@, Err::<MadeMut, FrameError>(x)));
            return Err(x);
        },
    };
    match mapper.unmap(page, PageSize::Page4Kb) {
        Ok(()) => {},
        Err(x) => {
            assert(make_mut_spec(v, page, o0, fail, fail, fail) == (mapper@, Err::<MadeMut, FrameError>(x)));
            return Err(x);
        },
    }
    let ghost v1 = mapper@;
    let r = mapper.map(page, nf, t.flags | COPIED, PageSize::Page4Kb, allocator);
    let ghost (o4, o3, o2) = choose|o4: Result<u64, FrameError>, o3: Result<u64, FrameError>, o2: Result<u64, FrameError>|
        map_spec(v1, page, nf, t.flags | COPIED, PageSize::Page4Kb, o4, o3, o2) == (mapper@, r);
    match r {
        Ok(()) => {
            let m = Ok(MadeMut { frame: nf, copy_from: Some(frame) });
            assert(make_mut_spec(v, page, o0, o4, o3, o2) == (mapper@, m));
            m
        },
        Err(x) => {
            assert(make_mut_spec(v, page, o0, o4, o3, o2) == (mapper@, Err::<MadeMut, FrameError>(x)));
            Err(x)
        },
    }
}

proof fn lemma_copied_bits(x: u64)
    by (bit_vector)
    ensures
        ((x | 0x400u64) & 1u64) == x & 1u64,
        (((x | 0x400u64) & !0x000f_ffff_ffff_f000u64) & 0x400u64) != 0,
        ((x & !0x400u64) & 1u64) == x & 1u64,
        ((x & !0x400u64) & 0x400u64) == 0,
        (((x & !0x400u64) & !0x000f_ffff_ffff_f000u64) & 0x400u64) == 0,
{
}

/// Once a page is made safe to write, it is marked `COPIED`; making it safe
/// again changes nothing and hands back the same frame.
pub proof fn lemma_make_mut_twice(
    v: PtView,
    page: u64,
    o0: Result<u64, FrameError>,
    o4: Result<u64, FrameError>,
    o3: Result<u64, FrameError>,
    o2: Result<u64, FrameError>,
    p0: Result<u64, FrameError>,
    p4: Result<u64, FrameError>,
    p3: Result<u64, FrameError>,
    p2: Result<u64, FrameError>,
)
    requires
        leveled(v),
        page % 4096 == 0,
        resolve(v, page) is Ok,
        o0 is Ok ==> o0->Ok_0 % 4096 == 0 && o0->Ok_0 <= ADDR_MASK,
        make_mut_spec(v, page, o0, o4, o3, o2).1 is Ok,
    ensures
        ({
            let (w, m) = make_mut_spec(v, page, o0, o4, o3, o2);
            &&& resolve(w, page) is Ok
            &&& resolve(w, page)->Ok_0.flags & COPIED != 0
            &&& make_mut_spec(w, page, p0, p4, p3, p2) == (w, Ok::<MadeMut, FrameError>(
                MadeMut { frame: m->Ok_0.frame, copy_from: None },
            ))
        }),
{
    let t = resolve(v, page)->Ok_0;
    if t.flags & COPIED == 0 {
        let nf = o0->Ok_0;
        lemma_unmap_leveled(v, page, PageSize::Page4Kb);
        let v1 = unmap_spec(v, page, PageSize::Page4Kb).0;
        lemma_resolve_present(v, page);
        lemma_copied_bits(t.flags);
        assert(PRESENT == 1u64 && COPIED == 0x400u64 && ADDR_MASK == 0x000f_ffff_ffff_f000u64);
        lemma_map_translate(v1, page, nf, t.flags | COPIED, PageSize::Page4Kb, o4, o3, o2, page);
    }
}

proof fn lemma_clear_pages_leveled(v: PtView, pages: Seq<u64>)
    requires
        leveled(v),
    ensures
        leveled(clear_pages_spec(v, pages).0),
    decreases pages.len(),
{
    if pages.len() > 0 {
        lemma_clear_pages_leveled(v, pages.drop_last());
        let (w, r) = clear_pages_spec(v, pages.drop_last());
        let q = pages.last();
        if r is Ok && resolve(w, q) is Ok {
            lemma_update_flags_leveled(w, q, resolve(w, q)->Ok_0.flags & !COPIED, PageSize::Page4Kb);
        }
    }
}

/// Once the marks of pages are cleared, every one of them lands somewhere
/// and none is marked `COPIED`.
pub proof fn lemma_pages_cleared(v: PtView, pages: Seq<u64>, i: int)
    requires
        leveled(v),
        forall|k: int| 0 <= k < pages.len() ==> #[trigger] pages[k] % 4096 == 0,
        clear_pages_spec(v, pages).1 is Ok,
        0 <= i < pages.len(),
    ensures
        resolve(clear_pages_spec(v, pages).0, pages[i]) is Ok,
        resolve(clear_pages_spec(v, pages).0, pages[i])->Ok_0.flags & COPIED == 0,
    decreases pages.len(),
{
    let (w, r) = clear_pages_spec(v, pages.drop_last());
    let q = pages.last();
    assert(r is Ok);
    lemma_clear_pages_leveled(v, pages.drop_last());
    assert(resolve(w, q) is Ok);
    let t = resolve(w, q)->Ok_0;
    let fl = t.flags & !COPIED;
    lemma_copied_bits(t.flags);
    lemma_resolve_present(w, q);
    assert(PRESENT == 1u64 && COPIED == 0x400u64 && ADDR_MASK == 0x000f_ffff_ffff_f000u64);
    if i == pages.len() - 1 {
        if t.flags & COPIED != 0 {
            assert(q % 4096 == 0);
            lemma_update_flags_translate(w, q, fl, PageSize::Page4Kb, q);
        }
    } else {
        assert(pages.drop_last()[i] == pages[i]);
        lemma_pages_cleared(v, pages.drop_last(), i);
        if t.flags & COPIED != 0 {
            lemma_update_keeps_clear(w, q, fl, COPIED, pages[i]);
        }
    }
}

proof fn lemma_load_pages_aligned(segments: Seq<Segment>, kernel_offset: int)
    requires
        forall|i: int|
            0 <= i < segments.len() && segments[i].kind == Ok::<SegmentKind, &'static str>(SegmentKind::Load) ==> kernel_offset
                + (#[trigger] segments[i]).virtual_addr + segments[i].mem_size <= u64::MAX,
        kernel_offset >= 0,
    ensures
        forall|k: int| 0 <= k < load_pages(segments, kernel_offset).len() ==> #[trigger] load_pages(segments, kernel_offset)[k] % 4096 == 0,
    decreases segments.len(),
{
    if segments.len() > 0 {
        let d = segments.drop_last();
        assert forall|i: int|
            0 <= i < d.len() && d[i].kind == Ok::<SegmentKind, &'static str>(SegmentKind::Load) implies kernel_offset
                + (#[trigger] d[i]).virtual_addr + d[i].mem_size <= u64::MAX by {
            assert(d[i] == segments[i]);
        }
        lemma_load_pages_aligned(d, kernel_offset);
        let s = segments.last();
        if s.kind == Ok::<SegmentKind, &'static str>(SegmentKind::Load) {
            assert(segments[segments.len() - 1] == s);
            let rest = load_pages(d, kernel_offset);
            let sp = segment_pages(s, kernel_offset);
            let start = kernel_offset + s.virtual_addr;
            let first = page_floor(start);
            let last = page_floor(start + s.mem_size);
            let count = (last - first) / 4096;
            assert(first % 4096 == 0 && last % 4096 == 0 && first <= last);
            assert((last - first) % 4096 == 0);
            assert(last - first == 4096 * count);
            assert(last <= u64::MAX);
            assert forall|k: int| 0 <= k < sp.len() implies #[trigger] sp[k] % 4096 == 0 by {
                assert(k < count);
                assert(first + k * 4096 < last);
                assert((first + k * 4096) % 4096 == 0);
                assert(sp[k] == first + k * 4096);
            }
            assert(load_pages(segments, kernel_offset) == rest + sp);
            assert forall|k: int| 0 <= k < (rest + sp).len() implies #[trigger] (rest + sp)[k] % 4096 == 0 by {
                if k >= rest.len() {
                    assert((rest + sp)[k] == sp[k - rest.len()]);
                } else {
                    assert((rest + sp)[k] == rest[k]);
                }
            }
        } else {
            assert(load_pages(segments, kernel_offset) == load_pages(d, kernel_offset));
        }
    }
}

/// Once the marks are cleared, every page of the Load segments lands
/// somewhere and none is marked `COPIED`.
pub proof fn lemma_copied_cleared(v: PtView, segments: Seq<Segment>, kernel_offset: u64, i: int)
    requires
        leveled(v),
        forall|i: int|
            0 <= i < segments.len() && segments[i].kind == Ok::<SegmentKind, &'static str>(SegmentKind::Load) ==> kernel_offset
                + (#[trigger] segments[i]).virtual_addr + segments[i].mem_size <= u64::MAX,
        clear_pages_spec(v, load_pages(segments, kernel_offset as int)).1 is Ok,
        0 <= i < load_pages(segments, kernel_offset as int).len(),
    ensures
        ({
            let w = clear_pages_spec(v, load_pages(segments, kernel_offset as int)).0;
            let p = load_pages(segments, kernel_offset as int)[i];
            &&& resolve(w, p) is Ok
            &&& resolve(w, p)->Ok_0.flags & COPIED == 0
        }),
{
    lemma_load_pages_aligned(segments, kernel_offset as int);
    lemma_pages_cleared(v, load_pages(segments, kernel_offset as int), i);
}

/// The pages of a Load segment placed at `kernel_offset`: from the one
/// holding its first byte up to, not including, the one holding the byte
/// just after its end.
pub open spec fn segment_pages(s: Segment, kernel_offset: int) -> Seq<u64> {
    let start = kernel_offset + s.virtual_addr;
    let first = page_floor(start);
    let count = (page_floor(start + s.mem_size) - first) / 4096;
    Seq::new(count as nat, |k: int| (first + k * 4096) as u64)
}

/// The pages of all Load segments, in order.
pub open spec fn load_pages(segments: Seq<Segment>, kernel_offset: int) -> Seq<u64>
    decreases segments.len(),
{
    if segments.len() == 0 {
        Seq::empty()
    } else {
        let rest = load_pages(segments.drop_last(), kernel_offset);
        if segments.last().kind == Ok::<SegmentKind, &'static str>(SegmentKind::Load) {
            rest + segment_pages(segments.last(), kernel_offset)
        } else {
            rest
        }
    }
}

/// Clearing the `COPIED` mark of one page, which must be mapped.
pub open spec fn clear_page_spec(v: PtView, page: u64) -> (PtView, Result<(), FrameError>) {
    match resolve(v, page) {
        Err(x) => (v, Err(x)),
        Ok(t) => if t.flags & COPIED != 0 {
            update_flags_spec(v, page, t.flags & !COPIED, PageSize::Page4Kb)
        } else {
            (v, Ok(()))
        },
    }
}

/// Clearing the marks of the pages, one after the other, until one fails.
pub open spec fn clear_pages_spec(v: PtView, pages: Seq<u64>) -> (PtView, Result<(), FrameError>)
    decreases pages.len(),
{
    if pages.len() == 0 {
        (v, Ok(()))
    } else {
        let (w, r) = clear_pages_spec(v, pages.drop_last());
        match r {
            Err(x) => (w, Err(x)),
            Ok(_) => clear_page_spec(w, pages.last()),
        }
    }
}

proof fn lemma_clear_pages_stop(v: PtView, pages: Seq<u64>, m: int)
    requires
        0 <= m <= pages.len(),
        clear_pages_spec(v, pages.take(m)).1 is Err,
    ensures
        clear_pages_spec(v, pages) == clear_pages_spec(v, pages.take(m)),
    decreases pages.len() - m,
{
    if m < pages.len() {
        assert(pages.take(m + 1).drop_last() =~= pages.take(m));
        lemma_clear_pages_stop(v, pages, m + 1);
    } else {
        assert(pages.take(m) =~= pages);
    }
}

/// The pages of the Load segments, in order.
fn load_page_list(segments: &Vec<Segment>, kernel_offset: u64) -> (r: Vec<u64>)
    requires
        forall|i: int|
            0 <= i < segments@.len() && segments@[i].kind == Ok::<SegmentKind, &'static str>(SegmentKind::Load) ==> kernel_offset
                + (#[trigger] segments@[i]).virtual_addr + segments@[i].mem_size <= u64::MAX,
    ensures
        r@ == load_pages(segments@, kernel_offset as int),
{
    let mut r: Vec<u64> = Vec::new();
    let mut i: usize = 0;
    while i < segments.len()
        invariant
            i <= segments@.len(),
            forall|i: int|
                0 <= i < segments@.len() && segments@[i].kind == Ok::<SegmentKind, &'static str>(SegmentKind::Load)
                    ==> kernel_offset + (#[trigger] segments@[i]).virtual_addr + segments@[i].mem_size <= u64::MAX,
            r@ == load_pages(segments@.take(i as int), kernel_offset as int),
        decreases segments@.len() - i,
    {
        let s = segments[i];
        let ghost before = r@;
        assert(segments@.take(i + 1).drop_last() =~= segments@.take(i as int));
        assert(segments@.take(i + 1).last() == s);
        let is_load = match s.kind {
            Ok(SegmentKind::Load) => true,
            _ => false,
        };
        if is_load {
            let start = kernel_offset + s.virtual_addr;
            let end = start + s.mem_size;
            let first = start - start % 4096;
            let last = end - end % 4096;
            let count = (last - first) / 4096;
            assert(first % 4096 == 0 && last % 4096 == 0 && first <= last);
            assert((last - first) % 4096 == 0);
            assert(first + count * 4096 == last);
            let ghost pages = segment_pages(s, kernel_offset as int);
            assert(pages.len() == count);
            let mut k: u64 = 0;
            while k < count
                invariant
                    k <= count,
                    first as int == page_floor(kernel_offset + s.virtual_addr),
                    count == pages.len(),
                    first + count * 4096 <= u64::MAX,
                    pages == segment_pages(s, kernel_offset as int),
                    r@ == before + pages.take(k as int),
                decreases count - k,
            {
                assert(pages.take(k + 1) =~= pages.take(k as int).push(pages[k as int]));
                r.push(first + k * 4096);
                k += 1;
            }
            assert(pages.take(count as int) =~= pages);
        }
        assert(r@ == load_pages(segments@.take(i + 1), kernel_offset as int));
        i += 1;
    }
    assert(segments@.take(segments@.len() as int) =~= segments@);
    r
}

/// Clears the `COPIED` mark of every page of the Load segments placed at
/// `kernel_offset`; each page must be mapped.
pub fn remove_copied_flags(mapper: &mut OffsetMapper, segments: &Vec<Segment>, kernel_offset: u64) -> (r: Result<
    (),
    FrameError,
>)
    requires
        old(mapper).wf(),
        forall|i: int| 0 <= i < segments@.len() ==> (#[trigger] segments@[i]).kind is Ok,
        forall|i: int|
            0 <= i < segments@.len() && segments@[i].kind == Ok::<SegmentKind, &'static str>(SegmentKind::Load) ==> kernel_offset
                + (#[trigger] segments@[i]).virtual_addr + segments@[i].mem_size <= u64::MAX,
    ensures
        final(mapper).wf(),
        (final(mapper)@, r) == clear_pages_spec(old(mapper)@, load_pages(segments@, kernel_offset as int)),
{
    let ghost v = mapper@;
    let pages = load_page_list(segments, kernel_offset);
    let mut k: usize = 0;
    while k < pages.len()
        invariant
            k <= pages@.len(),
            v == old(mapper)@,
            pages@ == load_pages(segments@, kernel_offset as int),
            mapper.wf(),
            clear_pages_spec(v, pages@.take(k as int)) == (mapper@, Ok::<(), FrameError>(())),
        decreases pages@.len() - k,
    {
        let page = pages[k];
        assert(pages@.take(k + 1).drop_last() =~= pages@.take(k as int));
        assert(pages@.take(k + 1).last() == page);
        let t = match mapper.try_translate(page) {
            Ok(t) => t,
            Err(x) => {
                proof {
                    assert(clear_pages_spec(v, pages@.take(k + 1)) == (mapper@, Err::<(), FrameError>(x)));
                    lemma_clear_pages_stop(v, pages@, k + 1);
                }
                return Err(x);
            },
        };
        if (t.flags & COPIED) != 0 {
            let r = mapper.update_flags(page, t.flags & !COPIED, PageSize::Page4Kb);
            assert(clear_pages_spec(v, pages@.take(k + 1)) == (mapper@, r));
            if r.is_err() {
                proof {
                    lemma_clear_pages_stop(v, pages@, k + 1);
                }
                return r;
            }
        }
        k += 1;
    }
    assert(pages@.take(pages@.len() as int) =~= pages@);
    Ok(())
}

} // verus!
