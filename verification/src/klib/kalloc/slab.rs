//! A slab page of a single slot, for requests of up to 512 bytes.
use vstd::prelude::*;

use crate::bits::{bit32, lemma_bit32_set};
use crate::kalloc::slab::fixed::{self, slab_pick, slot_bytes};
use crate::kalloc::AllocError;

verus! {

/// In a slab page, giving back the address a request was served at undoes
/// the request: the slot taken was free, the address leads back to it, and
/// once it is cleared again every slot is in use exactly where it was
/// before.
pub proof fn lemma_page_allocate_deallocate(mask: u32, len: u32, size: int, base: int)
    requires
        slab_pick(4096, mask, len, size) is Some,
    ensures
        ({
            let at = slab_pick(4096, mask, len, size)->Some_0;
            let taken = mask | (1u32 << (at as u32));
            &&& 0 <= at < 32
            &&& !bit32(mask, at)
            &&& bit32(taken, at)
            &&& ((base + at * slot_bytes(4096)) - base) / 512 == at
            &&& forall|j: int| 0 <= j < 32 ==> (j != at && #[trigger] bit32(taken, j)) == bit32(mask, j)
        }),
{
    fixed::lemma_slab_allocate_deallocate(4096, mask, len, size, base);
    let at = slab_pick(4096, mask, len, size)->Some_0;
    lemma_bit32_set(mask, at as u32);
    assert(bit32(mask | (1u32 << (at as u32)), (at as u32) as int));
}

/// A page with one slot of 512 bytes.
pub struct SlabPage {
    page: fixed::SlabPage<4096>,
}

impl SlabPage {
    /// Where the page starts.
    pub closed spec fn spec_base(&self) -> u64 {
        self.page.spec_base()
    }

    /// Bit `i` is set where slot `i` is in use.
    pub closed spec fn spec_mask(&self) -> u32 {
        self.page.spec_mask()
    }

    /// Slots in use.
    pub closed spec fn spec_len(&self) -> u32 {
        self.page.spec_len()
    }

    pub closed spec fn wf(&self) -> bool {
        self.page.wf()
    }

    /// An empty slab page on the page at `page`.
    pub fn from_page(page: u64) -> (r: Self)
        requires
            page % 4096 == 0,
        ensures
            r.wf(),
            r.spec_base() == page,
            r.spec_mask() == 0,
            r.spec_len() == 0,
    {
        SlabPage { page: fixed::SlabPage::<4096>::from_page(page) }
    }

    /// Slots in use.
    pub fn len(&self) -> (r: usize)
        ensures
            r == self.spec_len(),
    {
        self.page.len()
    }

    /// No slot is in use.
    pub fn is_empty(&self) -> (r: bool)
        ensures
            r == (self.spec_len() == 0),
    {
        self.len() == 0
    }

    /// Slots in a page.
    pub fn capacity() -> (r: usize)
        ensures
            r == 1,
    {
        1
    }

    /// The slot for `size` bytes, as `slab_pick` chooses it: its address and
    /// its length, the slot size.
    pub fn allocate(&mut self, size: usize) -> (r: Result<(u64, usize), AllocError>)
        requires
            old(self).wf(),
        ensures
            final(self).wf(),
            match slab_pick(4096, old(self).spec_mask(), old(self).spec_len(), size as int) {
                Some(at) => r == Ok::<(u64, usize), AllocError>((
                    (old(self).spec_base() + at * slot_bytes(4096)) as u64,
                    512usize,
                ))
                    && final(self).spec_base() == old(self).spec_base()
                    && final(self).spec_mask() == old(self).spec_mask() | (1u32 << (at as u32))
                    && final(self).spec_len() == old(self).spec_len() + 1,
                None => r == Err::<(u64, usize), AllocError>(AllocError) && final(self).spec_base() == old(self).spec_base()
                    && final(self).spec_mask() == old(self).spec_mask()
                    && final(self).spec_len() == old(self).spec_len(),
            },
    {
        self.page.allocate(size)
    }

    /// Gives back the slot that `addr` lies in; a slot not in use is left
    /// as it is.
    pub fn deallocate(&mut self, addr: u64, size: usize)
        requires
            old(self).wf(),
            size <= 512,
            old(self).spec_base() <= addr,
            (addr - old(self).spec_base()) / 512 < 32,
        ensures
            final(self).wf(),
            final(self).spec_base() == old(self).spec_base(),
            ({
                let at = (addr - old(self).spec_base()) / 512;
                if bit32(old(self).spec_mask(), at) {
                    &&& final(self).spec_len() + 1 == old(self).spec_len()
                    &&& forall|j: int| 0 <= j < 32 ==> #[trigger] bit32(final(self).spec_mask(), j) == (j != at && bit32(old(self).spec_mask(), j))
                } else {
                    final(self).spec_mask() == old(self).spec_mask() && final(self).spec_len() == old(self).spec_len()
                }
            }),
    {
        self.page.deallocate(addr, size)
    }
}

} // verus!
