//! A slab page whose slots are tracked in a 32-bit mask.
use vstd::prelude::*;

use crate::bits::{bit32, lemma_bit32_set, lemma_ones32_flip_set, lemma_ones32_set, ones32};
use crate::kalloc::slab::{slab_size, SlabCheck, SlabSize};
use crate::kalloc::AllocError;

verus! {

/// Bytes in one slot of a slab page for size `n`.
pub open spec fn slot_bytes(n: int) -> int {
    n / 8
}

/// Slots in a slab page for size `n`.
pub open spec fn slab_capacity(n: int) -> int {
    4096int / n
}

/// The lowest clear bit of `mask` in `lo..hi`.
pub open spec fn lowest_free(mask: u32, lo: int, hi: int) -> Option<int>
    decreases hi - lo,
{
    if lo >= hi {
        None
    } else if !bit32(mask, lo) {
        Some(lo)
    } else {
        lowest_free(mask, lo + 1, hi)
    }
}

/// The highest clear bit of `mask` in `lo..hi`.
pub open spec fn highest_free(mask: u32, lo: int, hi: int) -> Option<int>
    decreases hi - lo,
{
    if lo >= hi {
        None
    } else if !bit32(mask, hi - 1) {
        Some(hi - 1)
    } else {
        highest_free(mask, lo, hi - 1)
    }
}

/// The slot that a request of `size` bytes gets: with an even number of
/// slots in use, the lowest free one of the lower half and the middle one;
/// with an odd number, the highest free one above the middle.
pub open spec fn slab_pick(n: int, mask: u32, len: u32, size: int) -> Option<int> {
    if size > slot_bytes(n) {
        None
    } else if len % 2 == 0 {
        lowest_free(mask, 0, slab_capacity(n) / 2 + 1)
    } else {
        highest_free(mask, slab_capacity(n) / 2 + 1, slab_capacity(n))
    }
}

proof fn lemma_lowest_free(mask: u32, lo: int, hi: int)
    ensures
        lowest_free(mask, lo, hi) matches Some(i) ==> lo <= i < hi && !bit32(mask, i),
    decreases hi - lo,
{
    if lo < hi && bit32(mask, lo) {
        lemma_lowest_free(mask, lo + 1, hi);
    }
}

proof fn lemma_highest_free(mask: u32, lo: int, hi: int)
    ensures
        highest_free(mask, lo, hi) matches Some(i) ==> lo <= i < hi && !bit32(mask, i),
    decreases hi - lo,
{
    if lo < hi && bit32(mask, hi - 1) {
        lemma_highest_free(mask, lo, hi - 1);
    }
}

/// Giving back the address a request was served at frees exactly the slot
/// it was served from: the slot was free, the address leads back to it, and
/// clearing it leaves the other slots as they were.
pub proof fn lemma_slab_allocate_deallocate(n: int, mask: u32, len: u32, size: int, base: int)
    requires
        slab_size(n),
        slab_pick(n, mask, len, size) is Some,
    ensures
        ({
            let at = slab_pick(n, mask, len, size)->Some_0;
            let addr = base + at * slot_bytes(n);
            &&& 0 <= at < slab_capacity(n)
            &&& !bit32(mask, at)
            &&& (addr - base) / slot_bytes(n) == at
            &&& forall|j: int| 0 <= j < 32 ==> (j != at && #[trigger] bit32(mask | (1u32 << (at as u32)), j)) == bit32(mask, j)
        }),
{
    let cap = slab_capacity(n);
    if len % 2 == 0 {
        lemma_lowest_free(mask, 0, cap / 2 + 1);
    } else {
        lemma_highest_free(mask, cap / 2 + 1, cap);
    }
    let at = slab_pick(n, mask, len, size)->Some_0;
    assert(cap <= 32);
    let k = at as u32;
    lemma_bit32_set(mask, k);
    assert forall|j: int| 0 <= j < 32 implies (j != at && #[trigger] bit32(mask | (1u32 << (at as u32)), j)) == bit32(mask, j) by {
        assert(bit32(mask | (1u32 << k), (j as u32) as int) == ((j as u32) == k || bit32(mask, (j as u32) as int)));
    }
    assert((at * slot_bytes(n)) / slot_bytes(n) == at) by (nonlinear_arith)
        requires
            slot_bytes(n) > 0,
            at >= 0;
}

/// A page of `4096 / N` slots of `N / 8` bytes each, from `base` on.
pub struct SlabPage<const N: usize> where SlabCheck<N>: SlabSize {
    base: u64,
    mask: u32,
    len: u32,
}

impl<const N: usize> SlabPage<N> where SlabCheck<N>: SlabSize {
    /// Where the page starts.
    pub closed spec fn spec_base(&self) -> u64 {
        self.base
    }

    /// Bit `i` is set where slot `i` is in use.
    pub closed spec fn spec_mask(&self) -> u32 {
        self.mask
    }

    /// Slots in use.
    pub closed spec fn spec_len(&self) -> u32 {
        self.len
    }

    /// The page is page aligned, counts its slots in use, and uses no slot
    /// past its capacity.
    pub closed spec fn wf(&self) -> bool {
        &&& slab_size(N as int)
        &&& self.base % 4096 == 0
        &&& self.len == ones32(self.mask, 32)
        &&& forall|i: int| slab_capacity(N as int) <= i < 32 ==> !bit32(self.mask, i)
    }

    /// An empty slab page on the page at `page`.
    pub fn from_page(page: u64) -> (r: Self)
        requires
            slab_size(N as int),
            page % 4096 == 0,
        ensures
            r.wf(),
            r.spec_base() == page,
            r.spec_mask() == 0,
            r.spec_len() == 0,
    {
        let r = SlabPage { base: page, mask: 0, len: 0 };
        proof {
            assert forall|i: int| 0 <= i < 32 implies !bit32(0u32, i) by {
                let k = i as u32;
                assert(0u32 & (1u32 << k) == 0) by (bit_vector);
            }
            lemma_ones32_zero(32);
        }
        r
    }

    /// Slots in use.
    pub fn len(&self) -> (r: usize)
        ensures
            r == self.spec_len(),
    {
        self.len as usize
    }

    /// Slots in the page.
    pub fn capacity(&self) -> (r: usize)
        requires
            self.wf(),
        ensures
            r == slab_capacity(N as int),
    {
        4096 / N
    }

    /// Takes slot `at` where it is free: the address of the slot.
    pub fn try_alloc_at(&mut self, at: usize) -> (r: Option<u64>)
        requires
            old(self).wf(),
            at < slab_capacity(N as int),
        ensures
            final(self).wf(),
            final(self).spec_base() == old(self).spec_base(),
            bit32(old(self).spec_mask(), at as int) ==> r is None && *final(self) == *old(self),
            !bit32(old(self).spec_mask(), at as int) ==> r == Some((old(self).spec_base() + at * slot_bytes(N as int)) as u64)
                && final(self).spec_mask() == old(self).spec_mask() | (1u32 << (at as u32))
                && final(self).spec_len() == old(self).spec_len() + 1,
    {
        let k = at as u32;
        let mask_entry: u32 = 1u32 << k;
        let cur = self.mask;
        if mask_entry & cur == 0 {
            proof {
                assert(mask_entry & cur == cur & mask_entry) by (bit_vector);
                lemma_ones32_set(self.mask, k);
                lemma_bit32_set(self.mask, k);
                assert(ones32(self.mask, 32) <= 32) by {
                    crate::bits::lemma_ones32_len(self.mask, 32);
                    lemma_ones32_at_most(self.mask, 32);
                }
                assert forall|i: int| slab_capacity(N as int) <= i < 32 implies !bit32(self.mask | (1u32 << k), i) by {
                    assert(bit32(self.mask | (1u32 << k), (i as u32) as int) == ((i as u32) == k || bit32(self.mask, (i as u32) as int)));
                }
            }
            self.mask = self.mask | mask_entry;
            self.len = self.len + 1;
            let slot = (N / 8) as u64;
            proof {
                assert(at * slot_bytes(N as int) <= 4096int / (N as int) * ((N as int) / 8)) by (nonlinear_arith)
                    requires
                        at < 4096int / (N as int),
                        N >= 128;
                assert(4096int / (N as int) * ((N as int) / 8) <= 512) by (nonlinear_arith)
                    requires
                        N >= 128;
            }
            Some(self.base + at as u64 * slot)
        } else {
            proof {
                assert(mask_entry & cur == cur & mask_entry) by (bit_vector);
            }
            None
        }
    }

    /// A slot for `size` bytes, as `slab_pick` chooses it: its address and
    /// its length, the slot size.
    pub fn allocate(&mut self, size: usize) -> (r: Result<(u64, usize), AllocError>)
        requires
            old(self).wf(),
        ensures
            final(self).wf(),
            match slab_pick(N as int, old(self).spec_mask(), old(self).spec_len(), size as int) {
                Some(at) => r == Ok::<(u64, usize), AllocError>((
                    (old(self).spec_base() + at * slot_bytes(N as int)) as u64,
                    (N / 8) as usize,
                ))
                    && final(self).spec_base() == old(self).spec_base()
                    && final(self).spec_mask() == old(self).spec_mask() | (1u32 << (at as u32))
                    && final(self).spec_len() == old(self).spec_len() + 1,
                None => r == Err::<(u64, usize), AllocError>(AllocError) && *final(self) == *old(self),
            },
    {
        if size > N / 8 {
            return Err(AllocError);
        }
        let cap = self.capacity();
        if self.len() % 2 == 0 {
            let hi = cap / 2 + 1;
            let mut i: usize = 0;
            while i < hi
                invariant
                    self.wf(),
                    *self == *old(self),
                    hi == slab_capacity(N as int) / 2 + 1,
                    hi <= slab_capacity(N as int),
                    i <= hi,
                    size <= N / 8,
                    self.len % 2 == 0,
                    lowest_free(self.mask, i as int, hi as int) == lowest_free(self.mask, 0, hi as int),
                decreases hi - i,
            {
                let ghost m = self.mask;
                match self.try_alloc_at(i) {
                    Some(p) => {
                        return Ok((p, N / 8));
                    },
                    None => {},
                }
                proof {
                    assert(lowest_free(m, i as int, hi as int) == lowest_free(m, i + 1, hi as int));
                }
                i = i + 1;
            }
            Err(AllocError)
        } else {
            let lo = cap / 2 + 1;
            let mut i: usize = cap;
            while i > lo
                invariant
                    self.wf(),
                    *self == *old(self),
                    lo == slab_capacity(N as int) / 2 + 1,
                    cap == slab_capacity(N as int),
                    lo <= i <= cap,
                    size <= N / 8,
                    self.len % 2 == 1,
                    highest_free(self.mask, lo as int, i as int) == highest_free(self.mask, lo as int, cap as int),
                decreases i - lo,
            {
                let ghost m = self.mask;
                match self.try_alloc_at(i - 1) {
                    Some(p) => {
                        return Ok((p, N / 8));
                    },
                    None => {},
                }
                proof {
                    assert(highest_free(m, lo as int, i as int) == highest_free(m, lo as int, i - 1));
                }
                i = i - 1;
            }
            Err(AllocError)
        }
    }

    /// Gives back the slot that `addr` lies in; a slot not in use is left
    /// as it is.
    pub fn deallocate(&mut self, addr: u64, size: usize)
        requires
            old(self).wf(),
            size <= N / 8,
            old(self).spec_base() <= addr,
            (addr - old(self).spec_base()) / slot_bytes(N as int) < 32,
        ensures
            final(self).wf(),
            final(self).spec_base() == old(self).spec_base(),
            ({
                let at = (addr - old(self).spec_base()) / slot_bytes(N as int);
                if bit32(old(self).spec_mask(), at) {
                    &&& final(self).spec_len() + 1 == old(self).spec_len()
                    &&& forall|j: int| 0 <= j < 32 ==> #[trigger] bit32(final(self).spec_mask(), j) == (j != at && bit32(old(self).spec_mask(), j))
                } else {
                    *final(self) == *old(self)
                }
            }),
    {
        let offset = ((addr - self.base) / ((N / 8) as u64)) as u32;
        let mask: u32 = 1u32 << offset;
        let cur = self.mask;
        if mask & cur != 0 {
            proof {
                assert(mask & cur == cur & mask) by (bit_vector);
                lemma_ones32_flip_set(self.mask, offset);
                assert forall|j: int| 0 <= j < 32 implies #[trigger] bit32(self.mask ^ mask, j) == (j != offset && bit32(self.mask, j)) by {
                    assert(bit32(self.mask ^ mask, (j as u32) as int) == ((j as u32) != offset && bit32(self.mask, (j as u32) as int)));
                }
            }
            self.len = self.len - 1;
            self.mask = self.mask ^ mask;
        } else {
            proof {
                assert(mask & cur == cur & mask) by (bit_vector);
            }
        }
    }
}

/// No bit of zero is set.
proof fn lemma_ones32_zero(n: nat)
    requires
        n <= 32,
    ensures
        ones32(0u32, n) == 0,
    decreases n,
{
    if n > 0 {
        lemma_ones32_zero((n - 1) as nat);
        let k = (n - 1) as u32;
        assert(0u32 & (1u32 << k) == 0) by (bit_vector);
    }
}

/// At most `n` of the lowest `n` bits are set.
proof fn lemma_ones32_at_most(x: u32, n: nat)
    ensures
        ones32(x, n) <= n,
    decreases n,
{
    if n > 0 {
        lemma_ones32_at_most(x, (n - 1) as nat);
    }
}

} // verus!
