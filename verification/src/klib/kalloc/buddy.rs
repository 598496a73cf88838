//! A buddy allocator over 64 slots of `MIN` units each, whose blocks are
//! recorded in caller-provided [`AllocatorBin`]s.
//!
//! Slot `i` of an allocator based at `start` begins at address
//! `start + i * MIN`; a block of `n` slots is `n * MIN` units long, which is
//! `n * MIN / 8` bytes.
use vstd::prelude::*;

use crate::addr::{PageRange, PhysicalAddr, VirtualAddr, PAGE_4KB};
use crate::bits::{bit64, have_free_multiple64, is_pow2, is_power_of_two, next_pow2, next_power_of_two, free_multiple64};
use crate::kalloc::model::{
    alloc_down, blk, block_ok, bsize, bsz, buddy, can_merge, is_right, lemma_alloc_down,
    lemma_merge_partitioned, lemma_merge_up, lemma_split_partitioned, merge_at, merge_up,
    merge_up_index, merged, occ, parent_start, partitioned, split_at, split_facts, used_ok, Bins,
    lemma_alloc_down_size, lemma_merge_up_alloc_down,
};
use std::ops::Range;
use crate::kalloc::requests::{
    available, chosen_slot, deallocate_spec, first_available, free_slot, lemma_buddy_check,
    lemma_first_available, lemma_serve_fits, lemma_serve_free, lemma_serve_keeps_used, req_size,
    serve, slot_of, splits, BuddyView, allocate_spec, have_buckets, lemma_single_block_partition,
    holds_block, request_size, lemma_allocate_deallocate, lemma_allocate_law, settled,
};
use crate::kalloc::{AllocError, AllocatorBin, AllocatorBinFlags, CopyStep};

verus! {

/// Number of slots, and of bins, of an allocator.
pub const DEPTH: usize = 64;

/// The flag of a bin whose block is handed out.
pub const BIN_ALLOCATED: u64 = 0x1000_0000_0000_0000;

/// The bin's block is marked as handed out.
pub open spec fn bin_allocated(b: AllocatorBin) -> bool {
    b.flags.bits & BIN_ALLOCATED == BIN_ALLOCATED
}

/// The bin holds no block.
pub open spec fn bin_empty(b: AllocatorBin) -> bool {
    b.start.addr == 0 && b.end.addr == 0 && b.data == 0
}

/// The slot range of the block a bin holds.
pub open spec fn bin_block(b: AllocatorBin) -> Option<(int, int)> {
    if bin_empty(b) {
        None
    } else {
        Some((b.start.addr as int, b.end.addr as int))
    }
}

/// A fresh bin for the slots `start..end`.
pub open spec fn fresh_bin(start: int, end: int) -> AllocatorBin {
    AllocatorBin {
        flags: AllocatorBinFlags { bits: 1 },
        start: VirtualAddr { addr: start as u64 },
        end: VirtualAddr { addr: end as u64 },
        data: 0,
    }
}

/// A bin record viewed as a bucket of slots.
pub struct Bucket<const MIN: usize>(AllocatorBin);

impl<const MIN: usize> Bucket<MIN> {
    /// The record inside.
    pub closed spec fn bin(&self) -> AllocatorBin {
        self.0
    }

    /// An empty bucket, whose record is only flagged as used.
    pub fn empty() -> (r: Self)
        ensures
            r.bin() == fresh_bin(0, 0),
    {
        Bucket(AllocatorBin {
            flags: AllocatorBinFlags::used(),
            start: VirtualAddr::new(0),
            end: VirtualAddr::new(0),
            data: 0,
        })
    }

    /// A bucket over the record `bin`.
    pub fn from_bin(bin: AllocatorBin) -> (r: Self)
        ensures
            r.bin() == bin,
    {
        Bucket(bin)
    }

    pub fn into_inner(self) -> (r: AllocatorBin)
        ensures
            r == self.bin(),
    {
        self.0
    }

    /// The block is marked as handed out.
    pub fn is_allocated(&self) -> (r: bool)
        ensures
            r == bin_allocated(self.bin()),
    {
        self.0.flags.bits & BIN_ALLOCATED == BIN_ALLOCATED
    }

    /// Marks the block as handed out.
    pub fn mark_allocated(&mut self)
        ensures
            final(self).bin() == (AllocatorBin {
                flags: AllocatorBinFlags { bits: old(self).bin().flags.bits | BIN_ALLOCATED },
                ..old(self).bin()
            }),
            bin_allocated(final(self).bin()),
    {
        let b = self.0.flags.bits;
        assert((b | 0x1000_0000_0000_0000u64) & 0x1000_0000_0000_0000u64
            == 0x1000_0000_0000_0000u64) by (bit_vector);
        self.0.flags = AllocatorBinFlags { bits: b | BIN_ALLOCATED };
    }

    /// Marks the block as no longer handed out.
    pub fn mark_deallocated(&mut self)
        ensures
            final(self).bin() == (AllocatorBin {
                flags: AllocatorBinFlags { bits: old(self).bin().flags.bits & !BIN_ALLOCATED },
                ..old(self).bin()
            }),
            !bin_allocated(final(self).bin()),
    {
        let b = self.0.flags.bits;
        assert((b & !0x1000_0000_0000_0000u64) & 0x1000_0000_0000_0000u64 == 0) by (bit_vector);
        self.0.flags = AllocatorBinFlags { bits: b & !BIN_ALLOCATED };
    }
}

/// Why an allocator could not be set up.
#[derive(Clone, Copy, PartialEq, Eq, Structural, Debug)]
pub enum Error {
    InvalidPowerOfTwo,
    InvalidBinSliceSize,
    InvalidFrameRange { expected: u64, got: u64 },
}

/// A buddy allocator over 64 slots of `MIN` units each.
pub struct BuddyAllocator<const MIN: usize> {
    bins: Vec<AllocatorBin>,
    start: PhysicalAddr,
    used_mask: u64,
}

impl<const MIN: usize> View for BuddyAllocator<MIN> {
    type V = BuddyView;

    closed spec fn view(&self) -> BuddyView {
        BuddyView {
            bins: Seq::new(64, |i: int| bin_block(self.bins@[i])),
            used: Set::new(|i: int| 0 <= i < 64 && bit64(self.used_mask, i)),
            flagged: Set::new(|i: int| 0 <= i < 64 && bin_allocated(self.bins@[i])),
            base: self.start.addr as int,
        }
    }
}

impl<const MIN: usize> BuddyAllocator<MIN> {
    /// The bin records, in slot order.
    pub closed spec fn records(&self) -> Seq<AllocatorBin> {
        self.bins@
    }

    /// The allocator is consistent: its blocks partition the 64 slots, every
    /// slot in use holds a block and every flagged bin is in use.
    pub closed spec fn wf(&self) -> bool {
        &&& self.bins@.len() == 64
        &&& partitioned(self@.bins, 64)
        &&& used_ok(self@.bins, self@.used, 64)
        &&& self@.flagged.subset_of(self@.used)
        &&& MIN > 0
        &&& is_pow2(MIN as int)
        &&& 64 * MIN <= usize::MAX
    }

    /// Sets up an allocator over the 64 slots that follow the start of
    /// `page`, which must span exactly `MIN * 64 / PAGE_4KB` pages, keeping
    /// its blocks in `bins`, which must hold exactly 64 records.
    pub fn new(bins: Vec<AllocatorBin>, page: PageRange) -> (r: Result<Self, Error>)
        requires
            !is_pow2(MIN as int) || bins.len() != 64 || MIN * 64 <= usize::MAX,
        ensures
            !is_pow2(MIN as int) ==> r == Err::<Self, Error>(Error::InvalidPowerOfTwo),
            is_pow2(MIN as int) && bins.len() != 64 ==> r == Err::<Self, Error>(
                Error::InvalidBinSliceSize,
            ),
            is_pow2(MIN as int) && bins.len() == 64 && (MIN * 64) / 4096 != page.len ==> r == Err::<
                Self,
                Error,
            >(Error::InvalidFrameRange { expected: ((MIN * 64) / 4096) as u64, got: page.len }),
            is_pow2(MIN as int) && bins.len() == 64 && (MIN * 64) / 4096 == page.len ==> r is Ok,
            r matches Ok(a) ==> {
                &&& a@.bins.len() == 64
                &&& a@.bins[0] == Some((0int, 64int))
                &&& forall|i: int| 1 <= i < 64 ==> #[trigger] a@.bins[i] == bin_block(bins@[i])
                &&& a@.used == Set::<int>::empty()
                &&& a@.flagged == Set::new(|i: int| 1 <= i < 64 && bin_allocated(bins@[i]))
                &&& a@.base == page.start
                &&& (forall|i: int|
                    1 <= i < 64 ==> bin_empty(#[trigger] bins@[i]) && !bin_allocated(bins@[i]))
                    ==> a.wf()
            },
    {
        if !is_power_of_two(MIN) {
            return Err(Error::InvalidPowerOfTwo);
        }
        if bins.len() != DEPTH {
            return Err(Error::InvalidBinSliceSize);
        }
        let expected = (MIN * DEPTH) / (PAGE_4KB as usize);
        let got = page.len();
        if expected as u64 != got {
            return Err(Error::InvalidFrameRange { expected: expected as u64, got });
        }
        let start = PhysicalAddr::new(page.start());
        let mut bins = bins;
        let ghost orig = bins@;
        let mut k: usize = 0;
        while k < DEPTH
            invariant
                k <= 64,
                bins@.len() == 64,
                orig.len() == 64,
                forall|i: int|
                    0 <= i < k ==> #[trigger] bins@[i] == (AllocatorBin {
                        flags: AllocatorBinFlags { bits: orig[i].flags.bits | 1 },
                        ..orig[i]
                    }),
                forall|i: int| k <= i < 64 ==> #[trigger] bins@[i] == orig[i],
            decreases 64 - k,
        {
            let mut b = bins[k];
            b.flags.insert(AllocatorBinFlags::used());
            bins.set(k, b);
            k = k + 1;
        }
        let mut this = BuddyAllocator { bins, start, used_mask: 0 };
        this.bins.set(0, Bucket::<MIN>::new(0, DEPTH).into_inner());
        proof {
            assert forall|i: int| 1 <= i < 64 implies bin_allocated(#[trigger] this.bins@[i])
                == bin_allocated(orig[i]) by {
                let x = orig[i].flags.bits;
                assert((x | 1u64) & 0x1000_0000_0000_0000u64 == x & 0x1000_0000_0000_0000u64)
                    by (bit_vector);
            }
            assert(!bin_allocated(this.bins@[0])) by {
                assert(1u64 & 0x1000_0000_0000_0000u64 == 0) by (bit_vector);
            }
            assert forall|i: int| 0 <= i < 64 implies !bit64(0u64, i) by {
                let j = i as u64;
                assert(0u64 & (1u64 << j) == 0) by (bit_vector);
            }
            assert(this@.used =~= Set::<int>::empty());
            assert(this@.flagged =~= Set::new(|i: int| 1 <= i < 64 && bin_allocated(orig[i])));
            if forall|i: int| 1 <= i < 64 ==> bin_empty(#[trigger] orig[i]) && !bin_allocated(orig[i]) {
                lemma_single_block_partition(this@.bins, 64);
                assert(this@.flagged =~= Set::<int>::empty());
            }
        }
        Ok(this)
    }
}

impl<const MIN: usize> Bucket<MIN> {
    /// A fresh bucket for the slots `start..end`.
    fn new(start: usize, end: usize) -> (r: Self)
        ensures
            r.bin() == fresh_bin(start as int, end as int),
    {
        Bucket(AllocatorBin {
            flags: AllocatorBinFlags::used(),
            start: VirtualAddr::new(start as u64),
            end: VirtualAddr::new(end as u64),
            data: 0,
        })
    }
}


/// The block of bin `i` grows in place to `new_l` bytes: its buddy is free,
/// follows it and doubles it to at least `new_l` bytes.
pub open spec fn grows_in_place(v: BuddyView, i: int, new_l: int, min: int) -> bool {
    &&& can_merge(v.bins, v.used, i, 64)
    &&& is_right(buddy(blk(v.bins, i)))
    &&& 2 * ((bsz(v.bins, i) * min) / 8) >= new_l
}

/// Growing the block at `addr` moves it: it is not grown in place.
pub open spec fn grow_moves(v: BuddyView, addr: int, old_l: int, new_l: int, min: int) -> bool {
    new_l <= 64 * min && new_l != old_l && !grows_in_place(v, slot_of(v, addr, min), new_l, min)
}

/// The outcome of growing the block at `addr`, handed out for `old_l` bytes,
/// to `new_l` bytes: in place when its buddy allows it, else by a fresh
/// allocation after which the old block is given back.
pub open spec fn grow_spec(v: BuddyView, addr: int, old_l: int, new_l: int, min: int) -> (
    BuddyView,
    Option<(int, int)>,
) {
    let i = slot_of(v, addr, min);
    if new_l > 64 * min {
        (v, None)
    } else if new_l == old_l {
        (v, Some((addr, new_l)))
    } else if grows_in_place(v, i, new_l, min) {
        (BuddyView { bins: merge_at(v.bins, i), flagged: v.flagged.remove(i), ..v }, Some((addr, new_l)))
    } else {
        let (w, r) = allocate_spec(v, new_l, min);
        match r {
            None => (w, None),
            Some(p) => (deallocate_spec(w, addr, min, 64), Some(p)),
        }
    }
}

/// In a settled allocator, growing a block in use to `new_l` bytes, when it
/// succeeds, gives a block of at least `new_l` bytes that lies in the
/// allocator; where the block does not move, it is the same block.
pub proof fn lemma_grow_law(v: BuddyView, addr: int, old_l: int, new_l: int, min: int)
    requires
        settled(v, 64),
        min > 0,
        0 <= old_l <= new_l,
        v.base <= addr,
        0 <= slot_of(v, addr, min) < 64,
    ensures
        grow_spec(v, addr, old_l, new_l, min).1 matches Some(p) ==> {
            &&& p.1 >= new_l
            &&& v.base <= p.0 < v.base + 64 * min
            &&& !grow_moves(v, addr, old_l, new_l, min) ==> p.0 == addr
        },
{
    lemma_allocate_law(v, new_l, min);
    let i = slot_of(v, addr, min);
    assert(addr < v.base + 64 * min) by (nonlinear_arith)
        requires
            i == (addr - v.base) / min,
            0 <= i < 64,
            min > 0,
            v.base <= addr,
    ;
    if grow_spec(v, addr, old_l, new_l, min).1 is Some && grow_moves(v, addr, old_l, new_l, min) {
        let j = chosen_slot(v, new_l, min, req_size(new_l, min) / min, 64);
        assert(v.base + j * min < v.base + 64 * min) by (nonlinear_arith)
            requires
                0 <= j < 64,
                min > 0,
        ;
    }
}

/// The outcome of shrinking the block at `addr`, handed out for `old_l`
/// bytes, to `new_l` bytes: a block of one slot stays as it is, a larger one
/// is split down as an allocation of `new_l` bytes would be.
pub open spec fn shrink_spec(v: BuddyView, addr: int, old_l: int, new_l: int, min: int) -> (
    BuddyView,
    Option<(int, int)>,
) {
    let i = slot_of(v, addr, min);
    if !holds_block(v, addr, old_l, min, 64) {
        (v, None)
    } else if bsz(v.bins, i) == 1 {
        (v, Some((addr, min / 8)))
    } else {
        let nb = alloc_down(v.bins, i, req_size(new_l, min), min);
        (
            BuddyView { bins: nb, used: v.used.insert(i), flagged: v.flagged.insert(i), base: v.base },
            Some((v.base + i * min, (bsz(nb, i) * min) / 8)),
        )
    }
}

/// Shrinking, where it succeeds, hands out the block held at the slot of
/// the address it returns afterwards, with that block's length in bytes:
/// no more, so that no byte of a block split off and freed is handed out;
/// and that slot is the one of the block shrunk.
pub proof fn lemma_shrink_length(v: BuddyView, addr: int, old_l: int, new_l: int, min: int)
    requires
        min > 0,
    ensures
        shrink_spec(v, addr, old_l, new_l, min).1 matches Some(p) ==> {
            let w = shrink_spec(v, addr, old_l, new_l, min).0;
            &&& slot_of(w, p.0, min) == slot_of(v, addr, min)
            &&& p.1 == (bsz(w.bins, slot_of(w, p.0, min)) * min) / 8
        },
{
    let i = slot_of(v, addr, min);
    let q = v.base + i * min;
    assert((q - v.base) / min == i) by (nonlinear_arith)
        requires
            q == v.base + i * min,
            min > 0,
    ;
}

/// The slot range a block merges with: the other half of their parent range.
pub fn buddy_of(range: Range<usize>) -> (r: Range<usize>)
    requires
        range.start < range.end,
        (range.start as int / (range.end - range.start)) % 2 == 0 ==> range.end + (range.end
            - range.start) <= usize::MAX,
    ensures
        (r.start as int, r.end as int) == buddy((range.start as int, range.end as int)),
{
    let diff = range.end - range.start;
    if (range.start / diff) % 2 == 0 {
        range.end..(range.end + diff)
    } else {
        proof {
            vstd::arithmetic::div_mod::lemma_fundamental_div_mod(range.start as int, diff as int);
            let q = range.start as int / diff as int;
            assert(diff * q >= diff) by (nonlinear_arith)
                requires
                    q >= 1,
                    diff > 0,
            ;
        }
        (range.start - diff)..range.start
    }
}

impl<const MIN: usize> Bucket<MIN> {
    /// The bucket holds no block.
    pub fn is_empty(&self) -> (r: bool)
        ensures
            r == bin_empty(self.bin()),
    {
        self.0.start.addr == 0 && self.0.end.addr == 0 && self.0.data == 0
    }

    /// First slot of the block.
    pub fn start(&self) -> (r: usize)
        requires
            self.bin().start.addr <= usize::MAX,
        ensures
            r == self.bin().start.addr,
    {
        self.0.start.addr as usize
    }

    /// Slot after the last one of the block.
    pub fn end(&self) -> (r: usize)
        requires
            self.bin().end.addr <= usize::MAX,
        ensures
            r == self.bin().end.addr,
    {
        self.0.end.addr as usize
    }

    /// The slots of the block.
    pub fn range(&self) -> (r: Range<usize>)
        requires
            self.bin().start.addr <= usize::MAX,
            self.bin().end.addr <= usize::MAX,
        ensures
            r.start == self.bin().start.addr,
            r.end == self.bin().end.addr,
    {
        self.start()..self.end()
    }

    /// The block is the right half of its parent.
    fn is_right(&self) -> (r: bool)
        requires
            self.bin().start.addr < self.bin().end.addr <= usize::MAX,
        ensures
            r == is_right((self.bin().start.addr as int, self.bin().end.addr as int)),
    {
        let range = self.range();
        (range.start / (range.end - range.start)) % 2 != 0
    }

    /// Length of the block in units: `MIN` per slot.
    pub fn size(&self) -> (r: usize)
        requires
            self.bin().start.addr <= self.bin().end.addr <= usize::MAX,
            (self.bin().end.addr - self.bin().start.addr) * MIN <= usize::MAX,
        ensures
            r == (self.bin().end.addr - self.bin().start.addr) * MIN,
    {
        (self.end() - self.start()) * MIN
    }

    /// Length of the block in bytes, a unit being a bit.
    pub fn size_bytes(&self) -> (r: usize)
        requires
            self.bin().start.addr <= self.bin().end.addr <= usize::MAX,
            (self.bin().end.addr - self.bin().start.addr) * MIN <= usize::MAX,
        ensures
            r == ((self.bin().end.addr - self.bin().start.addr) * MIN) / 8,
    {
        self.size() / 8
    }
}

impl<const MIN: usize> BuddyAllocator<MIN> {
    /// The record of an occupied bin holds its block, which fits in the
    /// allocator.
    proof fn lemma_block_fits(&self, i: int)
        requires
            self.wf(),
            occ(self@.bins, i),
        ensures
            self.bins@[i].start.addr == i,
            self.bins@[i].end.addr == blk(self@.bins, i).1,
            i < self.bins@[i].end.addr <= 64,
            (self.bins@[i].end.addr - i) * MIN <= 64 * MIN,
            64 * MIN <= usize::MAX,
            block_ok(blk(self@.bins, i), i, 64),
    {
        assert(block_ok(blk(self@.bins, i), i, 64));
        let e = self.bins@[i].end.addr;
        assert((e - i) * MIN <= 64 * MIN) by (nonlinear_arith)
            requires
                e - i <= 64,
        ;
    }

    /// The bucket of bin `i`, if it holds a block.
    pub fn get(&self, i: usize) -> (r: Option<Bucket<MIN>>)
        requires
            self.wf(),
        ensures
            r is Some <==> occ(self@.bins, i as int),
            r matches Some(b) ==> b.bin() == self.records()[i as int],
    {
        if i >= DEPTH {
            return None;
        }
        let b = Bucket::<MIN>::from_bin(self.bins[i]);
        if b.is_empty() {
            None
        } else {
            Some(b)
        }
    }

    /// The bucket of bin `i`, holding a block or not.
    pub fn bucket_at(&self, i: usize) -> (r: Bucket<MIN>)
        requires
            self.wf(),
            i < 64,
        ensures
            r.bin() == self.records()[i as int],
            bin_block(r.bin()) == self@.bins[i as int],
    {
        Bucket::<MIN>::from_bin(self.bins[i])
    }

    /// Splits the free block of bin `idx` into its two halves and returns the
    /// bins of the halves; `None`, with nothing changed, when the slot is in
    /// use or the bin holds no block of more than one slot.
    #[verifier::spinoff_prover]
    #[verifier::rlimit(50)]
    fn split_at(&mut self, idx: usize) -> (r: Option<(usize, usize)>)
        requires
            old(self).wf(),
            idx < 64,
        ensures
            final(self).wf(),
            ({
                let v = old(self)@;
                let i = idx as int;
                let can = occ(v.bins, i) && !v.used.contains(i) && bsz(v.bins, i) >= 2;
                &&& can ==> r == Some((idx, (i + bsz(v.bins, i) / 2) as usize)) && final(self)@
                    == BuddyView { bins: split_at(v.bins, i), ..v }
                &&& !can ==> r is None && final(self)@ == v
            }),
    {
        let used = self.is_used(idx);
        let b = match self.get(idx) {
            None => {
                return None;
            },
            Some(b) => b,
        };
        proof {
            self.lemma_block_fits(idx as int);
        }
        let sz = b.size();
        proof {
            let e = self.bins@[idx as int].end.addr;
            assert(((e - idx) * MIN <= MIN) == (e - idx <= 1)) by (nonlinear_arith)
                requires
                    MIN > 0,
                    e - idx >= 1,
            ;
        }
        if used || sz <= MIN {
            return None;
        }
        let ghost v = self@;
        let ghost i = idx as int;
        let start = b.start();
        let end = b.end();
        let mid = start + (end - start) / 2;
        proof {
            lemma_split_partitioned(v.bins, i, 64);
            assert(1u64 & 0x1000_0000_0000_0000u64 == 0) by (bit_vector);
        }
        self.put(start, Bucket::<MIN>::new(start, mid).into_inner());
        self.put(mid, Bucket::<MIN>::new(mid, end).into_inner());
        proof {
            let h = bsize(blk(v.bins, i)) / 2;
            crate::kalloc::model::lemma_split_pointwise(v.bins, i);
            assert(self@.bins =~= split_at(v.bins, i));
            assert(self@.flagged =~= v.flagged);
            assert forall|k: int| 0 <= k < 64 && #[trigger] self@.used.contains(k) implies occ(
                self@.bins,
                k,
            ) by {
                assert(occ(v.bins, k));
                assert(k != i && k != i + h);
            }
        }
        Some((start, mid))
    }

    /// Splits the block of bin `i` down for as long as a request of `size`
    /// units fits in half of it. Fails, with nothing changed, when the slot is
    /// in use and a split is due.
    #[verifier::spinoff_prover]
    #[verifier::rlimit(50)]
    fn allocate_split(&mut self, i: usize, size: usize) -> (r: Result<(), AllocError>)
        requires
            old(self).wf(),
            i < 64,
            occ(old(self)@.bins, i as int),
            MIN <= size,
        ensures
            final(self).wf(),
            ({
                let v = old(self)@;
                let refused = v.used.contains(i as int) && splits(v.bins, i as int, size as int, MIN as int);
                &&& refused ==> r is Err && final(self)@ == v
                &&& !refused ==> r is Ok && final(self)@ == BuddyView {
                    bins: alloc_down(v.bins, i as int, size as int, MIN as int),
                    ..v
                }
            }),
    {
        let ghost v = self@;
        loop
            invariant
                self.wf(),
                v == old(self)@,
                i < 64,
                MIN <= size,
                occ(self@.bins, i as int),
                self@.used == v.used,
                self@.flagged == v.flagged,
                self@.base == v.base,
                alloc_down(self@.bins, i as int, size as int, MIN as int) == alloc_down(
                    v.bins,
                    i as int,
                    size as int,
                    MIN as int,
                ),
                v.used.contains(i as int) ==> self@ == v,
            decreases bsz(self@.bins, i as int),
        {
            let b = self.get(i).unwrap();
            proof {
                self.lemma_block_fits(i as int);
            }
            let bsize_units = b.size();
            if !(size <= bsize_units / 2) {
                proof {
                    assert(self@.bins == alloc_down(self@.bins, i as int, size as int, MIN as int));
                    if v.used.contains(i as int) {
                        assert(!splits(v.bins, i as int, size as int, MIN as int));
                    }
                    assert(self@.bins == alloc_down(v.bins, i as int, size as int, MIN as int));
                    assert(self@ == BuddyView {
                        bins: alloc_down(v.bins, i as int, size as int, MIN as int),
                        ..v
                    });
                }
                return Ok(());
            }
            proof {
                let e = self.bins@[i as int].end.addr;
                assert(e - i >= 2) by (nonlinear_arith)
                    requires
                        MIN > 0,
                        MIN <= size,
                        size <= ((e - i) * MIN) / 2,
                        e - i >= 1,
                ;
            }
            let ghost before = self@;
            match self.split_at(i) {
                None => {
                    proof {
                        assert(self@ == before);
                        assert(v.used.contains(i as int));
                        assert(self@ == v);
                        assert(splits(v.bins, i as int, size as int, MIN as int));
                    }
                    return Err(AllocError);
                },
                Some(_) => {},
            }
            proof {
                lemma_split_partitioned(before.bins, i as int, 64);
            }
        }
    }

    /// Some slot that a block of `size` units could start at is not in use.
    pub fn have_buckets_for(&self, size: usize) -> (r: bool)
        requires
            self.wf(),
            is_pow2(size as int),
            MIN <= size,
        ensures
            r == have_buckets(self@.used, size as int / MIN as int),
    {
        let level = size as u64 / MIN as u64;
        proof {
            crate::bits::lemma_pow2_div(size as int, MIN as int);
            crate::bits::lemma_pow2_word(level as int);
            assert(level >= 1) by (nonlinear_arith)
                requires
                    level * MIN == size,
                    MIN <= size,
                    MIN > 0,
            ;
        }
        let r = have_free_multiple64(self.used_mask, level);
        proof {
            let lv = level as int;
            if level <= 64 {
                if r {
                    let k = choose|k: int| 0 <= k < 64 && k % lv == 0 && !#[trigger] bit64(self.used_mask, k);
                    assert(!self@.used.contains(k));
                } else {
                    assert forall|k: int| 0 <= k < 64 && k % lv == 0 implies #[trigger] self@.used.contains(k) by {
                        assert(bit64(self.used_mask, k));
                    }
                }
            }
        }
        r
    }

    /// Bin `idx` can serve a request of `l` bytes.
    fn available_for(&self, idx: usize, l: usize) -> (r: bool)
        requires
            self.wf(),
            idx < 64,
        ensures
            r == available(self@, idx as int, l as int, MIN as int),
    {
        match self.get(idx) {
            Some(bin) => {
                proof {
                    self.lemma_block_fits(idx as int);
                }
                l <= bin.size_bytes() && !bin.is_allocated()
            },
            None => false,
        }
    }

    /// The first bin among `0, step, 2 * step, ...` that can serve a request
    /// of `l` bytes.
    fn next_available(&self, l: usize, step: usize) -> (r: Option<usize>)
        requires
            self.wf(),
            step >= 1,
        ensures
            (match r {
                Some(k) => Some(k as int),
                None => None,
            }) == first_available(self@, l as int, MIN as int, 0, step as int, 64),
            r matches Some(k) ==> k < 64,
    {
        let mut i: usize = 0;
        while i < DEPTH
            invariant
                self.wf(),
                step >= 1,
                i < 64,
                first_available(self@, l as int, MIN as int, 0, step as int, 64) == first_available(
                    self@,
                    l as int,
                    MIN as int,
                    i as int,
                    step as int,
                    64,
                ),
            decreases 64 - i,
        {
            if self.available_for(i, l) {
                return Some(i);
            }
            if step >= DEPTH - i {
                assert(first_available(self@, l as int, MIN as int, i + step, step as int, 64) is None);
                return None;
            }
            i = i + step;
        }
        None
    }

    /// Address of slot `slot`.
    fn addr_for(&self, slot: usize) -> (r: u64)
        requires
            self.wf(),
            slot < 64,
            self@.base + 64 * MIN <= u64::MAX,
        ensures
            r == self@.base + slot * MIN,
    {
        assert(slot * MIN < 64 * MIN) by (nonlinear_arith)
            requires
                slot < 64,
                MIN > 0,
        ;
        self.start.addr + (slot * MIN) as u64
    }

    /// Hands out the first free block that can hold `l` bytes, split down to
    /// the smallest block of at least `8 * l` units (one slot at the least),
    /// and returns its address and its length in bytes.
    #[verifier::spinoff_prover]
    #[verifier::rlimit(50)]
    pub fn allocate_mut(&mut self, l: usize) -> (r: Result<(u64, usize), AllocError>)
        requires
            old(self).wf(),
            8 * next_pow2(l as int) <= usize::MAX,
            old(self)@.base + 64 * MIN <= u64::MAX,
        ensures
            final(self).wf(),
            final(self)@ == allocate_spec(old(self)@, l as int, MIN as int).0,
            allocate_spec(old(self)@, l as int, MIN as int).1 == (match r {
                Ok(p) => Some((p.0 as int, p.1 as int)),
                Err(_) => None,
            }),
    {
        let size = request_size(l, MIN);
        if !self.have_buckets_for(size) {
            return Err(AllocError);
        }
        let step = size / MIN;
        proof {
            assert(step >= 1) by (nonlinear_arith)
                requires
                    step == size / MIN,
                    MIN <= size,
                    MIN > 0,
            ;
        }
        match self.next_available(l, step) {
            Some(i) => {
                let ghost v = self@;
                proof {
                    lemma_first_available(v, l as int, MIN as int, 0, step as int, 64);
                }
                match self.allocate_split(i, size) {
                    Err(e) => {
                        return Err(e);
                    },
                    Ok(()) => {},
                }
                proof {
                    lemma_alloc_down(v.bins, v.used, i as int, size as int, MIN as int, 64);
                }
                let bin = self.get(i).unwrap();
                proof {
                    self.lemma_block_fits(i as int);
                }
                let range = bin.range();
                let sz = bin.size_bytes();
                self.mark_used(i);
                proof {
                    assert forall|k: int| 0 <= k < 64 && #[trigger] self@.used.contains(k) implies occ(
                        self@.bins,
                        k,
                    ) by {
                        if k != i {
                            assert(v.used.contains(k));
                        }
                    }
                }
                Ok((self.addr_for(range.start), sz))
            },
            None => Err(AllocError),
        }
    }

    /// The records of bin `idx` and of the bin of its buddy, as the checks on
    /// a merge read them.
    proof fn lemma_buddy_records(&self, idx: int)
        requires
            self.wf(),
            occ(self@.bins, idx),
        ensures
            ({
                let c = buddy(blk(self@.bins, idx)).0;
                &&& block_ok(blk(self@.bins, idx), idx, 64)
                &&& self.bins@[idx].end.addr == blk(self@.bins, idx).1
                &&& 0 <= c < 64 ==> {
                    &&& occ(self@.bins, c) ==> blk(self@.bins, c) == (
                        self.bins@[c].start.addr as int,
                        self.bins@[c].end.addr as int,
                    ) && block_ok(blk(self@.bins, c), c, 64) && (self.bins@[c].end.addr - c) * MIN
                        <= usize::MAX
                    &&& !occ(self@.bins, c) ==> self.bins@[c].start.addr == 0
                        && self.bins@[c].end.addr == 0
                    &&& self@.flagged.contains(c) ==> self@.used.contains(c)
                }
            }),
    {
        self.lemma_block_fits(idx);
        let c = buddy(blk(self@.bins, idx)).0;
        if 0 <= c < 64 {
            if occ(self@.bins, c) {
                self.lemma_block_fits(c);
            } else {
                assert(bin_empty(self.bins@[c]));
            }
        }
    }

    /// The bin of the buddy of the block of bin `idx`, when the two can be
    /// merged: the buddy lies in the allocator, is free and holds a block of
    /// the same length.
    #[verifier::spinoff_prover]
    #[verifier::rlimit(40)]
    fn buddy_of_bucket(&self, idx: usize) -> (r: Option<usize>)
        requires
            self.wf(),
            idx < 64,
            occ(self@.bins, idx as int),
        ensures
            r is Some <==> can_merge(self@.bins, self@.used, idx as int, 64),
            r matches Some(c) ==> c == buddy(blk(self@.bins, idx as int)).0,
    {
        let bin = self.get(idx).unwrap();
        proof {
            self.lemma_block_fits(idx as int);
            self.lemma_buddy_records(idx as int);
            let c = buddy(blk(self@.bins, idx as int)).0;
            if 0 <= c < 64 {
                lemma_buddy_check(
                    self@.bins,
                    self@.used,
                    self@.flagged,
                    idx as int,
                    self.bins@[c].end.addr as int,
                    self.bins@[c].start.addr as int,
                    MIN as int,
                    64,
                );
            } else {
                lemma_buddy_check(self@.bins, self@.used, self@.flagged, idx as int, 0, 0, MIN as int, 64);
            }
        }
        let buddy_range = buddy_of(bin.range());
        if buddy_range.start >= DEPTH {
            return None;
        }
        let c = buddy_range.start;
        if self.is_used(c) {
            return None;
        }
        let b = Bucket::<MIN>::from_bin(self.bins[c]);
        if b.is_allocated() {
            return None;
        }
        proof {
            assert(c == buddy(blk(self@.bins, idx as int)).0);
            if occ(self@.bins, c as int) {
                assert(self.bins@[c as int].start.addr == c);
            }
        }
        if bin.size() != b.size() {
            return None;
        }
        Some(c)
    }

    /// Marks slot `idx` as free and merges its block upwards with its free
    /// buddies for as long as they allow; gives the slot of the merged block.
    #[verifier::spinoff_prover]
    #[verifier::rlimit(50)]
    fn deallocate_merge(&mut self, idx: usize) -> (r: usize)
        requires
            old(self).wf(),
            idx < 64,
            occ(old(self)@.bins, idx as int),
        ensures
            final(self).wf(),
            final(self)@ == free_slot(old(self)@, idx as int, 64),
            r == merge_up_index(old(self)@.bins, old(self)@.used.remove(idx as int), idx as int, 64),
            r < 64 && occ(final(self)@.bins, r as int),
    {
        self.mark_unused(idx);
        let ghost u = self@;
        let mut index = idx;
        loop
            invariant
                self.wf(),
                u == (BuddyView {
                    used: old(self)@.used.remove(idx as int),
                    flagged: old(self)@.flagged.remove(idx as int),
                    ..old(self)@
                }),
                index < 64,
                occ(self@.bins, index as int),
                !self@.used.contains(index as int),
                self@.used == u.used,
                self@.flagged == u.flagged,
                self@.base == u.base,
                merge_up(self@.bins, u.used, index as int, 64) == merge_up(
                    u.bins,
                    u.used,
                    idx as int,
                    64,
                ),
                merge_up_index(self@.bins, u.used, index as int, 64) == merge_up_index(
                    u.bins,
                    u.used,
                    idx as int,
                    64,
                ),
            decreases 64 - bsz(self@.bins, index as int),
        {
            match self.buddy_of_bucket(index) {
                None => {
                    return index;
                },
                Some(c) => {
                    let ghost v = self@;
                    proof {
                        lemma_merge_partitioned(v.bins, v.used, index as int, 64);
                        self.lemma_block_fits(index as int);
                        self.lemma_block_fits(c as int);
                        assert(1u64 & 0x1000_0000_0000_0000u64 == 0) by (bit_vector);
                    }
                    let bin = self.get(index).unwrap();
                    let buddy = self.get(c).unwrap();
                    let (s1, e1) = (bin.start(), bin.end());
                    let (s2, e2) = (buddy.start(), buddy.end());
                    let lo = if s1 < s2 {
                        s1
                    } else {
                        s2
                    };
                    let hi = if e1 < e2 {
                        e2
                    } else {
                        e1
                    };
                    self.put(index, Bucket::<MIN>::empty().into_inner());
                    self.put(c, Bucket::<MIN>::empty().into_inner());
                    self.put(lo, Bucket::<MIN>::new(lo, hi).into_inner());
                    proof {
                        assert(self@.bins =~= merge_at(v.bins, index as int));
                        assert(self@.flagged =~= v.flagged);
                        assert forall|k: int|
                            0 <= k < 64 && #[trigger] self@.used.contains(k) implies occ(
                            self@.bins,
                            k,
                        ) by {
                            assert(occ(v.bins, k));
                        }
                    }
                    index = lo;
                },
            }
        }
    }

    /// Gives back the block at `ptr`, which was handed out for `l` bytes.
    pub fn deallocate_mut(&mut self, ptr: u64, l: usize)
        requires
            old(self).wf(),
            old(self)@.base <= ptr,
            slot_of(old(self)@, ptr as int, MIN as int) < 64,
            occ(old(self)@.bins, slot_of(old(self)@, ptr as int, MIN as int)),
            l <= bsz(old(self)@.bins, slot_of(old(self)@, ptr as int, MIN as int)) * MIN,
        ensures
            final(self).wf(),
            final(self)@ == deallocate_spec(old(self)@, ptr as int, MIN as int, 64),
    {
        let idx = ((ptr - self.start.addr) / (MIN as u64)) as usize;
        let _merged: usize = self.deallocate_merge(idx);
    }

    /// Merges the block of bin `idx` with its free buddy in bin `c`, which
    /// follows it.
    #[verifier::spinoff_prover]
    #[verifier::rlimit(50)]
    fn merge_right(&mut self, idx: usize, c: usize)
        requires
            old(self).wf(),
            idx < 64,
            can_merge(old(self)@.bins, old(self)@.used, idx as int, 64),
            c == buddy(blk(old(self)@.bins, idx as int)).0,
            is_right(buddy(blk(old(self)@.bins, idx as int))),
        ensures
            final(self).wf(),
            final(self)@ == (BuddyView {
                bins: merge_at(old(self)@.bins, idx as int),
                flagged: old(self)@.flagged.remove(idx as int),
                ..old(self)@
            }),
    {
        let ghost v = self@;
        let ghost i = idx as int;
        proof {
            self.lemma_block_fits(i);
            self.lemma_block_fits(c as int);
            lemma_merge_partitioned(v.bins, v.used, i, 64);
            let sz = bsize(blk(v.bins, i));
            crate::kalloc::model::lemma_buddy_right(i, sz);
            assert(blk(v.bins, i) == (i, i + sz));
            assert(c == i + sz);
            assert(parent_start(v.bins, i) == i);
            assert(blk(v.bins, c as int) == (c as int, c + sz));
            assert(self.bins@[c as int].end.addr == i + 2 * sz);
            assert(1u64 & 0x1000_0000_0000_0000u64 == 0) by (bit_vector);
        }
        let end = Bucket::<MIN>::from_bin(self.bins[c]).end();
        self.put(c, Bucket::<MIN>::empty().into_inner());
        self.put(idx, Bucket::<MIN>::new(idx, end).into_inner());
        proof {
            assert(self@.bins =~= merge_at(v.bins, i));
            assert(self@.flagged =~= v.flagged.remove(i));
            assert forall|k: int| 0 <= k < 64 && #[trigger] self@.used.contains(k) implies occ(
                self@.bins,
                k,
            ) by {
                assert(occ(v.bins, k));
            }
        }
    }

    /// Grows the block at `ptr`, handed out for `old_l` bytes, to `new_l`
    /// bytes: in place when its buddy is free, follows it and is large
    /// enough, else, the buddy kept as it is, by allocating a new block and
    /// giving the old one back; returns the block that now holds the
    /// contents, its length in bytes, and, where the block moved, the copy
    /// of its `old_l` bytes to the new block that the caller must make.
    #[verifier::spinoff_prover]
    #[verifier::rlimit(50)]
    pub fn grow_mut(&mut self, ptr: u64, old_l: usize, new_l: usize) -> (r: Result<(u64, usize, Option<CopyStep>), AllocError>)
        requires
            old(self).wf(),
            old_l <= new_l,
            old(self)@.base <= ptr,
            new_l <= 64 * MIN && new_l != old_l ==> {
                let v = old(self)@;
                let i = slot_of(v, ptr as int, MIN as int);
                &&& holds_block(v, ptr as int, old_l as int, MIN as int, 64)
                &&& v.used.contains(i)
                &&& 8 * next_pow2(new_l as int) <= usize::MAX
                &&& v.base + 64 * MIN <= u64::MAX
            },
        ensures
            final(self).wf(),
            final(self)@ == grow_spec(old(self)@, ptr as int, old_l as int, new_l as int, MIN as int).0,
            grow_spec(old(self)@, ptr as int, old_l as int, new_l as int, MIN as int).1 == (match r {
                Ok(p) => Some((p.0 as int, p.1 as int)),
                Err(_) => None,
            }),
            r matches Ok(p) ==> p.2 == (if grow_moves(old(self)@, ptr as int, old_l as int, new_l as int, MIN as int) {
                Some(CopyStep { from: ptr, to: p.0, len: old_l })
            } else {
                None
            }),
    {
        if new_l > DEPTH * MIN {
            return Err(AllocError);
        }
        if new_l == old_l {
            return Ok((ptr, new_l, None));
        }
        let idx = ((ptr - self.start.addr) / (MIN as u64)) as usize;
        let ghost v = self@;
        let ghost i = idx as int;
        let bin = self.get(idx).unwrap();
        proof {
            self.lemma_block_fits(i);
        }
        match self.buddy_of_bucket(idx) {
            Some(c) => {
                proof {
                    self.lemma_block_fits(c as int);
                    assert(block_ok(blk(v.bins, i), i, 64));
                }
                let buddy = self.get(c).unwrap();
                if buddy.is_right() && bin.size_bytes() * 2 >= new_l {
                    self.merge_right(idx, c);
                    return Ok((ptr, new_l, None));
                }
            },
            None => {},
        }
        let new_ptr = match self.allocate_mut(new_l) {
            Ok(p) => p,
            Err(e) => {
                return Err(e);
            },
        };
        proof {
            lemma_serve_keeps_used(
                v,
                new_l as int,
                MIN as int,
                req_size(new_l as int, MIN as int) / MIN as int,
                64,
                i,
            );
        }
        self.deallocate_mut(ptr, old_l);
        Ok((new_ptr.0, new_ptr.1, Some(CopyStep { from: ptr, to: new_ptr.0, len: old_l })))
    }

    /// Shrinks the block at `ptr`, handed out for `old_l` bytes, to `new_l`
    /// bytes by splitting it down as an allocation of `new_l` bytes would
    /// be; a block of one slot is left as it is. Returns the block and its
    /// length in bytes; fails, with nothing changed, when no block of at
    /// least `old_l` units starts in the slot of `ptr`.
    #[verifier::spinoff_prover]
    #[verifier::rlimit(50)]
    pub fn shrink_mut(&mut self, ptr: u64, old_l: usize, new_l: usize) -> (r: Result<(u64, usize), AllocError>)
        requires
            old(self).wf(),
            new_l <= old_l,
            old(self)@.base <= ptr,
            holds_block(old(self)@, ptr as int, old_l as int, MIN as int, 64) && bsz(
                old(self)@.bins,
                slot_of(old(self)@, ptr as int, MIN as int),
            ) > 1 ==> 8 * next_pow2(new_l as int) <= usize::MAX && old(self)@.base + 64 * MIN
                <= u64::MAX,
        ensures
            final(self).wf(),
            final(self)@ == shrink_spec(old(self)@, ptr as int, old_l as int, new_l as int, MIN as int).0,
            shrink_spec(old(self)@, ptr as int, old_l as int, new_l as int, MIN as int).1 == (match r {
                Ok(p) => Some((p.0 as int, p.1 as int)),
                Err(_) => None,
            }),
            r matches Ok(p) ==> p.1 == (bsz(final(self)@.bins, slot_of(final(self)@, p.0 as int, MIN as int)) * MIN) / 8,
    {
        proof {
            lemma_shrink_length(self@, ptr as int, old_l as int, new_l as int, MIN as int);
        }
        let slot = (ptr - self.start.addr) / (MIN as u64);
        if slot >= 64 {
            return Err(AllocError);
        }
        let idx = slot as usize;
        let bin = match self.get(idx) {
            Some(b) => b,
            None => {
                return Err(AllocError);
            },
        };
        proof {
            self.lemma_block_fits(idx as int);
        }
        if !(old_l <= bin.size()) {
            return Err(AllocError);
        }
        proof {
            let e = self.bins@[idx as int].end.addr;
            assert(((e - idx) * MIN == MIN) == (e - idx == 1)) by (nonlinear_arith)
                requires
                    MIN > 0,
            ;
        }
        if bin.size() == MIN {
            return Ok((ptr, bin.size_bytes()));
        }
        let ghost v = self@;
        self.mark_unused(idx);
        let ghost u = self@;
        proof {
            assert forall|k: int| 0 <= k < 64 && #[trigger] u.used.contains(k) implies occ(u.bins, k) by {
                assert(v.used.contains(k));
            }
        }
        let size = request_size(new_l, MIN);
        match self.allocate_split(idx, size) {
            Ok(()) => {},
            Err(e) => {
                return Err(e);
            },
        }
        proof {
            lemma_alloc_down(u.bins, u.used, idx as int, size as int, MIN as int, 64);
        }
        let bin = self.get(idx).unwrap();
        proof {
            self.lemma_block_fits(idx as int);
        }
        let sz = bin.size_bytes();
        self.mark_used(idx);
        proof {
            assert forall|k: int| 0 <= k < 64 && #[trigger] self@.used.contains(k) implies occ(
                self@.bins,
                k,
            ) by {
                if k != idx {
                    assert(u.used.contains(k));
                }
            }
            assert(self@.used =~= v.used.insert(idx as int));
            assert(self@.flagged =~= v.flagged.insert(idx as int));
        }
        Ok((self.addr_for(idx), sz))
    }

    /// The address `ptr` lies in the memory of the allocator.
    pub fn contains(&self, ptr: u64) -> (r: bool)
        requires
            64 * MIN <= usize::MAX,
            self@.base + 64 * MIN <= u64::MAX,
        ensures
            r == (self@.base <= ptr < self@.base + 64 * MIN),
    {
        self.start.addr <= ptr && ptr < self.start.addr + (DEPTH * MIN) as u64
    }

    /// Giving back the block that `allocate_mut` of `l` bytes just handed
    /// out, as `deallocate_mut` does, restores the allocator, in every
    /// settled state.
    pub proof fn lemma_allocate_deallocate_mut(self, l: usize)
        requires
            MIN > 0,
            settled(self@, 64),
        ensures
            allocate_spec(self@, l as int, MIN as int).1 matches Some(p) ==> deallocate_spec(
                allocate_spec(self@, l as int, MIN as int).0,
                p.0,
                MIN as int,
                64,
            ) == self@,
    {
        if allocate_spec(self@, l as int, MIN as int).1 is Some {
            lemma_allocate_deallocate(self@, l as int, MIN as int);
        }
    }

    /// Number of pages of the memory of the allocator.
    pub fn pages(&self) -> (r: usize)
        requires
            64 * MIN <= usize::MAX,
        ensures
            r == (64 * MIN) / 4096,
    {
        DEPTH * MIN / (PAGE_4KB as usize)
    }
}

impl<const MIN: usize> BuddyAllocator<MIN> {
    proof fn lemma_view_put(old: Self, new: Self, i: int, b: AllocatorBin)
        requires
            old.bins@.len() == 64,
            0 <= i < 64,
            new.bins@ == old.bins@.update(i, b),
            new.used_mask == old.used_mask,
            new.start == old.start,
        ensures
            new@.bins == old@.bins.update(i, bin_block(b)),
            new@.used == old@.used,
            new@.base == old@.base,
            new@.flagged == (if bin_allocated(b) {
                old@.flagged.insert(i)
            } else {
                old@.flagged.remove(i)
            }),
    {
        assert(new@.bins =~= old@.bins.update(i, bin_block(b)));
        assert(new@.used =~= old@.used);
        if bin_allocated(b) {
            assert(new@.flagged =~= old@.flagged.insert(i));
        } else {
            assert(new@.flagged =~= old@.flagged.remove(i));
        }
    }

    /// Replaces the record of bin `i`.
    fn put(&mut self, i: usize, b: AllocatorBin)
        requires
            old(self).bins@.len() == 64,
            i < 64,
        ensures
            final(self).bins@ == old(self).bins@.update(i as int, b),
            final(self).used_mask == old(self).used_mask,
            final(self).start == old(self).start,
            final(self)@.bins == old(self)@.bins.update(i as int, bin_block(b)),
            final(self)@.used == old(self)@.used,
            final(self)@.base == old(self)@.base,
            final(self)@.flagged == (if bin_allocated(b) {
                old(self)@.flagged.insert(i as int)
            } else {
                old(self)@.flagged.remove(i as int)
            }),
    {
        let ghost o = *self;
        self.bins.set(i, b);
        proof {
            Self::lemma_view_put(o, *self, i as int, b);
        }
    }

    /// Bin `i` holds a block.
    fn occupied(&self, i: usize) -> (r: bool)
        requires
            self.bins@.len() == 64,
            i < 64,
        ensures
            r == occ(self@.bins, i as int),
    {
        let b = &self.bins[i];
        !(b.start.addr == 0 && b.end.addr == 0 && b.data == 0)
    }

    /// The slots of the block of bin `i`.
    fn block_of(&self, i: usize) -> (r: (usize, usize))
        requires
            self.wf(),
            i < 64,
            occ(self@.bins, i as int),
        ensures
            r.0 as int == blk(self@.bins, i as int).0,
            r.1 as int == blk(self@.bins, i as int).1,
            r.0 == i,
            r.0 < r.1 <= 64,
    {
        assert(crate::kalloc::model::block_ok(blk(self@.bins, i as int), i as int, 64));
        let b = &self.bins[i];
        (b.start.addr as usize, b.end.addr as usize)
    }

    /// Slot `idx` is in use.
    pub fn is_used(&self, idx: usize) -> (r: bool)
        requires
            idx < 64,
        ensures
            r == self@.used.contains(idx as int),
    {
        self.used_mask & (1u64 << idx as u64) != 0
    }

    /// Number of slots in use.
    pub fn len(&self) -> (r: usize)
        ensures
            self@.used.finite(),
            r == self@.used.len(),
    {
        let c = crate::bits::count_ones64(self.used_mask);
        proof {
            crate::bits::lemma_ones64_len(self.used_mask, 64);
            assert(self@.used =~= crate::bits::bits64_below(self.used_mask, 64));
        }
        c as usize
    }

    /// No slot is in use.
    pub fn is_empty(&self) -> (r: bool)
        ensures
            r == (self@.used.len() == 0),
    {
        self.len() == 0
    }

    /// Marks slot `idx` as in use and its bin as handed out.
    fn mark_used(&mut self, idx: usize)
        requires
            old(self).bins@.len() == 64,
            idx < 64,
            occ(old(self)@.bins, idx as int),
        ensures
            final(self)@ == (BuddyView {
                used: old(self)@.used.insert(idx as int),
                flagged: old(self)@.flagged.insert(idx as int),
                ..old(self)@
            }),
            final(self).bins@.len() == 64,
    {
        let mut b = self.bins[idx];
        let x = b.flags.bits;
        assert((x | 0x1000_0000_0000_0000u64) & 0x1000_0000_0000_0000u64
            == 0x1000_0000_0000_0000u64) by (bit_vector);
        b.flags = AllocatorBinFlags { bits: x | BIN_ALLOCATED };
        self.put(idx, b);
        let ghost m = self.used_mask;
        self.used_mask = self.used_mask | (1u64 << idx as u64);
        proof {
            crate::bits::lemma_bit64_set(m, idx as u64);
            assert forall|k: int| 0 <= k < 64 implies bit64(self.used_mask, k) == (k == idx || bit64(m, k)) by {
                assert(bit64(self.used_mask, (k as u64) as int) == (k as u64 == idx as u64 || bit64(m, (k as u64) as int)));
            }
            assert(self@.used =~= old(self)@.used.insert(idx as int));
            assert(self@.bins =~= old(self)@.bins);
        }
    }

    /// Marks slot `idx` as not in use and its bin as not handed out.
    fn mark_unused(&mut self, idx: usize)
        requires
            old(self).bins@.len() == 64,
            idx < 64,
            occ(old(self)@.bins, idx as int),
        ensures
            final(self)@ == (BuddyView {
                used: old(self)@.used.remove(idx as int),
                flagged: old(self)@.flagged.remove(idx as int),
                ..old(self)@
            }),
            final(self).bins@.len() == 64,
    {
        let mut b = self.bins[idx];
        let x = b.flags.bits;
        assert((x & !0x1000_0000_0000_0000u64) & 0x1000_0000_0000_0000u64 == 0) by (bit_vector);
        b.flags = AllocatorBinFlags { bits: x & !BIN_ALLOCATED };
        self.put(idx, b);
        let ghost m = self.used_mask;
        self.used_mask = self.used_mask & !(1u64 << idx as u64);
        proof {
            crate::bits::lemma_bit64_clear(m, idx as u64);
            assert forall|k: int| 0 <= k < 64 implies bit64(self.used_mask, k) == (k != idx && bit64(m, k)) by {
                assert(bit64(self.used_mask, (k as u64) as int) == (k as u64 != idx as u64 && bit64(m, (k as u64) as int)));
            }
            assert(self@.used =~= old(self)@.used.remove(idx as int));
            assert(self@.bins =~= old(self)@.bins);
        }
    }
}

} // verus!
