//! A buddy allocator over 32 slots of `MIN` units each, whose blocks are
//! packed in 16-bit buckets: the first slot in the low byte and the slot
//! after the last in the high byte.
//!
//! Slot `i` of a slab based at `start` begins at address `start + i * MIN`;
//! a block of `n` slots is `n * MIN` units long, which is `n * MIN / 8`
//! bytes.
use vstd::prelude::*;

use crate::addr::{PageRange, VirtualAddr, PAGE_4KB};
use crate::bits::{bit32, is_pow2, is_power_of_two, next_pow2};
use crate::kalloc::model::{
    alloc_down, blk, block_ok, bsize, bsz, buddy, can_merge, is_right, lemma_alloc_down,
    lemma_merge_partitioned, lemma_split_partitioned, merge_at, merge_up, occ, parent_start,
    partitioned, split_at, used_ok, Bins,
};
use crate::kalloc::requests::{
    available, deallocate_spec, first_available, lemma_buddy_check, lemma_first_available,
    lemma_serve_fits, lemma_serve_free, lemma_single_block_partition, req_size, request_size, serve,
    slot_of, splits, holds_block, lemma_serve_keeps_used, BuddyView,
};
use crate::kalloc::{AllocError, CopyStep};
use std::ops::Range;

verus! {

/// Number of slots, and of bins, of a slab.
pub const DEPTH: usize = 32;

/// The slot range packed in a bucket word.
pub open spec fn packed16(x: u16) -> (int, int) {
    ((x % 256) as int, (x / 256) as int)
}

/// A packed word holds the slot range it was built from.
pub proof fn lemma_pack16(s: int, e: int)
    requires
        0 <= s < 256,
        0 <= e < 256,
    ensures
        (e * 256 + s) % 256 == s,
        (e * 256 + s) / 256 == e,
{
    vstd::arithmetic::div_mod::lemma_fundamental_div_mod_converse(e * 256 + s, 256, e, s);
}

/// The sizes of slots a slab can be made of.
pub open spec fn slab_unit(min: int) -> bool {
    min == 128 || min == 256 || min == 512 || min == 1024 || min == 2048 || min == 4096
}

/// The sizes of slots a slab can be made of are powers of two.
pub proof fn lemma_slab_unit_pow2(min: int)
    requires
        slab_unit(min),
    ensures
        is_pow2(min),
        min > 0,
{
    reveal_with_fuel(is_pow2, 13);
}

/// Some slot that a block of `level` slots could start at is not in use;
/// never so for blocks larger than the slab.
pub open spec fn have_buckets32(used: Set<int>, level: int) -> bool {
    level <= 32 && exists|k: int| 0 <= k < 32 && k % level == 0 && !#[trigger] used.contains(k)
}

/// The outcome of a request of `l` bytes: the slab after it and, when
/// served, the address and the length in bytes of the block handed out. The
/// bins are searched in steps of the number of 128-unit slots in a block of
/// the request's size.
pub open spec fn slab_allocate_spec(v: BuddyView, l: int, min: int) -> (BuddyView, Option<(int, int)>) {
    let size = req_size(l, min);
    if !have_buckets32(v.used, size / min) {
        (v, None)
    } else {
        serve(v, l, min, size / 128, 32)
    }
}

/// The outcome of growing the block at `addr`, handed out for `old_l` bytes,
/// to `new_l` bytes: in place when its buddy follows it and can merge with
/// it, else by a fresh allocation after which the old block is given back.
pub open spec fn slab_grow_spec(v: BuddyView, addr: int, old_l: int, new_l: int, min: int) -> (
    BuddyView,
    Option<(int, int)>,
) {
    let i = slot_of(v, addr, min);
    if new_l > 32 * min {
        (v, None)
    } else if new_l == old_l {
        (v, Some((addr, new_l)))
    } else if is_right(buddy(blk(v.bins, i))) && can_merge(v.bins, v.used, i, 32) {
        (BuddyView { bins: merge_at(v.bins, i), ..v }, Some((addr, new_l)))
    } else {
        let (w, r) = slab_allocate_spec(v, new_l, min);
        match r {
            None => (w, None),
            Some(p) => (deallocate_spec(w, addr, min, 32), Some(p)),
        }
    }
}

/// Growing the block at `addr` moves it: it is not grown in place.
pub open spec fn slab_grow_moves(v: BuddyView, addr: int, old_l: int, new_l: int, min: int) -> bool {
    let i = slot_of(v, addr, min);
    new_l <= 32 * min && new_l != old_l && !(is_right(buddy(blk(v.bins, i))) && can_merge(v.bins, v.used, i, 32))
}

/// A served request of `l` bytes gets a block of at least `l` bytes that
/// starts at the slot it was carved from, which is in use afterwards.
pub proof fn lemma_slab_allocate_fits(v: BuddyView, l: int, min: int)
    requires
        partitioned(v.bins, 32),
        used_ok(v.bins, v.used, 32),
        min > 0,
        l >= 0,
    ensures
        slab_allocate_spec(v, l, min).1 matches Some(p) ==> {
            let i = crate::kalloc::requests::chosen_slot(v, l, min, req_size(l, min) / 128, 32);
            let w = slab_allocate_spec(v, l, min).0;
            &&& p.1 >= l
            &&& p.0 == v.base + i * min
            &&& 0 <= i < 32
            &&& w.used.contains(i)
            &&& occ(w.bins, i)
            &&& p.1 == (bsz(w.bins, i) * min) / 8
        },
{
    lemma_serve_fits(v, l, min, req_size(l, min) / 128, 32);
}

/// Giving back a block right after it was handed out restores the slab, in
/// every state whose free blocks cannot merge.
pub proof fn lemma_slab_allocate_deallocate(v: BuddyView, l: int, min: int)
    requires
        partitioned(v.bins, 32),
        used_ok(v.bins, v.used, 32),
        v.flagged == v.used,
        crate::kalloc::model::merged(v.bins, v.used, 32),
        min > 0,
        slab_allocate_spec(v, l, min).1 is Some,
    ensures
        deallocate_spec(
            slab_allocate_spec(v, l, min).0,
            (slab_allocate_spec(v, l, min).1->0).0,
            min,
            32,
        ) == v,
{
    lemma_serve_free(v, l, min, req_size(l, min) / 128, 32);
}

/// Every allocation keeps a slab settled.
pub proof fn lemma_slab_allocate_keeps_settled(v: BuddyView, l: int, min: int)
    requires
        crate::kalloc::requests::settled(v, 32),
        min > 0,
    ensures
        crate::kalloc::requests::settled(slab_allocate_spec(v, l, min).0, 32),
{
    let size = req_size(l, min);
    if have_buckets32(v.used, size / min) {
        crate::kalloc::requests::lemma_serve_keeps_settled(v, l, min, size / 128, 32);
    }
}

/// Giving back any block in use keeps a slab settled.
pub proof fn lemma_slab_deallocate_keeps_settled(v: BuddyView, addr: int, min: int)
    requires
        crate::kalloc::requests::settled(v, 32),
        0 <= slot_of(v, addr, min) < 32,
        v.used.contains(slot_of(v, addr, min)),
    ensures
        crate::kalloc::requests::settled(deallocate_spec(v, addr, min, 32), 32),
{
    crate::kalloc::requests::lemma_free_keeps_settled(v, slot_of(v, addr, min), 32);
}

/// The outcome of shrinking the block at `addr` to `new_l` bytes: a block
/// of one slot stays as it is, a larger one is split down as an allocation
/// of `new_l` bytes would be, and its slot is in use.
pub open spec fn slab_shrink_spec(v: BuddyView, addr: int, new_l: int, min: int) -> (
    BuddyView,
    Option<(int, int)>,
) {
    let i = slot_of(v, addr, min);
    if bsz(v.bins, i) == 1 {
        (v, Some((addr, min / 8)))
    } else {
        let nb = alloc_down(v.bins, i, req_size(new_l, min), min);
        (
            BuddyView { bins: nb, used: v.used.insert(i), flagged: v.used.insert(i), base: v.base },
            Some((v.base + i * min, (bsz(nb, i) * min) / 8)),
        )
    }
}

/// Shrinking, where it succeeds, hands out the block held at the slot of
/// the address it returns afterwards, with that block's length in bytes:
/// no more, so that no byte of a block split off and freed is handed out;
/// and that slot is the one of the block shrunk.
pub proof fn lemma_shrink_length(v: BuddyView, addr: int, new_l: int, min: int)
    requires
        min > 0,
    ensures
        slab_shrink_spec(v, addr, new_l, min).1 matches Some(p) ==> {
            let w = slab_shrink_spec(v, addr, new_l, min).0;
            &&& slot_of(w, p.0, min) == slot_of(v, addr, min)
            &&& p.1 == (bsz(w.bins, slot_of(w, p.0, min)) * min) / 8
        },
{
    let i = slot_of(v, addr, min);
    let q = v.base + i * min;
    assert((q - v.base) / min == i) by (nonlinear_arith)
        requires
            q == v.base + i * min,
            min > 0,
    ;
}

/// A slot range packed in a 16-bit word.
#[derive(Clone, Copy)]
pub struct Bucket<const MIN: usize>(u16);

/// The slot range of a bin.
pub open spec fn bin_range<const MIN: usize>(b: Option<Bucket<MIN>>) -> Option<(int, int)> {
    match b {
        None => None,
        Some(k) => Some(packed16(k.word())),
    }
}

impl<const MIN: usize> Bucket<MIN> {
    /// The packed word.
    pub closed spec fn word(&self) -> u16 {
        self.0
    }

    /// The bucket for the slots `start..end`.
    fn new(start: u16, end: u16) -> (r: Self)
        requires
            start < 256,
            end < 256,
        ensures
            r.word() == end * 256 + start,
    {
        assert((end << 8u16 | start) == end * 256 + start) by (bit_vector)
            requires
                start < 256,
                end < 256,
        ;
        Bucket(end << 8u16 | start)
    }

    /// The two halves of the block.
    fn split(self) -> (r: (Self, Self))
        requires
            self.word() % 256 <= self.word() / 256,
        ensures
            ({
                let s = self.word() % 256;
                let e = self.word() / 256;
                let m = s + (e - s) / 2;
                &&& r.0.word() == m * 256 + s
                &&& r.1.word() == e * 256 + m
            }),
    {
        let range = self.range();
        let (start, end) = (range.start as u16, range.end as u16);
        (Self::new(start, start + (end - start) / 2), Self::new(start + (end - start) / 2, end))
    }

    /// The block that spans this block and `rhs`.
    fn merge(self, rhs: Self) -> (r: Self)
        ensures
            ({
                let s = if self.word() % 256 < rhs.word() % 256 {
                    self.word() % 256
                } else {
                    rhs.word() % 256
                };
                let e = if self.word() / 256 < rhs.word() / 256 {
                    rhs.word() / 256
                } else {
                    self.word() / 256
                };
                r.word() == e * 256 + s
            }),
    {
        let (s1, s2) = (self.start(), rhs.start());
        let (e1, e2) = (self.end(), rhs.end());
        let start = if s1 < s2 {
            s1
        } else {
            s2
        };
        let end = if e1 < e2 {
            e2
        } else {
            e1
        };
        Self::new(start as u16, end as u16)
    }

    /// First slot of the block.
    pub fn start(&self) -> (r: usize)
        ensures
            r == self.word() % 256,
    {
        let x = self.0;
        assert(x & 0xFFu16 == x % 256) by (bit_vector);
        (self.0 & 0xFF) as usize
    }

    /// Slot after the last one of the block.
    pub fn end(&self) -> (r: usize)
        ensures
            r == self.word() / 256,
    {
        let x = self.0;
        assert((x & 0xFF00u16) >> 8u16 == x / 256) by (bit_vector);
        ((self.0 & 0xFF00) >> 8) as usize
    }

    /// The slots of the block.
    pub fn range(&self) -> (r: Range<usize>)
        ensures
            r.start == self.word() % 256,
            r.end == self.word() / 256,
    {
        self.start()..self.end()
    }

    /// Length of the block in units: `MIN` per slot.
    pub fn size(&self) -> (r: usize)
        requires
            self.word() % 256 <= self.word() / 256,
            (self.word() / 256 - self.word() % 256) * MIN <= usize::MAX,
        ensures
            r == (self.word() / 256 - self.word() % 256) * MIN,
    {
        (self.end() - self.start()) * MIN
    }

    /// Length of the block in bytes, a unit being a bit.
    pub fn size_bytes(&self) -> (r: usize)
        requires
            self.word() % 256 <= self.word() / 256,
            (self.word() / 256 - self.word() % 256) * MIN <= usize::MAX,
        ensures
            r == ((self.word() / 256 - self.word() % 256) * MIN) / 8,
    {
        self.size() / 8
    }
}

/// Why a slab could not be set up.
#[derive(Clone, Copy, PartialEq, Eq, Structural, Debug)]
pub enum Error {
    InvalidBucketSize,
    InvalidPageRange { expected: u64, got: u64 },
}

/// A buddy allocator over the 32 slots of `MIN` units that follow `start`.
pub struct Slab<const MIN: usize> {
    bins: Vec<Option<Bucket<MIN>>>,
    start: VirtualAddr,
    used_mask: u32,
}

impl<const MIN: usize> View for Slab<MIN> {
    type V = BuddyView;

    /// Every slot in use is withheld from requests.
    closed spec fn view(&self) -> BuddyView {
        let used = Set::new(|i: int| 0 <= i < 32 && bit32(self.used_mask, i));
        BuddyView {
            bins: Seq::new(32, |i: int| bin_range(self.bins@[i])),
            used,
            flagged: used,
            base: self.start.addr as int,
        }
    }
}

/// The slots `0, step, 2 * step, ...` below 32, where `step` is the number
/// of 128-unit slots in a block of `size` units.
pub fn slot_range(size: usize) -> (r: Vec<usize>)
    requires
        size / 128 >= 1,
    ensures
        r@.len() == (31 + (size / 128) as int) / ((size / 128) as int),
        forall|k: int| 0 <= k < r@.len() ==> #[trigger] r@[k] == k * (size / 128),
{
    let step = size / 128;
    let mut r: Vec<usize> = Vec::new();
    let mut i: usize = 0;
    assert(r@.len() * step == 0) by (nonlinear_arith)
        requires
            r@.len() == 0,
    ;
    while i < DEPTH
        invariant
            step == size / 128,
            step >= 1,
            i < 32 ==> i == r@.len() * step,
            i >= 32 ==> r@.len() * step >= 32,
            r@.len() == 0 || (r@.len() - 1) * step < 32,
            forall|k: int| 0 <= k < r@.len() ==> #[trigger] r@[k] == k * step,
        decreases 32 - r@.len(),
    {
        proof {
            assert(r@.len() < 32) by (nonlinear_arith)
                requires
                    i == r@.len() * step,
                    i < 32,
                    step >= 1,
            ;
        }
        r.push(i);
        proof {
            assert((r@.len() - 1) * step + step == r@.len() * step) by (nonlinear_arith);
        }
        i = match i.checked_add(step) {
            Some(n) => n,
            None => DEPTH,
        };
    }
    proof {
        let n = r@.len() as int;
        assert(n >= 1) by (nonlinear_arith)
            requires
                n * step >= 32,
        ;
        assert(n * step == (n - 1) * step + step) by (nonlinear_arith);
        vstd::arithmetic::div_mod::lemma_fundamental_div_mod_converse(
            31 + step as int,
            step as int,
            n,
            31 + step - n * step,
        );
    }
    r
}

/// The set bits of `mask` among the lowest 32 are the multiples of
/// `level`, and the set bits of `used` under it count as many as the
/// multiples only when every multiple is set.
proof fn lemma_mask_count(used: u32, mask: u32, level: int)
    requires
        level >= 1,
        forall|j: int| 0 <= j < 32 ==> #[trigger] bit32(mask, j) == (j % level == 0),
    ensures
        (crate::bits::ones32(used & mask, 32) == (31 + level) / level) <==> (forall|k: int|
            0 <= k < 32 && k % level == 0 ==> #[trigger] bit32(used, k)),
{
    crate::bits::lemma_ones32_multiples(used, mask, level, 32);
    crate::bits::lemma_multiples_closed(level, 32);
}

/// A mask of the multiples of `level` below 32.
proof fn lemma_mask_bits(mask: u32, level: u32)
    requires
        (level == 32 && mask == 0x1) || (level == 16 && mask == 0x0001_0001) || (level == 8 && mask
            == 0x0101_0101) || (level == 4 && mask == 0x1111_1111) || (level == 2 && mask
            == 0x5555_5555) || (level == 1 && mask == 0xFFFF_FFFF),
    ensures
        forall|j: int| 0 <= j < 32 ==> #[trigger] bit32(mask, j) == (j % (level as int) == 0),
{
    assert forall|j: int| 0 <= j < 32 implies #[trigger] bit32(mask, j) == (j % (level as int) == 0) by {
        let k = j as u32;
        assert((mask & (1u32 << k) != 0) == (k % level == 0)) by (bit_vector)
            requires
                k < 32,
                (level == 32 && mask == 0x1) || (level == 16 && mask == 0x0001_0001) || (level == 8
                    && mask == 0x0101_0101) || (level == 4 && mask == 0x1111_1111) || (level == 2
                    && mask == 0x5555_5555) || (level == 1 && mask == 0xFFFF_FFFF),
        ;
    }
}

impl<const MIN: usize> Slab<MIN> {
    /// The bins, in slot order.
    pub closed spec fn buckets(&self) -> Seq<Option<Bucket<MIN>>> {
        self.bins@
    }

    /// The slab is consistent: its blocks partition the 32 slots and every
    /// slot in use holds a block.
    pub closed spec fn wf(&self) -> bool {
        &&& self.bins@.len() == 32
        &&& partitioned(self@.bins, 32)
        &&& used_ok(self@.bins, self@.used, 32)
        &&& slab_unit(MIN as int)
    }

    /// Sets up a slab over the 32 slots that follow the start of `page`,
    /// which must span exactly `MIN * 32 / PAGE_4KB` pages, with one free
    /// block over all slots.
    pub fn new(page: PageRange) -> (r: Result<Self, Error>)
        requires
            slab_unit(MIN as int),
        ensures
            (MIN * 32) / 4096 != page.len ==> r == Err::<Self, Error>(
                Error::InvalidPageRange { expected: ((MIN * 32) / 4096) as u64, got: page.len },
            ),
            (MIN * 32) / 4096 == page.len ==> r is Ok,
            r matches Ok(a) ==> {
                &&& a.wf()
                &&& a@.bins[0] == Some((0int, 32int))
                &&& forall|i: int| 1 <= i < 32 ==> #[trigger] a@.bins[i] is None
                &&& a@.used == Set::<int>::empty()
                &&& a@.base == page.start
            },
    {
        proof {
            lemma_slab_unit_pow2(MIN as int);
        }
        if !is_power_of_two(MIN) {
            return Err(Error::InvalidBucketSize);
        }
        let expected = (MIN as u64 * 32) / PAGE_4KB;
        let got = page.len();
        if expected != got {
            return Err(Error::InvalidPageRange { expected, got });
        }
        let start = VirtualAddr::new(page.start());
        let mut bins: Vec<Option<Bucket<MIN>>> = Vec::new();
        let mut k: usize = 0;
        while k < DEPTH
            invariant
                k <= 32,
                bins@.len() == k,
                forall|i: int| 0 <= i < k ==> #[trigger] bins@[i] is None,
            decreases 32 - k,
        {
            bins.push(None);
            k = k + 1;
        }
        bins.set(0, Some(Bucket::new(0, 32)));
        let this = Slab { bins, start, used_mask: 0 };
        proof {
            assert forall|i: int| 0 <= i < 32 implies !bit32(0u32, i) by {
                let j = i as u32;
                assert(0u32 & (1u32 << j) == 0) by (bit_vector);
            }
            assert(this@.used =~= Set::<int>::empty());
            lemma_pack16(0, 32);
            assert(this@.bins[0] == Some((0int, 32int)));
            assert forall|i: int| 1 <= i < 32 implies #[trigger] this@.bins[i] is None by {
                assert(this.bins@[i] is None);
            }
            lemma_single_block_partition(this@.bins, 32);
        }
        Ok(this)
    }

    /// Number of slots in use.
    pub fn len(&self) -> (r: usize)
        ensures
            self@.used.finite(),
            r == self@.used.len(),
    {
        let c = crate::bits::count_ones32(self.used_mask);
        proof {
            crate::bits::lemma_ones32_len(self.used_mask, 32);
            assert(self@.used =~= crate::bits::bits32_below(self.used_mask, 32));
        }
        c as usize
    }

    /// No slot is in use.
    pub fn is_empty(&self) -> (r: bool)
        ensures
            r == (self@.used.len() == 0),
    {
        self.len() == 0
    }

    /// Some slot that a block of `size` units could start at is not in use.
    pub fn have_buckets_for(&self, size: usize) -> (r: bool)
        requires
            self.wf(),
            is_pow2(size as int),
            MIN <= size,
        ensures
            r == have_buckets32(self@.used, size as int / MIN as int),
    {
        let used = self.used_mask;
        let ghost level = size as int / MIN as int;
        proof {
            lemma_slab_unit_pow2(MIN as int);
            crate::bits::lemma_pow2_div(size as int, MIN as int);
        }
        let all = if size == MIN * 32 {
            proof {
                lemma_mask_bits(0x1, 32);
                lemma_mask_count(used, 0x1, 32);
            }
            crate::bits::count_ones32(used & 0x1) == 1
        } else if size == MIN * 16 {
            proof {
                lemma_mask_bits(0x0001_0001, 16);
                lemma_mask_count(used, 0x0001_0001, 16);
            }
            crate::bits::count_ones32(used & 0x0001_0001) == 2
        } else if size == MIN * 8 {
            proof {
                lemma_mask_bits(0x0101_0101, 8);
                lemma_mask_count(used, 0x0101_0101, 8);
            }
            crate::bits::count_ones32(used & 0x0101_0101) == 4
        } else if size == MIN * 4 {
            proof {
                lemma_mask_bits(0x1111_1111, 4);
                lemma_mask_count(used, 0x1111_1111, 4);
            }
            crate::bits::count_ones32(used & 0x1111_1111) == 8
        } else if size == MIN * 2 {
            proof {
                lemma_mask_bits(0x5555_5555, 2);
                lemma_mask_count(used, 0x5555_5555, 2);
            }
            crate::bits::count_ones32(used & 0x5555_5555) == 16
        } else if size <= MIN {
            proof {
                lemma_mask_bits(0xFFFF_FFFF, 1);
                lemma_mask_count(used, 0xFFFF_FFFF, 1);
                assert(used & 0xFFFF_FFFFu32 == used) by (bit_vector);
            }
            crate::bits::count_ones32(used) == 32
        } else {
            true
        };
        proof {
            if size == MIN * 32 {
                assert(level == 32) by (nonlinear_arith)
                    requires
                        level * MIN == size,
                        size == MIN * 32,
                        MIN > 0,
                ;
            } else if size == MIN * 16 {
                assert(level == 16) by (nonlinear_arith)
                    requires
                        level * MIN == size,
                        size == MIN * 16,
                        MIN > 0,
                ;
            } else if size == MIN * 8 {
                assert(level == 8) by (nonlinear_arith)
                    requires
                        level * MIN == size,
                        size == MIN * 8,
                        MIN > 0,
                ;
            } else if size == MIN * 4 {
                assert(level == 4) by (nonlinear_arith)
                    requires
                        level * MIN == size,
                        size == MIN * 4,
                        MIN > 0,
                ;
            } else if size == MIN * 2 {
                assert(level == 2) by (nonlinear_arith)
                    requires
                        level * MIN == size,
                        size == MIN * 2,
                        MIN > 0,
                ;
            } else if size <= MIN {
                assert(level == 1) by (nonlinear_arith)
                    requires
                        level * MIN == size,
                        size <= MIN,
                        MIN <= size,
                        MIN > 0,
                ;
            } else {
                assert(level > 32) by {
                    if level <= 32 {
                        crate::bits::lemma_pow2_small(level);
                        assert(level == 1 || level == 2 || level == 4 || level == 8 || level == 16
                            || level == 32);
                        assert(size == level * MIN);
                    }
                }
            }
            if level <= 32 {
                if !all {
                    let k = choose|k: int| 0 <= k < 32 && k % level == 0 && !#[trigger] bit32(used, k);
                    assert(!self@.used.contains(k));
                } else {
                    assert forall|k: int| 0 <= k < 32 && k % level == 0 implies #[trigger] self@.used.contains(k) by {
                        assert(bit32(used, k));
                    }
                }
            }
        }
        !all
    }

    /// Slot `idx` is in use.
    pub fn is_used(&self, idx: usize) -> (r: bool)
        requires
            idx < 32,
        ensures
            r == self@.used.contains(idx as int),
    {
        self.used_mask & (1u32 << idx as u32) != 0
    }

    /// The block of bin `i`, if any.
    pub fn bin(&self, i: usize) -> (r: Option<Bucket<MIN>>)
        requires
            self.wf(),
            i < 32,
        ensures
            r == self.buckets()[i as int],
            bin_range(r) == self@.bins[i as int],
    {
        self.bins[i]
    }

    /// The bucket of an occupied bin holds its block, which fits in the
    /// slab.
    proof fn lemma_block_fits(&self, i: int)
        requires
            self.wf(),
            occ(self@.bins, i),
        ensures
            self.bins@[i] is Some,
            self.bins@[i]->0.word() % 256 == i,
            self.bins@[i]->0.word() / 256 == blk(self@.bins, i).1,
            i < self.bins@[i]->0.word() / 256 <= 32,
            (self.bins@[i]->0.word() / 256 - i) * MIN <= 32 * MIN,
            32 * MIN <= usize::MAX,
            block_ok(blk(self@.bins, i), i, 32),
    {
        assert(block_ok(blk(self@.bins, i), i, 32));
        let e = self.bins@[i]->0.word() / 256;
        assert((e - i) * MIN <= 32 * MIN) by (nonlinear_arith)
            requires
                e - i <= 32,
        ;
    }

    /// Replaces bin `i`.
    fn put(&mut self, i: usize, b: Option<Bucket<MIN>>)
        requires
            old(self).bins@.len() == 32,
            i < 32,
        ensures
            final(self).bins@ == old(self).bins@.update(i as int, b),
            final(self).used_mask == old(self).used_mask,
            final(self).start == old(self).start,
            final(self)@ == (BuddyView {
                bins: old(self)@.bins.update(i as int, bin_range(b)),
                ..old(self)@
            }),
    {
        self.bins.set(i, b);
        proof {
            assert(self@.bins =~= old(self)@.bins.update(i as int, bin_range(b)));
            assert(self@.used =~= old(self)@.used);
        }
    }

    /// Marks slot `idx` as in use.
    fn mark_used(&mut self, idx: usize)
        requires
            idx < 32,
        ensures
            final(self)@ == (BuddyView {
                used: old(self)@.used.insert(idx as int),
                flagged: old(self)@.used.insert(idx as int),
                ..old(self)@
            }),
            final(self).bins == old(self).bins,
    {
        let ghost m = self.used_mask;
        self.used_mask = self.used_mask | (1u32 << idx as u32);
        proof {
            crate::bits::lemma_bit32_set(m, idx as u32);
            assert forall|k: int| 0 <= k < 32 implies bit32(self.used_mask, k) == (k == idx || bit32(m, k)) by {
                assert(bit32(self.used_mask, (k as u32) as int) == (k as u32 == idx as u32 || bit32(m, (k as u32) as int)));
            }
            assert(self@.used =~= old(self)@.used.insert(idx as int));
            assert(self@.bins =~= old(self)@.bins);
        }
    }

    /// Marks slot `idx` as not in use.
    fn mark_unused(&mut self, idx: usize)
        requires
            idx < 32,
        ensures
            final(self)@ == (BuddyView {
                used: old(self)@.used.remove(idx as int),
                flagged: old(self)@.used.remove(idx as int),
                ..old(self)@
            }),
            final(self).bins == old(self).bins,
    {
        let ghost m = self.used_mask;
        self.used_mask = self.used_mask & !(1u32 << idx as u32);
        proof {
            crate::bits::lemma_bit32_clear(m, idx as u32);
            assert forall|k: int| 0 <= k < 32 implies bit32(self.used_mask, k) == (k != idx && bit32(m, k)) by {
                assert(bit32(self.used_mask, (k as u32) as int) == (k as u32 != idx as u32 && bit32(m, (k as u32) as int)));
            }
            assert(self@.used =~= old(self)@.used.remove(idx as int));
            assert(self@.bins =~= old(self)@.bins);
        }
    }

    /// Bin `idx` can serve a request of `l` bytes.
    fn available_for(&self, idx: usize, l: usize) -> (r: bool)
        requires
            self.wf(),
            idx < 32,
        ensures
            r == available(self@, idx as int, l as int, MIN as int),
    {
        match self.bins[idx] {
            Some(bin) => {
                proof {
                    self.lemma_block_fits(idx as int);
                }
                l <= bin.size_bytes() && !self.is_used(idx)
            },
            None => false,
        }
    }

    /// Address of the first slot of `range`.
    fn addr_for(&self, range: Range<usize>) -> (r: u64)
        requires
            self.wf(),
            range.start < 32,
            self@.base + 32 * MIN <= u64::MAX,
        ensures
            r == self@.base + range.start * MIN,
    {
        let start = range.start;
        assert(start * MIN < 32 * MIN) by (nonlinear_arith)
            requires
                start < 32,
                MIN > 0,
        ;
        self.start.addr + (start * MIN) as u64
    }

    /// The slot range a block merges with: the other half of their parent.
    pub fn buddy_of(range: Range<usize>) -> (r: Range<usize>)
        requires
            range.start < range.end,
            (range.start as int / (range.end - range.start)) % 2 == 0 ==> range.end + (range.end
                - range.start) <= usize::MAX,
        ensures
            (r.start as int, r.end as int) == buddy((range.start as int, range.end as int)),
    {
        let diff = range.end - range.start;
        if (range.start / diff) % 2 == 0 {
            range.end..(range.end + diff)
        } else {
            proof {
                vstd::arithmetic::div_mod::lemma_fundamental_div_mod(range.start as int, diff as int);
                let q = range.start as int / diff as int;
                assert(diff * q >= diff) by (nonlinear_arith)
                    requires
                        q >= 1,
                        diff > 0,
                ;
            }
            (range.start - diff)..range.start
        }
    }

    /// The slot range is the right half of its parent.
    pub fn is_right(range: Range<usize>) -> (r: bool)
        requires
            range.start < range.end,
        ensures
            r == is_right((range.start as int, range.end as int)),
    {
        (range.start / (range.end - range.start)) % 2 != 0
    }
}

impl<const MIN: usize> Slab<MIN> {
    /// Splits the block of bin `idx` into its two halves, in use or not, and
    /// returns the bins of the halves; `None`, with nothing changed, when the
    /// bin holds no block of more than one slot.
    #[verifier::spinoff_prover]
    #[verifier::rlimit(50)]
    fn split_at_unchecked(&mut self, idx: usize) -> (r: Option<(usize, usize)>)
        requires
            old(self).wf(),
            idx < 32,
        ensures
            final(self).wf(),
            ({
                let v = old(self)@;
                let i = idx as int;
                let can = occ(v.bins, i) && bsz(v.bins, i) >= 2;
                &&& can ==> r == Some((idx, (i + bsz(v.bins, i) / 2) as usize)) && final(self)@
                    == BuddyView { bins: split_at(v.bins, i), ..v }
                &&& !can ==> r is None && final(self)@ == v
            }),
    {
        let e = match self.bins[idx] {
            None => {
                return None;
            },
            Some(e) => e,
        };
        proof {
            self.lemma_block_fits(idx as int);
            let end = e.word() / 256;
            assert(((end - idx) * MIN <= MIN) == (end - idx <= 1)) by (nonlinear_arith)
                requires
                    MIN > 0,
                    end - idx >= 1,
            ;
        }
        if e.size() <= MIN {
            return None;
        }
        let ghost v = self@;
        let ghost i = idx as int;
        self.put(idx, None);
        let (left, right) = e.split();
        proof {
            lemma_split_partitioned(v.bins, i, 32);
            let s0 = e.word() % 256;
            let e0 = e.word() / 256;
            let m = s0 + (e0 - s0) / 2;
            lemma_pack16(s0 as int, m);
            lemma_pack16(m, e0 as int);
        }
        let (lstart, rstart) = (left.start(), right.start());
        self.put(lstart, Some(left));
        self.put(rstart, Some(right));
        proof {
            let h = bsize(blk(v.bins, i)) / 2;
            crate::kalloc::model::lemma_split_pointwise(v.bins, i);
            assert(self@.bins =~= split_at(v.bins, i));
            assert forall|k: int| 0 <= k < 32 && #[trigger] self@.used.contains(k) implies occ(
                self@.bins,
                k,
            ) by {
                assert(occ(v.bins, k));
                assert(k != i + h);
            }
        }
        Some((lstart, rstart))
    }

    /// Splits the free block of bin `idx` into its two halves; `None`, with
    /// nothing changed, when the slot is in use or the bin holds no block of
    /// more than one slot.
    fn split_at(&mut self, idx: usize) -> (r: Option<(usize, usize)>)
        requires
            old(self).wf(),
            idx < 32,
        ensures
            final(self).wf(),
            ({
                let v = old(self)@;
                let i = idx as int;
                let can = occ(v.bins, i) && !v.used.contains(i) && bsz(v.bins, i) >= 2;
                &&& can ==> r == Some((idx, (i + bsz(v.bins, i) / 2) as usize)) && final(self)@
                    == BuddyView { bins: split_at(v.bins, i), ..v }
                &&& !can ==> r is None && final(self)@ == v
            }),
    {
        if self.is_used(idx) {
            return None;
        }
        self.split_at_unchecked(idx)
    }

    /// The slot `ptr` falls in, which must be one of the 32, and its block.
    fn bin_for(&self, ptr: u64) -> (r: (usize, Option<Bucket<MIN>>))
        requires
            self.wf(),
            self@.base <= ptr,
            slot_of(self@, ptr as int, MIN as int) < 32,
        ensures
            r.0 as int == slot_of(self@, ptr as int, MIN as int),
            r.1 == self.bins@[r.0 as int],
            r.1 is Some <==> occ(self@.bins, r.0 as int),
    {
        let idx = ((ptr - self.start.addr) / (MIN as u64)) as usize;
        (idx, self.bins[idx])
    }

    /// The block of bin `index` and its buddy `buddy_range` can be merged:
    /// the buddy lies in the slab, holds a block of the same length and is
    /// not in use.
    #[verifier::spinoff_prover]
    #[verifier::rlimit(40)]
    fn mergeable(&self, index: usize, buddy_range: &Range<usize>) -> (r: bool)
        requires
            self.wf(),
            index < 32,
            occ(self@.bins, index as int),
            (buddy_range.start as int, buddy_range.end as int) == buddy(blk(self@.bins, index as int)),
        ensures
            r == can_merge(self@.bins, self@.used, index as int, 32),
    {
        proof {
            let c = buddy(blk(self@.bins, index as int)).0;
            self.lemma_block_fits(index as int);
            if 0 <= c < 32 && occ(self@.bins, c) {
                self.lemma_block_fits(c);
                lemma_buddy_check(
                    self@.bins,
                    self@.used,
                    self@.used,
                    index as int,
                    (self.bins@[c]->0.word() / 256) as int,
                    (self.bins@[c]->0.word() % 256) as int,
                    MIN as int,
                    32,
                );
            } else {
                lemma_buddy_check(self@.bins, self@.used, self@.used, index as int, 0, 0, MIN as int, 32);
            }
        }
        if buddy_range.start >= DEPTH {
            return false;
        }
        let bin_size = self.bins[index].unwrap().size();
        let same = match self.bins[buddy_range.start] {
            Some(b) => {
                proof {
                    self.lemma_block_fits(buddy_range.start as int);
                }
                b.size() == bin_size
            },
            None => false,
        };
        proof {
            let c = buddy_range.start as int;
            let e = self.bins@[index as int]->0.word() / 256;
            if occ(self@.bins, c) {
                let f = self.bins@[c]->0.word() / 256;
                assert(((e - index) * MIN == (f - c) * MIN) == (e - index == f - c)) by (nonlinear_arith)
                    requires
                        MIN > 0,
                ;
            }
        }
        same && !self.is_used(buddy_range.start)
    }

    /// Hands out the first free block that can hold `l` bytes, split down to
    /// the smallest block of at least `8 * l` units (one slot at the least),
    /// and returns its address and its length in bytes.
    #[verifier::spinoff_prover]
    #[verifier::rlimit(50)]
    pub fn allocate(&mut self, l: usize) -> (r: Result<(u64, usize), AllocError>)
        requires
            old(self).wf(),
            8 * next_pow2(l as int) <= usize::MAX,
            old(self)@.base + 32 * MIN <= u64::MAX,
        ensures
            final(self).wf(),
            final(self)@ == slab_allocate_spec(old(self)@, l as int, MIN as int).0,
            slab_allocate_spec(old(self)@, l as int, MIN as int).1 == (match r {
                Ok(p) => Some((p.0 as int, p.1 as int)),
                Err(_) => None,
            }),
    {
        proof {
            lemma_slab_unit_pow2(MIN as int);
        }
        let size = request_size(l, MIN);
        if !self.have_buckets_for(size) {
            return Err(AllocError);
        }
        let ghost step = size as int / 128;
        let slots = slot_range(size);
        let mut k: usize = 0;
        let mut found: Option<usize> = None;
        while k < slots.len()
            invariant_except_break
                found is None,
            invariant
                self.wf(),
                self == old(self),
                step == size / 128,
                step >= 1,
                slots@.len() == (31 + step) / step,
                forall|j: int| 0 <= j < slots@.len() ==> #[trigger] slots@[j] == j * step,
                k <= slots@.len(),
                first_available(self@, l as int, MIN as int, 0, step, 32) == first_available(
                    self@,
                    l as int,
                    MIN as int,
                    k * step,
                    step,
                    32,
                ),
            ensures
                found matches Some(i) ==> i < 32 && first_available(self@, l as int, MIN as int, 0, step, 32)
                    == Some(i as int),
                found is None ==> k == slots@.len(),
            decreases slots@.len() - k,
        {
            let i = slots[k];
            proof {
                assert(k * step < 32) by (nonlinear_arith)
                    requires
                        k < (31 + step) / step,
                        step >= 1,
                {
                    vstd::arithmetic::div_mod::lemma_fundamental_div_mod(31 + step, step);
                }
            }
            if self.available_for(i, l) {
                found = Some(i);
                break;
            }
            proof {
                assert((k + 1) * step == k * step + step) by (nonlinear_arith);
            }
            k = k + 1;
        }
        match found {
            Some(i) => {
                let ghost v = self@;
                proof {
                    lemma_first_available(v, l as int, MIN as int, 0, step, 32);
                }
                let mut bin = self.bins[i].unwrap();
                loop
                    invariant
                        self.wf(),
                        v == old(self)@,
                        i < 32,
                        MIN <= size,
                        size == req_size(l as int, MIN as int),
                        !v.used.contains(i as int),
                        occ(self@.bins, i as int),
                        Some(bin) == self.bins@[i as int],
                        self@.used == v.used,
                        self@.base == v.base,
                        self@.flagged == v.flagged,
                        alloc_down(self@.bins, i as int, size as int, MIN as int) == alloc_down(
                            v.bins,
                            i as int,
                            size as int,
                            MIN as int,
                        ),
                    ensures
                        !splits(self@.bins, i as int, size as int, MIN as int),
                    decreases bsz(self@.bins, i as int),
                {
                    proof {
                        self.lemma_block_fits(i as int);
                    }
                    if !(size <= bin.size() / 2) {
                        break;
                    }
                    proof {
                        let e = self.bins@[i as int]->0.word() / 256;
                        assert(e - i >= 2) by (nonlinear_arith)
                            requires
                                MIN > 0,
                                MIN <= size,
                                size <= ((e - i) * MIN) / 2,
                                e - i >= 1,
                        ;
                        lemma_split_partitioned(self@.bins, i as int, 32);
                    }
                    let start = match self.split_at(bin.start()) {
                        Some(p) => p.0,
                        None => {
                            return Err(AllocError);
                        },
                    };
                    bin = match self.bins[start] {
                        Some(b) => b,
                        None => {
                            return Err(AllocError);
                        },
                    };
                }
                proof {
                    assert(self@.bins == alloc_down(self@.bins, i as int, size as int, MIN as int));
                    lemma_alloc_down(v.bins, v.used, i as int, size as int, MIN as int, 32);
                }
                self.mark_used(i);
                proof {
                    assert forall|k: int| 0 <= k < 32 && #[trigger] self@.used.contains(k) implies occ(
                        self@.bins,
                        k,
                    ) by {
                        if k != i {
                            assert(v.used.contains(k));
                        }
                    }
                    self.lemma_block_fits(i as int);
                }
                let range = bin.range();
                let len = bin.size_bytes();
                Ok((self.addr_for(range), len))
            },
            None => {
                proof {
                    assert(first_available(self@, l as int, MIN as int, k * step, step, 32) is None) by {
                        vstd::arithmetic::div_mod::lemma_fundamental_div_mod(31 + step, step);
                        assert(k * step >= 32) by (nonlinear_arith)
                            requires
                                k == (31 + step) / step,
                                31 + step == step * ((31 + step) / step) + (31 + step) % step,
                                (31 + step) % step < step,
                                step >= 1,
                        ;
                    }
                }
                Err(AllocError)
            },
        }
    }
}

impl<const MIN: usize> Slab<MIN> {
    /// Merges the block of bin `index` with its free buddy `buddy_range` and
    /// returns the bin of the merged block.
    #[verifier::spinoff_prover]
    #[verifier::rlimit(50)]
    fn merge_with(&mut self, index: usize, buddy_range: &Range<usize>) -> (r: usize)
        requires
            old(self).wf(),
            index < 32,
            can_merge(old(self)@.bins, old(self)@.used, index as int, 32),
            (buddy_range.start as int, buddy_range.end as int) == buddy(
                blk(old(self)@.bins, index as int),
            ),
            old(self)@.used.contains(index as int) ==> parent_start(old(self)@.bins, index as int)
                == index,
        ensures
            final(self).wf(),
            r == parent_start(old(self)@.bins, index as int),
            final(self)@ == (BuddyView { bins: merge_at(old(self)@.bins, index as int), ..old(self)@ }),
    {
        let ghost v = self@;
        let ghost i = index as int;
        let c = buddy_range.start;
        proof {
            self.lemma_block_fits(i);
            self.lemma_block_fits(c as int);
            lemma_merge_partitioned(v.bins, v.used, i, 32);
        }
        let buddy = self.bins[c].unwrap();
        self.put(c, None);
        let bin = self.bins[index].unwrap();
        self.put(index, None);
        let new = bin.merge(buddy);
        proof {
            let s = if bin.word() % 256 < buddy.word() % 256 {
                bin.word() % 256
            } else {
                buddy.word() % 256
            };
            let e = if bin.word() / 256 < buddy.word() / 256 {
                buddy.word() / 256
            } else {
                bin.word() / 256
            };
            lemma_pack16(s as int, e as int);
        }
        let lo = new.range().start;
        self.put(lo, Some(new));
        proof {
            assert(self@.bins =~= merge_at(v.bins, i));
            assert forall|k: int| 0 <= k < 32 && #[trigger] self@.used.contains(k) implies occ(
                self@.bins,
                k,
            ) by {
                assert(occ(v.bins, k));
                if k == i {
                    assert(lo == i);
                }
            }
        }
        lo
    }

    /// Gives back the block at `ptr`, which was handed out for `l` bytes,
    /// and merges it upwards with its free buddies for as long as they allow.
    pub fn deallocate(&mut self, ptr: u64, l: usize)
        requires
            old(self).wf(),
            old(self)@.base <= ptr,
            holds_block(old(self)@, ptr as int, l as int, MIN as int, 32),
        ensures
            final(self).wf(),
            final(self)@ == deallocate_spec(old(self)@, ptr as int, MIN as int, 32),
    {
        let (idx, bin) = self.bin_for(ptr);
        let bin = bin.unwrap();
        proof {
            self.lemma_block_fits(idx as int);
        }
        let range = bin.range();
        let mut index = range.start;
        self.mark_unused(index);
        let ghost u = self@;
        proof {
            assert forall|k: int| 0 <= k < 32 && #[trigger] u.used.contains(k) implies occ(u.bins, k) by {
                assert(old(self)@.used.contains(k));
            }
            crate::kalloc::model::lemma_buddy_right(idx as int, bsize(blk(u.bins, idx as int)));
        }
        let mut buddy_range = Self::buddy_of(range);
        loop
            invariant
                self.wf(),
                u == (BuddyView {
                    used: old(self)@.used.remove(idx as int),
                    flagged: old(self)@.used.remove(idx as int),
                    ..old(self)@
                }),
                idx == slot_of(old(self)@, ptr as int, MIN as int),
                index < 32,
                occ(self@.bins, index as int),
                !self@.used.contains(index as int),
                self@.used == u.used,
                self@.base == u.base,
                (buddy_range.start as int, buddy_range.end as int) == buddy(
                    blk(self@.bins, index as int),
                ),
                merge_up(self@.bins, u.used, index as int, 32) == merge_up(
                    u.bins,
                    u.used,
                    idx as int,
                    32,
                ),
            decreases 32 - bsz(self@.bins, index as int),
        {
            if !self.mergeable(index, &buddy_range) {
                return;
            }
            let ghost before = self@;
            let lo = self.merge_with(index, &buddy_range);
            proof {
                lemma_merge_partitioned(before.bins, before.used, index as int, 32);
                self.lemma_block_fits(lo as int);
                crate::kalloc::model::lemma_buddy_right(lo as int, bsize(blk(self@.bins, lo as int)));
            }
            index = lo;
            let b = self.bins[index].unwrap();
            proof {
                lemma_pack16(index as int, blk(self@.bins, index as int).1);
            }
            buddy_range = Self::buddy_of(b.range());
        }
    }

    /// Grows the block at `ptr`, handed out for `old_l` bytes, to `new_l`
    /// bytes: in place when its buddy follows it and is a free block of its
    /// size, else by allocating a new block and giving the old one back;
    /// returns the block that now holds the contents, the length asked for
    /// or handed out, and, where the block moved, the copy of its `old_l`
    /// bytes to the new block that the caller must make.
    #[verifier::spinoff_prover]
    #[verifier::rlimit(50)]
    pub fn grow(&mut self, ptr: u64, old_l: usize, new_l: usize) -> (r: Result<(u64, usize, Option<CopyStep>), AllocError>)
        requires
            old(self).wf(),
            old_l <= new_l,
            old(self)@.base <= ptr,
            new_l <= 32 * MIN && new_l != old_l ==> {
                let v = old(self)@;
                let i = slot_of(v, ptr as int, MIN as int);
                let c = buddy(blk(v.bins, i));
                &&& holds_block(v, ptr as int, old_l as int, MIN as int, 32)
                &&& v.used.contains(i)
                &&& is_right(c) ==> c.0 < 32
                &&& 8 * next_pow2(new_l as int) <= usize::MAX
                &&& v.base + 32 * MIN <= u64::MAX
            },
        ensures
            final(self).wf(),
            final(self)@ == slab_grow_spec(old(self)@, ptr as int, old_l as int, new_l as int, MIN as int).0,
            slab_grow_spec(old(self)@, ptr as int, old_l as int, new_l as int, MIN as int).1 == (match r {
                Ok(p) => Some((p.0 as int, p.1 as int)),
                Err(_) => None,
            }),
            r matches Ok(p) ==> p.2 == (if slab_grow_moves(old(self)@, ptr as int, old_l as int, new_l as int, MIN as int) {
                Some(CopyStep { from: ptr, to: p.0, len: old_l })
            } else {
                None
            }),
    {
        if new_l > 32 * MIN {
            return Err(AllocError);
        }
        if new_l == old_l {
            return Ok((ptr, new_l, None));
        }
        let ghost v = self@;
        let (idx, bin) = self.bin_for(ptr);
        let bin = bin.unwrap();
        proof {
            self.lemma_block_fits(idx as int);
        }
        let range = bin.range();
        let index = range.start;
        let buddy_range = Self::buddy_of(range);
        proof {
            let s = bsize(blk(v.bins, index as int));
            crate::kalloc::model::lemma_buddy_right(index as int, s);
            if 2 * s <= 32 {
                crate::kalloc::model::lemma_buddy_facts(index as int, s, 32);
            }
        }
        if Self::is_right(buddy_range.start..buddy_range.end) && self.mergeable(index, &buddy_range) {
            self.merge_with(index, &buddy_range);
            return Ok((ptr, new_l, None));
        }
        let new_ptr = match self.allocate(new_l) {
            Ok(p) => p,
            Err(e) => {
                return Err(e);
            },
        };
        proof {
            if have_buckets32(v.used, req_size(new_l as int, MIN as int) / MIN as int) {
                lemma_serve_keeps_used(
                    v,
                    new_l as int,
                    MIN as int,
                    req_size(new_l as int, MIN as int) / 128,
                    32,
                    idx as int,
                );
            }
        }
        self.deallocate(ptr, old_l);
        Ok((new_ptr.0, new_ptr.1, Some(CopyStep { from: ptr, to: new_ptr.0, len: old_l })))
    }

    /// Shrinks the block at `ptr`, handed out for `old_l` bytes, to `new_l`
    /// bytes by splitting it down as an allocation of `new_l` bytes would
    /// be, and marks its slot in use; a block of one slot is left as it is.
    /// Returns the block and its length in bytes.
    #[verifier::spinoff_prover]
    #[verifier::rlimit(50)]
    pub fn shrink(&mut self, ptr: u64, old_l: usize, new_l: usize) -> (r: Result<(u64, usize), AllocError>)
        requires
            old(self).wf(),
            new_l <= old_l,
            old(self)@.base <= ptr,
            holds_block(old(self)@, ptr as int, old_l as int, MIN as int, 32),
            bsz(old(self)@.bins, slot_of(old(self)@, ptr as int, MIN as int)) > 1 ==> 8 * next_pow2(
                new_l as int,
            ) <= usize::MAX && old(self)@.base + 32 * MIN <= u64::MAX,
        ensures
            final(self).wf(),
            final(self)@ == slab_shrink_spec(old(self)@, ptr as int, new_l as int, MIN as int).0,
            r matches Ok(p) && slab_shrink_spec(old(self)@, ptr as int, new_l as int, MIN as int).1
                == Some((p.0 as int, p.1 as int)),
            r matches Ok(p) ==> p.1 == (bsz(final(self)@.bins, slot_of(final(self)@, p.0 as int, MIN as int)) * MIN) / 8,
    {
        proof {
            lemma_shrink_length(self@, ptr as int, new_l as int, MIN as int);
        }
        let ghost v = self@;
        let (idx, bin) = self.bin_for(ptr);
        let mut bin = bin.unwrap();
        proof {
            lemma_slab_unit_pow2(MIN as int);
            self.lemma_block_fits(idx as int);
            let e = self.bins@[idx as int]->0.word() / 256;
            assert(((e - idx) * MIN == MIN) == (e - idx == 1)) by (nonlinear_arith)
                requires
                    MIN > 0,
            ;
        }
        if bin.size() == MIN {
            return Ok((ptr, bin.size_bytes()));
        }
        let i = bin.range().start;
        let size = request_size(new_l, MIN);
        loop
            invariant
                self.wf(),
                v == old(self)@,
                i == idx,
                i < 32,
                MIN <= size,
                size == req_size(new_l as int, MIN as int),
                occ(self@.bins, i as int),
                Some(bin) == self.bins@[i as int],
                self@.used == v.used,
                self@.base == v.base,
                self@.flagged == v.flagged,
                alloc_down(self@.bins, i as int, size as int, MIN as int) == alloc_down(
                    v.bins,
                    i as int,
                    size as int,
                    MIN as int,
                ),
            ensures
                !splits(self@.bins, i as int, size as int, MIN as int),
            decreases bsz(self@.bins, i as int),
        {
            proof {
                self.lemma_block_fits(i as int);
            }
            if !(size <= bin.size() / 2) {
                break;
            }
            proof {
                let e = self.bins@[i as int]->0.word() / 256;
                assert(e - i >= 2) by (nonlinear_arith)
                    requires
                        MIN > 0,
                        MIN <= size,
                        size <= ((e - i) * MIN) / 2,
                        e - i >= 1,
                ;
                lemma_split_partitioned(self@.bins, i as int, 32);
            }
            let start = self.split_at_unchecked(bin.start()).unwrap().0;
            bin = match self.bins[start] {
                Some(b) => b,
                None => {
                    return Err(AllocError);
                },
            };
        }
        proof {
            assert(self@.bins == alloc_down(self@.bins, i as int, size as int, MIN as int));
            lemma_alloc_down(v.bins, v.used, i as int, size as int, MIN as int, 32);
        }
        self.mark_used(i);
        proof {
            self.lemma_block_fits(i as int);
        }
        let range = bin.range();
        let len = bin.size_bytes();
        Ok((self.addr_for(range), len))
    }
}

} // verus!
