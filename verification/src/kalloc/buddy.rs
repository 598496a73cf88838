//! A buddy allocator over 64 slots of `MIN` units each, whose blocks are
//! packed in 32-bit buckets: the first slot in the low half, the slot after
//! the last in the high half, and zero for no block.
//!
//! Slot `i` of an allocator based at `start` begins at address
//! `start + i * MIN`; a block of `n` slots is `n * MIN` units long, which is
//! `n * MIN / 8` bytes.
use vstd::prelude::*;

use crate::addr::{PageRange, VirtualAddr, PAGE_4KB};
use crate::bits::{bit64, have_free_multiple64, is_pow2, is_power_of_two, next_pow2, next_power_of_two};
use crate::kalloc::model::{
    alloc_down, blk, block_ok, bsize, bsz, buddy, can_merge, is_right, lemma_alloc_down,
    lemma_merge_partitioned, lemma_split_partitioned, merge_at, occ, parent_start, partitioned,
    split_at, used_ok, Bins,
};
use crate::kalloc::requests::{
    allocate_spec, available, deallocate_spec, first_available, free_slot, have_buckets,
    lemma_buddy_check, lemma_first_available, lemma_serve_keeps_used, lemma_single_block_partition,
    req_size, slot_of, splits, BuddyView, holds_block, request_size, serve,
};
use crate::kalloc::{AllocError, CopyStep};
use std::ops::Range;

verus! {

/// Number of slots, and of bins, of an allocator.
pub const DEPTH: usize = 64;

/// The slot range packed in a bucket word, `None` for the empty word.
pub open spec fn packed_block(x: u32) -> Option<(int, int)> {
    if x == 0 {
        None
    } else {
        Some(((x % 65536) as int, (x / 65536) as int))
    }
}

/// A packed word holds the slot range it was built from.
pub proof fn lemma_pack(s: int, e: int)
    requires
        0 <= s < 65536,
        0 <= e < 65536,
    ensures
        (e * 65536 + s) % 65536 == s,
        (e * 65536 + s) / 65536 == e,
        (e * 65536 + s == 0) <==> (s == 0 && e == 0),
{
    vstd::arithmetic::div_mod::lemma_fundamental_div_mod_converse(e * 65536 + s, 65536, e, s);
}

/// A bucket built from the slots `start..end` reads them back: its start
/// is `start` and its end is `end`, and it is empty only for `0..0`.
pub proof fn lemma_bucket_reads_back<const MIN: usize>(b: Bucket<MIN>, start: int, end: int)
    requires
        0 <= start < 65536,
        0 <= end < 65536,
        b.word() == end * 65536 + start,
    ensures
        b.word() % 65536 == start,
        b.word() / 65536 == end,
        (b.word() == 0) <==> (start == 0 && end == 0),
{
    lemma_pack(start, end);
}

/// The outcome of growing the block at `addr`, handed out for `old_l` bytes,
/// to `new_l` bytes: in place when its buddy follows it and is free, else by
/// a fresh allocation after which the old block is given back.
pub open spec fn grow_outcome(v: BuddyView, addr: int, old_l: int, new_l: int, min: int) -> (
    BuddyView,
    Option<(int, int)>,
) {
    let i = slot_of(v, addr, min);
    let c = buddy(blk(v.bins, i));
    if new_l > 64 * min {
        (v, None)
    } else if new_l == old_l {
        (v, Some((addr, new_l)))
    } else if is_right(c) && can_merge(v.bins, v.used, i, 64) {
        (BuddyView { bins: merge_at(v.bins, i), ..v }, Some((addr, new_l)))
    } else {
        let (w, r) = allocate_spec(v, new_l, min);
        match r {
            None => (w, None),
            Some(p) => (deallocate_spec(w, addr, min, 64), Some(p)),
        }
    }
}

/// Growing the block at `addr` moves it: it is not grown in place.
pub open spec fn grow_moves(v: BuddyView, addr: int, old_l: int, new_l: int, min: int) -> bool {
    let i = slot_of(v, addr, min);
    new_l <= 64 * min && new_l != old_l && !(is_right(buddy(blk(v.bins, i))) && can_merge(v.bins, v.used, i, 64))
}

/// The outcome of shrinking the block at `addr` to `new_l` bytes: a block
/// of one slot stays as it is, a larger one is split down as an allocation
/// of `new_l` bytes would be, and its slot is in use.
pub open spec fn shrink_outcome(v: BuddyView, addr: int, new_l: int, min: int) -> (
    BuddyView,
    Option<(int, int)>,
) {
    let i = slot_of(v, addr, min);
    if bsz(v.bins, i) == 1 {
        (v, Some((addr, min / 8)))
    } else {
        let nb = alloc_down(v.bins, i, req_size(new_l, min), min);
        (
            BuddyView { bins: nb, used: v.used.insert(i), flagged: v.used.insert(i), base: v.base },
            Some((v.base + i * min, (bsz(nb, i) * min) / 8)),
        )
    }
}

/// Shrinking, where it succeeds, hands out the block held at the slot of
/// the address it returns afterwards, with that block's length in bytes:
/// no more, so that no byte of a block split off and freed is handed out;
/// and that slot is the one of the block shrunk.
pub proof fn lemma_shrink_length(v: BuddyView, addr: int, new_l: int, min: int)
    requires
        min > 0,
    ensures
        shrink_outcome(v, addr, new_l, min).1 matches Some(p) ==> {
            let w = shrink_outcome(v, addr, new_l, min).0;
            &&& slot_of(w, p.0, min) == slot_of(v, addr, min)
            &&& p.1 == (bsz(w.bins, slot_of(w, p.0, min)) * min) / 8
        },
{
    let i = slot_of(v, addr, min);
    let q = v.base + i * min;
    assert((q - v.base) / min == i) by (nonlinear_arith)
        requires
            q == v.base + i * min,
            min > 0,
    ;
}

/// A slot range packed in a 32-bit word.
#[derive(Clone, Copy)]
pub struct Bucket<const MIN: usize>(u32);

impl<const MIN: usize> Bucket<MIN> {
    /// The packed word.
    pub closed spec fn word(&self) -> u32 {
        self.0
    }

    /// The bucket for the slots `start..end`.
    fn new(start: u32, end: u32) -> (r: Self)
        requires
            start < 65536,
            end < 65536,
        ensures
            r.word() == end * 65536 + start,
    {
        assert((end << 16u32 | start) == end * 65536 + start) by (bit_vector)
            requires
                start < 65536,
                end < 65536,
        ;
        Bucket(end << 16u32 | start)
    }

    /// The bucket that holds no block.
    pub fn empty() -> (r: Self)
        ensures
            r.word() == 0,
    {
        Bucket(0)
    }

    /// The bucket holds no block.
    pub fn is_empty(&self) -> (r: bool)
        ensures
            r == (self.word() == 0),
    {
        let x = self.0;
        assert((x & 0xFFFFu32 == 0 && (x & 0xFFFF_0000u32) >> 16u32 == 0) == (x == 0)) by (bit_vector);
        self.start() == 0 && self.end() == 0
    }

    /// First slot of the block.
    pub fn start(&self) -> (r: usize)
        ensures
            r == self.word() % 65536,
    {
        let x = self.0;
        assert(x & 0xFFFFu32 == x % 65536) by (bit_vector);
        (self.0 & 0xFFFF) as usize
    }

    /// Slot after the last one of the block.
    pub fn end(&self) -> (r: usize)
        ensures
            r == self.word() / 65536,
    {
        let x = self.0;
        assert((x & 0xFFFF_0000u32) >> 16u32 == x / 65536) by (bit_vector);
        ((self.0 & 0xFFFF_0000) >> 16) as usize
    }

    /// The slots of the block.
    pub fn range(&self) -> (r: Range<usize>)
        ensures
            r.start == self.word() % 65536,
            r.end == self.word() / 65536,
    {
        self.start()..self.end()
    }

    /// Length of the block in units: `MIN` per slot.
    pub fn size(&self) -> (r: usize)
        requires
            self.word() % 65536 <= self.word() / 65536,
            (self.word() / 65536 - self.word() % 65536) * MIN <= usize::MAX,
        ensures
            r == (self.word() / 65536 - self.word() % 65536) * MIN,
    {
        (self.end() - self.start()) * MIN
    }

    /// Length of the block in bytes, a unit being a bit.
    pub fn size_bytes(&self) -> (r: usize)
        requires
            self.word() % 65536 <= self.word() / 65536,
            (self.word() / 65536 - self.word() % 65536) * MIN <= usize::MAX,
        ensures
            r == ((self.word() / 65536 - self.word() % 65536) * MIN) / 8,
    {
        self.size() / 8
    }

    /// The two halves of the block.
    fn split(self) -> (r: (Self, Self))
        requires
            self.word() % 65536 <= self.word() / 65536,
        ensures
            ({
                let s = self.word() % 65536;
                let e = self.word() / 65536;
                let m = s + (e - s) / 2;
                &&& r.0.word() == m * 65536 + s
                &&& r.1.word() == e * 65536 + m
            }),
    {
        let (start, end) = (self.start() as u32, self.end() as u32);
        (Self::new(start, start + (end - start) / 2), Self::new(start + (end - start) / 2, end))
    }

    /// The block that spans this block and `rhs`.
    fn merge(self, rhs: Self) -> (r: Self)
        ensures
            ({
                let s = if self.word() % 65536 < rhs.word() % 65536 {
                    self.word() % 65536
                } else {
                    rhs.word() % 65536
                };
                let e = if self.word() / 65536 < rhs.word() / 65536 {
                    rhs.word() / 65536
                } else {
                    self.word() / 65536
                };
                r.word() == e * 65536 + s
            }),
    {
        let (s1, s2) = (self.start(), rhs.start());
        let (e1, e2) = (self.end(), rhs.end());
        let start = if s1 < s2 {
            s1
        } else {
            s2
        };
        let end = if e1 < e2 {
            e2
        } else {
            e1
        };
        Self::new(start as u32, end as u32)
    }

    /// Takes the block out of the bucket, leaving it empty.
    fn take(&mut self) -> (r: Option<Self>)
        ensures
            old(self).word() == 0 ==> r is None && final(self).word() == 0,
            old(self).word() != 0 ==> r == Some(*old(self)) && final(self).word() == 0,
    {
        if self.is_empty() {
            None
        } else {
            let ret = *self;
            *self = Self::empty();
            Some(ret)
        }
    }
}

/// Why an allocator could not be set up.
#[derive(Clone, Copy, PartialEq, Eq, Structural, Debug)]
pub enum Error {
    InvalidPowerOfTwo,
    InvalidBinSliceSize,
    InvalidPageRange { expected: usize, got: usize },
}

/// A buddy allocator over 64 slots of `MIN` units each.
pub struct BuddyAllocator<const MIN: usize> {
    bins: Vec<Bucket<MIN>>,
    start: VirtualAddr,
    used_mask: u64,
}

impl<const MIN: usize> View for BuddyAllocator<MIN> {
    type V = BuddyView;

    /// Every slot in use is withheld from requests.
    closed spec fn view(&self) -> BuddyView {
        let used = Set::new(|i: int| 0 <= i < 64 && bit64(self.used_mask, i));
        BuddyView {
            bins: Seq::new(64, |i: int| packed_block(self.bins@[i].word())),
            used,
            flagged: used,
            base: self.start.addr as int,
        }
    }
}

/// The slots `0, step, 2 * step, ...` below 64, where `step` is the number
/// of slots in a block of `size` units.
pub fn slot_range<const MIN: usize>(size: usize) -> (r: Vec<usize>)
    requires
        MIN > 0,
        size / MIN >= 1,
    ensures
        r@.len() == (63 + (size / MIN) as int) / ((size / MIN) as int),
        forall|k: int| 0 <= k < r@.len() ==> #[trigger] r@[k] == k * (size / MIN),
{
    let step = size / MIN;
    let mut r: Vec<usize> = Vec::new();
    let mut i: usize = 0;
    assert(r@.len() * step == 0) by (nonlinear_arith)
        requires
            r@.len() == 0,
    ;
    while i < DEPTH
        invariant
            step == size / MIN,
            step >= 1,
            i < 64 ==> i == r@.len() * step,
            i >= 64 ==> r@.len() * step >= 64,
            r@.len() == 0 || (r@.len() - 1) * step < 64,
            forall|k: int| 0 <= k < r@.len() ==> #[trigger] r@[k] == k * step,
        decreases 64 - r@.len(),
    {
        proof {
            assert(r@.len() < 64) by (nonlinear_arith)
                requires
                    i == r@.len() * step,
                    i < 64,
                    step >= 1,
            ;
        }
        r.push(i);
        proof {
            assert((r@.len() - 1) * step + step == r@.len() * step) by (nonlinear_arith);
        }
        i = match i.checked_add(step) {
            Some(n) => n,
            None => DEPTH,
        };
    }
    proof {
        let n = r@.len() as int;
        assert(n >= 1) by (nonlinear_arith)
            requires
                n * step >= 64,
        ;
        assert(n * step == (n - 1) * step + step) by (nonlinear_arith);
        vstd::arithmetic::div_mod::lemma_fundamental_div_mod_converse(
            63 + step as int,
            step as int,
            n,
            63 + step - n * step,
        );
    }
    r
}

impl<const MIN: usize> BuddyAllocator<MIN> {
    /// The bucket words, in slot order.
    pub closed spec fn words(&self) -> Seq<u32> {
        self.bins@.map_values(|b: Bucket<MIN>| b.word())
    }

    /// The allocator is consistent: its blocks partition the 64 slots and
    /// every slot in use holds a block.
    pub closed spec fn wf(&self) -> bool {
        &&& self.bins@.len() == 64
        &&& partitioned(self@.bins, 64)
        &&& used_ok(self@.bins, self@.used, 64)
        &&& MIN > 0
        &&& is_pow2(MIN as int)
        &&& 64 * MIN <= usize::MAX
    }

    /// Sets up an allocator over the 64 slots that follow the start of
    /// `page`, which must span exactly `MIN * 64 / PAGE_4KB` pages, keeping
    /// its blocks in `bins`, which must hold exactly 64 buckets. The first
    /// bucket gets the block of all slots; the others are kept as they are.
    pub fn new(bins: Vec<Bucket<MIN>>, page: PageRange) -> (r: Result<Self, Error>)
        requires
            !is_pow2(MIN as int) || bins.len() != 64 || MIN * 64 <= usize::MAX,
        ensures
            !is_pow2(MIN as int) ==> r == Err::<Self, Error>(Error::InvalidPowerOfTwo),
            is_pow2(MIN as int) && bins.len() != 64 ==> r == Err::<Self, Error>(
                Error::InvalidBinSliceSize,
            ),
            is_pow2(MIN as int) && bins.len() == 64 && (MIN * 64) / 4096 != page.len as usize ==> r
                == Err::<Self, Error>(
                Error::InvalidPageRange { expected: ((MIN * 64) / 4096) as usize, got: page.len as usize },
            ),
            is_pow2(MIN as int) && bins.len() == 64 && (MIN * 64) / 4096 == page.len as usize ==> r is Ok,
            r matches Ok(a) ==> {
                &&& a@.bins[0] == Some((0int, 64int))
                &&& forall|i: int| 1 <= i < 64 ==> #[trigger] a@.bins[i] == packed_block(bins@[i].word())
                &&& a@.used == Set::<int>::empty()
                &&& a@.base == page.start
                &&& (forall|i: int| 1 <= i < 64 ==> #[trigger] bins@[i].word() == 0) ==> a.wf()
            },
    {
        if !is_power_of_two(MIN) {
            return Err(Error::InvalidPowerOfTwo);
        }
        if bins.len() != DEPTH {
            return Err(Error::InvalidBinSliceSize);
        }
        let expected = (MIN * DEPTH) / (PAGE_4KB as usize);
        let got = page.len() as usize;
        if expected != got {
            return Err(Error::InvalidPageRange { expected, got });
        }
        let start = VirtualAddr::new(page.start());
        let mut this = BuddyAllocator { bins, start, used_mask: 0 };
        let ghost orig = this.bins@;
        this.bins.set(0, Bucket::<MIN>::new(0, DEPTH as u32));
        proof {
            assert forall|i: int| 0 <= i < 64 implies !bit64(0u64, i) by {
                let j = i as u64;
                assert(0u64 & (1u64 << j) == 0) by (bit_vector);
            }
            assert(this@.used =~= Set::<int>::empty());
            assert(this@.bins[0] == Some((0int, 64int)));
            assert forall|i: int| 1 <= i < 64 implies #[trigger] this@.bins[i] == packed_block(
                orig[i].word(),
            ) by {
                assert(this.bins@[i] == orig[i]);
            }
            if forall|i: int| 1 <= i < 64 ==> #[trigger] orig[i].word() == 0 {
                assert forall|i: int| 1 <= i < 64 implies #[trigger] this@.bins[i] is None by {
                    assert(this.bins@[i] == orig[i]);
                }
                lemma_single_block_partition(this@.bins, 64);
            }
        }
        Ok(this)
    }

    /// Number of slots in use.
    pub fn len(&self) -> (r: usize)
        ensures
            self@.used.finite(),
            r == self@.used.len(),
    {
        let c = crate::bits::count_ones64(self.used_mask);
        proof {
            crate::bits::lemma_ones64_len(self.used_mask, 64);
            assert(self@.used =~= crate::bits::bits64_below(self.used_mask, 64));
        }
        c as usize
    }

    /// No slot is in use.
    pub fn is_empty(&self) -> (r: bool)
        ensures
            r == (self@.used.len() == 0),
    {
        self.len() == 0
    }

    /// Some slot that a block of `size` units could start at is not in use.
    pub fn have_buckets_for(&self, size: usize) -> (r: bool)
        requires
            self.wf(),
            is_pow2(size as int),
            MIN <= size,
        ensures
            r == have_buckets(self@.used, size as int / MIN as int),
    {
        let level = size as u64 / MIN as u64;
        proof {
            crate::bits::lemma_pow2_div(size as int, MIN as int);
            crate::bits::lemma_pow2_word(level as int);
            assert(level >= 1) by (nonlinear_arith)
                requires
                    level * MIN == size,
                    MIN <= size,
                    MIN > 0,
            ;
        }
        let r = have_free_multiple64(self.used_mask, level);
        proof {
            let lv = level as int;
            if level <= 64 {
                if r {
                    let k = choose|k: int| 0 <= k < 64 && k % lv == 0 && !#[trigger] bit64(self.used_mask, k);
                    assert(!self@.used.contains(k));
                } else {
                    assert forall|k: int| 0 <= k < 64 && k % lv == 0 implies #[trigger] self@.used.contains(k) by {
                        assert(bit64(self.used_mask, k));
                    }
                }
            }
        }
        r
    }

    /// Slot `idx` is in use.
    pub fn is_used(&self, idx: usize) -> (r: bool)
        requires
            idx < 64,
        ensures
            r == self@.used.contains(idx as int),
    {
        self.used_mask & (1u64 << idx as u64) != 0
    }

    /// The bucket of bin `i`, if it holds a block.
    pub fn get(&self, i: usize) -> (r: Option<Bucket<MIN>>)
        requires
            self.wf(),
        ensures
            r is Some <==> occ(self@.bins, i as int),
            r matches Some(b) ==> b.word() == self.words()[i as int],
    {
        if i >= DEPTH {
            return None;
        }
        let b = self.bins[i];
        if b.is_empty() {
            None
        } else {
            Some(b)
        }
    }

    /// The bucket of bin `i`, empty or not.
    pub fn bucket_at(&self, i: usize) -> (r: Bucket<MIN>)
        requires
            self.wf(),
            i < 64,
        ensures
            r.word() == self.words()[i as int],
            packed_block(r.word()) == self@.bins[i as int],
    {
        self.bins[i]
    }

    /// The bucket of an occupied bin holds its block, which fits in the
    /// allocator.
    proof fn lemma_block_fits(&self, i: int)
        requires
            self.wf(),
            occ(self@.bins, i),
        ensures
            self.bins@[i].word() % 65536 == i,
            self.bins@[i].word() / 65536 == blk(self@.bins, i).1,
            i < self.bins@[i].word() / 65536 <= 64,
            (self.bins@[i].word() / 65536 - i) * MIN <= 64 * MIN,
            64 * MIN <= usize::MAX,
            block_ok(blk(self@.bins, i), i, 64),
    {
        assert(block_ok(blk(self@.bins, i), i, 64));
        let e = self.bins@[i].word() / 65536;
        assert((e - i) * MIN <= 64 * MIN) by (nonlinear_arith)
            requires
                e - i <= 64,
        ;
    }

    proof fn lemma_view_put(old: Self, new: Self, i: int, b: Bucket<MIN>)
        requires
            old.bins@.len() == 64,
            0 <= i < 64,
            new.bins@ == old.bins@.update(i, b),
            new.used_mask == old.used_mask,
            new.start == old.start,
        ensures
            new@ == (BuddyView { bins: old@.bins.update(i, packed_block(b.word())), ..old@ }),
    {
        assert(new@.bins =~= old@.bins.update(i, packed_block(b.word())));
        assert(new@.used =~= old@.used);
    }

    /// Replaces the bucket of bin `i`.
    fn put(&mut self, i: usize, b: Bucket<MIN>)
        requires
            old(self).bins@.len() == 64,
            i < 64,
        ensures
            final(self).bins@ == old(self).bins@.update(i as int, b),
            final(self).used_mask == old(self).used_mask,
            final(self).start == old(self).start,
            final(self)@ == (BuddyView {
                bins: old(self)@.bins.update(i as int, packed_block(b.word())),
                ..old(self)@
            }),
    {
        let ghost o = *self;
        self.bins.set(i, b);
        proof {
            Self::lemma_view_put(o, *self, i as int, b);
        }
    }

    /// Marks slot `idx` as in use.
    fn mark_used(&mut self, idx: usize)
        requires
            idx < 64,
        ensures
            final(self)@ == (BuddyView {
                used: old(self)@.used.insert(idx as int),
                flagged: old(self)@.used.insert(idx as int),
                ..old(self)@
            }),
            final(self).bins == old(self).bins,
    {
        let ghost m = self.used_mask;
        self.used_mask = self.used_mask | (1u64 << idx as u64);
        proof {
            crate::bits::lemma_bit64_set(m, idx as u64);
            assert forall|k: int| 0 <= k < 64 implies bit64(self.used_mask, k) == (k == idx || bit64(m, k)) by {
                assert(bit64(self.used_mask, (k as u64) as int) == (k as u64 == idx as u64 || bit64(m, (k as u64) as int)));
            }
            assert(self@.used =~= old(self)@.used.insert(idx as int));
            assert(self@.bins =~= old(self)@.bins);
        }
    }

    /// Marks slot `idx` as not in use.
    fn mark_unused(&mut self, idx: usize)
        requires
            idx < 64,
        ensures
            final(self)@ == (BuddyView {
                used: old(self)@.used.remove(idx as int),
                flagged: old(self)@.used.remove(idx as int),
                ..old(self)@
            }),
            final(self).bins == old(self).bins,
    {
        let ghost m = self.used_mask;
        self.used_mask = self.used_mask & !(1u64 << idx as u64);
        proof {
            crate::bits::lemma_bit64_clear(m, idx as u64);
            assert forall|k: int| 0 <= k < 64 implies bit64(self.used_mask, k) == (k != idx && bit64(m, k)) by {
                assert(bit64(self.used_mask, (k as u64) as int) == (k as u64 != idx as u64 && bit64(m, (k as u64) as int)));
            }
            assert(self@.used =~= old(self)@.used.remove(idx as int));
            assert(self@.bins =~= old(self)@.bins);
        }
    }

    /// Bin `idx` can serve a request of `l` bytes.
    fn available_for(&self, idx: usize, l: usize) -> (r: bool)
        requires
            self.wf(),
            idx < 64,
        ensures
            r == available(self@, idx as int, l as int, MIN as int),
    {
        match self.get(idx) {
            Some(bin) => {
                proof {
                    self.lemma_block_fits(idx as int);
                }
                l <= bin.size_bytes() && !self.is_used(idx)
            },
            None => false,
        }
    }

    /// Address of the first slot of `range`.
    fn addr_for(&self, range: Range<usize>) -> (r: u64)
        requires
            self.wf(),
            range.start < 64,
            self@.base + 64 * MIN <= u64::MAX,
        ensures
            r == self@.base + range.start * MIN,
    {
        let start = range.start;
        assert(start * MIN < 64 * MIN) by (nonlinear_arith)
            requires
                start < 64,
                MIN > 0,
        ;
        self.start.addr + (start * MIN) as u64
    }

    /// The slot range a block merges with: the other half of their parent.
    pub fn buddy_of(range: Range<usize>) -> (r: Range<usize>)
        requires
            range.start < range.end,
            (range.start as int / (range.end - range.start)) % 2 == 0 ==> range.end + (range.end
                - range.start) <= usize::MAX,
        ensures
            (r.start as int, r.end as int) == buddy((range.start as int, range.end as int)),
    {
        let diff = range.end - range.start;
        if (range.start / diff) % 2 == 0 {
            range.end..(range.end + diff)
        } else {
            proof {
                vstd::arithmetic::div_mod::lemma_fundamental_div_mod(range.start as int, diff as int);
                let q = range.start as int / diff as int;
                assert(diff * q >= diff) by (nonlinear_arith)
                    requires
                        q >= 1,
                        diff > 0,
                ;
            }
            (range.start - diff)..range.start
        }
    }

    /// The slot range is the right half of its parent.
    pub fn is_right(range: Range<usize>) -> (r: bool)
        requires
            range.start < range.end,
        ensures
            r == is_right((range.start as int, range.end as int)),
    {
        (range.start / (range.end - range.start)) % 2 != 0
    }
}

impl<const MIN: usize> BuddyAllocator<MIN> {
    /// Splits the block of bin `idx` into its two halves, in use or not, and
    /// returns the bins of the halves; `None`, with nothing changed, when the
    /// bin holds no block of more than one slot.
    #[verifier::spinoff_prover]
    #[verifier::rlimit(50)]
    fn split_at_unchecked(&mut self, idx: usize) -> (r: Option<(usize, usize)>)
        requires
            old(self).wf(),
            idx < 64,
        ensures
            final(self).wf(),
            ({
                let v = old(self)@;
                let i = idx as int;
                let can = occ(v.bins, i) && bsz(v.bins, i) >= 2;
                &&& can ==> r == Some((idx, (i + bsz(v.bins, i) / 2) as usize)) && final(self)@
                    == BuddyView { bins: split_at(v.bins, i), ..v }
                &&& !can ==> r is None && final(self)@ == v
            }),
    {
        let b = match self.get(idx) {
            None => {
                return None;
            },
            Some(b) => b,
        };
        proof {
            self.lemma_block_fits(idx as int);
            let e = self.bins@[idx as int].word() / 65536;
            assert(((e - idx) * MIN <= MIN) == (e - idx <= 1)) by (nonlinear_arith)
                requires
                    MIN > 0,
                    e - idx >= 1,
            ;
        }
        if b.size() <= MIN {
            return None;
        }
        let ghost v = self@;
        let ghost i = idx as int;
        let mut bin = self.bins[idx];
        let taken = bin.take();
        let whole = taken.unwrap();
        let (left, right) = whole.split();
        proof {
            lemma_split_partitioned(v.bins, i, 64);
            let s0 = whole.word() % 65536;
            let e0 = whole.word() / 65536;
            let m = s0 + (e0 - s0) / 2;
            lemma_pack(s0 as int, m);
            lemma_pack(m, e0 as int);
        }
        let (lstart, rstart) = (left.start(), right.start());
        self.put(lstart, left);
        self.put(rstart, right);
        proof {
            let h = bsize(blk(v.bins, i)) / 2;
            crate::kalloc::model::lemma_split_pointwise(v.bins, i);
            assert(self@.bins =~= split_at(v.bins, i));
            assert forall|k: int| 0 <= k < 64 && #[trigger] self@.used.contains(k) implies occ(
                self@.bins,
                k,
            ) by {
                assert(occ(v.bins, k));
                assert(k != i + h);
            }
        }
        Some((lstart, rstart))
    }

    /// Splits the free block of bin `idx` into its two halves; `None`, with
    /// nothing changed, when the slot is in use or the bin holds no block of
    /// more than one slot.
    fn split_at(&mut self, idx: usize) -> (r: Option<(usize, usize)>)
        requires
            old(self).wf(),
            idx < 64,
        ensures
            final(self).wf(),
            ({
                let v = old(self)@;
                let i = idx as int;
                let can = occ(v.bins, i) && !v.used.contains(i) && bsz(v.bins, i) >= 2;
                &&& can ==> r == Some((idx, (i + bsz(v.bins, i) / 2) as usize)) && final(self)@
                    == BuddyView { bins: split_at(v.bins, i), ..v }
                &&& !can ==> r is None && final(self)@ == v
            }),
    {
        if self.is_used(idx) {
            return None;
        }
        self.split_at_unchecked(idx)
    }

    /// The slot `ptr` falls in, and its bucket when it holds a block.
    fn bin_for(&self, ptr: u64) -> (r: (usize, Option<Bucket<MIN>>))
        requires
            self.wf(),
            self@.base <= ptr,
        ensures
            r.0 as int == slot_of(self@, ptr as int, MIN as int) || slot_of(self@, ptr as int, MIN as int) >= 64,
            r.1 is Some <==> (slot_of(self@, ptr as int, MIN as int) < 64 && occ(
                self@.bins,
                slot_of(self@, ptr as int, MIN as int),
            )),
            r.1 matches Some(b) ==> b.word() == self.words()[r.0 as int] && r.0 < 64,
    {
        let slot = (ptr - self.start.addr) / (MIN as u64);
        if slot >= 64 {
            return (DEPTH, None);
        }
        let idx = slot as usize;
        (idx, self.get(idx))
    }

    /// The block of bin `index` and its buddy `buddy_range` can be merged:
    /// the buddy lies in the allocator, holds a block of the same length and
    /// is not in use.
    #[verifier::spinoff_prover]
    #[verifier::rlimit(40)]
    fn mergeable(&self, index: usize, buddy_range: &Range<usize>) -> (r: bool)
        requires
            self.wf(),
            index < 64,
            occ(self@.bins, index as int),
            (buddy_range.start as int, buddy_range.end as int) == buddy(blk(self@.bins, index as int)),
        ensures
            r == can_merge(self@.bins, self@.used, index as int, 64),
    {
        proof {
            let c = buddy(blk(self@.bins, index as int)).0;
            self.lemma_block_fits(index as int);
            if 0 <= c < 64 {
                if occ(self@.bins, c) {
                    self.lemma_block_fits(c);
                    lemma_buddy_check(
                        self@.bins,
                        self@.used,
                        self@.used,
                        index as int,
                        (self.bins@[c].word() / 65536) as int,
                        (self.bins@[c].word() % 65536) as int,
                        MIN as int,
                        64,
                    );
                } else {
                    lemma_buddy_check(self@.bins, self@.used, self@.used, index as int, 0, 0, MIN as int, 64);
                }
            } else {
                lemma_buddy_check(self@.bins, self@.used, self@.used, index as int, 0, 0, MIN as int, 64);
            }
        }
        if buddy_range.start >= DEPTH {
            return false;
        }
        let bin_size = self.get(index).unwrap().size();
        let same = match self.get(buddy_range.start) {
            Some(b) => {
                proof {
                    self.lemma_block_fits(buddy_range.start as int);
                }
                b.size() == bin_size
            },
            None => false,
        };
        proof {
            let c = buddy_range.start as int;
            let e = self.bins@[index as int].word() / 65536;
            if occ(self@.bins, c) {
                let f = self.bins@[c].word() / 65536;
                assert(((e - index) * MIN == (f - c) * MIN) == (e - index == f - c)) by (nonlinear_arith)
                    requires
                        MIN > 0,
                ;
            } else {
                assert((e - index) * MIN != 0) by (nonlinear_arith)
                    requires
                        MIN > 0,
                        e - index > 0,
                ;
            }
        }
        same && !self.is_used(buddy_range.start)
    }

    /// Hands out the first free block that can hold `l` bytes, split down to
    /// the smallest block of at least `8 * l` units (one slot at the least),
    /// and returns its address and its length in bytes.
    #[verifier::spinoff_prover]
    #[verifier::rlimit(50)]
    pub fn allocate(&mut self, l: usize) -> (r: Result<(u64, usize), AllocError>)
        requires
            old(self).wf(),
            8 * next_pow2(l as int) <= usize::MAX,
            old(self)@.base + 64 * MIN <= u64::MAX,
        ensures
            final(self).wf(),
            final(self)@ == allocate_spec(old(self)@, l as int, MIN as int).0,
            allocate_spec(old(self)@, l as int, MIN as int).1 == (match r {
                Ok(p) => Some((p.0 as int, p.1 as int)),
                Err(_) => None,
            }),
    {
        let size = request_size(l, MIN);
        if !self.have_buckets_for(size) {
            return Err(AllocError);
        }
        let ghost step = size as int / MIN as int;
        proof {
            assert(step >= 1) by (nonlinear_arith)
                requires
                    step == size / MIN,
                    MIN <= size,
                    MIN > 0,
            ;
        }
        let slots = slot_range::<MIN>(size);
        let mut k: usize = 0;
        let mut found: Option<usize> = None;
        while k < slots.len()
            invariant_except_break
                found is None,
            invariant
                self.wf(),
                self == old(self),
                step == size / MIN,
                step >= 1,
                slots@.len() == (63 + step) / step,
                forall|j: int| 0 <= j < slots@.len() ==> #[trigger] slots@[j] == j * step,
                k <= slots@.len(),
                first_available(self@, l as int, MIN as int, 0, step, 64) == first_available(
                    self@,
                    l as int,
                    MIN as int,
                    k * step,
                    step,
                    64,
                ),
            ensures
                found matches Some(i) ==> i < 64 && first_available(self@, l as int, MIN as int, 0, step, 64)
                    == Some(i as int),
                found is None ==> k == slots@.len(),
            decreases slots@.len() - k,
        {
            let i = slots[k];
            proof {
                assert(k * step < 64) by (nonlinear_arith)
                    requires
                        k < (63 + step) / step,
                        step >= 1,
                {
                    vstd::arithmetic::div_mod::lemma_fundamental_div_mod(63 + step, step);
                }
            }
            if self.available_for(i, l) {
                found = Some(i);
                break;
            }
            proof {
                assert((k + 1) * step == k * step + step) by (nonlinear_arith);
            }
            k = k + 1;
        }
        match found {
            Some(i) => {
                let ghost v = self@;
                proof {
                    lemma_first_available(v, l as int, MIN as int, 0, step, 64);
                }
                let mut bin = self.get(i).unwrap();
                loop
                    invariant
                        self.wf(),
                        v == old(self)@,
                        i < 64,
                        MIN <= size,
                        size == req_size(l as int, MIN as int),
                        !v.used.contains(i as int),
                        occ(self@.bins, i as int),
                        bin.word() == self.words()[i as int],
                        self@.used == v.used,
                        self@.base == v.base,
                        self@.flagged == v.flagged,
                        alloc_down(self@.bins, i as int, size as int, MIN as int) == alloc_down(
                            v.bins,
                            i as int,
                            size as int,
                            MIN as int,
                        ),
                    ensures
                        !splits(self@.bins, i as int, size as int, MIN as int),
                    decreases bsz(self@.bins, i as int),
                {
                    proof {
                        self.lemma_block_fits(i as int);
                    }
                    if !(size <= bin.size() / 2) {
                        break;
                    }
                    proof {
                        let e = self.bins@[i as int].word() / 65536;
                        assert(e - i >= 2) by (nonlinear_arith)
                            requires
                                MIN > 0,
                                MIN <= size,
                                size <= ((e - i) * MIN) / 2,
                                e - i >= 1,
                        ;
                        lemma_split_partitioned(self@.bins, i as int, 64);
                    }
                    let start = match self.split_at(bin.start()) {
                        Some(p) => p.0,
                        None => {
                            return Err(AllocError);
                        },
                    };
                    bin = match self.get(start) {
                        Some(b) => b,
                        None => {
                            return Err(AllocError);
                        },
                    };
                }
                proof {
                    assert(self@.bins == alloc_down(self@.bins, i as int, size as int, MIN as int));
                    lemma_alloc_down(v.bins, v.used, i as int, size as int, MIN as int, 64);
                }
                self.mark_used(i);
                proof {
                    assert forall|k: int| 0 <= k < 64 && #[trigger] self@.used.contains(k) implies occ(
                        self@.bins,
                        k,
                    ) by {
                        if k != i {
                            assert(v.used.contains(k));
                        }
                    }
                    self.lemma_block_fits(i as int);
                }
                let range = bin.range();
                let len = bin.size_bytes();
                Ok((self.addr_for(range), len))
            },
            None => {
                proof {
                    assert(first_available(self@, l as int, MIN as int, k * step, step, 64) is None) by {
                        vstd::arithmetic::div_mod::lemma_fundamental_div_mod(63 + step, step);
                        assert(k * step >= 64) by (nonlinear_arith)
                            requires
                                k == (63 + step) / step,
                                63 + step == step * ((63 + step) / step) + (63 + step) % step,
                                (63 + step) % step < step,
                                step >= 1,
                        ;
                    }
                }
                Err(AllocError)
            },
        }
    }
}

impl<const MIN: usize> BuddyAllocator<MIN> {
    /// Merges the block of bin `index` with its free buddy `buddy_range` and
    /// returns the bin of the merged block.
    #[verifier::spinoff_prover]
    #[verifier::rlimit(50)]
    fn merge_with(&mut self, index: usize, buddy_range: &Range<usize>) -> (r: usize)
        requires
            old(self).wf(),
            index < 64,
            can_merge(old(self)@.bins, old(self)@.used, index as int, 64),
            (buddy_range.start as int, buddy_range.end as int) == buddy(
                blk(old(self)@.bins, index as int),
            ),
            old(self)@.used.contains(index as int) ==> parent_start(old(self)@.bins, index as int)
                == index,
        ensures
            final(self).wf(),
            r == parent_start(old(self)@.bins, index as int),
            final(self)@ == (BuddyView { bins: merge_at(old(self)@.bins, index as int), ..old(self)@ }),
    {
        let ghost v = self@;
        let ghost i = index as int;
        let c = buddy_range.start;
        proof {
            self.lemma_block_fits(i);
            self.lemma_block_fits(c as int);
            lemma_merge_partitioned(v.bins, v.used, i, 64);
        }
        let mut b = self.bins[c];
        let buddy = b.take().unwrap();
        self.put(c, b);
        let mut a = self.bins[index];
        let bin = a.take().unwrap();
        self.put(index, a);
        let new = bin.merge(buddy);
        proof {
            let s = if bin.word() % 65536 < buddy.word() % 65536 {
                bin.word() % 65536
            } else {
                buddy.word() % 65536
            };
            let e = if bin.word() / 65536 < buddy.word() / 65536 {
                buddy.word() / 65536
            } else {
                bin.word() / 65536
            };
            lemma_pack(s as int, e as int);
        }
        let lo = new.range().start;
        self.put(lo, new);
        proof {
            assert(self@.bins =~= merge_at(v.bins, i));
            assert forall|k: int| 0 <= k < 64 && #[trigger] self@.used.contains(k) implies occ(
                self@.bins,
                k,
            ) by {
                assert(occ(v.bins, k));
                if k == i {
                    assert(lo == i);
                }
            }
        }
        lo
    }

    /// Gives back the block at `ptr`, which was handed out for `l` bytes,
    /// and merges it upwards with its free buddies for as long as they allow.
    pub fn deallocate(&mut self, ptr: u64, l: usize)
        requires
            old(self).wf(),
            old(self)@.base <= ptr,
            holds_block(old(self)@, ptr as int, l as int, MIN as int, 64),
        ensures
            final(self).wf(),
            final(self)@ == deallocate_spec(old(self)@, ptr as int, MIN as int, 64),
    {
        let (idx, bin) = self.bin_for(ptr);
        let bin = bin.unwrap();
        proof {
            self.lemma_block_fits(idx as int);
        }
        let range = bin.range();
        let mut index = range.start;
        self.mark_unused(index);
        let ghost u = self@;
        proof {
            assert forall|k: int| 0 <= k < 64 && #[trigger] u.used.contains(k) implies occ(u.bins, k) by {
                assert(old(self)@.used.contains(k));
            }
            crate::kalloc::model::lemma_buddy_right(idx as int, bsize(blk(u.bins, idx as int)));
        }
        let mut buddy_range = Self::buddy_of(range);
        loop
            invariant
                self.wf(),
                u == (BuddyView {
                    used: old(self)@.used.remove(idx as int),
                    flagged: old(self)@.used.remove(idx as int),
                    ..old(self)@
                }),
                idx == slot_of(old(self)@, ptr as int, MIN as int),
                index < 64,
                occ(self@.bins, index as int),
                !self@.used.contains(index as int),
                self@.used == u.used,
                self@.base == u.base,
                (buddy_range.start as int, buddy_range.end as int) == buddy(
                    blk(self@.bins, index as int),
                ),
                crate::kalloc::model::merge_up(self@.bins, u.used, index as int, 64)
                    == crate::kalloc::model::merge_up(u.bins, u.used, idx as int, 64),
            decreases 64 - bsz(self@.bins, index as int),
        {
            if !self.mergeable(index, &buddy_range) {
                return;
            }
            let ghost before = self@;
            let lo = self.merge_with(index, &buddy_range);
            proof {
                lemma_merge_partitioned(before.bins, before.used, index as int, 64);
                self.lemma_block_fits(lo as int);
                crate::kalloc::model::lemma_buddy_right(lo as int, bsize(blk(self@.bins, lo as int)));
            }
            index = lo;
            let b = self.bins[index];
            proof {
                lemma_pack(index as int, blk(self@.bins, index as int).1);
            }
            buddy_range = Self::buddy_of(b.range());
        }
    }

    /// Grows the block at `ptr`, handed out for `old_l` bytes, to `new_l`
    /// bytes: in place when its buddy follows it and is a free block of its
    /// size, else by allocating a new block and giving the old one back;
    /// returns the block that now holds the contents, the length asked for
    /// or handed out, and, where the block moved, the copy of its `old_l`
    /// bytes to the new block that the caller must make.
    #[verifier::spinoff_prover]
    #[verifier::rlimit(50)]
    pub fn grow(&mut self, ptr: u64, old_l: usize, new_l: usize) -> (r: Result<(u64, usize, Option<CopyStep>), AllocError>)
        requires
            old(self).wf(),
            old_l <= new_l,
            old(self)@.base <= ptr,
            new_l <= 64 * MIN && new_l != old_l ==> {
                let v = old(self)@;
                let i = slot_of(v, ptr as int, MIN as int);
                let c = buddy(blk(v.bins, i));
                &&& holds_block(v, ptr as int, old_l as int, MIN as int, 64)
                &&& v.used.contains(i)
                &&& is_right(c) ==> c.0 < 64
                &&& 8 * next_pow2(new_l as int) <= usize::MAX
                &&& v.base + 64 * MIN <= u64::MAX
            },
        ensures
            final(self).wf(),
            final(self)@ == grow_outcome(old(self)@, ptr as int, old_l as int, new_l as int, MIN as int).0,
            grow_outcome(old(self)@, ptr as int, old_l as int, new_l as int, MIN as int).1 == (match r {
                Ok(p) => Some((p.0 as int, p.1 as int)),
                Err(_) => None,
            }),
            r matches Ok(p) ==> p.2 == (if grow_moves(old(self)@, ptr as int, old_l as int, new_l as int, MIN as int) {
                Some(CopyStep { from: ptr, to: p.0, len: old_l })
            } else {
                None
            }),
    {
        if new_l > DEPTH * MIN {
            return Err(AllocError);
        }
        if new_l == old_l {
            return Ok((ptr, new_l, None));
        }
        let ghost v = self@;
        let (idx, bin) = self.bin_for(ptr);
        let bin = bin.unwrap();
        proof {
            self.lemma_block_fits(idx as int);
        }
        let range = bin.range();
        let index = range.start;
        let buddy_range = Self::buddy_of(range);
        proof {
            let s = bsize(blk(v.bins, index as int));
            crate::kalloc::model::lemma_buddy_right(index as int, s);
            if 2 * s <= 64 {
                crate::kalloc::model::lemma_buddy_facts(index as int, s, 64);
            }
        }
        if Self::is_right(buddy_range.start..buddy_range.end) && self.mergeable(index, &buddy_range) {
            self.merge_with(index, &buddy_range);
            return Ok((ptr, new_l, None));
        }
        let new_ptr = match self.allocate(new_l) {
            Ok(p) => p,
            Err(e) => {
                return Err(e);
            },
        };
        proof {
            if have_buckets(v.used, req_size(new_l as int, MIN as int) / MIN as int) {
                lemma_serve_keeps_used(
                    v,
                    new_l as int,
                    MIN as int,
                    req_size(new_l as int, MIN as int) / MIN as int,
                    64,
                    idx as int,
                );
            }
        }
        self.deallocate(ptr, old_l);
        Ok((new_ptr.0, new_ptr.1, Some(CopyStep { from: ptr, to: new_ptr.0, len: old_l })))
    }

    /// Shrinks the block at `ptr`, handed out for `old_l` bytes, to `new_l`
    /// bytes by splitting it down as an allocation of `new_l` bytes would
    /// be, and marks its slot in use; a block of one slot is left as it is.
    /// Returns the block and its length in bytes.
    #[verifier::spinoff_prover]
    #[verifier::rlimit(50)]
    pub fn shrink(&mut self, ptr: u64, old_l: usize, new_l: usize) -> (r: Result<(u64, usize), AllocError>)
        requires
            old(self).wf(),
            new_l <= old_l,
            old(self)@.base <= ptr,
            holds_block(old(self)@, ptr as int, old_l as int, MIN as int, 64),
            bsz(old(self)@.bins, slot_of(old(self)@, ptr as int, MIN as int)) > 1 ==> 8 * next_pow2(
                new_l as int,
            ) <= usize::MAX && old(self)@.base + 64 * MIN <= u64::MAX,
        ensures
            final(self).wf(),
            final(self)@ == shrink_outcome(old(self)@, ptr as int, new_l as int, MIN as int).0,
            r matches Ok(p) && shrink_outcome(old(self)@, ptr as int, new_l as int, MIN as int).1 == Some(
                (p.0 as int, p.1 as int),
            ),
            r matches Ok(p) ==> p.1 == (bsz(final(self)@.bins, slot_of(final(self)@, p.0 as int, MIN as int)) * MIN) / 8,
    {
        proof {
            lemma_shrink_length(self@, ptr as int, new_l as int, MIN as int);
        }
        let ghost v = self@;
        let (idx, bin) = self.bin_for(ptr);
        let mut bin = bin.unwrap();
        proof {
            self.lemma_block_fits(idx as int);
            let e = self.bins@[idx as int].word() / 65536;
            assert(((e - idx) * MIN == MIN) == (e - idx == 1)) by (nonlinear_arith)
                requires
                    MIN > 0,
            ;
        }
        if bin.size() == MIN {
            return Ok((ptr, bin.size_bytes()));
        }
        let i = bin.range().start;
        let size = request_size(new_l, MIN);
        loop
            invariant
                self.wf(),
                v == old(self)@,
                i == idx,
                i < 64,
                MIN <= size,
                size == req_size(new_l as int, MIN as int),
                occ(self@.bins, i as int),
                bin.word() == self.words()[i as int],
                self@.used == v.used,
                self@.base == v.base,
                self@.flagged == v.flagged,
                alloc_down(self@.bins, i as int, size as int, MIN as int) == alloc_down(
                    v.bins,
                    i as int,
                    size as int,
                    MIN as int,
                ),
            ensures
                !splits(self@.bins, i as int, size as int, MIN as int),
            decreases bsz(self@.bins, i as int),
        {
            proof {
                self.lemma_block_fits(i as int);
            }
            if !(size <= bin.size() / 2) {
                break;
            }
            proof {
                let e = self.bins@[i as int].word() / 65536;
                assert(e - i >= 2) by (nonlinear_arith)
                    requires
                        MIN > 0,
                        MIN <= size,
                        size <= ((e - i) * MIN) / 2,
                        e - i >= 1,
                ;
                lemma_split_partitioned(self@.bins, i as int, 64);
            }
            let start = self.split_at_unchecked(bin.start()).unwrap().0;
            bin = match self.get(start) {
                Some(b) => b,
                None => {
                    return Err(AllocError);
                },
            };
        }
        proof {
            assert(self@.bins == alloc_down(self@.bins, i as int, size as int, MIN as int));
            lemma_alloc_down(v.bins, v.used, i as int, size as int, MIN as int, 64);
        }
        self.mark_used(i);
        proof {
            self.lemma_block_fits(i as int);
        }
        let range = bin.range();
        let len = bin.size_bytes();
        Ok((self.addr_for(range), len))
    }
}

} // verus!
