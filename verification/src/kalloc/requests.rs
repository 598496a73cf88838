//! Requests to a buddy allocator, stated over the model of its bins: which
//! bin serves a request, how its block is split down, and what giving a
//! block back does.
use vstd::prelude::*;

use crate::bits::{is_pow2, lemma_next_pow2_from, lemma_pow2_div, lemma_pow2_double, next_pow2, next_pow2_from};
use crate::kalloc::model::{
    lemma_alloc_down_stops,
    alloc_down, blk, block_ok, bsize, bsz, buddy, can_merge, lemma_alloc_down, lemma_alloc_down_keeps_merged,
    lemma_merge_up, lemma_merge_up_keeps_merged,
    lemma_alloc_down_size, lemma_buddy_facts, lemma_merge_up_alloc_down, merge_up, merged, occ,
    partitioned, pow2_upto64, used_ok, Bins,
};

verus! {

/// What a buddy allocator is: its blocks, the slots in use, the slots that
/// are not offered to requests, and its base address.
pub ghost struct BuddyView {
    pub bins: Bins,
    pub used: Set<int>,
    pub flagged: Set<int>,
    pub base: int,
}

/// Units a request of `l` bytes is rounded to: eight times the next power of
/// two, and at least one slot.
pub open spec fn req_size(l: int, min: int) -> int {
    if 8 * next_pow2(l) < min {
        min
    } else {
        8 * next_pow2(l)
    }
}

/// Bin `i` can serve a request of `l` bytes: it holds a block of at least `l`
/// bytes and is offered to requests.
pub open spec fn available(v: BuddyView, i: int, l: int, min: int) -> bool {
    &&& occ(v.bins, i)
    &&& l <= (bsz(v.bins, i) * min) / 8
    &&& !v.flagged.contains(i)
}

/// The first bin among `from, from + step, ...` below `d` that can serve a
/// request of `l` bytes.
pub open spec fn first_available(v: BuddyView, l: int, min: int, from: int, step: int, d: int) -> Option<int>
    decreases (if from < d {
        d - from
    } else {
        0
    }),
{
    if from < 0 || from >= d || step <= 0 {
        None
    } else if available(v, from, l, min) {
        Some(from)
    } else {
        first_available(v, l, min, from + step, step, d)
    }
}

/// The bin found by `first_available` can serve the request.
pub proof fn lemma_first_available(v: BuddyView, l: int, min: int, from: int, step: int, d: int)
    ensures
        first_available(v, l, min, from, step, d) matches Some(k) ==> from <= k < d && available(
            v,
            k,
            l,
            min,
        ),
    decreases (if from < d {
        d - from
    } else {
        0
    }),
{
    if !(from < 0 || from >= d || step <= 0) && !available(v, from, l, min) {
        lemma_first_available(v, l, min, from + step, step, d);
    }
}

/// The block of bin `i` is to be split to serve `size` units.
pub open spec fn splits(bins: Bins, i: int, size: int, min: int) -> bool {
    &&& occ(bins, i)
    &&& blk(bins, i).0 == i
    &&& blk(bins, i).1 <= bins.len()
    &&& bsize(blk(bins, i)) >= 2
    &&& size <= (bsize(blk(bins, i)) * min) / 2
}

/// Serving a request of `l` bytes by the first bin among `0, step, ...` that
/// can serve it: its block is split down to the request and handed out. The
/// request fails when no bin can serve it, or when the bin found is in use
/// and would have to be split.
pub open spec fn serve(v: BuddyView, l: int, min: int, step: int, d: int) -> (BuddyView, Option<(int, int)>) {
    let size = req_size(l, min);
    match first_available(v, l, min, 0, step, d) {
        None => (v, None),
        Some(i) => if v.used.contains(i) && splits(v.bins, i, size, min) {
            (v, None)
        } else {
            let nb = alloc_down(v.bins, i, size, min);
            (
                BuddyView { bins: nb, used: v.used.insert(i), flagged: v.flagged.insert(i), base: v.base },
                Some((v.base + i * min, (bsz(nb, i) * min) / 8)),
            )
        },
    }
}

/// The bin a served request is carved from.
pub open spec fn chosen_slot(v: BuddyView, l: int, min: int, step: int, d: int) -> int {
    first_available(v, l, min, 0, step, d)->0
}

/// The slot an address falls in.
pub open spec fn slot_of(v: BuddyView, addr: int, min: int) -> int {
    (addr - v.base) / min
}

/// The allocator after the block of bin `i` is given back: its slot is no
/// longer in use and the block merges with its free buddies.
pub open spec fn free_slot(v: BuddyView, i: int, d: int) -> BuddyView {
    let used = v.used.remove(i);
    BuddyView { bins: merge_up(v.bins, used, i, d), used, flagged: v.flagged.remove(i), base: v.base }
}

/// The allocator after the block at `addr` is given back.
pub open spec fn deallocate_spec(v: BuddyView, addr: int, min: int, d: int) -> BuddyView {
    free_slot(v, slot_of(v, addr, min), d)
}

/// A served request leaves every block that is in use as it was.
pub proof fn lemma_serve_keeps_used(v: BuddyView, l: int, min: int, step: int, d: int, i: int)
    requires
        partitioned(v.bins, d),
        used_ok(v.bins, v.used, d),
        min > 0,
        v.used.contains(i),
        0 <= i < d,
    ensures
        serve(v, l, min, step, d).1 is Some ==> serve(v, l, min, step, d).0.bins[i] == v.bins[i],
{
    let size = req_size(l, min);
    if serve(v, l, min, step, d).1 is Some {
        lemma_first_available(v, l, min, 0, step, d);
        let j = chosen_slot(v, l, min, step, d);
        lemma_alloc_down(v.bins, v.used, j, size, min, d);
        if j != i {
            assert(occ(v.bins, i));
            assert(!(j < i < blk(v.bins, j).1));
        } else {
            assert(!splits(v.bins, i, size, min));
        }
    }
}

/// A served request of `l` bytes gets a block of at least `l` bytes that
/// starts at the slot it was carved from, which is in use afterwards, and
/// the allocator stays a partition whose slots in use hold blocks.
pub proof fn lemma_serve_fits(v: BuddyView, l: int, min: int, step: int, d: int)
    requires
        partitioned(v.bins, d),
        used_ok(v.bins, v.used, d),
        min > 0,
        l >= 0,
    ensures
        serve(v, l, min, step, d).1 matches Some(p) ==> {
            let i = chosen_slot(v, l, min, step, d);
            let w = serve(v, l, min, step, d).0;
            &&& p.1 >= l
            &&& p.0 == v.base + i * min
            &&& 0 <= i < d
            &&& w.used.contains(i)
            &&& occ(w.bins, i)
            &&& p.1 == (bsz(w.bins, i) * min) / 8
            &&& partitioned(w.bins, d)
            &&& used_ok(w.bins, w.used, d)
        },
{
    let size = req_size(l, min);
    if serve(v, l, min, step, d).1 is Some {
        lemma_first_available(v, l, min, 0, step, d);
        let i = chosen_slot(v, l, min, step, d);
        lemma_alloc_down(v.bins, v.used, i, size, min, d);
        lemma_alloc_down_size(v.bins, i, size, min, d);
        crate::bits::lemma_next_pow2_from(1, l);
        let nb = alloc_down(v.bins, i, size, min);
        if bsz(nb, i) * min >= size {
            assert((bsz(nb, i) * min) / 8 >= l) by (nonlinear_arith)
                requires
                    bsz(nb, i) * min >= size,
                    size >= 8 * l,
            ;
        }
        let w = serve(v, l, min, step, d).0;
        assert forall|k: int| 0 <= k < d && #[trigger] w.used.contains(k) implies occ(w.bins, k) by {
            if k != i {
                assert(v.used.contains(k));
            }
        }
    }
}

/// In a settled allocator, a served request of `l` bytes gets the block at
/// a slot that was free: it lies in the allocator, is at least `l` bytes
/// long and is exactly the block then held at that slot, and that slot is
/// the one more slot in use; the allocator stays settled.
pub proof fn lemma_allocate_law(v: BuddyView, l: int, min: int)
    requires
        settled(v, 64),
        min > 0,
        l >= 0,
    ensures
        allocate_spec(v, l, min).1 matches Some(p) ==> {
            let i = chosen_slot(v, l, min, req_size(l, min) / min, 64);
            let w = allocate_spec(v, l, min).0;
            &&& 0 <= i < 64
            &&& p.0 == v.base + i * min
            &&& !v.used.contains(i)
            &&& w.used == v.used.insert(i)
            &&& p.1 >= l
            &&& p.1 == (bsz(w.bins, i) * min) / 8
            &&& settled(w, 64)
        },
{
    lemma_allocate_fits(v, l, min);
    lemma_allocate_keeps_settled(v, l, min);
    lemma_first_available(v, l, min, 0, req_size(l, min) / min, 64);
}

/// A power of two times a block length is a power of two.
proof fn lemma_pow2_scaled(s: int, m: int)
    requires
        pow2_upto64(s),
        is_pow2(m),
    ensures
        is_pow2(s * m),
    decreases s,
{
    if s > 1 {
        lemma_pow2_scaled(s / 2, m);
        lemma_pow2_double((s / 2) * m);
        assert(s * m == 2 * ((s / 2) * m)) by (nonlinear_arith)
            requires
                s == 2 * (s / 2),
        ;
    }
}

/// The least power of two from `p` on that reaches `l` is at most any power
/// of two from `p` on that reaches it.
proof fn lemma_next_pow2_least(p: int, l: int, q: int)
    requires
        is_pow2(p),
        is_pow2(q),
        p <= q,
        l <= q,
    ensures
        next_pow2_from(p, l) <= q,
    decreases q - p,
{
    if p < l {
        lemma_pow2_div(q, p);
        let k = q / p;
        assert(k * p == q);
        assert(k > 1) by (nonlinear_arith)
            requires
                k * p == q,
                p < q,
                p > 0,
        ;
        assert(k % 2 == 0);
        assert(2 * p <= q) by (nonlinear_arith)
            requires
                k * p == q,
                k >= 2,
                p > 0,
        ;
        lemma_pow2_double(p);
        lemma_next_pow2_least(2 * p, l, q);
    }
}

/// Two powers of two less than a factor of two apart are equal.
proof fn lemma_pow2_between(x: int, y: int)
    requires
        is_pow2(x),
        is_pow2(y),
        y <= x,
        x < 2 * y,
    ensures
        x == y,
{
    lemma_pow2_div(x, y);
    let k = x / y;
    assert(k * y == x);
    assert(k == 1) by (nonlinear_arith)
        requires
            k * y == x,
            y <= x,
            x < 2 * y,
            y > 0,
    ;
}

/// In a settled allocator whose slots are a power of two of at least 8
/// units, a served request of `l` bytes gets a block of exactly
/// `req_size(l, min)` units: eight times the least power of two that holds
/// `l` bytes, or one slot where that is smaller.
pub proof fn lemma_allocate_exact(v: BuddyView, l: int, min: int)
    requires
        settled(v, 64),
        is_pow2(min),
        min >= 8,
        l >= 0,
    ensures
        allocate_spec(v, l, min).1 matches Some(p) ==> 8 * p.1 == req_size(l, min),
{
    let size = req_size(l, min);
    let level = size / min;
    if allocate_spec(v, l, min).1 is Some {
        lemma_allocate_fits(v, l, min);
        lemma_first_available(v, l, min, 0, level, 64);
        let i = chosen_slot(v, l, min, level, 64);
        let b = bsz(v.bins, i);
        assert(block_ok(blk(v.bins, i), i, 64));
        lemma_pow2_scaled(b, min);
        let big = b * min;
        reveal_with_fuel(is_pow2, 4);
        assert(is_pow2(8));
        assert(big >= min) by (nonlinear_arith)
            requires
                big == b * min,
                b >= 1,
                min > 0,
        ;
        lemma_pow2_div(big, 8);
        lemma_next_pow2_from(1, l);
        lemma_next_pow2_least(1, l, big / 8);
        let np = next_pow2(l);
        lemma_pow2_double(np);
        lemma_pow2_double(2 * np);
        lemma_pow2_double(4 * np);
        assert(is_pow2(size));
        assert(size <= big);
        lemma_alloc_down_stops(v.bins, i, size, min, 64);
        let nb = alloc_down(v.bins, i, size, min);
        let f = bsz(nb, i);
        lemma_pow2_scaled(f, min);
        if f == 1 {
            assert(f * min == size);
        } else {
            lemma_pow2_between(f * min, size);
        }
        lemma_pow2_div(f * min, 8);
    }
}

/// Giving back a block right after it was handed out restores the
/// allocator, in every state whose slots in use are exactly the slots not
/// offered to requests and whose free blocks cannot merge.
pub proof fn lemma_serve_free(v: BuddyView, l: int, min: int, step: int, d: int)
    requires
        partitioned(v.bins, d),
        used_ok(v.bins, v.used, d),
        v.flagged == v.used,
        merged(v.bins, v.used, d),
        min > 0,
        serve(v, l, min, step, d).1 is Some,
    ensures
        deallocate_spec(serve(v, l, min, step, d).0, (serve(v, l, min, step, d).1->0).0, min, d) == v,
{
    let size = req_size(l, min);
    lemma_first_available(v, l, min, 0, step, d);
    let i = chosen_slot(v, l, min, step, d);
    let w = serve(v, l, min, step, d).0;
    let a = (serve(v, l, min, step, d).1->0).0;
    assert(!v.used.contains(i));
    assert(a == v.base + i * min);
    assert((i * min) / min == i) by (nonlinear_arith)
        requires
            min > 0,
    ;
    assert(slot_of(w, a, min) == i);
    lemma_merge_up_alloc_down(v.bins, v.used, i, size, min, d);
    assert(w.used.remove(i) =~= v.used);
    assert(w.flagged.remove(i) =~= v.flagged);
    assert(!can_merge(v.bins, v.used, i, d));
    assert(merge_up(v.bins, v.used, i, d) == v.bins);
}

/// The checks made on the buddy of a block amount to the block being
/// mergeable: `(g, f)` is the record of the buddy's bin, zero when it is empty.
pub proof fn lemma_buddy_check(
    bins: Bins,
    used: Set<int>,
    flagged: Set<int>,
    idx: int,
    f: int,
    g: int,
    min: int,
    d: int,
)
    requires
        bins.len() == d,
        d == 32 || d == 64,
        min > 0,
        occ(bins, idx),
        block_ok(blk(bins, idx), idx, d),
        ({
            let c = buddy(blk(bins, idx)).0;
            0 <= c < d ==> {
                &&& occ(bins, c) ==> blk(bins, c) == (g, f) && block_ok(blk(bins, c), c, d)
                &&& !occ(bins, c) ==> g == 0 && f == 0
                &&& flagged.contains(c) ==> used.contains(c)
            }
        }),
    ensures
        ({
            let c = buddy(blk(bins, idx)).0;
            let e = blk(bins, idx).1;
            &&& 0 <= c
            &&& can_merge(bins, used, idx, d) <==> (c < d && !used.contains(c) && !flagged.contains(c)
                && (e - idx) * min == (f - g) * min)
        }),
{
    let b = blk(bins, idx);
    let s = bsize(b);
    let c = buddy(b).0;
    let e = b.1;
    if 2 * s <= d {
        lemma_buddy_facts(idx, s, d);
    } else {
        assert(s == d);
        assert(idx == 0);
    }
    if 0 <= c < d {
        assert(((e - idx) * min == (f - g) * min) == (e - idx == f - g)) by (nonlinear_arith)
            requires
                min > 0,
        ;
    }
}


/// Some slot that is a multiple of `level` is not in use; for a `level`
/// beyond the 64 slots, slot 0 is in use.
pub open spec fn have_buckets(used: Set<int>, level: int) -> bool {
    if level <= 64 {
        exists|k: int| 0 <= k < 64 && k % level == 0 && !#[trigger] used.contains(k)
    } else {
        used.contains(0)
    }
}

/// The outcome of a request of `l` bytes: the allocator after it and, when
/// served, the address and the length in bytes of the block handed out. A
/// request fails at once when every slot a block of its size could start at
/// is in use.
pub open spec fn allocate_spec(v: BuddyView, l: int, min: int) -> (BuddyView, Option<(int, int)>) {
    let level = req_size(l, min) / min;
    if !have_buckets(v.used, level) {
        (v, None)
    } else {
        serve(v, l, min, level, 64)
    }
}

/// A served request of `l` bytes gets a block of at least `l` bytes that
/// starts at the slot it was carved from, which is in use afterwards.
pub proof fn lemma_allocate_fits(v: BuddyView, l: int, min: int)
    requires
        partitioned(v.bins, 64),
        used_ok(v.bins, v.used, 64),
        min > 0,
        l >= 0,
    ensures
        allocate_spec(v, l, min).1 matches Some(p) ==> {
            let i = chosen_slot(v, l, min, req_size(l, min) / min, 64);
            let w = allocate_spec(v, l, min).0;
            &&& p.1 >= l
            &&& p.0 == v.base + i * min
            &&& 0 <= i < 64
            &&& w.used.contains(i)
            &&& occ(w.bins, i)
            &&& p.1 == (bsz(w.bins, i) * min) / 8
        },
{
    lemma_serve_fits(v, l, min, req_size(l, min) / min, 64);
}

/// Giving back a block right after it was handed out restores the
/// allocator, in every state whose slots in use are exactly the bins flagged
/// as handed out and whose free blocks cannot merge.
pub proof fn lemma_allocate_deallocate(v: BuddyView, l: int, min: int)
    requires
        partitioned(v.bins, 64),
        used_ok(v.bins, v.used, 64),
        v.flagged == v.used,
        merged(v.bins, v.used, 64),
        min > 0,
        allocate_spec(v, l, min).1 is Some,
    ensures
        deallocate_spec(allocate_spec(v, l, min).0, (allocate_spec(v, l, min).1->0).0, min, 64) == v,
{
    lemma_serve_free(v, l, min, req_size(l, min) / min, 64);
}

/// A single block over all `d` slots, all other bins empty, is a partition.
pub proof fn lemma_single_block_partition(bins: Bins, d: int)
    requires
        d == 32 || d == 64,
        bins.len() == d,
        bins[0] == Some((0int, d)),
        forall|i: int| 1 <= i < d ==> #[trigger] bins[i] is None,
    ensures
        partitioned(bins, d),
{
    assert forall|i: int| #[trigger] occ(bins, i) implies i == 0 by {
        if i != 0 {
            assert(bins[i] is None);
        }
    }
}


/// The block at `addr`, handed out for `old_l` bytes, can be looked up: a
/// block of at least `old_l` units starts in the slot of `addr`.
pub open spec fn holds_block(v: BuddyView, addr: int, old_l: int, min: int, d: int) -> bool {
    let i = slot_of(v, addr, min);
    &&& 0 <= i < d
    &&& occ(v.bins, i)
    &&& old_l <= bsz(v.bins, i) * min
}

/// Units a request of `l` bytes is rounded to, for slots of `min` units.
pub fn request_size(l: usize, min: usize) -> (r: usize)
    requires
        8 * next_pow2(l as int) <= usize::MAX,
        min > 0,
        crate::bits::is_pow2(min as int),
    ensures
        r == req_size(l as int, min as int),
        crate::bits::is_pow2(r as int),
        min <= r,
{
    proof {
        crate::bits::lemma_next_pow2_from(1, l as int);
    }
    let p = crate::bits::next_power_of_two(l);
    proof {
        crate::bits::lemma_pow2_double(p as int);
        crate::bits::lemma_pow2_double(2 * p);
        crate::bits::lemma_pow2_double(4 * p);
    }
    if p * 8 < min {
        min
    } else {
        p * 8
    }
}

/// A settled allocator: its blocks partition the `d` slots, every slot in
/// use holds a block, the bins flagged as handed out are exactly those in
/// use, and no free block can merge with its buddy.
pub open spec fn settled(v: BuddyView, d: int) -> bool {
    &&& partitioned(v.bins, d)
    &&& used_ok(v.bins, v.used, d)
    &&& v.flagged == v.used
    &&& merged(v.bins, v.used, d)
}

/// Serving a request keeps an allocator settled.
pub proof fn lemma_serve_keeps_settled(v: BuddyView, l: int, min: int, step: int, d: int)
    requires
        settled(v, d),
        min > 0,
    ensures
        settled(serve(v, l, min, step, d).0, d),
{
    let size = req_size(l, min);
    lemma_first_available(v, l, min, 0, step, d);
    match first_available(v, l, min, 0, step, d) {
        None => {},
        Some(i) => {
            if !(v.used.contains(i) && splits(v.bins, i, size, min)) {
                lemma_alloc_down(v.bins, v.used, i, size, min, d);
                lemma_alloc_down_keeps_merged(v.bins, v.used, i, size, min, d);
                let nb = alloc_down(v.bins, i, size, min);
                assert(used_ok(nb, v.used.insert(i), d));
            }
        },
    }
}

/// Giving back the block of a slot in use keeps an allocator settled.
pub proof fn lemma_free_keeps_settled(v: BuddyView, i: int, d: int)
    requires
        settled(v, d),
        0 <= i < d,
        v.used.contains(i),
    ensures
        settled(free_slot(v, i, d), d),
{
    let u = v.used.remove(i);
    assert(occ(v.bins, i));
    assert(used_ok(v.bins, u, d));
    lemma_merge_up(v.bins, u, i, d);
    lemma_merge_up_keeps_merged(v.bins, v.used, i, d);
    assert(v.flagged.remove(i) =~= u);
}

/// A fresh allocator, a single free block over all `d` slots, is settled.
pub proof fn lemma_fresh_settled(v: BuddyView, d: int)
    requires
        d == 32 || d == 64,
        v.bins.len() == d,
        v.bins[0] == Some((0int, d)),
        forall|i: int| 1 <= i < d ==> #[trigger] v.bins[i] is None,
        v.used == Set::<int>::empty(),
        v.flagged == Set::<int>::empty(),
    ensures
        settled(v, d),
{
    lemma_single_block_partition(v.bins, d);
    assert forall|i: int| #[trigger] occ(v.bins, i) && !v.used.contains(i) implies !can_merge(v.bins, v.used, i, d) by {
        if i != 0 {
            assert(v.bins[i] is None);
        }
    }
}

/// Every allocation keeps an allocator settled.
pub proof fn lemma_allocate_keeps_settled(v: BuddyView, l: int, min: int)
    requires
        settled(v, 64),
        min > 0,
    ensures
        settled(allocate_spec(v, l, min).0, 64),
{
    let level = req_size(l, min) / min;
    if have_buckets(v.used, level) {
        lemma_serve_keeps_settled(v, l, min, level, 64);
    }
}

/// Giving back any block in use keeps an allocator settled.
pub proof fn lemma_deallocate_keeps_settled(v: BuddyView, addr: int, min: int)
    requires
        settled(v, 64),
        0 <= slot_of(v, addr, min) < 64,
        v.used.contains(slot_of(v, addr, min)),
    ensures
        settled(deallocate_spec(v, addr, min, 64), 64),
{
    lemma_free_keeps_settled(v, slot_of(v, addr, min), 64);
}

} // verus!
