//! The mathematical model shared by the buddy allocators.
//!
//! A buddy allocator of depth `d` (32 or 64 slots) keeps one bin per slot.
//! A bin is either empty or holds the half-open slot range `(start, end)` of a
//! block that starts at that very slot. The blocks partition `[0, d)`, each
//! block has a power-of-two length and is aligned to its length.
use vstd::prelude::*;

verus! {

/// One bin per slot: `None` for an empty bin, `Some((start, end))` for a block.
pub type Bins = Seq<Option<(int, int)>>;

/// Block lengths that fit in an allocator of at most 64 slots.
pub open spec fn pow2_upto64(s: int) -> bool {
    s == 1 || s == 2 || s == 4 || s == 8 || s == 16 || s == 32 || s == 64
}

/// The depths the allocators use.
pub open spec fn depth_ok(d: int) -> bool {
    d == 32 || d == 64
}

/// Length of a slot range.
pub open spec fn bsize(b: (int, int)) -> int {
    b.1 - b.0
}

/// Bin `i` holds a block.
pub open spec fn occ(bins: Bins, i: int) -> bool {
    0 <= i < bins.len() && bins[i] is Some
}

/// The block held by bin `i`.
pub open spec fn blk(bins: Bins, i: int) -> (int, int) {
    bins[i]->0
}

/// Length of the block in bin `i`, zero for an empty bin.
pub open spec fn bsz(bins: Bins, i: int) -> int {
    if occ(bins, i) {
        bsize(blk(bins, i))
    } else {
        0
    }
}

/// A well-shaped block for bin `i` of an allocator of depth `d`.
pub open spec fn block_ok(b: (int, int), i: int, d: int) -> bool {
    &&& b.0 == i
    &&& pow2_upto64(bsize(b))
    &&& b.1 <= d
    &&& i % bsize(b) == 0
}

/// Every occupied bin holds a well-shaped block starting at it.
pub open spec fn shapes_ok(bins: Bins, d: int) -> bool {
    forall|i: int| #[trigger] occ(bins, i) ==> block_ok(blk(bins, i), i, d)
}

/// The block after each block that does not reach the end is occupied.
pub open spec fn chained(bins: Bins, d: int) -> bool {
    forall|i: int| #[trigger] occ(bins, i) && blk(bins, i).1 < d ==> occ(bins, blk(bins, i).1)
}

/// No bin strictly inside a block is occupied.
pub open spec fn inner_free(bins: Bins) -> bool {
    forall|i: int, j: int|
        #![trigger occ(bins, i), occ(bins, j)]
        occ(bins, i) && i < j < blk(bins, i).1 ==> !occ(bins, j)
}

/// The bins partition `[0, d)` into aligned power-of-two blocks.
pub open spec fn partitioned(bins: Bins, d: int) -> bool {
    &&& depth_ok(d)
    &&& bins.len() == d
    &&& occ(bins, 0)
    &&& shapes_ok(bins, d)
    &&& chained(bins, d)
    &&& inner_free(bins)
}

/// The block a block merges with: the other half of its parent.
pub open spec fn buddy(b: (int, int)) -> (int, int) {
    let diff = bsize(b);
    if (b.0 / diff) % 2 == 0 {
        (b.1, b.1 + diff)
    } else {
        (b.0 - diff, b.0)
    }
}

/// The buddy of a block's buddy is the block itself.
pub proof fn lemma_buddy_involution(b: (int, int))
    requires
        b.0 < b.1,
    ensures
        buddy(buddy(b)) == b,
{
    let d = bsize(b);
    vstd::arithmetic::div_mod::lemma_div_plus_one(b.0, d);
    vstd::arithmetic::div_mod::lemma_div_minus_one(b.0, d);
}

/// The buddy of an aligned block of `s` slots at `i` is a block of the same
/// length, aligned as it is and adjacent to it, on its right or on its left,
/// and the block is the buddy of its buddy.
pub proof fn lemma_buddy_aligned_adjacent(i: int, s: int)
    requires
        s > 0,
        i >= 0,
        i % s == 0,
    ensures
        ({
            let c = buddy((i, i + s));
            &&& c.1 - c.0 == s
            &&& c.0 >= 0
            &&& c.0 % s == 0
            &&& c.0 == i + s || c.1 == i
            &&& buddy(c) == (i, i + s)
        }),
{
    lemma_buddy_right(i, s);
    lemma_buddy_involution((i, i + s));
    vstd::arithmetic::div_mod::lemma_fundamental_div_mod(i, s);
    let q = i / s;
    assert(i == s * q);
    if q % 2 == 0 {
        assert(i + s == s * (q + 1)) by (nonlinear_arith)
            requires
                i == s * q,
        ;
        vstd::arithmetic::div_mod::lemma_mod_multiples_basic(q + 1, s);
    } else {
        assert(q >= 1);
        assert(i - s == s * (q - 1)) by (nonlinear_arith)
            requires
                i == s * q,
        ;
        assert(i - s >= 0) by (nonlinear_arith)
            requires
                i == s * q,
                q >= 1,
                s > 0,
        ;
        vstd::arithmetic::div_mod::lemma_mod_multiples_basic(q - 1, s);
    }
}

/// A block is the right half of its parent.
pub open spec fn is_right(b: (int, int)) -> bool {
    (b.0 / bsize(b)) % 2 != 0
}

/// Splitting the block of bin `i` into its two halves.
pub open spec fn split_at(bins: Bins, i: int) -> Bins {
    let b = blk(bins, i);
    let h = bsize(b) / 2;
    bins.update(i, None).update(b.0, Some((b.0, b.0 + h))).update(b.0 + h, Some((b.0 + h, b.1)))
}

/// Joining the block of bin `i` with its buddy into their parent block.
pub open spec fn merge_at(bins: Bins, i: int) -> Bins {
    let a = blk(bins, i);
    let c = buddy(a);
    let lo = if a.0 < c.0 {
        a.0
    } else {
        c.0
    };
    let hi = if a.1 < c.1 {
        c.1
    } else {
        a.1
    };
    bins.update(i, None).update(c.0, None).update(lo, Some((lo, hi)))
}

/// Start of the parent of the block in bin `i`.
pub open spec fn parent_start(bins: Bins, i: int) -> int {
    let a = blk(bins, i);
    let c = buddy(a);
    if a.0 < c.0 {
        a.0
    } else {
        c.0
    }
}

/// The block of bin `i` can be merged: its buddy lies in the allocator, is a
/// whole block of the same length and is not in use.
pub open spec fn can_merge(bins: Bins, used: Set<int>, i: int, d: int) -> bool {
    let c = buddy(blk(bins, i));
    &&& occ(bins, i)
    &&& blk(bins, i).0 == i
    &&& 0 < bsize(blk(bins, i))
    &&& 2 * bsize(blk(bins, i)) <= d
    &&& 0 <= c.0 < d
    &&& occ(bins, c.0)
    &&& bsize(blk(bins, c.0)) == bsize(blk(bins, i))
    &&& !used.contains(c.0)
}

/// Merging upwards from bin `i` for as long as the buddy allows it.
pub open spec fn merge_up(bins: Bins, used: Set<int>, i: int, d: int) -> Bins
    decreases d - bsz(bins, i),
{
    if can_merge(bins, used, i, d) && bins.len() == d {
        merge_up(merge_at(bins, i), used, parent_start(bins, i), d)
    } else {
        bins
    }
}

/// The bin reached by `merge_up` from bin `i`.
pub open spec fn merge_up_index(bins: Bins, used: Set<int>, i: int, d: int) -> int
    decreases d - bsz(bins, i),
{
    if can_merge(bins, used, i, d) && bins.len() == d {
        merge_up_index(merge_at(bins, i), used, parent_start(bins, i), d)
    } else {
        i
    }
}

/// Splitting the block of bin `i` down for as long as a request of `size`
/// units (where one slot is `min` units) still fits in half of it.
pub open spec fn alloc_down(bins: Bins, i: int, size: int, min: int) -> Bins
    decreases bsz(bins, i),
{
    if occ(bins, i) && blk(bins, i).0 == i && blk(bins, i).1 <= bins.len() && bsize(blk(bins, i))
        >= 2 && size <= (bsize(
        blk(bins, i),
    ) * min) / 2 {
        proof {
            let b = blk(bins, i);
            let h = bsize(b) / 2;
            let s1 = bins.update(i, None);
            let s2 = s1.update(b.0, Some((b.0, b.0 + h)));
            let s3 = s2.update(b.0 + h, Some((b.0 + h, b.1)));
            assert(s2[i] == Some((i, i + h)));
            assert(s3[i] == s2[i]);
            assert(split_at(bins, i) == s3);
        }
        alloc_down(split_at(bins, i), i, size, min)
    } else {
        bins
    }
}

/// Halving an aligned block keeps both halves aligned.
pub proof fn lemma_half_aligned(i: int, s: int)
    requires
        pow2_upto64(s),
        s >= 2,
        i % s == 0,
    ensures
        pow2_upto64(s / 2),
        i % (s / 2) == 0,
        (i + s / 2) % (s / 2) == 0,
{
    let h = s / 2;
    assert(s == 2 * h);
    vstd::arithmetic::div_mod::lemma_fundamental_div_mod(i, s);
    let q = i / s;
    assert(i == h * (2 * q)) by (nonlinear_arith)
        requires
            i == s * q + i % s,
            i % s == 0,
            s == 2 * h,
    ;
    vstd::arithmetic::div_mod::lemma_mod_multiples_basic(2 * q, h);
    assert(h * (2 * q) == (2 * q) * h) by (nonlinear_arith);
    vstd::arithmetic::div_mod::lemma_mod_multiples_basic(2 * q + 1, h);
    assert(i + h == (2 * q + 1) * h) by (nonlinear_arith)
        requires
            i == h * (2 * q),
    ;
}

/// The bins after a split, slot by slot.
pub proof fn lemma_split_pointwise(bins: Bins, i: int)
    requires
        occ(bins, i),
        blk(bins, i).0 == i,
        blk(bins, i).1 <= bins.len(),
        bsize(blk(bins, i)) >= 2,
    ensures
        ({
            let h = bsize(blk(bins, i)) / 2;
            let nb = split_at(bins, i);
            &&& nb.len() == bins.len()
            &&& nb[i] == Some((i, i + h))
            &&& nb[i + h] == Some((i + h, blk(bins, i).1))
            &&& forall|k: int| 0 <= k < bins.len() && k != i && k != i + h ==> #[trigger] nb[k] == bins[k]
        }),
{
    let b = blk(bins, i);
    let h = bsize(b) / 2;
    let s1 = bins.update(i, None);
    let s2 = s1.update(b.0, Some((b.0, b.0 + h)));
    let s3 = s2.update(b.0 + h, Some((b.0 + h, b.1)));
    assert(split_at(bins, i) == s3);
    assert(s2[i] == Some((i, i + h)));
    assert forall|k: int| 0 <= k < bins.len() && k != i && k != i + h implies #[trigger] s3[k]
        == bins[k] by {
        assert(s3[k] == s2[k]);
        assert(s2[k] == s1[k]);
    }
}

/// Facts about a split of a block of a partition.
pub open spec fn split_facts(bins: Bins, i: int, d: int) -> bool {
    let h = bsize(blk(bins, i)) / 2;
    let nb = split_at(bins, i);
    &&& nb.len() == d
    &&& nb[i] == Some((i, i + h))
    &&& nb[i + h] == Some((i + h, blk(bins, i).1))
    &&& 1 <= h
    &&& i + 2 * h == blk(bins, i).1
    &&& !occ(bins, i + h)
    &&& forall|k: int| 0 <= k < d && k != i && k != i + h ==> #[trigger] nb[k] == bins[k]
}

proof fn lemma_split_shapes(bins: Bins, i: int, d: int)
    requires
        depth_ok(d),
        bins.len() == d,
        shapes_ok(bins, d),
        occ(bins, i),
        split_facts(bins, i, d),
        block_ok((i, i + bsize(blk(bins, i)) / 2), i, d),
        block_ok((i + bsize(blk(bins, i)) / 2, blk(bins, i).1), i + bsize(blk(bins, i)) / 2, d),
    ensures
        shapes_ok(split_at(bins, i), d),
{
    let h = bsize(blk(bins, i)) / 2;
    let nb = split_at(bins, i);
    assert forall|k: int| #[trigger] occ(nb, k) implies block_ok(blk(nb, k), k, d) by {
        if k != i && k != i + h {
            assert(nb[k] == bins[k]);
            assert(occ(bins, k));
        }
    }
}

proof fn lemma_split_chained(bins: Bins, i: int, d: int)
    requires
        depth_ok(d),
        bins.len() == d,
        chained(bins, d),
        inner_free(bins),
        occ(bins, i),
        blk(bins, i).0 == i,
        split_facts(bins, i, d),
    ensures
        chained(split_at(bins, i), d),
{
    let h = bsize(blk(bins, i)) / 2;
    let e = blk(bins, i).1;
    let nb = split_at(bins, i);
    assert forall|k: int| #[trigger] occ(nb, k) && blk(nb, k).1 < d implies occ(nb, blk(nb, k).1) by {
        if k == i {
        } else if k == i + h {
            assert(occ(bins, e));
            assert(nb[e] == bins[e]);
        } else {
            assert(nb[k] == bins[k]);
            assert(occ(bins, k));
            let f = blk(bins, k).1;
            assert(occ(bins, f));
            if f == i + h {
                assert(occ(bins, i) && i < i + h < blk(bins, i).1);
            } else if f != i {
                assert(nb[f] == bins[f]);
            }
        }
    }
}

proof fn lemma_split_inner_free(bins: Bins, i: int, d: int)
    requires
        depth_ok(d),
        bins.len() == d,
        inner_free(bins),
        occ(bins, i),
        blk(bins, i).0 == i,
        split_facts(bins, i, d),
    ensures
        inner_free(split_at(bins, i)),
{
    let h = bsize(blk(bins, i)) / 2;
    let nb = split_at(bins, i);
    assert forall|k: int, j: int|
        #![trigger occ(nb, k), occ(nb, j)]
        occ(nb, k) && k < j < blk(nb, k).1 implies !occ(nb, j) by {
        if !(0 <= j < d) {
        } else if k == i {
            assert(blk(nb, k) == (i, i + h));
            assert(j != i + h);
            assert(nb[j] == bins[j]);
            assert(occ(bins, i) && i < j < blk(bins, i).1);
            assert(!occ(bins, j));
        } else if k == i + h {
            assert(blk(nb, k) == (i + h, blk(bins, i).1));
            assert(j != i);
            assert(nb[j] == bins[j]);
            assert(occ(bins, i) && i < j < blk(bins, i).1);
            assert(!occ(bins, j));
        } else {
            assert(nb[k] == bins[k]);
            assert(occ(bins, k));
            if j == i {
                assert(occ(bins, k) && k < i < blk(bins, k).1);
            } else if j == i + h {
                if k < i {
                    assert(occ(bins, k) && k < i < blk(bins, k).1);
                } else {
                    assert(occ(bins, i) && i < k < blk(bins, i).1);
                }
            } else {
                assert(nb[j] == bins[j]);
                assert(occ(bins, k) && k < j < blk(bins, k).1);
                assert(!occ(bins, j));
            }
        }
    }
}

/// Splitting a block of a partition keeps a partition, with the two halves in
/// place of the block.
pub proof fn lemma_split_partitioned(bins: Bins, i: int, d: int)
    requires
        partitioned(bins, d),
        occ(bins, i),
        bsize(blk(bins, i)) >= 2,
    ensures
        partitioned(split_at(bins, i), d),
        split_facts(bins, i, d),
{
    let b = blk(bins, i);
    let s = bsize(b);
    let h = s / 2;
    assert(block_ok(b, i, d));
    lemma_half_aligned(i, s);
    lemma_split_pointwise(bins, i);
    assert(occ(bins, i) && i < i + h < blk(bins, i).1);
    assert(split_facts(bins, i, d));
    let nb = split_at(bins, i);
    assert(occ(nb, 0)) by {
        if i != 0 {
            assert(nb[0] == bins[0]);
        }
    }
    lemma_split_shapes(bins, i, d);
    lemma_split_chained(bins, i, d);
    lemma_split_inner_free(bins, i, d);
}

/// A depth is a multiple of every block length that fits in it twice.
proof fn lemma_depth_multiple(s: int, d: int)
    requires
        pow2_upto64(s),
        depth_ok(d),
        2 * s <= d,
    ensures
        d % (2 * s) == 0,
        pow2_upto64(2 * s),
{
    if d == 32 {
        if s == 1 {
            assert(32int % 2 == 0);
        } else if s == 2 {
            assert(32int % 4 == 0);
        } else if s == 4 {
            assert(32int % 8 == 0);
        } else if s == 8 {
            assert(32int % 16 == 0);
        } else {
            assert(32int % 32 == 0);
        }
    } else {
        if s == 1 {
            assert(64int % 2 == 0);
        } else if s == 2 {
            assert(64int % 4 == 0);
        } else if s == 4 {
            assert(64int % 8 == 0);
        } else if s == 8 {
            assert(64int % 16 == 0);
        } else if s == 16 {
            assert(64int % 32 == 0);
        } else {
            assert(64int % 64 == 0);
        }
    }
}

/// Where the buddy and the parent of an aligned block lie.
pub proof fn lemma_buddy_facts(i: int, s: int, d: int)
    requires
        pow2_upto64(s),
        depth_ok(d),
        2 * s <= d,
        0 <= i,
        i + s <= d,
        i % s == 0,
    ensures
        ({
            let c = buddy((i, i + s));
            let lo = if i < c.0 {
                i
            } else {
                c.0
            };
            &&& bsize(c) == s
            &&& 0 <= c.0
            &&& c.1 <= d
            &&& c.0 % s == 0
            &&& c.0 == i + s || c.0 == i - s
            &&& lo % (2 * s) == 0
            &&& lo + 2 * s <= d
            &&& pow2_upto64(2 * s)
            &&& (c.0 == i + s <==> !is_right((i, i + s)))
            &&& (lo == i <==> c.0 == i + s)
        }),
{
    lemma_depth_multiple(s, d);
    vstd::arithmetic::div_mod::lemma_fundamental_div_mod(i, s);
    vstd::arithmetic::div_mod::lemma_fundamental_div_mod(d, 2 * s);
    let q = i / s;
    let m = d / (2 * s);
    assert(i == s * q);
    assert(d == (2 * s) * m);
    assert(bsize((i, i + s)) == s);
    if q % 2 == 0 {
        let r = q / 2;
        assert(i == (2 * s) * r) by (nonlinear_arith)
            requires
                i == s * q,
                q == 2 * r,
        ;
        vstd::arithmetic::div_mod::lemma_mod_multiples_basic(r, 2 * s);
        assert((2 * s) * r == r * (2 * s)) by (nonlinear_arith);
        assert(r < m) by (nonlinear_arith)
            requires
                i == (2 * s) * r,
                d == (2 * s) * m,
                i < d,
                s > 0,
        ;
        assert(i + 2 * s <= d) by (nonlinear_arith)
            requires
                i == (2 * s) * r,
                d == (2 * s) * m,
                r + 1 <= m,
                s > 0,
        ;
        vstd::arithmetic::div_mod::lemma_mod_multiples_basic(q + 1, s);
        assert(i + s == (q + 1) * s) by (nonlinear_arith)
            requires
                i == s * q,
        ;
    } else {
        let r = q / 2;
        assert(q == 2 * r + 1);
        assert(i - s == (2 * s) * r) by (nonlinear_arith)
            requires
                i == s * q,
                q == 2 * r + 1,
        ;
        vstd::arithmetic::div_mod::lemma_mod_multiples_basic(r, 2 * s);
        assert((2 * s) * r == r * (2 * s)) by (nonlinear_arith);
        assert(q >= 1) by (nonlinear_arith)
            requires
                i == s * q,
                i >= 0,
                s > 0,
                q % 2 != 0,
        ;
        vstd::arithmetic::div_mod::lemma_mod_multiples_basic(q - 1, s);
        assert(i - s == (q - 1) * s) by (nonlinear_arith)
            requires
                i == s * q,
        ;
    }
}

/// The buddy of an aligned block is a right half exactly when it follows
/// the block.
pub proof fn lemma_buddy_right(i: int, s: int)
    requires
        s > 0,
        i >= 0,
        i % s == 0,
    ensures
        bsize(buddy((i, i + s))) == s,
        is_right(buddy((i, i + s))) <==> buddy((i, i + s)).0 == i + s,
        buddy((i, i + s)).0 == i + s ==> buddy((i, i + s)).1 == i + 2 * s,
{
    vstd::arithmetic::div_mod::lemma_fundamental_div_mod(i, s);
    let q = i / s;
    assert(i == s * q);
    if q % 2 == 0 {
        vstd::arithmetic::div_mod::lemma_div_multiples_vanish_fancy(q + 1, 0, s);
        assert(i + s == s * (q + 1)) by (nonlinear_arith)
            requires
                i == s * q,
        ;
        assert((i + s) / s == q + 1);
    } else {
        assert(q >= 1) by (nonlinear_arith)
            requires
                i == s * q,
                i >= 0,
                s > 0,
                q % 2 != 0,
        ;
        vstd::arithmetic::div_mod::lemma_div_multiples_vanish_fancy(q - 1, 0, s);
        assert(i - s == s * (q - 1)) by (nonlinear_arith)
            requires
                i == s * q,
        ;
        assert((i - s) / s == q - 1);
    }
}

/// Facts about a merge of a block with its buddy.
pub open spec fn merge_facts(bins: Bins, i: int, d: int) -> bool {
    let s = bsize(blk(bins, i));
    let lo = parent_start(bins, i);
    let nb = merge_at(bins, i);
    let c = buddy(blk(bins, i)).0;
    &&& nb.len() == d
    &&& nb[lo] == Some((lo, lo + 2 * s))
    &&& (lo == i || lo == c)
    &&& (lo == i ==> c == i + s)
    &&& (lo == c ==> i == c + s)
    &&& nb[lo + s] is None
    &&& blk(bins, lo) == (lo, lo + s)
    &&& blk(bins, lo + s) == (lo + s, lo + 2 * s)
    &&& occ(bins, lo) && occ(bins, lo + s)
    &&& 0 <= lo
    &&& lo + 2 * s <= d
    &&& 1 <= s
    &&& block_ok((lo, lo + 2 * s), lo, d)
    &&& forall|k: int| 0 <= k < d && k != lo && k != lo + s ==> #[trigger] nb[k] == bins[k]
}

proof fn lemma_merge_pointwise(bins: Bins, i: int, d: int)
    requires
        depth_ok(d),
        bins.len() == d,
        can_merge(bins, Set::empty(), i, d),
        block_ok(blk(bins, i), i, d),
        block_ok(blk(bins, buddy(blk(bins, i)).0), buddy(blk(bins, i)).0, d),
    ensures
        merge_facts(bins, i, d),
{
    let a = blk(bins, i);
    let s = bsize(a);
    let c = buddy(a);
    assert(a == (i, i + s));
    lemma_buddy_facts(i, s, d);
    let lo = parent_start(bins, i);
    let s1 = bins.update(i, None);
    let s2 = s1.update(c.0, None);
    let s3 = s2.update(lo, Some((lo, lo + 2 * s)));
    assert(merge_at(bins, i) == s3);
    assert forall|k: int| 0 <= k < d && k != lo && k != lo + s implies #[trigger] s3[k] == bins[k] by {
        assert(s3[k] == s2[k]);
        assert(s2[k] == s1[k]);
    }
    assert(s3[lo + s] == None::<(int, int)>) by {
        assert(s3[lo + s] == s2[lo + s]);
    }
}

/// Merging a block with a free buddy of the same length keeps a partition,
/// with the parent block in place of the two halves.
pub proof fn lemma_merge_partitioned(bins: Bins, used: Set<int>, i: int, d: int)
    requires
        partitioned(bins, d),
        can_merge(bins, used, i, d),
    ensures
        partitioned(merge_at(bins, i), d),
        merge_facts(bins, i, d),
{
    assert(can_merge(bins, Set::empty(), i, d));
    assert(occ(bins, buddy(blk(bins, i)).0));
    lemma_merge_pointwise(bins, i, d);
    let s = bsize(blk(bins, i));
    let lo = parent_start(bins, i);
    let nb = merge_at(bins, i);
    assert(occ(nb, 0)) by {
        if lo != 0 {
            assert(nb[0] == bins[0]);
        }
    }
    assert forall|k: int| #[trigger] occ(nb, k) implies block_ok(blk(nb, k), k, d) by {
        if k != lo {
            assert(nb[k] == bins[k]);
            assert(occ(bins, k));
        }
    }
    assert forall|k: int| #[trigger] occ(nb, k) && blk(nb, k).1 < d implies occ(nb, blk(nb, k).1) by {
        if k == lo {
            assert(occ(bins, lo + s));
            assert(blk(bins, lo + s).1 == lo + 2 * s);
            assert(occ(bins, lo + 2 * s));
            assert(nb[lo + 2 * s] == bins[lo + 2 * s]);
        } else {
            assert(nb[k] == bins[k]);
            assert(occ(bins, k));
            let f = blk(bins, k).1;
            assert(occ(bins, f));
            if f == lo + s {
                if k < lo {
                    assert(occ(bins, k) && k < lo < blk(bins, k).1);
                } else {
                    assert(occ(bins, lo) && lo < k < blk(bins, lo).1);
                }
            } else if f != lo {
                assert(nb[f] == bins[f]);
            }
        }
    }
    assert forall|k: int, j: int|
        #![trigger occ(nb, k), occ(nb, j)]
        occ(nb, k) && k < j < blk(nb, k).1 implies !occ(nb, j) by {
        if !(0 <= j < d) {
        } else if j == lo + s {
        } else if k == lo {
            assert(nb[j] == bins[j]);
            if j < lo + s {
                assert(occ(bins, lo) && lo < j < blk(bins, lo).1);
            } else {
                assert(occ(bins, lo + s) && lo + s < j < blk(bins, lo + s).1);
            }
            assert(!occ(bins, j));
        } else {
            assert(nb[k] == bins[k]);
            assert(occ(bins, k));
            if j == lo {
                assert(occ(bins, k) && k < lo < blk(bins, k).1);
                assert(!occ(bins, lo));
            } else {
                assert(nb[j] == bins[j]);
                assert(occ(bins, k) && k < j < blk(bins, k).1);
                assert(!occ(bins, j));
            }
        }
    }
}

/// Every slot in use holds a block.
pub open spec fn used_ok(bins: Bins, used: Set<int>, d: int) -> bool {
    forall|k: int| 0 <= k < d && #[trigger] used.contains(k) ==> occ(bins, k)
}

/// Merging upwards from a free block keeps a partition in which every slot in
/// use still holds a block; it ends on a free block that starts at its bin.
pub proof fn lemma_merge_up(bins: Bins, used: Set<int>, i: int, d: int)
    requires
        partitioned(bins, d),
        used_ok(bins, used, d),
        occ(bins, i),
        !used.contains(i),
    ensures
        partitioned(merge_up(bins, used, i, d), d),
        used_ok(merge_up(bins, used, i, d), used, d),
        occ(merge_up(bins, used, i, d), merge_up_index(bins, used, i, d)),
        !used.contains(merge_up_index(bins, used, i, d)),
        bsz(merge_up(bins, used, i, d), merge_up_index(bins, used, i, d)) >= bsz(bins, i),
    decreases d - bsz(bins, i),
{
    if can_merge(bins, used, i, d) && bins.len() == d {
        lemma_merge_partitioned(bins, used, i, d);
        let nb = merge_at(bins, i);
        let lo = parent_start(bins, i);
        let c = buddy(blk(bins, i)).0;
        assert(used_ok(nb, used, d)) by {
            assert forall|k: int| 0 <= k < d && #[trigger] used.contains(k) implies occ(nb, k) by {
                assert(occ(bins, k));
                if k == lo + s_of(bins, i) {
                    assert(k == i || k == c);
                } else if k != lo {
                    assert(nb[k] == bins[k]);
                }
            }
        }
        assert(!used.contains(lo));
        lemma_merge_up(nb, used, lo, d);
    }
}

/// Length of the block of bin `i`.
pub open spec fn s_of(bins: Bins, i: int) -> int {
    bsize(blk(bins, i))
}

/// Splitting down from a free block keeps a partition in which every slot in
/// use still holds a block, and leaves a block at the same bin.
pub proof fn lemma_alloc_down(bins: Bins, used: Set<int>, i: int, size: int, min: int, d: int)
    requires
        partitioned(bins, d),
        used_ok(bins, used, d),
        occ(bins, i),
        min > 0,
    ensures
        partitioned(alloc_down(bins, i, size, min), d),
        used_ok(alloc_down(bins, i, size, min), used, d),
        occ(alloc_down(bins, i, size, min), i),
        blk(alloc_down(bins, i, size, min), i).0 == i,
        bsz(alloc_down(bins, i, size, min), i) <= bsz(bins, i),
        forall|k: int|
            0 <= k < i || blk(bins, i).1 <= k < d ==> #[trigger] alloc_down(bins, i, size, min)[k]
                == bins[k],
    decreases bsz(bins, i),
{
    assert(block_ok(blk(bins, i), i, d));
    if occ(bins, i) && blk(bins, i).0 == i && blk(bins, i).1 <= bins.len() && bsize(blk(bins, i))
        >= 2 && size <= (bsize(blk(bins, i)) * min) / 2 {
        lemma_split_partitioned(bins, i, d);
        let nb = split_at(bins, i);
        let h = bsize(blk(bins, i)) / 2;
        assert(used_ok(nb, used, d)) by {
            assert forall|k: int| 0 <= k < d && #[trigger] used.contains(k) implies occ(nb, k) by {
                assert(occ(bins, k));
                if k != i && k != i + h {
                    assert(nb[k] == bins[k]);
                }
            }
        }
        lemma_alloc_down(nb, used, i, size, min, d);
        assert forall|k: int| 0 <= k < i || blk(bins, i).1 <= k < d implies #[trigger] alloc_down(
            bins,
            i,
            size,
            min,
        )[k] == bins[k] by {
            assert(alloc_down(nb, i, size, min)[k] == nb[k]);
            assert(nb[k] == bins[k]);
        }
    }
}

/// The left half of an aligned block is an even multiple of its length.
proof fn lemma_left_half_even(i: int, s: int)
    requires
        pow2_upto64(s),
        s >= 2,
        i % s == 0,
    ensures
        (i / (s / 2)) % 2 == 0,
        !is_right((i, i + s / 2)),
{
    let h = s / 2;
    vstd::arithmetic::div_mod::lemma_fundamental_div_mod(i, s);
    let q = i / s;
    assert(s == 2 * h);
    assert(i == h * (2 * q)) by (nonlinear_arith)
        requires
            i == s * q + i % s,
            i % s == 0,
            s == 2 * h,
    ;
    assert(h >= 1);
    vstd::arithmetic::div_mod::lemma_div_multiples_vanish(2 * q, h);
    assert(i / h == 2 * q);
}

proof fn lemma_merge_split_same(bins: Bins, i: int, d: int)
    requires
        depth_ok(d),
        bins.len() == d,
        occ(bins, i),
        block_ok(blk(bins, i), i, d),
        bsize(blk(bins, i)) >= 2,
        split_facts(bins, i, d),
        block_ok(blk(split_at(bins, i), i), i, d),
        block_ok(
            blk(split_at(bins, i), i + bsize(blk(bins, i)) / 2),
            i + bsize(blk(bins, i)) / 2,
            d,
        ),
        buddy(blk(split_at(bins, i), i)).0 == i + bsize(blk(bins, i)) / 2,
        can_merge(split_at(bins, i), Set::empty(), i, d),
    ensures
        merge_at(split_at(bins, i), i) == bins,
        parent_start(split_at(bins, i), i) == i,
{
    let h = bsize(blk(bins, i)) / 2;
    let nb = split_at(bins, i);
    lemma_merge_pointwise(nb, i, d);
    let m = merge_at(nb, i);
    assert(parent_start(nb, i) == i);
    assert(m =~= bins) by {
        assert forall|k: int| 0 <= k < d implies #[trigger] m[k] == bins[k] by {
            if k == i {
            } else if k == i + h {
            } else {
                assert(m[k] == nb[k]);
            }
        }
    }
}

/// Merging the left half of a split block with its buddy gives back the
/// block.
pub proof fn lemma_merge_undoes_split(bins: Bins, used: Set<int>, i: int, d: int)
    requires
        partitioned(bins, d),
        used_ok(bins, used, d),
        occ(bins, i),
        bsize(blk(bins, i)) >= 2,
    ensures
        can_merge(split_at(bins, i), used, i, d),
        merge_at(split_at(bins, i), i) == bins,
        parent_start(split_at(bins, i), i) == i,
{
    let b = blk(bins, i);
    let s = bsize(b);
    let h = s / 2;
    assert(block_ok(b, i, d));
    lemma_half_aligned(i, s);
    lemma_split_pointwise(bins, i);
    assert(occ(bins, i) && i < i + h < blk(bins, i).1);
    assert(!occ(bins, i + h));
    assert(split_facts(bins, i, d));
    let nb = split_at(bins, i);
    assert(blk(nb, i) == (i, i + h));
    lemma_left_half_even(i, s);
    assert(buddy(blk(nb, i)) == (i + h, i + 2 * h));
    assert(!used.contains(i + h));
    assert(occ(nb, i + h));
    assert(block_ok(blk(nb, i), i, d));
    assert(block_ok(blk(nb, i + h), i + h, d));
    assert(can_merge(nb, used, i, d));
    assert(can_merge(nb, Set::empty(), i, d));
    lemma_merge_split_same(bins, i, d);
}

/// Merging upwards after splitting down from the same bin gives what merging
/// upwards from the unsplit block gives.
pub proof fn lemma_merge_up_alloc_down(bins: Bins, used: Set<int>, i: int, size: int, min: int, d: int)
    requires
        partitioned(bins, d),
        used_ok(bins, used, d),
        occ(bins, i),
        min > 0,
    ensures
        merge_up(alloc_down(bins, i, size, min), used, i, d) == merge_up(bins, used, i, d),
        merge_up_index(alloc_down(bins, i, size, min), used, i, d) == merge_up_index(bins, used, i, d),
    decreases bsz(bins, i),
{
    assert(block_ok(blk(bins, i), i, d));
    if occ(bins, i) && blk(bins, i).0 == i && blk(bins, i).1 <= bins.len() && bsize(blk(bins, i))
        >= 2 && size <= (bsize(blk(bins, i)) * min) / 2 {
        let nb = split_at(bins, i);
        lemma_split_partitioned(bins, i, d);
        let h = bsize(blk(bins, i)) / 2;
        assert(used_ok(nb, used, d)) by {
            assert forall|k: int| 0 <= k < d && #[trigger] used.contains(k) implies occ(nb, k) by {
                assert(occ(bins, k));
                if k != i && k != i + h {
                    assert(nb[k] == bins[k]);
                }
            }
        }
        lemma_merge_up_alloc_down(nb, used, i, size, min, d);
        lemma_merge_undoes_split(bins, used, i, d);
        assert(merge_up(nb, used, i, d) == merge_up(bins, used, i, d));
        assert(merge_up_index(nb, used, i, d) == merge_up_index(bins, used, i, d));
    }
}


/// Splitting down either leaves the block of bin `i` as it was or leaves one
/// of at least `size` units.
pub proof fn lemma_alloc_down_size(bins: Bins, i: int, size: int, min: int, d: int)
    requires
        partitioned(bins, d),
        occ(bins, i),
        min > 0,
    ensures
        bsz(alloc_down(bins, i, size, min), i) == bsz(bins, i) || bsz(
            alloc_down(bins, i, size, min),
            i,
        ) * min >= size,
    decreases bsz(bins, i),
{
    assert(block_ok(blk(bins, i), i, d));
    if occ(bins, i) && blk(bins, i).0 == i && blk(bins, i).1 <= bins.len() && bsize(blk(bins, i))
        >= 2 && size <= (bsize(blk(bins, i)) * min) / 2 {
        let nb = split_at(bins, i);
        lemma_split_partitioned(bins, i, d);
        let s = bsize(blk(bins, i));
        let h = s / 2;
        assert(s == 2 * h);
        assert(h * min >= size) by (nonlinear_arith)
            requires
                s == 2 * h,
                size <= (s * min) / 2,
        ;
        lemma_alloc_down_size(nb, i, size, min, d);
    }
}

/// Splitting down for a request of `size` units that the block of bin `i`
/// holds stops at a block that still holds it and is either one slot long
/// or more than twice the request.
pub proof fn lemma_alloc_down_stops(bins: Bins, i: int, size: int, min: int, d: int)
    requires
        partitioned(bins, d),
        occ(bins, i),
        min > 0,
        size <= bsz(bins, i) * min,
    ensures
        occ(alloc_down(bins, i, size, min), i),
        pow2_upto64(bsz(alloc_down(bins, i, size, min), i)),
        size <= bsz(alloc_down(bins, i, size, min), i) * min,
        bsz(alloc_down(bins, i, size, min), i) == 1 || 2 * size > bsz(alloc_down(bins, i, size, min), i) * min,
    decreases bsz(bins, i),
{
    assert(block_ok(blk(bins, i), i, d));
    if occ(bins, i) && blk(bins, i).0 == i && blk(bins, i).1 <= bins.len() && bsize(blk(bins, i))
        >= 2 && size <= (bsize(blk(bins, i)) * min) / 2 {
        let nb = split_at(bins, i);
        lemma_split_partitioned(bins, i, d);
        let s = bsize(blk(bins, i));
        let h = s / 2;
        assert(s == 2 * h);
        assert(blk(nb, i) == (i, i + h));
        assert(h * min >= size) by (nonlinear_arith)
            requires
                s == 2 * h,
                size <= (s * min) / 2,
        ;
        lemma_alloc_down_stops(nb, i, size, min, d);
    } else {
        assert(bsize(blk(bins, i)) >= 2 ==> 2 * size > bsize(blk(bins, i)) * min) by (nonlinear_arith)
            requires
                bsize(blk(bins, i)) >= 2 ==> size > (bsize(blk(bins, i)) * min) / 2,
        ;
    }
}

/// No free block can merge with its buddy: every free block that could have
/// merged did.
pub open spec fn merged(bins: Bins, used: Set<int>, d: int) -> bool {
    forall|i: int| #[trigger] occ(bins, i) && !used.contains(i) ==> !can_merge(bins, used, i, d)
}

/// The block in bin `j` is a block's buddy of the same length: that block
/// is its buddy in turn.
proof fn lemma_buddy_back(bins: Bins, d: int, k: int, j: int)
    requires
        block_ok(blk(bins, k), k, d),
        block_ok(blk(bins, j), j, d),
        buddy(blk(bins, k)).0 == j,
        bsize(blk(bins, j)) == bsize(blk(bins, k)),
    ensures
        blk(bins, j) == buddy(blk(bins, k)),
        buddy(blk(bins, j)) == blk(bins, k),
{
    let b = blk(bins, k);
    let c = buddy(b);
    assert(bsize(c) == bsize(b));
    assert(blk(bins, j) == c);
    lemma_buddy_involution(b);
}

/// Splitting down from bin `i`, which is to be handed out: no free block
/// other than bin `i` can merge, counting bin `i` as in use, before and
/// after.
proof fn lemma_alloc_down_merged(bins: Bins, used: Set<int>, i: int, size: int, min: int, d: int)
    requires
        partitioned(bins, d),
        used_ok(bins, used, d),
        occ(bins, i),
        min > 0,
        forall|k: int| #[trigger] occ(bins, k) && !used.contains(k) && k != i ==> !can_merge(bins, used.insert(i), k, d),
    ensures
        forall|k: int|
            #[trigger] occ(alloc_down(bins, i, size, min), k) && !used.contains(k) && k != i ==> !can_merge(
                alloc_down(bins, i, size, min),
                used.insert(i),
                k,
                d,
            ),
    decreases bsz(bins, i),
{
    assert(block_ok(blk(bins, i), i, d));
    if occ(bins, i) && blk(bins, i).0 == i && blk(bins, i).1 <= bins.len() && bsize(blk(bins, i))
        >= 2 && size <= (bsize(blk(bins, i)) * min) / 2 {
        lemma_split_partitioned(bins, i, d);
        let nb = split_at(bins, i);
        let s = bsize(blk(bins, i));
        let h = s / 2;
        let u = used.insert(i);
        lemma_half_aligned(i, s);
        lemma_left_half_even(i, s);
        assert(buddy((i, i + h)) == (i + h, i + 2 * h));
        lemma_buddy_involution((i, i + h));
        assert(used_ok(nb, used, d)) by {
            assert forall|k: int| 0 <= k < d && #[trigger] used.contains(k) implies occ(nb, k) by {
                assert(occ(bins, k));
                if k != i && k != i + h {
                    assert(nb[k] == bins[k]);
                }
            }
        }
        assert forall|k: int| #[trigger] occ(nb, k) && !used.contains(k) && k != i implies !can_merge(nb, u, k, d) by {
            if k == i + h {
                assert(blk(nb, k) == (i + h, i + 2 * h));
                assert(buddy(blk(nb, k)).0 == i);
            } else {
                assert(nb[k] == bins[k]);
                assert(occ(bins, k));
                let c = buddy(blk(bins, k));
                if can_merge(nb, u, k, d) {
                    if c.0 == i + h {
                        assert(block_ok(blk(bins, k), k, d));
                        assert(bsize(c) == bsize(blk(bins, k)));
                        assert(c == (i + h, i + 2 * h));
                        lemma_buddy_involution(blk(bins, k));
                        assert(blk(bins, k) == (i, i + h));
                    } else if c.0 != i {
                        assert(nb[c.0] == bins[c.0]);
                        assert(can_merge(bins, u, k, d));
                    }
                }
            }
        }
        lemma_alloc_down_merged(nb, used, i, size, min, d);
        assert(alloc_down(bins, i, size, min) == alloc_down(nb, i, size, min));
    } else {
        assert(alloc_down(bins, i, size, min) == bins);
    }
}

/// Merging upwards from the free bin `j`: where no free block can merge
/// but bin `j` and the buddy of its block when it is as long, no free
/// block can merge once merging stops.
proof fn lemma_merge_up_merged(bins: Bins, used: Set<int>, j: int, d: int)
    requires
        partitioned(bins, d),
        used_ok(bins, used, d),
        occ(bins, j),
        !used.contains(j),
        forall|k: int|
            #[trigger] occ(bins, k) && !used.contains(k) && k != j && !(k == buddy(blk(bins, j)).0 && bsz(bins, k)
                == bsz(bins, j)) ==> !can_merge(bins, used, k, d),
    ensures
        merged(merge_up(bins, used, j, d), used, d),
    decreases d - bsz(bins, j),
{
    if can_merge(bins, used, j, d) && bins.len() == d {
        lemma_merge_partitioned(bins, used, j, d);
        let nb = merge_at(bins, j);
        let lo = parent_start(bins, j);
        let s = bsize(blk(bins, j));
        let c = buddy(blk(bins, j)).0;
        assert(used_ok(nb, used, d)) by {
            assert forall|k: int| 0 <= k < d && #[trigger] used.contains(k) implies occ(nb, k) by {
                assert(occ(bins, k));
                if k == lo + s {
                    assert(k == j || k == c);
                } else if k != lo {
                    assert(nb[k] == bins[k]);
                }
            }
        }
        assert(!used.contains(lo));
        assert forall|k: int|
            #[trigger] occ(nb, k) && !used.contains(k) && k != lo && !(k == buddy(blk(nb, lo)).0 && bsz(nb, k)
                == bsz(nb, lo)) implies !can_merge(nb, used, k, d) by {
            assert(k != lo + s);
            assert(nb[k] == bins[k]);
            assert(occ(bins, k));
            let ck = buddy(blk(bins, k));
            if can_merge(nb, used, k, d) {
                if ck.0 == lo {
                    assert(block_ok(blk(nb, k), k, d));
                    assert(block_ok(blk(nb, lo), lo, d));
                    lemma_buddy_back(nb, d, k, lo);
                } else if ck.0 != lo + s {
                    assert(nb[ck.0] == bins[ck.0]);
                    assert(can_merge(bins, used, k, d));
                    assert(k == j || k == c);
                }
            }
        }
        lemma_merge_up_merged(nb, used, lo, d);
    } else {
        let m = buddy(blk(bins, j)).0;
        assert forall|k: int| #[trigger] occ(bins, k) && !used.contains(k) implies !can_merge(bins, used, k, d) by {
            if k == m && bsz(bins, k) == bsz(bins, j) && k != j {
                if can_merge(bins, used, k, d) {
                    assert(block_ok(blk(bins, k), k, d));
                    assert(block_ok(blk(bins, j), j, d));
                    lemma_buddy_back(bins, d, j, k);
                    assert(buddy(blk(bins, k)) == blk(bins, j));
                    assert(block_ok(blk(bins, j), j, d));
                    assert(can_merge(bins, used, j, d));
                }
            }
        }
    }
}

/// Handing out bin `i`, split down to size, keeps every free block unable
/// to merge.
pub proof fn lemma_alloc_down_keeps_merged(bins: Bins, used: Set<int>, i: int, size: int, min: int, d: int)
    requires
        partitioned(bins, d),
        used_ok(bins, used, d),
        merged(bins, used, d),
        occ(bins, i),
        min > 0,
    ensures
        merged(alloc_down(bins, i, size, min), used.insert(i), d),
{
    assert forall|k: int| #[trigger] occ(bins, k) && !used.contains(k) && k != i implies !can_merge(bins, used.insert(i), k, d) by {
        if can_merge(bins, used.insert(i), k, d) {
            assert(can_merge(bins, used, k, d));
        }
    }
    lemma_alloc_down_merged(bins, used, i, size, min, d);
    let f = alloc_down(bins, i, size, min);
    assert forall|k: int| #[trigger] occ(f, k) && !used.insert(i).contains(k) implies !can_merge(f, used.insert(i), k, d) by {
        assert(!used.contains(k) && k != i);
    }
}

/// Giving back bin `i` and merging upwards from it keeps every free block
/// unable to merge.
pub proof fn lemma_merge_up_keeps_merged(bins: Bins, used: Set<int>, i: int, d: int)
    requires
        partitioned(bins, d),
        used_ok(bins, used, d),
        merged(bins, used, d),
        occ(bins, i),
    ensures
        merged(merge_up(bins, used.remove(i), i, d), used.remove(i), d),
{
    let u = used.remove(i);
    assert(used_ok(bins, u, d));
    assert forall|k: int|
        #[trigger] occ(bins, k) && !u.contains(k) && k != i && !(k == buddy(blk(bins, i)).0 && bsz(bins, k)
            == bsz(bins, i)) implies !can_merge(bins, u, k, d) by {
        if can_merge(bins, u, k, d) {
            let ck = buddy(blk(bins, k));
            if ck.0 == i {
                assert(block_ok(blk(bins, k), k, d));
                assert(block_ok(blk(bins, i), i, d));
                lemma_buddy_back(bins, d, k, i);
            } else {
                assert(!used.contains(ck.0));
                assert(can_merge(bins, used, k, d));
            }
        }
    }
    lemma_merge_up_merged(bins, u, i, d);
}

} // verus!
