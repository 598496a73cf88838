//! A tree of allocator bins: a range is cut into at most 32 bins of equal
//! power-of-two size, and each bin of more than one page is cut again.
use vstd::prelude::*;

use crate::addr::{page_floor, PageRange, VirtualAddr};
use crate::bits::{next_pow2, next_power_of_two_u64, lemma_next_pow2_from};
use crate::kalloc::{AllocatorBin, AllocatorBinFlags};

verus! {

/// The number of bins a range is cut into, at most.
pub const ELEMENTS: usize = 32;

/// Bin records handed out one after the other, from `next` on.
pub struct BinPool {
    pub bins: Vec<AllocatorBin>,
    pub next: usize,
}

/// The bytes of a range.
pub open spec fn range_bytes(r: PageRange) -> int {
    r.len * 4096
}

/// The size of the bins a range is cut into: the least power of two that
/// is at least a 32nd of it.
pub open spec fn bin_size(r: PageRange) -> int {
    next_pow2(range_bytes(r) / 32)
}

/// The number of bins a range is cut into.
pub open spec fn bin_count(r: PageRange) -> int {
    (range_bytes(r) + bin_size(r) - 1) / bin_size(r)
}

/// Where bin `k` of a range starts.
pub open spec fn tile_start(r: PageRange, k: int) -> int {
    r.start + k * bin_size(r)
}

/// Where bin `k` of a range ends: a bin size further, or at the range's end.
pub open spec fn tile_end(r: PageRange, k: int) -> int {
    let e = r.start + (k + 1) * bin_size(r);
    if e < r.start + range_bytes(r) {
        e
    } else {
        r.start + range_bytes(r)
    }
}

/// The record `b` marked used and set to cover `start..end`.
pub open spec fn placed(b: AllocatorBin, start: int, end: int) -> AllocatorBin {
    AllocatorBin {
        flags: AllocatorBinFlags { bits: b.flags.bits | 1 },
        start: VirtualAddr { addr: start as u64 },
        end: VirtualAddr { addr: end as u64 },
        data: b.data,
    }
}

proof fn lemma_used_bit(b: u64)
    by (bit_vector)
    ensures
        (b | 1u64) & 1u64 == 1u64,
{
}

proof fn lemma_bin_count(r: PageRange)
    requires
        r.start + r.len * 4096 <= u64::MAX,
    ensures
        bin_size(r) >= 1,
        0 <= bin_count(r) <= 32,
        range_bytes(r) <= 32 * bin_size(r),
        range_bytes(r) / 32 <= 0x8000_0000_0000_0000,
{
    let n = range_bytes(r);
    let q = n / 32;
    lemma_next_pow2_from(1, q);
    let b = bin_size(r);
    assert(n == 32 * q);
    assert(n <= 32 * b);
    assert((n + b - 1) / b <= 32) by (nonlinear_arith)
        requires
            b >= 1,
            n <= 32 * b,
            n >= 0,
    {
        assert(n + b - 1 < 33 * b);
    }
    assert((n + b - 1) / b >= 0) by (nonlinear_arith)
        requires
            b >= 1,
            n >= 0,
    ;
}

/// The pages of bin `k` of a range, from the one holding its start up to,
/// not including, the one holding its end.
pub open spec fn child_range(r: PageRange, k: int) -> PageRange {
    let s = page_floor(tile_start(r, k));
    let e = page_floor(tile_end(r, k));
    PageRange { start: s as u64, len: ((e - s) / 4096) as u64 }
}

/// Bin `k` of a range is cut again.
pub open spec fn splits(r: PageRange, k: int) -> bool {
    child_range(r, k).len > 1 && child_range(r, k).len < r.len
}

/// The number of records the tree over a range takes.
pub open spec fn tree_bins(r: PageRange) -> int
    decreases r.len, 33int,
{
    bin_count(r) + bins_from(r, 0)
}

/// The number of records the subtrees of bins `k`, `k + 1`, ... take.
pub open spec fn bins_from(r: PageRange, k: int) -> int
    decreases r.len, 32 - k,
{
    if k < 0 || k >= 32 || k >= bin_count(r) {
        0
    } else {
        (if splits(r, k) {
            tree_bins(child_range(r, k))
        } else {
            0
        }) + bins_from(r, k + 1)
    }
}

/// Where the records of the subtree of bin `k` start, for a tree whose
/// records start at `lo`.
pub open spec fn child_lo(r: PageRange, lo: int, k: int) -> int {
    lo + bin_count(r) + (bins_from(r, 0) - bins_from(r, k))
}

/// Node `idx` is the root of the tree over `r` whose records start at `lo`:
/// it holds the next `bin_count(r)` records, each marked used and covering
/// its part of the range, and each bin that is cut again links, by its data, the root of
/// the tree over its pages.
pub open spec fn tree_at(nodes: Seq<BTreeElements>, bins: Seq<AllocatorBin>, idx: int, r: PageRange, lo: int) -> bool
    decreases r.len, 33int,
{
    &&& 0 <= idx < nodes.len()
    &&& nodes[idx].elements@.len() == 32
    &&& forall|k: int|
        0 <= k < 32 ==> #[trigger] nodes[idx].elements@[k] == (if k < bin_count(r) {
            Some((lo + k) as usize)
        } else {
            None
        })
    &&& 0 <= lo
    &&& lo + bin_count(r) <= bins.len()
    &&& forall|k: int|
        0 <= k < bin_count(r) ==> (#[trigger] bins[lo + k]).start.addr == tile_start(r, k) && bins[lo + k].end.addr
            == tile_end(r, k) && bins[lo + k].flags.bits & 1 == 1
    &&& children_at(nodes, bins, r, lo, 0)
}

/// The bins `k`, `k + 1`, ... of the tree over `r` whose records start at
/// `lo` that are cut again link the roots of their trees.
pub open spec fn children_at(nodes: Seq<BTreeElements>, bins: Seq<AllocatorBin>, r: PageRange, lo: int, k: int) -> bool
    decreases r.len, 32 - k,
{
    if k < 0 || k >= 32 || k >= bin_count(r) {
        true
    } else {
        &&& (splits(r, k) ==> tree_at(nodes, bins, bins[lo + k].data as int, child_range(r, k), child_lo(r, lo, k)))
        &&& children_at(nodes, bins, r, lo, k + 1)
    }
}

proof fn lemma_tree_bins_nonneg(r: PageRange)
    ensures
        bin_size(r) >= 1,
        bin_count(r) >= 0,
        tree_bins(r) >= bin_count(r),
    decreases r.len, 33int,
{
    lemma_next_pow2_from(1, range_bytes(r) / 32);
    let b = bin_size(r);
    let n = range_bytes(r);
    assert((n + b - 1) / b >= 0) by (nonlinear_arith)
        requires
            b >= 1,
            n >= 0,
    ;
    lemma_bins_from_nonneg(r, 0);
}

proof fn lemma_bins_from_nonneg(r: PageRange, k: int)
    ensures
        bins_from(r, k) >= 0,
    decreases r.len, 32 - k,
{
    if !(k < 0 || k >= 32 || k >= bin_count(r)) {
        if splits(r, k) {
            lemma_tree_bins_nonneg(child_range(r, k));
        }
        lemma_bins_from_nonneg(r, k + 1);
    }
}

proof fn lemma_bins_from_mono(r: PageRange, k: int)
    requires
        0 <= k,
    ensures
        bins_from(r, 0) >= bins_from(r, k),
    decreases k,
{
    if k > 0 {
        lemma_bins_from_mono(r, k - 1);
        lemma_bins_from_nonneg(r, k);
        if !(k - 1 >= 32 || k - 1 >= bin_count(r)) && splits(r, k - 1) {
            lemma_tree_bins_nonneg(child_range(r, k - 1));
        }
    }
}

/// Trees stay where they are when nodes are added after them and records
/// outside theirs change.
proof fn lemma_tree_frame(
    n1: Seq<BTreeElements>,
    b1: Seq<AllocatorBin>,
    n2: Seq<BTreeElements>,
    b2: Seq<AllocatorBin>,
    idx: int,
    r: PageRange,
    lo: int,
)
    requires
        tree_at(n1, b1, idx, r, lo),
        n1.len() <= n2.len(),
        forall|j: int| 0 <= j < n1.len() ==> #[trigger] n2[j] == n1[j],
        b1.len() == b2.len(),
        forall|j: int| lo <= j < lo + tree_bins(r) ==> #[trigger] b2[j] == b1[j],
    ensures
        tree_at(n2, b2, idx, r, lo),
    decreases r.len, 33int,
{
    lemma_tree_bins_nonneg(r);
    assert forall|k: int| 0 <= k < bin_count(r) implies (#[trigger] b2[lo + k]).start.addr == tile_start(r, k)
        && b2[lo + k].end.addr == tile_end(r, k) && b2[lo + k].flags.bits & 1 == 1 by {
        assert(b2[lo + k] == b1[lo + k]);
    }
    assert(n2[idx] == n1[idx]);
    lemma_children_frame(n1, b1, n2, b2, r, lo, 0);
}

proof fn lemma_children_frame(
    n1: Seq<BTreeElements>,
    b1: Seq<AllocatorBin>,
    n2: Seq<BTreeElements>,
    b2: Seq<AllocatorBin>,
    r: PageRange,
    lo: int,
    k: int,
)
    requires
        children_at(n1, b1, r, lo, k),
        0 <= k,
        0 <= lo,
        n1.len() <= n2.len(),
        forall|j: int| 0 <= j < n1.len() ==> #[trigger] n2[j] == n1[j],
        b1.len() == b2.len(),
        forall|j: int| lo <= j < lo + tree_bins(r) ==> #[trigger] b2[j] == b1[j],
    ensures
        children_at(n2, b2, r, lo, k),
    decreases r.len, 32 - k,
{
    if !(k >= 32 || k >= bin_count(r)) {
        lemma_tree_bins_nonneg(r);
        lemma_bins_from_nonneg(r, k + 1);
        lemma_bins_from_mono(r, k);
        assert(b2[lo + k] == b1[lo + k]);
        if splits(r, k) {
            let c = child_range(r, k);
            lemma_tree_bins_nonneg(c);
            assert(bins_from(r, k) == tree_bins(c) + bins_from(r, k + 1));
            assert forall|j: int| child_lo(r, lo, k) <= j < child_lo(r, lo, k) + tree_bins(c) implies #[trigger] b2[j]
                == b1[j] by {
                assert(lo <= j < lo + tree_bins(r));
            }
            lemma_tree_frame(n1, b1, n2, b2, b1[lo + k].data as int, c, child_lo(r, lo, k));
        }
        lemma_children_frame(n1, b1, n2, b2, r, lo, k + 1);
    }
}

proof fn lemma_tile(r: PageRange, k: int)
    requires
        r.start + r.len * 4096 <= u64::MAX,
        0 <= k < bin_count(r),
    ensures
        r.start <= tile_start(r, k) < tile_end(r, k) <= r.start + range_bytes(r),
        tile_end(r, k) - tile_start(r, k) <= bin_size(r),
        range_bytes(r) > 0,
{
    lemma_bin_count(r);
    let b = bin_size(r);
    let n = range_bytes(r);
    assert(k * b < n) by (nonlinear_arith)
        requires
            b >= 1,
            0 <= k < (n + b - 1) / b,
            n >= 0,
    {
        assert(k + 1 <= (n + b - 1) / b);
        assert((k + 1) * b <= n + b - 1);
    }
    assert(k * b >= 0) by (nonlinear_arith)
        requires
            b >= 1,
            k >= 0,
    ;
    assert((k + 1) * b == k * b + b) by (nonlinear_arith);
}

proof fn lemma_child_range(r: PageRange, k: int)
    requires
        r.start + r.len * 4096 <= u64::MAX,
        0 <= k < bin_count(r),
    ensures
        child_range(r, k).start == page_floor(tile_start(r, k)),
        child_range(r, k).len * 4096 == page_floor(tile_end(r, k)) - page_floor(tile_start(r, k)),
        child_range(r, k).start + child_range(r, k).len * 4096 <= u64::MAX,
        child_range(r, k).len > 1 ==> child_range(r, k).len < r.len,
{
    lemma_tile(r, k);
    lemma_bin_count(r);
    let s = tile_start(r, k);
    let e = tile_end(r, k);
    let fs = page_floor(s);
    let fe = page_floor(e);
    assert(fs % 4096 == 0 && fe % 4096 == 0);
    assert((fe - fs) % 4096 == 0);
    let c = (fe - fs) / 4096;
    assert(c * 4096 == fe - fs);
    let l = r.len as int;
    let q = range_bytes(r) / 32;
    assert(q == 128 * l);
    lemma_next_pow2_from(1, q);
    if c > 1 {
        assert(fe - fs <= e - s + 4095);
        assert(l >= 1);
        assert(bin_size(r) < 256 * l);
        assert(c * 4096 < 256 * l + 4096);
        assert(c < l) by (nonlinear_arith)
            requires
                c * 4096 < 256 * l + 4096,
                c >= 2,
        ;
    }
}

proof fn lemma_children_from_all(nodes: Seq<BTreeElements>, bins: Seq<AllocatorBin>, r: PageRange, lo: int, k: int)
    requires
        0 <= k,
        forall|j: int|
            k <= j < bin_count(r) && j < 32 && #[trigger] splits(r, j) ==> tree_at(
                nodes,
                bins,
                bins[lo + j].data as int,
                child_range(r, j),
                child_lo(r, lo, j),
            ),
    ensures
        children_at(nodes, bins, r, lo, k),
    decreases 32 - k,
{
    if !(k >= 32 || k >= bin_count(r)) {
        lemma_children_from_all(nodes, bins, r, lo, k + 1);
    }
}

proof fn lemma_children_mono_lo(r: PageRange, lo: int, a: int, b: int)
    requires
        0 <= a <= b,
    ensures
        child_lo(r, lo, a) <= child_lo(r, lo, b),
    decreases b - a,
{
    if a < b {
        lemma_children_mono_lo(r, lo, a + 1, b);
        lemma_bins_from_nonneg(r, a + 1);
        if !(a >= 32 || a >= bin_count(r)) && splits(r, a) {
            lemma_tree_bins_nonneg(child_range(r, a));
        }
    }
}

/// The bins of one node of the tree: indices of records in the pool.
pub struct BTreeElements {
    pub elements: Vec<Option<usize>>,
}

impl BTreeElements {
    /// A node with no bins.
    pub fn empty() -> (r: Self)
        ensures
            r.elements@ == Seq::new(32, |i: int| None::<usize>),
    {
        let mut elements: Vec<Option<usize>> = Vec::new();
        let mut i: usize = 0;
        while i < ELEMENTS
            invariant
                i <= 32,
                elements@ == Seq::new(i as nat, |j: int| None::<usize>),
            decreases 32 - i,
        {
            elements.push(None);
            i += 1;
            assert(elements@ =~= Seq::new(i as nat, |j: int| None::<usize>));
        }
        BTreeElements { elements }
    }

    /// Cuts `range` into bins of `bin_size(range)` bytes, the last one
    /// shorter where the range ends, each taking the next record of `pool`,
    /// marked used and set to its part of the range.
    pub fn new(range: PageRange, pool: &mut BinPool) -> (r: Self)
        requires
            range.start + range.len * 4096 <= u64::MAX,
            old(pool).next + bin_count(range) <= old(pool).bins@.len(),
        ensures
            final(pool).bins@.len() == old(pool).bins@.len(),
            final(pool).next == old(pool).next + bin_count(range),
            forall|k: int|
                0 <= k < bin_count(range) ==> final(pool).bins@[old(pool).next + k] == placed(
                    #[trigger] old(pool).bins@[old(pool).next + k],
                    tile_start(range, k),
                    tile_end(range, k),
                ),
            forall|j: int|
                0 <= j < old(pool).bins@.len() && !(old(pool).next <= j < old(pool).next + bin_count(range))
                    ==> final(pool).bins@[j] == old(pool).bins@[j],
            r.elements@.len() == 32,
            forall|k: int|
                0 <= k < 32 ==> r.elements@[k] == (if k < bin_count(range) {
                    Some((old(pool).next + k) as usize)
                } else {
                    None
                }),
    {
        proof {
            lemma_bin_count(range);
        }
        let ghost old_pool = *pool;
        let ghost count = bin_count(range);
        let n: u64 = range.len * 4096;
        let bs = next_power_of_two_u64(n / 32);
        assert(bs == bin_size(range));
        let mut root = Self::empty();
        let mut start = range.start;
        let mut left = n;
        let mut i: usize = 0;
        while left > 0
            invariant
                n == range_bytes(range),
                bs == bin_size(range),
                bs >= 1,
                count == bin_count(range),
                0 <= count <= 32,
                n <= 32 * bs,
                range.start + n <= u64::MAX,
                i <= count,
                (i * bs < n && left == n - i * bs) || (left == 0 && i == count),
                start == range.start + (n - left),
                pool.next == old_pool.next + i,
                old_pool.next + count <= old_pool.bins@.len(),
                pool.bins@.len() == old_pool.bins@.len(),
                forall|k: int|
                    0 <= k < i ==> pool.bins@[old_pool.next + k] == placed(
                        #[trigger] old_pool.bins@[old_pool.next + k],
                        tile_start(range, k),
                        tile_end(range, k),
                    ),
                forall|j: int|
                    0 <= j < old_pool.bins@.len() && !(old_pool.next <= j < old_pool.next + i) ==> pool.bins@[j]
                        == old_pool.bins@[j],
                root.elements@.len() == 32,
                forall|k: int|
                    0 <= k < 32 ==> root.elements@[k] == (if k < i {
                        Some((old_pool.next + k) as usize)
                    } else {
                        None
                    }),
            decreases left,
        {
            assert(i < count) by (nonlinear_arith)
                requires
                    i * bs < n,
                    count == (n + bs - 1) / (bs as int),
                    bs >= 1,
            {
                assert(n + bs - 1 >= (i + 1) * bs);
            }
            let size = if bs < left {
                bs
            } else {
                left
            };
            let end = start + size;
            let b = pool.next;
            let blen = pool.bins.len();
            assert(b < blen);
            let mut bin = pool.bins[b];
            bin.flags = bin.flags.union(AllocatorBinFlags::used());
            bin.start = VirtualAddr::new(start);
            bin.end = VirtualAddr::new(end);
            pool.bins.set(b, bin);
            pool.next = b + 1;
            root.elements.set(i, Some(b));
            proof {
                assert(tile_start(range, i as int) == start);
                assert((i + 1) * bs == i * bs + bs) by (nonlinear_arith);
                if bs < left {
                    assert((i + 1) * bs < n);
                    assert(tile_end(range, i as int) == end);
                } else {
                    assert(n <= (i + 1) * bs);
                    assert(tile_end(range, i as int) == end);
                    assert(count == i + 1) by (nonlinear_arith)
                        requires
                            i * bs < n,
                            n <= (i + 1) * bs,
                            count == (n + bs - 1) / (bs as int),
                            bs >= 1,
                    {
                        assert(n + bs - 1 < (i + 2) * bs);
                        assert(n + bs - 1 >= (i + 1) * bs);
                    }
                }
            }
            i += 1;
            left = left - size;
            start = end;
        }
        proof {
            if count > 0 {
                assert(i == count);
            } else {
                assert(i == 0);
            }
        }
        root
    }

    /// The tree over `range`: its root takes the next records of `pool` as
    /// `new` does, and each of its bins of more than one page gets, in
    /// order, a tree over its pages, whose root it links by its data. The
    /// nodes are added to `nodes`; the index of the root is returned.
    pub fn new_recursive(range: PageRange, pool: &mut BinPool, nodes: &mut Vec<BTreeElements>) -> (idx: usize)
        requires
            range.start + range.len * 4096 <= u64::MAX,
            old(pool).next + tree_bins(range) <= old(pool).bins@.len(),
        ensures
            final(pool).bins@.len() == old(pool).bins@.len(),
            final(pool).next == old(pool).next + tree_bins(range),
            forall|j: int|
                0 <= j < old(pool).bins@.len() && !(old(pool).next <= j < final(pool).next)
                    ==> #[trigger] final(pool).bins@[j] == old(pool).bins@[j],
            old(nodes)@.len() <= final(nodes)@.len(),
            forall|j: int| 0 <= j < old(nodes)@.len() ==> #[trigger] final(nodes)@[j] == old(nodes)@[j],
            tree_at(final(nodes)@, final(pool).bins@, idx as int, range, old(pool).next as int),
        decreases range.len,
    {
        proof {
            lemma_tree_bins_nonneg(range);
            lemma_bin_count(range);
        }
        let ghost old_bins = pool.bins@;
        let ghost old_nodes = nodes@;
        let ghost count = bin_count(range);
        let blo = pool.next;
        let node = BTreeElements::new(range, pool);
        let idx = nodes.len();
        nodes.push(node);
        let ghost nodes0 = nodes@;
        proof {
            assert forall|j: int| 0 <= j < count implies (#[trigger] pool.bins@[blo + j]).start.addr == tile_start(range, j)
                && pool.bins@[blo + j].end.addr == tile_end(range, j) && pool.bins@[blo + j].flags.bits & 1 == 1 by {
                lemma_tile(range, j);
                assert(pool.bins@[blo + j] == placed(old_bins[blo + j], tile_start(range, j), tile_end(range, j)));
                lemma_used_bit(old_bins[blo + j].flags.bits);
            }
        }
        let mut k: usize = 0;
        while k < ELEMENTS
            invariant
                k <= 32,
                count <= tree_bins(range),
                range.start + range.len * 4096 <= u64::MAX,
                count == bin_count(range),
                0 <= count <= 32,
                blo + tree_bins(range) <= pool.bins@.len(),
                pool.bins@.len() == old_bins.len(),
                pool.next == child_lo(range, blo as int, k as int),
                idx < nodes0.len(),
                nodes0.len() <= nodes@.len(),
                forall|j: int| 0 <= j < nodes0.len() ==> #[trigger] nodes@[j] == nodes0[j],
                forall|j: int| 0 <= j < old_nodes.len() ==> #[trigger] nodes0[j] == old_nodes[j],
                old_nodes.len() == idx,
                nodes0[idx as int].elements@.len() == 32,
                forall|j: int|
                    0 <= j < 32 ==> #[trigger] nodes0[idx as int].elements@[j] == (if j < count {
                        Some((blo + j) as usize)
                    } else {
                        None
                    }),
                forall|j: int|
                    0 <= j < old_bins.len() && !(blo <= j < pool.next) ==> #[trigger] pool.bins@[j] == old_bins[j],
                forall|j: int|
                    0 <= j < count ==> (#[trigger] pool.bins@[blo + j]).start.addr == tile_start(range, j)
                        && pool.bins@[blo + j].end.addr == tile_end(range, j) && pool.bins@[blo + j].flags.bits & 1
                        == 1,
                forall|j: int|
                    0 <= j < k && j < count && #[trigger] splits(range, j) ==> tree_at(
                        nodes@,
                        pool.bins@,
                        pool.bins@[blo + j].data as int,
                        child_range(range, j),
                        child_lo(range, blo as int, j),
                    ),
            decreases 32 - k,
        {
            let e = nodes[idx].elements[k];
            assert(nodes@[idx as int] == nodes0[idx as int]);
            proof {
                lemma_bins_from_nonneg(range, k as int + 1);
                lemma_bins_from_mono(range, k as int);
            }
            match e {
                Some(b) => {
                    assert(b == blo + k && k < count);
                    proof {
                        lemma_tile(range, k as int);
                        lemma_child_range(range, k as int);
                    }
                    let bin = pool.bins[b];
                    if bin.len() > 1 {
                        let cr = bin.range();
                        assert(cr == child_range(range, k as int));
                        assert(splits(range, k as int));
                        assert(bins_from(range, k as int) == tree_bins(cr) + bins_from(range, k as int + 1));
                        let ghost bins1 = pool.bins@;
                        let ghost nodes1 = nodes@;
                        let child = Self::new_recursive(cr, pool, nodes);
                        let ghost bins2 = pool.bins@;
                        let mut bb = pool.bins[b];
                        bb.data = child;
                        pool.bins.set(b, bb);
                        proof {
                            lemma_tree_bins_nonneg(cr);
                            let lo_k = child_lo(range, blo as int, k as int);
                            assert forall|j: int| lo_k <= j < lo_k + tree_bins(cr) implies #[trigger] pool.bins@[j] == bins2[j] by {
                                assert(j != b);
                            }
                            lemma_tree_frame(nodes@, bins2, nodes@, pool.bins@, child as int, cr, lo_k);
                            assert forall|j: int|
                                0 <= j < k + 1 && j < count && #[trigger] splits(range, j) implies tree_at(
                                nodes@,
                                pool.bins@,
                                pool.bins@[blo + j].data as int,
                                child_range(range, j),
                                child_lo(range, blo as int, j),
                            ) by {
                                if j < k {
                                    let cj = child_range(range, j);
                                    let lo_j = child_lo(range, blo as int, j);
                                    lemma_bins_from_mono(range, j);
                                    lemma_bins_from_nonneg(range, j + 1);
                                    lemma_bins_from_mono(range, j + 1);
                                    lemma_tree_bins_nonneg(cj);
                                    assert(bins_from(range, j) == tree_bins(cj) + bins_from(range, j + 1));
                                    lemma_children_mono_lo(range, blo as int, j + 1, k as int);
                                    assert(pool.bins@[blo + j] == bins1[blo + j]);
                                    assert forall|i: int| lo_j <= i < lo_j + tree_bins(cj) implies #[trigger] pool.bins@[i]
                                        == bins1[i] by {
                                        assert(i != b);
                                        assert(bins2[i] == bins1[i]);
                                    }
                                    lemma_tree_frame(nodes1, bins1, nodes@, pool.bins@, bins1[blo + j].data as int, cj, lo_j);
                                }
                            }
                        }
                    } else {
                        assert(!splits(range, k as int));
                    }
                },
                None => {
                    assert(k >= count);
                },
            }
            k += 1;
        }
        proof {
            lemma_children_from_all(nodes@, pool.bins@, range, blo as int, 0);
            assert(child_lo(range, blo as int, 32) == blo + tree_bins(range));
            assert(nodes@[idx as int] == nodes0[idx as int]);
        }
        idx
    }
    /// The bins of the node, with their places in it.
    pub fn bin_iter(&self, pool: &BinPool) -> (r: Vec<(usize, AllocatorBin)>)
        requires
            forall|k: int|
                0 <= k < self.elements@.len() && (#[trigger] self.elements@[k]) is Some ==> self.elements@[k]->Some_0
                    < pool.bins@.len(),
        ensures
            r@ == node_bins(self.elements@, pool.bins@, self.elements@.len() as int),
    {
        let mut r: Vec<(usize, AllocatorBin)> = Vec::new();
        let mut k: usize = 0;
        while k < self.elements.len()
            invariant
                k <= self.elements@.len(),
                forall|k: int|
                    0 <= k < self.elements@.len() && (#[trigger] self.elements@[k]) is Some ==> self.elements@[k]->Some_0
                        < pool.bins@.len(),
                r@ == node_bins(self.elements@, pool.bins@, k as int),
            decreases self.elements@.len() - k,
        {
            match self.elements[k] {
                Some(b) => {
                    r.push((k, pool.bins[b]));
                },
                None => {},
            }
            k += 1;
        }
        r
    }
}

/// The bins among the first `k` places of a node, with their places.
pub open spec fn node_bins(elements: Seq<Option<usize>>, bins: Seq<AllocatorBin>, k: int) -> Seq<(usize, AllocatorBin)>
    decreases k,
{
    if k <= 0 {
        Seq::empty()
    } else {
        let rest = node_bins(elements, bins, k - 1);
        match elements[k - 1] {
            Some(b) => rest.push(((k - 1) as usize, bins[b as int])),
            None => rest,
        }
    }
}

/// A tree of bins over a range, with its nodes and the records it takes.
pub struct BTreeAllocator {
    pub range: PageRange,
    pub root: usize,
    pub nodes: Vec<BTreeElements>,
    pub pool: BinPool,
}

impl BTreeAllocator {
    /// The tree over `range`, built from the records of `pool`.
    pub fn new(range: PageRange, pool: BinPool) -> (r: Self)
        requires
            range.start + range.len * 4096 <= u64::MAX,
            pool.next + tree_bins(range) <= pool.bins@.len(),
        ensures
            r.range == range,
            r.pool.bins@.len() == pool.bins@.len(),
            r.pool.next == pool.next + tree_bins(range),
            forall|j: int|
                0 <= j < pool.bins@.len() && !(pool.next <= j < r.pool.next) ==> #[trigger] r.pool.bins@[j]
                    == pool.bins@[j],
            tree_at(r.nodes@, r.pool.bins@, r.root as int, range, pool.next as int),
    {
        let mut pool = pool;
        let mut nodes: Vec<BTreeElements> = Vec::new();
        let root = BTreeElements::new_recursive(range, &mut pool, &mut nodes);
        BTreeAllocator { range, root, nodes, pool }
    }
}

/// The bins of a node cover its range one after the other, with neither
/// gap nor overlap: the first starts where the range does, each ends where
/// the next starts, and the last ends where the range does.
pub proof fn lemma_tiles_cover(r: PageRange, k: int)
    requires
        r.start + r.len * 4096 <= u64::MAX,
        0 <= k < bin_count(r),
    ensures
        tile_start(r, 0) == r.start,
        k + 1 < bin_count(r) ==> tile_end(r, k) == tile_start(r, k + 1),
        k + 1 == bin_count(r) ==> tile_end(r, k) == r.start + range_bytes(r),
{
    lemma_bin_count(r);
    lemma_tile(r, k);
    let b = bin_size(r);
    let n = range_bytes(r);
    assert((k + 1) * b == k * b + b) by (nonlinear_arith);
    if k + 1 < bin_count(r) {
        lemma_tile(r, k + 1);
    } else {
        assert(n <= (k + 1) * b) by (nonlinear_arith)
            requires
                b >= 1,
                k + 1 == (n + b - 1) / b,
                n >= 0,
        {
            assert(n + b - 1 < (k + 2) * b);
        }
    }
}


} // verus!
