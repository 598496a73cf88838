use kos::addr::PageRange;
use kos::kalloc::AllocatorBin;
use kos::klib::kalloc::btree::{BTreeAllocator, BTreeElements, BinPool, ELEMENTS};

fn pool(n: usize) -> BinPool {
    BinPool { bins: vec![AllocatorBin::new(); n], next: 0 }
}

#[test]
fn empty_node_has_no_bins() {
    let node = BTreeElements::empty();
    assert_eq!(node.elements.len(), ELEMENTS);
    assert!(node.elements.iter().all(|e| e.is_none()));
}

#[test]
fn four_pages_cut_into_32_bins() {
    let mut p = pool(40);
    p.next = 3;
    let node = BTreeElements::new(PageRange { start: 0x10_0000, len: 4 }, &mut p);
    assert_eq!(p.next, 3 + 32);
    for k in 0..32 {
        assert_eq!(node.elements[k], Some(3 + k));
        let b = p.bins[3 + k];
        assert_eq!(b.start.addr, 0x10_0000 + 512 * k as u64);
        assert_eq!(b.end.addr, 0x10_0000 + 512 * (k as u64 + 1));
        assert_eq!(b.flags.bits, 1);
    }
    assert_eq!(p.bins[2], AllocatorBin::new());
    assert_eq!(p.bins[35], AllocatorBin::new());
}

#[test]
fn three_pages_leave_places_empty() {
    let mut p = pool(32);
    let node = BTreeElements::new(PageRange { start: 0, len: 3 }, &mut p);
    // a 32nd of 12 KiB is 384 bytes, so the bins are of 512
    assert_eq!(p.next, 24);
    assert_eq!(node.elements[23], Some(23));
    assert_eq!(node.elements[24], None);
    assert_eq!(p.bins[23].end.addr, 3 * 4096);
}

#[test]
fn five_pages_cut_into_20_bins() {
    let mut p = pool(32);
    let node = BTreeElements::new(PageRange { start: 0, len: 5 }, &mut p);
    // a 32nd of 20 KiB is 640 bytes, so the bins are of 1024
    assert_eq!(p.next, 20);
    assert_eq!(node.elements[19], Some(19));
    assert_eq!(p.bins[19].start.addr, 19 * 1024);
    assert_eq!(p.bins[19].end.addr, 20 * 1024);
    for k in 0..19 {
        assert_eq!(p.bins[k].end.addr, p.bins[k + 1].start.addr);
    }
}

#[test]
fn uneven_range_ends_with_a_short_bin() {
    let mut p = pool(32);
    let node = BTreeElements::new(PageRange { start: 0, len: 33 }, &mut p);
    // a 32nd of 132 KiB is 4224 bytes, so the bins are of 8192 and the
    // 17th covers the last half of one
    assert_eq!(p.next, 17);
    assert_eq!(node.elements[16], Some(16));
    assert_eq!(node.elements[17], None);
    assert_eq!(p.bins[16].start.addr, 16 * 8192);
    assert_eq!(p.bins[16].end.addr, 33 * 4096);
}

#[test]
fn empty_range_takes_no_bins() {
    let mut p = pool(1);
    let node = BTreeElements::new(PageRange { start: 0x1000, len: 0 }, &mut p);
    assert_eq!(p.next, 0);
    assert!(node.elements.iter().all(|e| e.is_none()));
}

#[test]
fn recursive_tree_over_64_pages() {
    let mut p = pool(32 + 32 * 32);
    let mut nodes = Vec::new();
    let root = BTreeElements::new_recursive(PageRange { start: 0, len: 64 }, &mut p, &mut nodes);
    assert_eq!(root, 0);
    assert_eq!(nodes.len(), 33);
    assert_eq!(p.next, 32 + 32 * 32);
    // the root's bins are of two pages, each cut again into bins of 256 bytes
    for k in 0..32 {
        let b = p.bins[k];
        assert_eq!((b.start.addr, b.end.addr), (k as u64 * 8192, (k as u64 + 1) * 8192));
        let child = &nodes[b.data];
        let first = child.elements[0].unwrap();
        assert_eq!(p.bins[first].start.addr, b.start.addr);
        assert_eq!(p.bins[child.elements[31].unwrap()].end.addr, b.end.addr);
        assert_eq!(p.bins[first].end.addr - p.bins[first].start.addr, 256);
        assert_eq!(p.bins[first].flags.bits, 1);
    }
}

#[test]
fn allocator_builds_the_tree() {
    let a = BTreeAllocator::new(PageRange { start: 0, len: 64 }, pool(2000));
    assert_eq!(a.range, PageRange { start: 0, len: 64 });
    assert_eq!(a.pool.next, 32 + 32 * 32);
    let bins = a.nodes[a.root].bin_iter(&a.pool);
    assert_eq!(bins.len(), 32);
    assert_eq!(bins[5].0, 5);
    assert_eq!(bins[5].1.start.addr, 5 * 8192);
}

#[test]
fn btree_it_works() {
    const N: usize = 32 + 32 * 32 + 32 * 32 * 32 + 32 * 32 * 32 * 32;
    const MEM: usize = 32 * 32 * 32 * 32 * 4096;
    let range = PageRange { start: 0, len: (MEM / 4096) as u64 };
    let tree = BTreeAllocator::new(range, BinPool { bins: vec![AllocatorBin::new(); N], next: 0 });

    let pre_alloc_sz = (std::alloc::Layout::new::<AllocatorBin>().size() * N) as f64;
    let mem = MEM as f64;

    println!("{}", N);
    println!("{}", mem);
    println!("{}", mem / 4096.0);
    println!("{:?}", std::alloc::Layout::new::<AllocatorBin>());
    println!("{}", pre_alloc_sz * 8.0 / 4096.0);
    println!("{:?}", ("efficiency:", mem / (pre_alloc_sz * 8.0)));

    assert_eq!(tree.pool.next, N);
}
