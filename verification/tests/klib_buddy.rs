use kos::addr::PageRange;
use kos::kalloc::{AllocatorBin, CopyStep};
use kos::klib::kalloc::buddy::{buddy_of, BuddyAllocator, Error, DEPTH};

const ADDR: u64 = 0xdead_beef;

fn fresh() -> BuddyAllocator<128> {
    let bins = vec![AllocatorBin::new(); DEPTH];
    BuddyAllocator::<128>::new(bins, PageRange::with_size(ADDR, DEPTH as u64 * 128)).unwrap()
}

fn size_at(buddy: &BuddyAllocator<128>, i: usize) -> Option<usize> {
    buddy.get(i).map(|b| b.size())
}

#[test]
fn buddy_allocate_all_slabs() {
    let mut buddy = fresh();
    for _ in 0..DEPTH {
        buddy.allocate_mut(1).unwrap();
    }
    for i in 8..24 {
        let bin = buddy.bucket_at(i);
        assert!(!bin.is_empty());
        assert_eq!(bin.size(), 128)
    }
    assert!(buddy.len() == DEPTH);
}

#[test]
fn buddy_allocate_all_big() {
    let mut buddy = fresh();
    let _ = buddy.allocate_mut(512).unwrap();
    assert!(buddy.len() == 1);
}

#[test]
fn buddy_shrink_once() {
    let mut buddy = fresh();
    let old_ptr = buddy.allocate_mut(512).unwrap();
    assert!(buddy.len() == 1);
    assert!(buddy.is_used(0));
    assert_eq!(size_at(&buddy, 0), Some(4096));

    let new_ptr = buddy.shrink_mut(old_ptr.0, 512, 256).unwrap();
    assert!(buddy.len() == 1);
    assert!(buddy.is_used(0));
    assert!(!buddy.is_used(16));
    assert_eq!(new_ptr.0, old_ptr.0);
    assert_eq!(size_at(&buddy, 0), Some(2048));
    assert_eq!(size_at(&buddy, 16), Some(2048));
}

#[test]
fn buddy_grow_big_fast() {
    let mut buddy = fresh();
    // splits the allocator in blocks of 1024, 1024, 2048 and 4096 units
    let ptr = buddy.allocate_mut(128).unwrap();
    assert_eq!(size_at(&buddy, 0), Some(1024));
    assert!(buddy.get(0).map(|b| b.is_allocated()).unwrap_or(false));
    assert_eq!(size_at(&buddy, 8), Some(1024));
    assert!(!buddy.get(8).map(|b| b.is_allocated()).unwrap_or(true));
    assert_eq!(size_at(&buddy, 16), Some(2048));
    assert!(!buddy.get(16).map(|b| b.is_allocated()).unwrap_or(true));

    // merges the first two blocks
    let ptr = buddy.grow_mut(ptr.0, 128, 256).unwrap();
    assert_eq!(size_at(&buddy, 0), Some(2048));
    assert_eq!(size_at(&buddy, 16), Some(2048));

    // merges again
    let _ = buddy.grow_mut(ptr.0, 256, 512).unwrap();
    assert_eq!(size_at(&buddy, 0), Some(4096));

    assert!(buddy.len() == 1);
}

#[test]
fn buddy_allocate_mixed() {
    let mut buddy = fresh();
    // two slots of 512 units
    let _ = buddy.allocate_mut(64).unwrap();
    assert!(buddy.is_used(0));
    assert!(!buddy.is_used(1));
    assert!(!buddy.is_used(2));
    assert!(!buddy.is_used(3));
    assert!(!buddy.is_used(4));

    let _ = buddy.allocate_mut(64).unwrap();
    assert!(buddy.is_used(4));
    assert!(!buddy.is_used(5));
    assert!(!buddy.is_used(6));
    assert!(!buddy.is_used(7));

    // sixteen slots of 128 units
    for _ in 0..16 {
        let _ = buddy.allocate_mut(1).unwrap();
    }
    for i in 8..24 {
        let bin = buddy.bucket_at(i);
        assert!(!bin.is_empty());
        assert_eq!(bin.size(), 128);
    }

    // one block of 1024 units
    let _ = buddy.allocate_mut(128).unwrap();
    assert!(buddy.is_used(24));
    for i in 25..32 {
        assert!(!buddy.is_used(i));
    }

    assert!(buddy.len() == 19);
}

#[test]
fn buddy_deallocate_all_slabs() {
    let mut buddy = fresh();
    let allocs: Vec<_> = (0..DEPTH).map(|_| buddy.allocate_mut(1).unwrap()).collect();
    assert_eq!(allocs.len(), DEPTH);
    for alloc in allocs {
        buddy.deallocate_mut(alloc.0, 1);
    }
    assert_eq!(size_at(&buddy, 0), Some(DEPTH * 128));
    for i in 1..DEPTH {
        assert!(buddy.bucket_at(i).is_empty());
    }
    assert!(buddy.len() == 0);
}

#[test]
fn buddy_buddy_of_test() {
    assert_eq!(buddy_of(0..1), 1..2);
    assert_eq!(buddy_of(1..2), 0..1);

    assert_eq!(buddy_of(2..3), 3..4);
    assert_eq!(buddy_of(3..4), 2..3);

    assert_eq!(buddy_of(4..5), 5..6);
    assert_eq!(buddy_of(5..6), 4..5);

    assert_eq!(buddy_of(0..2), 2..4);
    assert_eq!(buddy_of(2..4), 0..2);

    assert_eq!(buddy_of(0..4), 4..8);
    assert_eq!(buddy_of(4..8), 0..4);

    assert_eq!(buddy_of(0..8), 8..16);
    assert_eq!(buddy_of(8..16), 0..8);

    assert_eq!(buddy_of(0..16), 16..32);
    assert_eq!(buddy_of(16..32), 0..16);

    assert_eq!(buddy_of(0..32), 32..64);
    assert_eq!(buddy_of(32..64), 0..32);
}

#[test]
fn buddy_new_refuses_bad_setups() {
    let bins = vec![AllocatorBin::new(); DEPTH];
    let r = BuddyAllocator::<100>::new(bins, PageRange::with_size(ADDR, DEPTH as u64 * 100));
    assert!(matches!(r, Err(Error::InvalidPowerOfTwo)));

    let bins = vec![AllocatorBin::new(); DEPTH - 1];
    let r = BuddyAllocator::<128>::new(bins, PageRange::with_size(ADDR, DEPTH as u64 * 128));
    assert!(matches!(r, Err(Error::InvalidBinSliceSize)));

    let bins = vec![AllocatorBin::new(); DEPTH];
    let r = BuddyAllocator::<128>::new(bins, PageRange::with_size(ADDR, 4096));
    assert!(matches!(r, Err(Error::InvalidFrameRange { expected: 2, got: 1 })));
}

#[test]
fn buddy_allocate_then_deallocate_restores() {
    let mut buddy = fresh();
    let a = buddy.allocate_mut(100).unwrap();
    // 100 bytes round to 1024 units: a block of eight slots at the start
    assert_eq!(a.1, 128);
    assert!(a.1 >= 100);
    assert_eq!(size_at(&buddy, 32), Some(4096));
    buddy.deallocate_mut(a.0, 100);
    assert_eq!(size_at(&buddy, 0), Some(DEPTH * 128));
    for i in 1..DEPTH {
        assert!(buddy.bucket_at(i).is_empty());
    }
    assert!(buddy.is_empty());
}

#[test]
fn buddy_contains_and_pages() {
    let buddy = fresh();
    let base = ADDR - ADDR % 4096;
    assert!(buddy.contains(base));
    assert!(buddy.contains(base + 64 * 128 - 1));
    assert!(!buddy.contains(base + 64 * 128));
    assert!(!buddy.contains(base - 1));
    assert_eq!(buddy.pages(), 2);
}

#[test]
fn buddy_full_allocator_refuses() {
    let mut buddy = fresh();
    let _ = buddy.allocate_mut(1024).unwrap();
    assert!(buddy.allocate_mut(1).is_err());
    // only slot 0 is in use: a slot-sized block could start elsewhere, a
    // block of all slots could not
    assert!(buddy.have_buckets_for(128));
    assert!(!buddy.have_buckets_for(128 * 64));
}

#[test]
fn buddy_grow_with_a_free_left_buddy_keeps_it() {
    let mut buddy = fresh();
    let a1 = buddy.allocate_mut(128).unwrap();
    let a2 = buddy.allocate_mut(128).unwrap();
    let base = ADDR - ADDR % 4096;
    assert_eq!((a1.0, a2.0), (base, base + 8 * 128));
    buddy.deallocate_mut(a1.0, 128);
    // the free buddy of the block is on its left: the block moves
    let q = buddy.grow_mut(a2.0, 128, 256).unwrap();
    assert_eq!(q.2, Some(CopyStep { from: a2.0, to: q.0, len: 128 }));
    buddy.deallocate_mut(q.0, 256);
    assert!(buddy.is_empty());
    assert_eq!(buddy.allocate_mut(1024).unwrap().0, base);
}
