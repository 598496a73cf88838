use kos::addr::PageRange;
use kos::kalloc::CopyStep;
use kos::kalloc::buddy::{BuddyAllocator, Bucket, Error, DEPTH};

const ADDR: u64 = 0x0000_dead_beaf_0000;

fn fresh() -> BuddyAllocator<128> {
    let bins = vec![Bucket::<128>::empty(); DEPTH];
    BuddyAllocator::<128>::new(bins, PageRange::with_size(ADDR, DEPTH as u64 * 128)).unwrap()
}

fn size_at(buddy: &BuddyAllocator<128>, i: usize) -> Option<usize> {
    buddy.get(i).map(|b| b.size())
}

#[test]
fn kalloc_buddy_allocate_all_slabs() {
    let mut buddy = fresh();
    for _ in 0..DEPTH {
        buddy.allocate(1).unwrap();
    }
    for i in 8..24 {
        let bin = buddy.bucket_at(i);
        assert!(!bin.is_empty());
        assert_eq!(bin.size(), 128)
    }
    assert!(buddy.len() == DEPTH);
}

#[test]
fn kalloc_buddy_allocate_all_big() {
    let mut buddy = fresh();
    let _ = buddy.allocate(512).unwrap();
    assert!(buddy.len() == 1);
}

#[test]
fn kalloc_buddy_shrink_once() {
    let mut buddy = fresh();
    let old_ptr = buddy.allocate(512).unwrap();
    assert!(buddy.len() == 1);
    assert!(buddy.is_used(0));
    assert_eq!(size_at(&buddy, 0), Some(4096));

    let new_ptr = buddy.shrink(old_ptr.0, 512, 256).unwrap();
    assert!(buddy.len() == 1);
    assert!(buddy.is_used(0));
    assert!(!buddy.is_used(16));
    assert_eq!(new_ptr.0, old_ptr.0);
    assert_eq!(size_at(&buddy, 0), Some(2048));
    assert_eq!(size_at(&buddy, 16), Some(2048));
}

#[test]
fn kalloc_buddy_grow_big_fast() {
    let mut buddy = fresh();
    // splits the allocator in blocks of 1024, 1024, 2048 and 4096 units
    let ptr = buddy.allocate(128).unwrap();
    assert_eq!(size_at(&buddy, 0), Some(1024));
    assert_eq!(size_at(&buddy, 8), Some(1024));
    assert_eq!(size_at(&buddy, 16), Some(2048));

    // merges the first two blocks
    let ptr = buddy.grow(ptr.0, 128, 256).unwrap();
    assert_eq!(size_at(&buddy, 0), Some(2048));
    assert_eq!(size_at(&buddy, 16), Some(2048));

    // merges again
    let _ = buddy.grow(ptr.0, 256, 512).unwrap();
    assert_eq!(size_at(&buddy, 0), Some(4096));

    assert!(buddy.len() == 1);
}

#[test]
fn kalloc_buddy_allocate_mixed() {
    let mut buddy = fresh();
    let _ = buddy.allocate(64).unwrap();
    assert!(buddy.is_used(0));
    assert!(!buddy.is_used(1));
    assert!(!buddy.is_used(2));
    assert!(!buddy.is_used(3));
    assert!(!buddy.is_used(4));

    let _ = buddy.allocate(64).unwrap();
    assert!(buddy.is_used(4));
    assert!(!buddy.is_used(5));
    assert!(!buddy.is_used(6));
    assert!(!buddy.is_used(7));

    for _ in 0..16 {
        let _ = buddy.allocate(1).unwrap();
    }
    for i in 8..24 {
        let bin = buddy.bucket_at(i);
        assert!(!bin.is_empty());
        assert_eq!(bin.size(), 128);
    }

    let _ = buddy.allocate(128).unwrap();
    assert!(buddy.is_used(24));
    for i in 25..32 {
        assert!(!buddy.is_used(i));
    }

    assert!(buddy.len() == 19);
}

#[test]
fn kalloc_buddy_deallocate_all_slabs() {
    let mut buddy = fresh();
    let allocs: Vec<_> = (0..DEPTH).map(|_| buddy.allocate(1).unwrap()).collect();
    assert_eq!(allocs.len(), DEPTH);
    for alloc in allocs {
        buddy.deallocate(alloc.0, 1);
    }
    assert_eq!(size_at(&buddy, 0), Some(DEPTH * 128));
    for i in 1..DEPTH {
        assert!(buddy.bucket_at(i).is_empty());
    }
    assert!(buddy.len() == 0);
}

#[test]
fn kalloc_buddy_of_test() {
    assert_eq!(BuddyAllocator::<128>::buddy_of(0..1), 1..2);
    assert_eq!(BuddyAllocator::<128>::buddy_of(1..2), 0..1);

    assert_eq!(BuddyAllocator::<128>::buddy_of(2..3), 3..4);
    assert_eq!(BuddyAllocator::<128>::buddy_of(3..4), 2..3);

    assert_eq!(BuddyAllocator::<128>::buddy_of(4..5), 5..6);
    assert_eq!(BuddyAllocator::<128>::buddy_of(5..6), 4..5);

    assert_eq!(BuddyAllocator::<128>::buddy_of(0..2), 2..4);
    assert_eq!(BuddyAllocator::<128>::buddy_of(2..4), 0..2);

    assert_eq!(BuddyAllocator::<128>::buddy_of(0..4), 4..8);
    assert_eq!(BuddyAllocator::<128>::buddy_of(4..8), 0..4);

    assert_eq!(BuddyAllocator::<128>::buddy_of(0..8), 8..16);
    assert_eq!(BuddyAllocator::<128>::buddy_of(8..16), 0..8);

    assert_eq!(BuddyAllocator::<128>::buddy_of(0..16), 16..32);
    assert_eq!(BuddyAllocator::<128>::buddy_of(16..32), 0..16);

    assert_eq!(BuddyAllocator::<128>::buddy_of(0..32), 32..64);
    assert_eq!(BuddyAllocator::<128>::buddy_of(32..64), 0..32);
}

#[test]
fn kalloc_bucket_packs_its_range() {
    let buddy = fresh();
    let whole = buddy.get(0).unwrap();
    assert_eq!(whole.start(), 0);
    assert_eq!(whole.end(), 64);
    assert_eq!(whole.range(), 0..64);
    assert_eq!(whole.size(), 64 * 128);
    assert_eq!(whole.size_bytes(), 64 * 128 / 8);
    assert!(Bucket::<128>::empty().is_empty());
    assert!(buddy.get(1).is_none());
}

#[test]
fn kalloc_new_refuses_bad_setups() {
    let r = BuddyAllocator::<100>::new(vec![Bucket::<100>::empty(); DEPTH], PageRange::with_size(ADDR, 4096));
    assert!(matches!(r, Err(Error::InvalidPowerOfTwo)));
    let r = BuddyAllocator::<128>::new(vec![Bucket::<128>::empty(); 3], PageRange::with_size(ADDR, 8192));
    assert!(matches!(r, Err(Error::InvalidBinSliceSize)));
    let r = BuddyAllocator::<128>::new(vec![Bucket::<128>::empty(); DEPTH], PageRange::with_size(ADDR, 3 * 4096));
    assert!(matches!(r, Err(Error::InvalidPageRange { expected: 2, got: 3 })));
}

#[test]
fn kalloc_slot_range_steps() {
    assert_eq!(kos::kalloc::buddy::slot_range::<128>(128 * 16), vec![0, 16, 32, 48]);
    assert_eq!(kos::kalloc::buddy::slot_range::<128>(128 * 64).len(), 1);
    assert_eq!(kos::kalloc::buddy::slot_range::<128>(128).len(), 64);
}

#[test]
fn kalloc_allocate_then_deallocate_restores() {
    let mut buddy = fresh();
    let a = buddy.allocate(3).unwrap();
    // 3 bytes round to 32 units: one slot
    assert_eq!(a.1, 16);
    buddy.deallocate(a.0, 3);
    assert_eq!(size_at(&buddy, 0), Some(64 * 128));
    assert!(buddy.is_empty());
}

#[test]
fn kalloc_buddy_grow_says_what_to_copy() {
    let mut buddy = fresh();
    let a = buddy.allocate(128).unwrap();
    let b = buddy.allocate(128).unwrap();
    // the buddy of `a` is in use: `a` moves, and its bytes are to follow it
    let q = buddy.grow(a.0, 128, 256).unwrap();
    assert_ne!(q.0, a.0);
    assert_eq!(q.2, Some(CopyStep { from: a.0, to: q.0, len: 128 }));
    let _ = b;
    // a block whose free buddy follows it grows in place: nothing to copy
    let mut other = fresh();
    let x = other.allocate(128).unwrap();
    let r = other.grow(x.0, 128, 256).unwrap();
    assert_eq!((r.0, r.2), (x.0, None));
}
