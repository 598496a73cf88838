use kos::addr::PageRange;
use kos::kalloc::CopyStep;
use kos::kcore::kalloc::slab::dynamic::{slot_range, Error, Slab};

const ADDR: u64 = 0x0000_dead_beaf_0000;

fn fresh() -> Slab<128> {
    Slab::<128>::new(PageRange::with_size(ADDR, 4096)).unwrap()
}

fn size_at(slab: &Slab<128>, i: usize) -> Option<usize> {
    slab.bin(i).map(|b| b.size())
}

#[test]
fn dynamic_allocate_all_slabs() {
    let mut buddy = fresh();
    for _ in 0..32 {
        let _ = buddy.allocate(1).unwrap();
    }
    for i in 8..24 {
        assert_eq!(size_at(&buddy, i), Some(128))
    }
    assert!(buddy.len() == 32);
}

#[test]
fn dynamic_allocate_all_big() {
    let mut buddy = fresh();
    let _ = buddy.allocate(512).unwrap();
    assert!(buddy.len() == 1);
}

#[test]
fn dynamic_shrink_once() {
    let mut buddy = fresh();
    let old_ptr = buddy.allocate(512).unwrap();
    assert!(buddy.len() == 1);
    assert!(buddy.is_used(0));
    assert_eq!(size_at(&buddy, 0), Some(4096));

    let new_ptr = buddy.shrink(old_ptr.0, 512, 256).unwrap();
    assert!(buddy.len() == 1);
    assert!(buddy.is_used(0));
    assert!(!buddy.is_used(16));
    assert_eq!(new_ptr.0, old_ptr.0);
    assert_eq!(size_at(&buddy, 0), Some(2048));
    assert_eq!(size_at(&buddy, 16), Some(2048));
}

#[test]
fn dynamic_grow_big_fast() {
    let mut buddy = fresh();
    let ptr = buddy.allocate(128).unwrap();
    assert_eq!(size_at(&buddy, 0), Some(1024));
    assert_eq!(size_at(&buddy, 8), Some(1024));
    assert_eq!(size_at(&buddy, 16), Some(2048));

    let ptr = buddy.grow(ptr.0, 128, 256).unwrap();
    assert_eq!(size_at(&buddy, 0), Some(2048));
    assert_eq!(size_at(&buddy, 16), Some(2048));

    let _ = buddy.grow(ptr.0, 256, 512).unwrap();
    assert_eq!(size_at(&buddy, 0), Some(4096));

    assert!(buddy.len() == 1);
}

#[test]
fn dynamic_allocate_mixed() {
    let mut buddy = fresh();
    let _ = buddy.allocate(64).unwrap();
    assert!(buddy.is_used(0));
    assert!(!buddy.is_used(1));
    assert!(!buddy.is_used(2));
    assert!(!buddy.is_used(3));
    assert!(!buddy.is_used(4));

    let _ = buddy.allocate(64).unwrap();
    assert!(buddy.is_used(4));
    assert!(!buddy.is_used(5));
    assert!(!buddy.is_used(6));
    assert!(!buddy.is_used(7));

    for _ in 0..16 {
        let _ = buddy.allocate(1).unwrap();
    }
    for i in 8..24 {
        assert_eq!(size_at(&buddy, i), Some(128))
    }

    let _ = buddy.allocate(128).unwrap();
    assert!(buddy.is_used(24));
    for i in 25..32 {
        assert!(!buddy.is_used(i));
    }

    assert!(buddy.len() == 19);
}

#[test]
fn dynamic_deallocate_all_slabs() {
    let mut buddy = fresh();
    let allocs: Vec<_> = (0..32).map(|_| buddy.allocate(1).unwrap()).collect();
    assert_eq!(allocs.len(), 32);
    for alloc in allocs {
        buddy.deallocate(alloc.0, 1);
    }
    assert_eq!(size_at(&buddy, 0), Some(32 * 128));
    for i in 1..32 {
        assert!(buddy.bin(i).is_none());
    }
    assert!(buddy.len() == 0);
}

#[test]
fn dynamic_buddy_of_test() {
    assert_eq!(Slab::<128>::buddy_of(0..1), 1..2);
    assert_eq!(Slab::<128>::buddy_of(1..2), 0..1);

    assert_eq!(Slab::<128>::buddy_of(2..3), 3..4);
    assert_eq!(Slab::<128>::buddy_of(3..4), 2..3);

    assert_eq!(Slab::<128>::buddy_of(4..5), 5..6);
    assert_eq!(Slab::<128>::buddy_of(5..6), 4..5);

    assert_eq!(Slab::<128>::buddy_of(0..2), 2..4);
    assert_eq!(Slab::<128>::buddy_of(2..4), 0..2);

    assert_eq!(Slab::<128>::buddy_of(0..4), 4..8);
    assert_eq!(Slab::<128>::buddy_of(4..8), 0..4);

    assert_eq!(Slab::<128>::buddy_of(0..8), 8..16);
    assert_eq!(Slab::<128>::buddy_of(8..16), 0..8);

    assert_eq!(Slab::<128>::buddy_of(0..16), 16..32);
    assert_eq!(Slab::<128>::buddy_of(16..32), 0..16);
}

#[test]
fn dynamic_new_refuses_wrong_page_count() {
    let r = Slab::<128>::new(PageRange::with_size(ADDR, 2 * 4096));
    assert!(matches!(r, Err(Error::InvalidPageRange { expected: 1, got: 2 })));
    assert!(Slab::<256>::new(PageRange::with_size(ADDR, 2 * 4096)).is_ok());
}

#[test]
fn dynamic_have_buckets_for_sizes() {
    let mut slab = fresh();
    assert!(slab.have_buckets_for(128 * 32));
    let _ = slab.allocate(512).unwrap();
    assert!(!slab.have_buckets_for(128 * 32));
    assert!(!slab.have_buckets_for(128 * 64));
    assert!(slab.have_buckets_for(128));
    assert!(slab.allocate(1).is_err());
}

#[test]
fn dynamic_slot_range_steps_by_128_units() {
    assert_eq!(slot_range(128 * 8), vec![0, 8, 16, 24]);
    assert_eq!(slot_range(128 * 32), vec![0]);
    assert_eq!(slot_range(256).len(), 16);
}

#[test]
fn dynamic_grow_moves_a_block_whose_buddy_is_taken() {
    let mut buddy = fresh();
    let a = buddy.allocate(128).unwrap();
    let _b = buddy.allocate(128).unwrap();
    let q = buddy.grow(a.0, 128, 256).unwrap();
    assert_ne!(q.0, a.0);
    assert_eq!(q.2, Some(CopyStep { from: a.0, to: q.0, len: 128 }));
    assert_eq!(buddy.len(), 2);
}
