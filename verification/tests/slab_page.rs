use kos::kalloc::slab::fixed::SlabPage;
use kos::kalloc::AllocError;
use kos::klib::kalloc::slab::SlabPage as SinglePage;

const PAGE: u64 = 0x10_0000;

#[test]
fn slab_capacity_and_slot() {
    let p = SlabPage::<128>::from_page(PAGE);
    assert_eq!(p.capacity(), 32);
    assert_eq!(p.len(), 0);
    assert_eq!(SlabPage::<4096>::from_page(PAGE).capacity(), 1);
}

#[test]
fn slab_alternates_halves() {
    let mut p = SlabPage::<128>::from_page(PAGE);
    // even count: lowest free slot of the lower half, slot size 16 bytes
    assert_eq!(p.allocate(16), Ok((PAGE, 16)));
    // odd count: highest free slot of the upper half
    assert_eq!(p.allocate(1), Ok((PAGE + 31 * 16, 16)));
    assert_eq!(p.allocate(1), Ok((PAGE + 16, 16)));
    assert_eq!(p.allocate(1), Ok((PAGE + 30 * 16, 16)));
    assert_eq!(p.len(), 4);
}

#[test]
fn slab_refuses_large_requests() {
    let mut p = SlabPage::<128>::from_page(PAGE);
    assert_eq!(p.allocate(17), Err(AllocError));
    assert_eq!(p.len(), 0);
}

#[test]
fn slab_deallocate_frees_the_slot() {
    let mut p = SlabPage::<256>::from_page(PAGE);
    let a = p.allocate(32).unwrap().0;
    let b = p.allocate(32).unwrap().0;
    assert_eq!(p.len(), 2);
    p.deallocate(a, 32);
    assert_eq!(p.len(), 1);
    // freeing a slot that is not in use changes nothing
    p.deallocate(a, 32);
    assert_eq!(p.len(), 1);
    // with one slot in use the highest free slot above the middle is taken
    assert_eq!(p.allocate(32), Ok((PAGE + 14 * 32, 32)));
    assert_eq!(p.len(), 2);
    p.deallocate(b, 1);
    assert_eq!(p.len(), 1);
}

#[test]
fn slab_fills_up() {
    let mut p = SlabPage::<1024>::from_page(PAGE);
    // four slots of 128 bytes: 0 and 1 below the middle, 3 above it
    assert_eq!(p.allocate(128), Ok((PAGE, 128)));
    assert_eq!(p.allocate(128), Ok((PAGE + 3 * 128, 128)));
    assert_eq!(p.allocate(128), Ok((PAGE + 128, 128)));
    assert_eq!(p.allocate(128), Err(AllocError));
    assert_eq!(p.len(), 3);
}

#[test]
fn single_slot_page() {
    let mut p = SinglePage::from_page(PAGE);
    assert!(p.is_empty());
    assert_eq!(SinglePage::capacity(), 1);
    assert_eq!(p.allocate(512), Ok((PAGE, 512)));
    assert_eq!(p.allocate(1), Err(AllocError));
    assert_eq!(p.len(), 1);
    p.deallocate(PAGE, 512);
    assert!(p.is_empty());
    assert_eq!(p.allocate(513), Err(AllocError));
}
