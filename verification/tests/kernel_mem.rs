use kos::bootloader::boot_info::{MemoryRegion, MemoryRegionKind};
use kos::kalloc::AllocatorBin;
use kos::kernel::infra::{test_runner, KernelTest, TestError, TestResult};
use kos::kernel::mem::context::{MemoryContext, MemoryInitError, MemoryLayout};
use kos::kernel::mem::pagealloc::BootInfoFrameAllocator;
use kos::kernel::mem::pmm::PhysicalMemoryManager;

fn region(start: u64, end: u64, kind: MemoryRegionKind) -> MemoryRegion {
    MemoryRegion { start, end, kind }
}

#[test]
fn layout_takes_the_first_usable_region() {
    let map = vec![
        region(0, 0x1000, MemoryRegionKind::Bootloader),
        region(0x1800, 0x9400, MemoryRegionKind::Usable),
        region(0x10000, 0x20000, MemoryRegionKind::Usable),
    ];
    let layout = MemoryLayout::init(map.clone()).unwrap();
    assert_eq!(layout.usable, (0x1000, 0x9000));
    assert_eq!(layout.memory_map(), &map);
}

#[test]
fn layout_needs_a_usable_region() {
    let map = vec![region(0, 0x1000, MemoryRegionKind::UnknownBios(2))];
    assert!(matches!(MemoryLayout::init(map), Err(MemoryInitError)));
    assert!(matches!(MemoryLayout::init(Vec::new()), Err(MemoryInitError)));
}

#[test]
fn context_hands_out_its_mapper() {
    let layout = MemoryLayout::init(vec![region(0, 0x1000, MemoryRegionKind::Usable)]).unwrap();
    let mut ctx = MemoryContext::new(layout, 1u8, 2u8);
    *ctx.mapper() = 5;
    assert_eq!(ctx.mapper, 5);
    assert_eq!(ctx.alloc, 2);
}

struct Fixed(TestResult);

impl KernelTest for Fixed {
    fn ktest(&self) -> TestResult {
        self.0
    }
}

#[test]
fn runner_reports_each_test() {
    let tests = [Fixed(TestResult::Passed), Fixed(TestResult::ShouldFail), Fixed(TestResult::Failed(TestError("should fail")))];
    let r = test_runner(&tests);
    assert_eq!(r, vec![TestResult::Passed, TestResult::ShouldFail, TestResult::Failed(TestError("should fail"))]);
}

fn bins(n: usize) -> Vec<AllocatorBin> {
    vec![AllocatorBin::new(); n]
}

#[test]
fn pmm_populates_one_allocator_per_64_frames() {
    let mut pmm = PhysicalMemoryManager::new();
    assert_eq!(pmm.alloc_frame(), Err(kos::addr::FrameError::Alloc));
    // 200 frames begin four allocators, 128 records feed two
    pmm.populate_buddies(4, bins(128), 0x100000, 200);
    assert_eq!(pmm.at, 2);
    assert_eq!(pmm.buddies.as_ref().unwrap().len(), 2);
    assert_eq!(pmm.alloc_frame(), Ok(0x100000));
}

#[test]
fn pmm_with_too_few_slots_serves_nothing() {
    let mut pmm = PhysicalMemoryManager::new();
    pmm.populate_buddies(2, bins(256), 0x100000, 256);
    assert_eq!(pmm.buddies.as_ref().unwrap().len(), 2);
    assert_eq!(pmm.at, 0);
    assert!(pmm.allocate(512).is_err());
}

#[test]
fn pmm_frame_comes_back_after_free() {
    let mut pmm = PhysicalMemoryManager::new();
    pmm.populate_buddies(8, bins(64), 0x200000, 64);
    assert_eq!(pmm.at, 1);
    let a = pmm.alloc_frame().unwrap();
    let b = pmm.alloc_frame().unwrap();
    assert_ne!(a, b);
    assert!((0x200000..0x240000).contains(&b));
    pmm.deallocate(b, 512);
    assert_eq!(pmm.alloc_frame(), Ok(b));
}

#[test]
fn frame_allocator_over_the_memory_map() {
    let map = vec![
        region(0, 0x100000, MemoryRegionKind::Bootloader),
        region(0x100000, 0x200000, MemoryRegionKind::Usable),
    ];
    let mut a = BootInfoFrameAllocator::init(&map, 0x20_0000, 64, bins(256));
    assert_eq!(a.alloc.at, 4);
    assert_eq!(a.allocate_frame(), Ok(0x100000));
}
