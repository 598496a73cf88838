use kos::addr::FrameError;
use kos::bootloader::binary::copied::{make_mut, remove_copied_flags, MadeMut, COPIED};
use kos::bootloader::binary::elf::{Segment, SegmentKind};
use kos::drivers::page_mapper::{FrameAllocator, OffsetMapper, PageSize, PageTables, Translation, PRESENT, WRITABLE};

struct Frames {
    next: u64,
    left: usize,
}

impl FrameAllocator for Frames {
    fn allocate_frame(&mut self) -> Result<u64, FrameError> {
        if self.left == 0 {
            return Err(FrameError::Alloc);
        }
        self.left -= 1;
        let f = self.next;
        self.next += 0x1000;
        Ok(f)
    }
}

const KERNEL: u64 = 0xffff_8000_0000_0000;
const RW: u64 = PRESENT | WRITABLE;

/// A mapper where the two pages at `KERNEL` map the file's frames at 0x50_0000.
fn loaded() -> (OffsetMapper, Frames) {
    let mut m = OffsetMapper::new(0, PageTables::new(0x1000));
    let mut frames = Frames { next: 0x10_0000, left: 64 };
    m.map(KERNEL, 0x50_0000, RW, PageSize::Page4Kb, &mut frames).unwrap();
    m.map(KERNEL + 0x1000, 0x50_1000, RW, PageSize::Page4Kb, &mut frames).unwrap();
    (m, frames)
}

fn segment(kind: SegmentKind, virtual_addr: u64, mem_size: u64) -> Segment {
    Segment {
        kind: Ok(kind),
        writable: true,
        offset: 0,
        virtual_addr,
        file_size: mem_size,
        mem_size,
        sane: Ok(()),
    }
}

#[test]
fn make_mut_gives_a_frame_of_its_own() {
    let (mut m, mut frames) = loaded();
    let fresh = frames.next;
    let made = make_mut(&mut m, KERNEL + 0x1000, &mut frames).unwrap();
    assert_eq!(made, MadeMut { frame: fresh, copy_from: Some(0x50_1000) });
    assert_eq!(
        m.try_translate(KERNEL + 0x1010),
        Ok(Translation { addr: fresh + 0x10, offset: 0x10, flags: RW | COPIED })
    );
    // the other page still maps the file
    assert_eq!(m.try_translate(KERNEL).unwrap().addr, 0x50_0000);
}

#[test]
fn make_mut_twice_keeps_the_frame() {
    let (mut m, mut frames) = loaded();
    let first = make_mut(&mut m, KERNEL, &mut frames).unwrap();
    let handed = frames.left;
    let second = make_mut(&mut m, KERNEL, &mut frames).unwrap();
    assert_eq!(second, MadeMut { frame: first.frame, copy_from: None });
    assert_eq!(frames.left, handed);
}

#[test]
fn make_mut_without_frames_fails() {
    let (mut m, _) = loaded();
    let mut none = Frames { next: 0, left: 0 };
    assert_eq!(make_mut(&mut m, KERNEL, &mut none), Err(FrameError::Alloc));
    assert_eq!(m.try_translate(KERNEL).unwrap().addr, 0x50_0000);
}

#[test]
fn make_mut_of_a_huge_page_fails() {
    let mut m = OffsetMapper::new(0, PageTables::new(0x1000));
    let mut frames = Frames { next: 0x10_0000, left: 8 };
    m.map(0x20_0000, 0x40_0000, RW, PageSize::Page2Mb, &mut frames).unwrap();
    assert_eq!(make_mut(&mut m, 0x20_1000, &mut frames), Err(FrameError::HugePage));
}

#[test]
fn remove_copied_flags_clears_every_mark() {
    let (mut m, mut frames) = loaded();
    make_mut(&mut m, KERNEL, &mut frames).unwrap();
    make_mut(&mut m, KERNEL + 0x1000, &mut frames).unwrap();
    let segments = vec![
        segment(SegmentKind::Load, 0, 0x2000),
        segment(SegmentKind::Tls, 0x5000, 0x100),
    ];
    assert_eq!(remove_copied_flags(&mut m, &segments, KERNEL), Ok(()));
    assert_eq!(m.try_translate(KERNEL).unwrap().flags, RW);
    assert_eq!(m.try_translate(KERNEL + 0x1000).unwrap().flags, RW);
}

#[test]
fn remove_copied_flags_needs_mapped_pages() {
    let (mut m, _) = loaded();
    let segments = vec![segment(SegmentKind::Load, 0x1000, 0x2000)];
    assert_eq!(remove_copied_flags(&mut m, &segments, KERNEL), Err(FrameError::EntryMissing));
}

#[test]
fn remove_copied_flags_stops_before_the_page_of_the_end() {
    let (mut m, mut frames) = loaded();
    make_mut(&mut m, KERNEL, &mut frames).unwrap();
    make_mut(&mut m, KERNEL + 0x1000, &mut frames).unwrap();
    let segments = vec![segment(SegmentKind::Load, 0, 0x1800)];
    assert_eq!(remove_copied_flags(&mut m, &segments, KERNEL), Ok(()));
    assert_eq!(m.try_translate(KERNEL).unwrap().flags, RW);
    assert_eq!(m.try_translate(KERNEL + 0x1000).unwrap().flags, RW | COPIED);
}
