use kos::bootloader::binary::load_kernel::{map_plan, LoadPlan};
use kos::addr::FrameError;
use kos::drivers::page_mapper::{
    index_at, make_entry_exec, FrameAllocator, OffsetMapper, PageSize, PageTables, TracingMapper, Translation, HUGE,
    PRESENT, TABLE_FLAGS, USER, WRITABLE,
};

struct Frames {
    free: Vec<u64>,
    handed: usize,
}

impl Frames {
    fn new(free: Vec<u64>) -> Self {
        Frames { free, handed: 0 }
    }
}

impl FrameAllocator for Frames {
    fn allocate_frame(&mut self) -> Result<u64, FrameError> {
        if self.free.is_empty() {
            Err(FrameError::Alloc)
        } else {
            self.handed += 1;
            Ok(self.free.remove(0))
        }
    }
}

fn mapper() -> OffsetMapper {
    OffsetMapper::new(0xffff_8000_0000_0000, PageTables::new(0x1000))
}

fn table_frames() -> Frames {
    Frames::new(vec![0x2000, 0x3000, 0x4000, 0x5000, 0x6000, 0x7000])
}

const RW: u64 = PRESENT | WRITABLE;

#[test]
fn indices_of_an_address() {
    let a: u64 = (3 << 39) | (5 << 30) | (7 << 21) | (9 << 12) | 0x123;
    assert_eq!(index_at(a, 4), 3);
    assert_eq!(index_at(a, 3), 5);
    assert_eq!(index_at(a, 2), 7);
    assert_eq!(index_at(a, 1), 9);
}

#[test]
fn entry_keeps_address_and_flags() {
    assert_eq!(make_entry_exec(0x5000, RW), 0x5003);
    assert_eq!(make_entry_exec(0x5000, RW | (1 << 63)), 0x8000_0000_0000_5003);
    assert_eq!(make_entry_exec(0x5fff, 0), 0x5000);
}

#[test]
fn offset_is_kept() {
    assert_eq!(mapper().offset(), 0xffff_8000_0000_0000);
}

#[test]
fn empty_tables_translate_nothing() {
    let m = mapper();
    assert_eq!(m.try_translate(0), Err(FrameError::EntryMissing));
    assert_eq!(m.try_translate(0x4000_1234), Err(FrameError::EntryMissing));
}

#[test]
fn map_4k_then_translate() {
    let mut m = mapper();
    let mut frames = table_frames();
    let page: u64 = 0x40_0000_5000;
    assert_eq!(m.map(page, 0x9_0000, RW, PageSize::Page4Kb, &mut frames), Ok(()));
    // one new table for each of levels 3, 2 and 1
    assert_eq!(frames.handed, 3);
    assert_eq!(
        m.try_translate(page + 0x10),
        Ok(Translation { addr: 0x9_0010, offset: 0x10, flags: RW })
    );
    assert_eq!(m.try_translate(page + 0x1000), Err(FrameError::EntryMissing));
    // a neighbour in the same level 1 table needs no new table
    assert_eq!(m.map(page + 0x1000, 0xa_0000, PRESENT, PageSize::Page4Kb, &mut frames), Ok(()));
    assert_eq!(frames.handed, 3);
    assert_eq!(
        m.try_translate(page + 0x1fff),
        Ok(Translation { addr: 0xa_0fff, offset: 0xfff, flags: PRESENT })
    );
}

#[test]
fn map_2m_then_translate() {
    let mut m = mapper();
    let mut frames = table_frames();
    let page: u64 = 0x20_0000 * 5;
    assert_eq!(m.map(page, 0x4000_0000, RW, PageSize::Page2Mb, &mut frames), Ok(()));
    assert_eq!(frames.handed, 2);
    assert_eq!(
        m.try_translate(page + 0x1_2345),
        Ok(Translation { addr: 0x4001_2345, offset: 0x1_2345, flags: RW | HUGE })
    );
}

#[test]
fn map_1g_then_translate() {
    let mut m = mapper();
    let mut frames = table_frames();
    let page: u64 = 0x4000_0000 * 3;
    assert_eq!(m.map(page, 0x8000_0000, RW, PageSize::Page1Gb, &mut frames), Ok(()));
    assert_eq!(frames.handed, 1);
    assert_eq!(
        m.try_translate(page + 0x123_4567),
        Ok(Translation { addr: 0x8123_4567, offset: 0x123_4567, flags: RW | HUGE })
    );
}

#[test]
fn map_without_frames_fails() {
    let mut m = mapper();
    let mut frames = Frames::new(vec![0x2000]);
    assert_eq!(
        m.map(0x1000, 0x9000, RW, PageSize::Page4Kb, &mut frames),
        Err(FrameError::Alloc)
    );
    // the level 3 table made before the failure stays linked
    assert_eq!(m.try_translate(0x1000), Err(FrameError::EntryMissing));
    assert_eq!(m.unmap(0x1000, PageSize::Page1Gb), Ok(()));
}

#[test]
fn map_refuses_a_frame_already_holding_a_table() {
    let mut m = mapper();
    let mut frames = Frames::new(vec![0x1000]);
    assert_eq!(
        m.map(0x1000, 0x9000, RW, PageSize::Page4Kb, &mut frames),
        Err(FrameError::Alloc)
    );
}

#[test]
fn map_under_a_huge_page_fails() {
    let mut m = mapper();
    let mut frames = table_frames();
    assert_eq!(m.map(0, 0x20_0000, RW, PageSize::Page2Mb, &mut frames), Ok(()));
    assert_eq!(
        m.map(0x1000, 0x9000, RW, PageSize::Page4Kb, &mut frames),
        Err(FrameError::HugePage)
    );
    assert_eq!(m.update_flags(0x1000, RW, PageSize::Page4Kb), Err(FrameError::HugePage));
    assert_eq!(m.unmap(0x1000, PageSize::Page4Kb), Err(FrameError::HugePage));
}

#[test]
fn unmap_then_translate() {
    let mut m = mapper();
    let mut frames = table_frames();
    assert_eq!(m.map(0x7000, 0x9000, RW, PageSize::Page4Kb, &mut frames), Ok(()));
    assert_eq!(m.unmap(0x7000, PageSize::Page4Kb), Ok(()));
    assert_eq!(m.try_translate(0x7abc), Err(FrameError::EntryMissing));
    // the tables on the way stay, so mapping again takes no new frame
    assert_eq!(m.map(0x7000, 0xb000, RW, PageSize::Page4Kb, &mut frames), Ok(()));
    assert_eq!(frames.handed, 3);
}

#[test]
fn unmap_without_tables_fails() {
    let mut m = mapper();
    assert_eq!(m.unmap(0x7000, PageSize::Page4Kb), Err(FrameError::EntryMissing));
    assert_eq!(m.update_flags(0x7000, RW, PageSize::Page2Mb), Err(FrameError::EntryMissing));
}

#[test]
fn update_flags_keeps_the_frame() {
    let mut m = mapper();
    let mut frames = table_frames();
    assert_eq!(m.map(0x7000, 0x9000, RW, PageSize::Page4Kb, &mut frames), Ok(()));
    assert_eq!(m.update_flags(0x7000, PRESENT | USER, PageSize::Page4Kb), Ok(()));
    assert_eq!(
        m.try_translate(0x7001),
        Ok(Translation { addr: 0x9001, offset: 1, flags: PRESENT | USER })
    );
    // clearing the present flag unmaps the page
    assert_eq!(m.update_flags(0x7000, WRITABLE, PageSize::Page4Kb), Ok(()));
    assert_eq!(m.try_translate(0x7001), Err(FrameError::EntryMissing));
}

#[test]
fn update_flags_of_a_huge_page() {
    let mut m = mapper();
    let mut frames = table_frames();
    assert_eq!(m.map(0x20_0000, 0x60_0000, RW, PageSize::Page2Mb, &mut frames), Ok(()));
    assert_eq!(m.update_flags(0x20_0000, PRESENT, PageSize::Page2Mb), Ok(()));
    assert_eq!(
        m.try_translate(0x20_0010),
        Ok(Translation { addr: 0x60_0010, offset: 0x10, flags: PRESENT | HUGE })
    );
}

#[test]
fn intermediate_tables_get_table_flags() {
    assert_eq!(TABLE_FLAGS, PRESENT | WRITABLE | USER);
}

#[test]
fn tracing_mapper_hands_on() {
    let mut m = TracingMapper::from(mapper());
    let mut frames = table_frames();
    assert_eq!(m.map(0x3000, 0x9000, RW, PageSize::Page4Kb, &mut frames), Ok(()));
    assert_eq!(m.try_translate(0x3004), Ok(Translation { addr: 0x9004, offset: 4, flags: RW }));
    assert_eq!(m.update_flags(0x3000, PRESENT, PageSize::Page4Kb), Ok(()));
    assert_eq!(m.try_translate(0x3004).unwrap().flags, PRESENT);
    assert_eq!(m.unmap(0x3000, PageSize::Page4Kb), Ok(()));
    assert_eq!(m.try_translate(0x3004), Err(FrameError::EntryMissing));
    assert_eq!(m.inner().offset(), 0xffff_8000_0000_0000);
}

#[test]
fn a_load_plan_maps_each_page_to_its_frame() {
    let mut m = mapper();
    let mut a = table_frames();
    let plan = LoadPlan {
        start_frame: 0x40_0000,
        end_frame: 0x40_3000,
        start_page: 0x20_0000,
        end_page: 0x20_3000,
        writable: false,
        has_bss: false,
    };
    assert_eq!(map_plan(&mut m, &plan, &mut a), Ok(()));
    for k in 0..3u64 {
        let t = m.try_translate(0x20_0000 + k * 0x1000 + 0x10).unwrap();
        assert_eq!((t.addr, t.flags & PRESENT, t.flags & WRITABLE), (0x40_0000 + k * 0x1000 + 0x10, PRESENT, 0));
    }
    assert_eq!(m.try_translate(0x20_3000), Err(FrameError::EntryMissing));
    let mut none = Frames::new(vec![]);
    let mut fresh = mapper();
    assert_eq!(map_plan(&mut fresh, &plan, &mut none), Err(FrameError::Alloc));
}
