use kos::addr::{FrameError, PageRange};
use kos::drivers::page_mapper::{FrameAllocator, OffsetMapper, PageTables, Translation};
use kos::kernel::mem::context::{MemoryContext, MemoryLayout};
use kos::kernel::mem::mmo::{MemoryMappedObject, OBJECT_FLAGS};

struct Frames {
    next: u64,
    left: usize,
}

impl FrameAllocator for Frames {
    fn allocate_frame(&mut self) -> Result<u64, FrameError> {
        if self.left == 0 {
            return Err(FrameError::Alloc);
        }
        self.left -= 1;
        let f = self.next;
        self.next += 0x1000;
        Ok(f)
    }
}

fn context(left: usize) -> MemoryContext<OffsetMapper, Frames> {
    let layout = MemoryLayout { memory_map: Vec::new(), usable: (0x10_0000, 0x20_0000) };
    let mapper = OffsetMapper::new(0, PageTables::new(0x1000));
    MemoryContext::new(layout, mapper, Frames { next: 0x10_0000, left })
}

#[test]
fn object_keeps_resource_and_pages() {
    let obj = MemoryMappedObject::new(42u32, PageRange { start: 0x4000_0000, len: 3 });
    assert_eq!(*obj.resource(), 42);
    assert_eq!(obj.pages().start, 0x4000_0000);
    assert_eq!(obj.pages().len, 3);
    assert_eq!(obj.into_resource(), 42);
}

#[test]
fn map_object_then_translate() {
    let mut ctx = context(16);
    let obj = MemoryMappedObject::new((), PageRange { start: 0x4000_0000, len: 3 });
    assert_eq!(obj.map(&mut ctx), Ok(()));
    // the first page takes its frame before the three tables on the way
    assert_eq!(
        ctx.mapper.try_translate(0x4000_0008),
        Ok(Translation { addr: 0x10_0008, offset: 8, flags: OBJECT_FLAGS })
    );
    assert_eq!(
        ctx.mapper.try_translate(0x4000_2fff),
        Ok(Translation { addr: 0x10_5fff, offset: 0xfff, flags: OBJECT_FLAGS })
    );
    assert_eq!(ctx.mapper.try_translate(0x4000_3000), Err(FrameError::EntryMissing));
    obj.unmap(&mut ctx.mapper).unwrap();
    assert_eq!(ctx.mapper.try_translate(0x4000_1000), Err(FrameError::EntryMissing));
}

#[test]
fn map_object_without_frames_stops() {
    let mut ctx = context(4);
    let obj = MemoryMappedObject::new((), PageRange { start: 0x4000_0000, len: 2 });
    assert_eq!(obj.map(&mut ctx), Err(FrameError::Alloc));
    // the first page got its frame before the allocator ran dry
    assert!(ctx.mapper.try_translate(0x4000_0000).is_ok());
    assert_eq!(ctx.mapper.try_translate(0x4000_1000), Err(FrameError::EntryMissing));
}

#[test]
fn unmap_object_without_tables_fails() {
    let mut mapper = OffsetMapper::new(0, PageTables::new(0x1000));
    let obj = MemoryMappedObject::new((), PageRange { start: 0x4000_0000, len: 2 });
    assert_eq!(obj.unmap(&mut mapper), Err(FrameError::EntryMissing));
}
