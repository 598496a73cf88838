use kos::addr::PageRange;
use kos::kcore::resource::MappedResource;
use std::cell::Cell;

use kos::kcore::io::cursor::{Cursor, WriteError};
use kos::kcore::kalloc::SharedAllocator;
use kos::kcore::ptr::volatile::Volatile;
use kos::kcore::sync::lazy::Lazy;
use kos::kcore::tables::IstEntry;

#[test]
fn cursor_writes_in_order() {
    let mut c = Cursor::new(vec![0u8; 8]);
    assert_eq!(c.buffer(), b"");
    assert_eq!(c.write_str("abc"), Ok(()));
    assert_eq!(c.write_str("de"), Ok(()));
    assert_eq!(c.buffer(), b"abcde");
}

#[test]
fn cursor_fills_exactly() {
    let mut c = Cursor::new(vec![0u8; 4]);
    assert_eq!(c.write_str("wxyz"), Ok(()));
    assert_eq!(c.buffer(), b"wxyz");
}

#[test]
fn cursor_refuses_what_does_not_fit() {
    let mut c = Cursor::new(vec![0u8; 4]);
    assert_eq!(c.write_str("ab"), Ok(()));
    assert_eq!(c.write_str("cde"), Err(WriteError));
}

#[test]
fn volatile_reads_what_was_written() {
    let mut v = Volatile::new(5u32);
    assert_eq!(v.read(), 5);
    v.write(9);
    assert_eq!(v.read(), 9);
    v.update(|x| x * 3);
    assert_eq!(v.read(), 27);
}

#[test]
fn lazy_computes_once() {
    let calls = Cell::new(0);
    let mut lazy = Lazy::new(|| {
        calls.set(calls.get() + 1);
        41 + 1
    });
    assert_eq!(calls.get(), 0);
    assert_eq!(*lazy.get_or_init(), 42);
    assert_eq!(*lazy.get_or_init(), 42);
    assert_eq!(calls.get(), 1);
}

#[test]
fn ist_entry_index() {
    assert_eq!(usize::from(IstEntry::DoubleFault), 0);
}

#[test]
fn shared_allocator_shares() {
    let a = SharedAllocator::new(7u8);
    let b = a.clone();
    assert_eq!(*a.inner(), 7);
    assert_eq!(*b.inner(), 7);
}

#[test]
fn mapped_resource_keeps_resource_and_pages() {
    let r = MappedResource::new(7u8, PageRange { start: 0x2000, len: 4 });
    assert_eq!(*r.resource(), 7);
    assert_eq!(r.pages(), PageRange { start: 0x2000, len: 4 });
}
