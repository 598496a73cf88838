use kos::klib::kio::codec::Chained;
use kos::klib::kio::write::FramedWrite;
use kos::klib::kio::{Error, ErrorKind};

#[test]
fn error_keeps_its_kind() {
    assert_eq!(Error::new(ErrorKind::StorageFull).kind(), ErrorKind::StorageFull);
    assert_eq!(Error::from(ErrorKind::InvalidData).kind(), ErrorKind::InvalidData);
    assert_eq!(Error::new(ErrorKind::OutOfMemory).kind(), ErrorKind::OutOfMemory);
}

#[test]
fn framed_write_holds_its_parts() {
    let f = FramedWrite::new(vec![0u8; 16], 3u8, 4u16);
    assert_eq!(f.buffer.len(), 16);
    assert_eq!(f.writer, 3);
    assert_eq!(f.encoder, 4);
}

#[test]
fn chained_holds_its_parts() {
    let c = Chained::new(vec![1u8, 2], 'a', 'b');
    assert_eq!(c.buffer, vec![1, 2]);
    assert_eq!(c.first, 'a');
    assert_eq!(c.second, 'b');
}

