use kos::konsole::LogDecoder;

#[test]
fn decoder_takes_one_frame() {
    let mut d = LogDecoder::new();
    let mut src = vec![1u8, 2, 0, 3, 0, 4];
    assert_eq!(d.take_frame(&mut src), Some(vec![1, 2, 0]));
    assert_eq!(src, vec![3, 0, 4]);
    assert_eq!(d.take_frame(&mut src), Some(vec![3, 0]));
    assert_eq!(src, vec![4]);
    assert_eq!(d.take_frame(&mut src), None);
    assert_eq!(src, vec![4]);
}

#[test]
fn decoder_waits_for_the_end_of_a_frame() {
    let mut d = LogDecoder::new();
    let mut src: Vec<u8> = Vec::new();
    assert_eq!(d.take_frame(&mut src), None);
    let mut src = vec![0u8];
    assert_eq!(d.take_frame(&mut src), Some(vec![0]));
    assert!(src.is_empty());
}
