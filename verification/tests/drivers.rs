use kos::bootloader::boot_info::{FrameBufferInfo, PixelFormat};
use kos::drivers::framebuffer::{Character, Drawable, Framebuffer, Pixel};
use kos::drivers::keyboard::Keyboard;
use kos::drivers::page_mapper::TracingMapper;
use kos::drivers::pic::{remap_init, Chained, Error as PicError, Pic, PortWrite, RemapUninit, EOI, ICW1, ICW4};
use kos::drivers::scheduler::{Poll, Scheduler};
use kos::drivers::serial::{input_full, output_empty, SerialPort};
use kos::drivers::vesa::text::Text;
use kos::kcore::kalloc::SharedAllocator;

use noto_sans_mono_bitmap::{get_bitmap, BitmapHeight, FontWeight};

fn info(width: usize, height: usize, stride: usize, format: PixelFormat) -> FrameBufferInfo {
    FrameBufferInfo {
        byte_len: stride * height * 4,
        horizontal_resolution: width,
        vertical_resolution: height,
        pixel_format: format,
        bytes_per_pixel: 4,
        stride,
    }
}

#[test]
fn framebuffer_starts_cleared() {
    let fb = Framebuffer::new(vec![7u8; 64], info(4, 4, 4, PixelFormat::RGB));
    assert!(fb.buffer().iter().all(|b| *b == 0));
    assert_eq!(fb.width(), 4);
    assert_eq!(fb.height(), 4);
}

#[test]
fn framebuffer_pixel_colours() {
    let mut fb = Framebuffer::new(vec![0u8; 512], info(16, 8, 16, PixelFormat::RGB));
    fb.write_pixel(1, 2, 200);
    let off = (2 * 16 + 1) * 4;
    assert_eq!(&fb.buffer()[off..off + 4], &[200, 200, 100, 0]);
    let mut fb = Framebuffer::new(vec![0u8; 512], info(16, 8, 16, PixelFormat::BGR));
    fb.write_pixel(0, 0, 10);
    assert_eq!(&fb.buffer()[0..4], &[5, 10, 10, 0]);
    let mut fb = Framebuffer::new(vec![0u8; 512], info(16, 8, 16, PixelFormat::U8));
    fb.write_pixel(0, 0, 201);
    fb.write_pixel(1, 0, 200);
    assert_eq!(&fb.buffer()[0..8], &[0xf, 0, 0, 0, 0, 0, 0, 0]);
    fb.clear();
    assert!(fb.buffer().iter().all(|b| *b == 0));
}

#[test]
fn character_points_follow_the_font() {
    let ch = Character::new('A', 2, 3);
    assert_eq!(ch.width(), 8);
    assert_eq!(ch.height(), 14);
    assert_eq!(ch.draw_box(), (2, 3, 10, 17));
    let pts = ch.points();
    let font = get_bitmap('A', FontWeight::Regular, BitmapHeight::Size14).unwrap();
    assert_eq!(pts.len(), 8 * 14);
    for (k, p) in pts.iter().enumerate() {
        let (xd, yd) = (k % 8, k / 8);
        assert_eq!(*p, Pixel { x: 2 + xd, y: 3 + yd, intensity: font.bitmap()[yd][xd] });
    }
    assert!(pts.iter().any(|p| p.intensity != 0));
    assert!(Character::try_new('\u{1F600}', 0, 0).is_none());
    assert!(Character::try_new('z', 0, 0).is_some());
}

#[test]
fn framebuffer_draws_a_character() {
    let mut fb = Framebuffer::new(vec![0u8; 16 * 16 * 4], info(16, 8, 16, PixelFormat::RGB));
    let ch = Character::new('A', 0, 0);
    assert_eq!(fb.draw(&ch), Ok(()));
    for p in ch.points() {
        let off = (p.y * 16 + p.x) * 4;
        assert_eq!(fb.buffer()[off], p.intensity);
        assert_eq!(fb.buffer()[off + 2], p.intensity / 2);
    }
}

#[test]
fn framebuffer_refuses_a_box_past_both_edges() {
    let mut fb = Framebuffer::new(vec![0u8; 16 * 16 * 4], info(16, 8, 16, PixelFormat::RGB));
    assert_eq!(fb.draw(&Character::new('A', 10, 0)), Err(()));
    assert!(fb.buffer().iter().all(|b| *b == 0));
}

#[test]
fn text_skips_its_first_character() {
    let t = Text::new(String::from("xAB"), 0, 0);
    assert_eq!(t.draw_box(), (0, 0, 24, 14));
    let pts = t.points();
    let mut expected = Character::new('A', 0, 0).points();
    expected.extend(Character::new('B', 8, 0).points());
    assert_eq!(pts, expected);
    let empty = Text::new(String::new(), 5, 6);
    assert_eq!(empty.draw_box(), (5, 6, 5, 6));
    assert!(empty.points().is_empty());
}

#[test]
fn text_is_drawn() {
    let mut fb = Framebuffer::new(vec![0u8; 32 * 16 * 4], info(32, 16, 32, PixelFormat::RGB));
    let t = Text::new(String::from("Hi!"), 0, 0);
    assert_eq!(fb.draw(&t), Ok(()));
    assert!(fb.buffer().iter().any(|b| *b != 0));
}

#[test]
fn keyboard_queue_is_first_in_first_out() {
    let mut k = Keyboard::new();
    assert_eq!(k.read_value(), None);
    k.add_value(1);
    k.add_value(2);
    k.add_value(3);
    assert_eq!(k.read_value(), Some(1));
    k.add_value(4);
    k.add_value(5);
    assert_eq!(k.len(), 4);
    assert_eq!(k.read_value(), Some(2));
    assert_eq!(k.read_value(), Some(3));
    assert_eq!(k.read_value(), Some(4));
    assert_eq!(k.read_value(), Some(5));
    assert_eq!(k.read_value(), None);
}

#[test]
fn pic_handles_its_eight_interrupts() {
    let m = Pic::<RemapUninit, 0x20>::master();
    assert!(m.handles_interrupt(0x20));
    assert!(m.handles_interrupt(0x27));
    assert!(!m.handles_interrupt(0x28));
    assert!(!m.handles_interrupt(0x1f));
    assert_eq!(m.data_port(), 0x21);
    assert_eq!(Pic::<RemapUninit, 0x28>::slave().data_port(), 0xA1);
}

#[test]
fn pic_remap_sequence() {
    let (_, writes) = remap_init(Pic::<RemapUninit, 0x20>::master(), Pic::<RemapUninit, 0x28>::slave(), (0xAA, 0xBB));
    let w = |port: u16, value: u8| PortWrite { port, value };
    let wait = w(0x80, 0);
    assert_eq!(
        writes,
        vec![
            w(0x20, ICW1), wait, w(0xA0, ICW1), wait,
            w(0x21, 0x20), wait, w(0xA1, 0x28), wait,
            w(0x21, 4), wait, w(0xA1, 2), wait,
            w(0x21, ICW4), wait, w(0xA1, ICW4), wait,
            w(0x21, 0xAA), w(0xA1, 0xBB),
        ]
    );
}

#[test]
fn chained_pics() {
    let mut pics = Chained::<0x20, 0x28>::uninit();
    assert_eq!(pics.interupt_fn(0x21), Err(PicError::UnexpectedUnitialized));
    assert_eq!(pics.init((0, 0)).map(|w| w.len()), Ok(18));
    assert_eq!(pics.init((0, 0)), Err(PicError::AlreadyInit));
    assert_eq!(pics.interupt_fn(0x21), Ok(vec![PortWrite { port: 0x20, value: EOI }]));
    assert_eq!(
        pics.interupt_fn(0x29),
        Ok(vec![PortWrite { port: 0xA0, value: EOI }, PortWrite { port: 0x20, value: EOI }])
    );
    assert_eq!(pics.interupt_fn(0x40), Err(PicError::UnhandledInterrupt));
}

#[test]
fn scheduler_round_robin() {
    let mut s: Scheduler<u32, u8> = Scheduler::new(0);
    s.spawn(1);
    s.spawn(2);
    s.spawn(3);
    let t1 = s.run(None).unwrap();
    assert_eq!(t1.task, 1);
    let t2 = s.run(Some((t1, Poll::Pending))).unwrap();
    assert_eq!(t2.task, 2);
    let t3 = s.run(Some((t2, Poll::Ready))).unwrap();
    assert_eq!(t3.task, 3);
    let t1 = s.run(Some((t3, Poll::Pending))).unwrap();
    assert_eq!(t1.task, 1);
    let t3 = s.run(Some((t1, Poll::Ready))).unwrap();
    assert_eq!(t3.task, 3);
    assert!(s.run(Some((t3, Poll::Ready))).is_none());
}

#[test]
fn task_keeps_its_allocator() {
    let t = kos::drivers::scheduler::Task::new(5u8, SharedAllocator::new(9u16));
    assert_eq!(t.task, 5);
    assert_eq!(*t.alloc.inner(), 9);
}

#[test]
fn serial_port_sequences() {
    let port = SerialPort::new(0x3F8);
    assert_eq!(port.data_port(), 0x3F8);
    assert_eq!(port.line_status_port(), 0x3FD);
    let w = |port: u16, value: u8| PortWrite { port, value };
    assert_eq!(
        port.init(),
        vec![
            w(0x3F9, 0), w(0x3FB, 0x80), w(0x3F8, 3), w(0x3F9, 0),
            w(0x3FB, 3), w(0x3FA, 0xC7), w(0x3FC, 0x0B), w(0x3F9, 1),
        ]
    );
    assert_eq!(port.send_char('a'), vec![b'a']);
    assert_eq!(port.send_char('\u{8}'), vec![8, b' ', 8]);
    assert_eq!(port.send_char('\u{7f}'), vec![8, b' ', 8]);
    assert!(output_empty(0x20));
    assert!(!output_empty(0x01));
    assert!(input_full(0x61));
    assert!(!input_full(0x20));
}

#[test]
fn tracing_mapper_wraps() {
    let mut m = TracingMapper(3u8);
    *m.inner() = 4;
    assert_eq!(m.0, 4);
}

#[test]
fn text_is_made_only_of_characters_in_the_font() {
    let t = Text::try_new(String::from("Hello World!"), 80, 100).unwrap();
    assert_eq!(t.draw_box(), (80, 100, 80 + 12 * 8, 114));
    assert!(Text::try_new(String::from("a\u{1F600}b"), 0, 0).is_none());
}
