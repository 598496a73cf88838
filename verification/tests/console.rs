use kos::konsole::console::{console_step, ConsoleState, Level, Packet};

fn message(level: Level, line: u32, path: &str, text: &str) -> Packet {
    Packet::Message { level, line, path: path.as_bytes().to_vec(), message: text.as_bytes().to_vec() }
}

#[test]
fn console_prints_spans_and_indented_messages() {
    let mut c = ConsoleState::new();
    assert!(console_step(&mut c, Packet::NewSpan { id: 7, target: b"kernel::boot".to_vec() }).is_empty());
    assert!(console_step(&mut c, Packet::EnterSpan(3)).is_empty());
    assert_eq!(console_step(&mut c, Packet::EnterSpan(7)), b"OPEN: 7 - kernel::boot\n".to_vec());
    assert_eq!(c.stack, vec![0]);
    assert_eq!(
        String::from_utf8(console_step(&mut c, message(Level::Info, 42, "kernel/src/main.rs", "hello"))).unwrap(),
        " \u{21b3}[\u{001b}[34;1mINFO\u{001b}[0m][kernel/src/main.rs:42] > hello\n"
    );
    assert_eq!(console_step(&mut c, Packet::ExitSpan(7)), b"CLOSE: 7 - kernel::boot\n".to_vec());
    assert!(c.stack.is_empty());
}

#[test]
fn console_formats_each_level() {
    let mut c = ConsoleState::new();
    let line = |c: &mut ConsoleState, l: Level| String::from_utf8(console_step(c, message(l, 1, "m", "x"))).unwrap();
    assert_eq!(line(&mut c, Level::Error), "[\u{001b}[31;1mERROR\u{001b}[0m][m:1] > x\n");
    assert_eq!(line(&mut c, Level::Warn), "[\u{001b}[33;1mWARN\u{001b}[0m][m:1] > x\n");
    assert_eq!(line(&mut c, Level::Debug), "\u{001b}[4;1m[DEBUG][m:1]\u{001b}[0m > x\n");
    assert_eq!(line(&mut c, Level::Trace), "\u{001b}[38;2;128;128;128;2m[TRACE][m:1] > x\u{001b}[0m\n");
    let big = String::from_utf8(console_step(&mut c, message(Level::Info, 4_000_000_000, "p", ""))).unwrap();
    assert!(big.ends_with("[p:4000000000] > \n"));
}

#[test]
fn a_later_span_of_an_id_takes_its_place() {
    let mut c = ConsoleState::new();
    let _ = console_step(&mut c, Packet::NewSpan { id: 1, target: b"a".to_vec() });
    let _ = console_step(&mut c, Packet::NewSpan { id: 1, target: b"b".to_vec() });
    assert_eq!(console_step(&mut c, Packet::EnterSpan(1)), b"OPEN: 1 - b\n".to_vec());
    let inner = String::from_utf8(console_step(&mut c, Packet::EnterSpan(1))).unwrap();
    assert_eq!(inner, "OPEN: 1 - b\n");
    let msg = String::from_utf8(console_step(&mut c, message(Level::Info, 0, "q", "z"))).unwrap();
    assert!(msg.starts_with("  \u{21b3}["));
}
