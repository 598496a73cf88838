//! The console's view of the log: which spans exist, which are entered,
//! and the text each log packet prints.
use vstd::prelude::*;

verus! {

/// The level of a log message.
#[derive(Clone, Copy, PartialEq, Eq, Structural, Debug)]
pub enum Level {
    Error,
    Warn,
    Info,
    Debug,
    Trace,
}

/// A log packet, decoded.
pub enum Packet {
    /// A message logged at `level` from line `line` of `path`.
    Message { level: Level, line: u32, path: Vec<u8>, message: Vec<u8> },
    /// A span is made, with its id and target.
    NewSpan { id: u64, target: Vec<u8> },
    /// The span of this id is entered.
    EnterSpan(u64),
    /// The span of this id is left.
    ExitSpan(u64),
}

/// A span the console knows of.
pub struct SpanInfo {
    pub id: u64,
    pub target: Vec<u8>,
}

/// What the console keeps between packets: the spans made so far, a later
/// one of an id in place of an earlier one, and the entered spans, innermost
/// last, as indices of `spans`.
pub struct ConsoleState {
    pub spans: Vec<SpanInfo>,
    pub stack: Vec<usize>,
}

/// The bytes of `OPEN: `.
pub open spec fn open_lit() -> Seq<u8> {
    seq![79u8, 80u8, 69u8, 78u8, 58u8, 32u8]
}

fn push_open_lit(out: &mut Vec<u8>)
    ensures
        final(out)@ == old(out)@ + open_lit(),
{
    out.push(79u8);
    out.push(80u8);
    out.push(69u8);
    out.push(78u8);
    out.push(58u8);
    out.push(32u8);
    proof {
        assert(out@ =~= old(out)@ + open_lit());
    }
}

/// The bytes of `CLOSE: `.
pub open spec fn close_lit() -> Seq<u8> {
    seq![67u8, 76u8, 79u8, 83u8, 69u8, 58u8, 32u8]
}

fn push_close_lit(out: &mut Vec<u8>)
    ensures
        final(out)@ == old(out)@ + close_lit(),
{
    out.push(67u8);
    out.push(76u8);
    out.push(79u8);
    out.push(83u8);
    out.push(69u8);
    out.push(58u8);
    out.push(32u8);
    proof {
        assert(out@ =~= old(out)@ + close_lit());
    }
}

/// The bytes of ` - `.
pub open spec fn dash_lit() -> Seq<u8> {
    seq![32u8, 45u8, 32u8]
}

fn push_dash_lit(out: &mut Vec<u8>)
    ensures
        final(out)@ == old(out)@ + dash_lit(),
{
    out.push(32u8);
    out.push(45u8);
    out.push(32u8);
    proof {
        assert(out@ =~= old(out)@ + dash_lit());
    }
}

/// The UTF-8 bytes of the arrow that marks a line inside a span.
pub open spec fn arrow_lit() -> Seq<u8> {
    seq![226u8, 134u8, 179u8]
}

fn push_arrow_lit(out: &mut Vec<u8>)
    ensures
        final(out)@ == old(out)@ + arrow_lit(),
{
    out.push(226u8);
    out.push(134u8);
    out.push(179u8);
    proof {
        assert(out@ =~= old(out)@ + arrow_lit());
    }
}

/// What starts an error line: the level in bold red.
pub open spec fn error_head() -> Seq<u8> {
    seq![91u8, 27u8, 91u8, 51u8, 49u8, 59u8, 49u8, 109u8, 69u8, 82u8, 82u8, 79u8, 82u8, 27u8, 91u8, 48u8, 109u8, 93u8, 91u8]
}

fn push_error_head(out: &mut Vec<u8>)
    ensures
        final(out)@ == old(out)@ + error_head(),
{
    out.push(91u8);
    out.push(27u8);
    out.push(91u8);
    out.push(51u8);
    out.push(49u8);
    out.push(59u8);
    out.push(49u8);
    out.push(109u8);
    out.push(69u8);
    out.push(82u8);
    out.push(82u8);
    out.push(79u8);
    out.push(82u8);
    out.push(27u8);
    out.push(91u8);
    out.push(48u8);
    out.push(109u8);
    out.push(93u8);
    out.push(91u8);
    proof {
        assert(out@ =~= old(out)@ + error_head());
    }
}

/// What starts a warning line: the level in bold yellow.
pub open spec fn warn_head() -> Seq<u8> {
    seq![91u8, 27u8, 91u8, 51u8, 51u8, 59u8, 49u8, 109u8, 87u8, 65u8, 82u8, 78u8, 27u8, 91u8, 48u8, 109u8, 93u8, 91u8]
}

fn push_warn_head(out: &mut Vec<u8>)
    ensures
        final(out)@ == old(out)@ + warn_head(),
{
    out.push(91u8);
    out.push(27u8);
    out.push(91u8);
    out.push(51u8);
    out.push(51u8);
    out.push(59u8);
    out.push(49u8);
    out.push(109u8);
    out.push(87u8);
    out.push(65u8);
    out.push(82u8);
    out.push(78u8);
    out.push(27u8);
    out.push(91u8);
    out.push(48u8);
    out.push(109u8);
    out.push(93u8);
    out.push(91u8);
    proof {
        assert(out@ =~= old(out)@ + warn_head());
    }
}

/// What starts an information line: the level in bold blue.
pub open spec fn info_head() -> Seq<u8> {
    seq![91u8, 27u8, 91u8, 51u8, 52u8, 59u8, 49u8, 109u8, 73u8, 78u8, 70u8, 79u8, 27u8, 91u8, 48u8, 109u8, 93u8, 91u8]
}

fn push_info_head(out: &mut Vec<u8>)
    ensures
        final(out)@ == old(out)@ + info_head(),
{
    out.push(91u8);
    out.push(27u8);
    out.push(91u8);
    out.push(51u8);
    out.push(52u8);
    out.push(59u8);
    out.push(49u8);
    out.push(109u8);
    out.push(73u8);
    out.push(78u8);
    out.push(70u8);
    out.push(79u8);
    out.push(27u8);
    out.push(91u8);
    out.push(48u8);
    out.push(109u8);
    out.push(93u8);
    out.push(91u8);
    proof {
        assert(out@ =~= old(out)@ + info_head());
    }
}

/// What starts a debug line: the level, underlined with the place.
pub open spec fn debug_head() -> Seq<u8> {
    seq![27u8, 91u8, 52u8, 59u8, 49u8, 109u8, 91u8, 68u8, 69u8, 66u8, 85u8, 71u8, 93u8, 91u8]
}

fn push_debug_head(out: &mut Vec<u8>)
    ensures
        final(out)@ == old(out)@ + debug_head(),
{
    out.push(27u8);
    out.push(91u8);
    out.push(52u8);
    out.push(59u8);
    out.push(49u8);
    out.push(109u8);
    out.push(91u8);
    out.push(68u8);
    out.push(69u8);
    out.push(66u8);
    out.push(85u8);
    out.push(71u8);
    out.push(93u8);
    out.push(91u8);
    proof {
        assert(out@ =~= old(out)@ + debug_head());
    }
}

/// What starts a trace line: the whole line in faint grey.
pub open spec fn trace_head() -> Seq<u8> {
    seq![27u8, 91u8, 51u8, 56u8, 59u8, 50u8, 59u8, 49u8, 50u8, 56u8, 59u8, 49u8, 50u8, 56u8, 59u8, 49u8, 50u8, 56u8, 59u8, 50u8, 109u8, 91u8, 84u8, 82u8, 65u8, 67u8, 69u8, 93u8, 91u8]
}

fn push_trace_head(out: &mut Vec<u8>)
    ensures
        final(out)@ == old(out)@ + trace_head(),
{
    out.push(27u8);
    out.push(91u8);
    out.push(51u8);
    out.push(56u8);
    out.push(59u8);
    out.push(50u8);
    out.push(59u8);
    out.push(49u8);
    out.push(50u8);
    out.push(56u8);
    out.push(59u8);
    out.push(49u8);
    out.push(50u8);
    out.push(56u8);
    out.push(59u8);
    out.push(49u8);
    out.push(50u8);
    out.push(56u8);
    out.push(59u8);
    out.push(50u8);
    out.push(109u8);
    out.push(91u8);
    out.push(84u8);
    out.push(82u8);
    out.push(65u8);
    out.push(67u8);
    out.push(69u8);
    out.push(93u8);
    out.push(91u8);
    proof {
        assert(out@ =~= old(out)@ + trace_head());
    }
}

/// What follows the place of a line.
pub open spec fn plain_mid() -> Seq<u8> {
    seq![93u8, 32u8, 62u8, 32u8]
}

fn push_plain_mid(out: &mut Vec<u8>)
    ensures
        final(out)@ == old(out)@ + plain_mid(),
{
    out.push(93u8);
    out.push(32u8);
    out.push(62u8);
    out.push(32u8);
    proof {
        assert(out@ =~= old(out)@ + plain_mid());
    }
}

/// What follows the place of a debug line, ending the underline.
pub open spec fn debug_mid() -> Seq<u8> {
    seq![93u8, 27u8, 91u8, 48u8, 109u8, 32u8, 62u8, 32u8]
}

fn push_debug_mid(out: &mut Vec<u8>)
    ensures
        final(out)@ == old(out)@ + debug_mid(),
{
    out.push(93u8);
    out.push(27u8);
    out.push(91u8);
    out.push(48u8);
    out.push(109u8);
    out.push(32u8);
    out.push(62u8);
    out.push(32u8);
    proof {
        assert(out@ =~= old(out)@ + debug_mid());
    }
}

/// The escape that resets the colours.
pub open spec fn reset_lit() -> Seq<u8> {
    seq![27u8, 91u8, 48u8, 109u8]
}

fn push_reset_lit(out: &mut Vec<u8>)
    ensures
        final(out)@ == old(out)@ + reset_lit(),
{
    out.push(27u8);
    out.push(91u8);
    out.push(48u8);
    out.push(109u8);
    proof {
        assert(out@ =~= old(out)@ + reset_lit());
    }
}

/// The decimal digits of `n`.
pub open spec fn decimal(n: nat) -> Seq<u8>
    decreases n,
{
    if n < 10 {
        seq![(48 + n) as u8]
    } else {
        decimal(n / 10).push((48 + n % 10) as u8)
    }
}

/// Appends the decimal digits of `n`.
fn push_decimal(out: &mut Vec<u8>, n: u64)
    ensures
        final(out)@ == old(out)@ + decimal(n as nat),
    decreases n,
{
    if n >= 10 {
        push_decimal(out, n / 10);
    }
    out.push((48 + n % 10) as u8);
    proof {
        if n >= 10 {
            assert(out@ =~= old(out)@ + decimal(n as nat));
        } else {
            assert(out@ =~= old(out)@ + decimal(n as nat));
        }
    }
}

/// Appends `bytes`.
fn push_all(out: &mut Vec<u8>, bytes: &Vec<u8>)
    ensures
        final(out)@ == old(out)@ + bytes@,
{
    let mut k: usize = 0;
    while k < bytes.len()
        invariant
            k <= bytes@.len(),
            out@ == old(out)@ + bytes@.take(k as int),
        decreases bytes@.len() - k,
    {
        out.push(bytes[k]);
        proof {
            assert(out@ =~= old(out)@ + bytes@.take(k + 1));
        }
        k = k + 1;
    }
    proof {
        assert(bytes@.take(bytes@.len() as int) =~= bytes@);
    }
}

/// What starts a line of `level`.
pub open spec fn level_head(level: Level) -> Seq<u8> {
    match level {
        Level::Error => error_head(),
        Level::Warn => warn_head(),
        Level::Info => info_head(),
        Level::Debug => debug_head(),
        Level::Trace => trace_head(),
    }
}

/// The text of a message logged at `level` from line `line` of `path`.
pub open spec fn log_text(level: Level, path: Seq<u8>, line: u32, message: Seq<u8>) -> Seq<u8> {
    let mid = if level == Level::Debug { debug_mid() } else { plain_mid() };
    let tail = if level == Level::Trace { reset_lit() } else { Seq::empty() };
    level_head(level) + path + seq![58u8] + decimal(line as nat) + mid + message + tail
}

/// The line printed on entering (`OPEN: `) or leaving (`CLOSE: `) the span
/// `id` of `target`.
pub open spec fn span_line(head: Seq<u8>, id: u64, target: Seq<u8>) -> Seq<u8> {
    head + decimal(id as nat) + dash_lit() + target + seq![10u8]
}

/// The index of the latest span of `id` among `spans`.
pub open spec fn find_span(spans: Seq<SpanInfo>, id: u64) -> Option<int>
    decreases spans.len(),
{
    if spans.len() == 0 {
        None
    } else if spans.last().id == id {
        Some(spans.len() - 1)
    } else {
        find_span(spans.drop_last(), id)
    }
}

impl ConsoleState {
    /// The stack holds indices of known spans.
    pub open spec fn wf(&self) -> bool {
        forall|k: int| 0 <= k < self.stack@.len() ==> #[trigger] self.stack@[k] < self.spans@.len()
    }

    /// A console that knows no span.
    pub fn new() -> (r: Self)
        ensures
            r.wf(),
            r.spans@.len() == 0,
            r.stack@.len() == 0,
    {
        ConsoleState { spans: Vec::new(), stack: Vec::new() }
    }
}

/// Leaving a known span must leave the innermost entered one, as the
/// console asserts; other packets are always taken.
pub open spec fn step_ok(spans: Seq<SpanInfo>, stack: Seq<usize>, packet: Packet) -> bool {
    match packet {
        Packet::ExitSpan(id) => match find_span(spans, id) {
            Some(_) => stack.len() > 0 && spans[stack.last() as int].id == id,
            None => true,
        },
        _ => true,
    }
}

/// The bytes the console prints for `packet`, the spans being `spans` and
/// the entered ones `stack`.
pub open spec fn step_out(spans: Seq<SpanInfo>, stack: Seq<usize>, packet: Packet) -> Seq<u8> {
    match packet {
        Packet::Message { level, line, path, message } => {
            let indent = Seq::new(stack.len(), |k: int| 32u8);
            let arrow = if stack.len() > 0 { arrow_lit() } else { Seq::empty() };
            indent + arrow + log_text(level, path@, line, message@) + seq![10u8]
        },
        Packet::NewSpan { .. } => Seq::empty(),
        Packet::EnterSpan(id) => match find_span(spans, id) {
            Some(i) => span_line(open_lit(), spans[i].id, spans[i].target@),
            None => Seq::empty(),
        },
        Packet::ExitSpan(id) => match find_span(spans, id) {
            Some(i) => span_line(close_lit(), spans[i].id, spans[i].target@),
            None => Seq::empty(),
        },
    }
}

/// The entered spans after `packet`.
pub open spec fn step_stack(spans: Seq<SpanInfo>, stack: Seq<usize>, packet: Packet) -> Seq<usize> {
    match packet {
        Packet::EnterSpan(id) => match find_span(spans, id) {
            Some(i) => stack.push(i as usize),
            None => stack,
        },
        Packet::ExitSpan(id) => match find_span(spans, id) {
            Some(_) => stack.drop_last(),
            None => stack,
        },
        _ => stack,
    }
}

/// The index of the latest span of `id`.
fn find_span_exec(spans: &Vec<SpanInfo>, id: u64) -> (r: Option<usize>)
    ensures
        r is Some <==> find_span(spans@, id) is Some,
        r matches Some(i) ==> find_span(spans@, id) == Some(i as int) && i < spans@.len(),
{
    let mut i: usize = spans.len();
    proof {
        assert(spans@.take(i as int) =~= spans@);
    }
    while i > 0
        invariant
            i <= spans@.len(),
            find_span(spans@, id) == find_span(spans@.take(i as int), id),
        decreases i,
    {
        if spans[i - 1].id == id {
            return Some(i - 1);
        }
        proof {
            assert(spans@.take(i as int).drop_last() =~= spans@.take(i - 1));
        }
        i = i - 1;
    }
    None
}

/// Takes one log packet: records a new span, enters or leaves a known span
/// (printing an `OPEN` or `CLOSE` line), or prints a message, indented by
/// the number of entered spans and marked with an arrow inside one. Gives
/// the bytes printed.
pub fn console_step(state: &mut ConsoleState, packet: Packet) -> (r: Vec<u8>)
    requires
        old(state).wf(),
        step_ok(old(state).spans@, old(state).stack@, packet),
    ensures
        final(state).wf(),
        r@ == step_out(old(state).spans@, old(state).stack@, packet),
        final(state).stack@ == step_stack(old(state).spans@, old(state).stack@, packet),
        final(state).spans@ == (match packet {
            Packet::NewSpan { id, target } => old(state).spans@.push(SpanInfo { id, target }),
            _ => old(state).spans@,
        }),
{
    let mut out: Vec<u8> = Vec::new();
    match packet {
        Packet::NewSpan { id, target } => {
            state.spans.push(SpanInfo { id, target });
        },
        Packet::EnterSpan(id) => {
            if let Some(i) = find_span_exec(&state.spans, id) {
                state.stack.push(i);
                push_open_lit(&mut out);
                push_decimal(&mut out, state.spans[i].id);
                push_dash_lit(&mut out);
                push_all(&mut out, &state.spans[i].target);
                out.push(10u8);
                proof {
                    assert(out@ =~= span_line(open_lit(), old(state).spans@[i as int].id, old(state).spans@[i as int].target@));
                }
                assert(out@ == step_out(old(state).spans@, old(state).stack@, packet));
            }
        },
        Packet::ExitSpan(id) => {
            if let Some(i) = find_span_exec(&state.spans, id) {
                state.stack.pop();
                push_close_lit(&mut out);
                push_decimal(&mut out, state.spans[i].id);
                push_dash_lit(&mut out);
                push_all(&mut out, &state.spans[i].target);
                out.push(10u8);
                proof {
                    assert(out@ =~= span_line(close_lit(), old(state).spans@[i as int].id, old(state).spans@[i as int].target@));
                }
            }
        },
        Packet::Message { level, line, path, message } => {
            let n = state.stack.len();
            let mut k: usize = 0;
            while k < n
                invariant
                    k <= n,
                    out@ == Seq::new(k as nat, |j: int| 32u8),
                decreases n - k,
            {
                out.push(32u8);
                proof {
                    assert(out@ =~= Seq::new((k + 1) as nat, |j: int| 32u8));
                }
                k = k + 1;
            }
            if n > 0 {
                push_arrow_lit(&mut out);
            }
            let ghost before = out@;
            match level {
                Level::Error => push_error_head(&mut out),
                Level::Warn => push_warn_head(&mut out),
                Level::Info => push_info_head(&mut out),
                Level::Debug => push_debug_head(&mut out),
                Level::Trace => push_trace_head(&mut out),
            }
            push_all(&mut out, &path);
            out.push(58u8);
            push_decimal(&mut out, line as u64);
            if level == Level::Debug {
                push_debug_mid(&mut out);
            } else {
                push_plain_mid(&mut out);
            }
            push_all(&mut out, &message);
            if level == Level::Trace {
                push_reset_lit(&mut out);
            }
            proof {
                assert(out@ =~= before + log_text(level, path@, line, message@));
            }
            out.push(10u8);
            proof {
                let indent = Seq::new(n as nat, |j: int| 32u8);
                let arrow = if n > 0 { arrow_lit() } else { Seq::<u8>::empty() };
                assert(before =~= indent + arrow);
                assert(out@ =~= indent + arrow + log_text(level, path@, line, message@) + seq![10u8]);
            }
            assert(out@ == step_out(old(state).spans@, old(state).stack@, packet));
        },
    }
    out
}

} // verus!
