//! The two chained 8259 programmable interrupt controllers. Port traffic is
//! left to the caller: the functions here say which bytes go to which port,
//! in order.
use vstd::prelude::*;

use core::marker::PhantomData;

verus! {

/// A state of a controller.
pub trait PicState {}

/// A state a controller can be used in.
pub trait PicFinalState: PicState {}

/// A state a controller can be set up from.
pub trait PicStartState: PicState {}

/// A controller used as the firmware left it.
pub struct Raw;

impl PicState for Raw {}

impl PicFinalState for Raw {}

impl PicStartState for Raw {}

/// A controller not yet remapped.
pub struct RemapUninit;

impl PicState for RemapUninit {}

impl PicStartState for RemapUninit {}

struct RemapICW1;

impl PicState for RemapICW1 {}

struct RemapICW2;

impl PicState for RemapICW2 {}

struct RemapICW3;

impl PicState for RemapICW3 {}

struct RemapICW4;

impl PicState for RemapICW4 {}

/// A controller remapped to its offset.
pub struct RemapInit;

impl PicState for RemapInit {}

impl PicFinalState for RemapInit {}

/// A byte to send to an I/O port.
#[derive(Clone, Copy, PartialEq, Eq, Structural, Debug)]
pub struct PortWrite {
    pub port: u16,
    pub value: u8,
}

/// Initialisation word 1: start initialisation, a fourth word follows.
pub const ICW1: u8 = 0x11;

/// Initialisation word 4: 8086 mode.
pub const ICW4: u8 = 0x01;

/// The port written to give the controllers time between two words.
pub const WAIT_PORT: u16 = 0x80;

/// End of interrupt command.
pub const EOI: u8 = 0x20;

/// A controller in state `S` whose interrupts start at `OFFSET`, reached
/// through its command and data ports.
pub struct Pic<S: PicState, const OFFSET: u8> {
    command: u16,
    data: u16,
    _s: PhantomData<S>,
}

impl<S: PicState, const OFFSET: u8> Pic<S, OFFSET> {
    /// The command port.
    pub closed spec fn spec_command(&self) -> u16 {
        self.command
    }

    /// The data port.
    pub closed spec fn spec_data(&self) -> u16 {
        self.data
    }

    /// The controller's data port, where its mask is read.
    pub fn data_port(&self) -> (r: u16)
        ensures
            r == self.spec_data(),
    {
        self.data
    }

    /// The interrupt is one of the eight this controller raises.
    pub fn handles_interrupt(&self, id: u8) -> (r: bool)
        requires
            OFFSET + 8 <= u8::MAX,
        ensures
            r == (OFFSET <= id && id < OFFSET + 8),
    {
        OFFSET <= id && id < OFFSET + 8
    }

    fn into_state<T: PicState>(self) -> (r: Pic<T, OFFSET>)
        ensures
            r.spec_command() == self.spec_command(),
            r.spec_data() == self.spec_data(),
    {
        Pic { command: self.command, data: self.data, _s: PhantomData }
    }
}

impl<S: PicStartState, const OFFSET: u8> Pic<S, OFFSET> {
    /// The controller behind the given ports.
    pub fn new(command: u16, data: u16) -> (r: Self)
        ensures
            r.spec_command() == command,
            r.spec_data() == data,
    {
        Pic { command, data, _s: PhantomData }
    }

    /// The primary controller.
    pub fn master() -> (r: Self)
        ensures
            r.spec_command() == 0x20,
            r.spec_data() == 0x21,
    {
        Self::new(0x20, 0x21)
    }

    /// The secondary controller.
    pub fn slave() -> (r: Self)
        ensures
            r.spec_command() == 0xA0,
            r.spec_data() == 0xA1,
    {
        Self::new(0xA0, 0xA1)
    }
}

impl<S: PicFinalState, const OFFSET: u8> Pic<S, OFFSET> {
    /// Ends the interrupt being served.
    pub fn eoi(&self) -> (r: PortWrite)
        ensures
            r == (PortWrite { port: self.spec_command(), value: EOI }),
    {
        PortWrite { port: self.command, value: EOI }
    }
}

/// What remapping a pair of controllers sends, in order: each of the four
/// initialisation words to the primary and then to the secondary
/// controller, a wait after each, and last the two masks.
pub open spec fn remap_writes(mc: u16, md: u16, sc: u16, sd: u16, a: u8, b: u8, masks: (u8, u8)) -> Seq<PortWrite> {
    let w = PortWrite { port: WAIT_PORT, value: 0 };
    seq![
        PortWrite { port: mc, value: ICW1 }, w,
        PortWrite { port: sc, value: ICW1 }, w,
        PortWrite { port: md, value: a }, w,
        PortWrite { port: sd, value: b }, w,
        PortWrite { port: md, value: 4 }, w,
        PortWrite { port: sd, value: 2 }, w,
        PortWrite { port: md, value: ICW4 }, w,
        PortWrite { port: sd, value: ICW4 }, w,
        PortWrite { port: md, value: masks.0 },
        PortWrite { port: sd, value: masks.1 },
    ]
}

/// Remaps the primary controller to `A` and the secondary one to `B`,
/// keeping the masks they had.
pub fn remap_init<const A: u8, const B: u8>(
    master: Pic<RemapUninit, A>,
    slave: Pic<RemapUninit, B>,
    masks: (u8, u8),
) -> (r: ((Pic<RemapInit, A>, Pic<RemapInit, B>), Vec<PortWrite>))
    ensures
        r.0.0.spec_command() == master.spec_command() && r.0.0.spec_data() == master.spec_data(),
        r.0.1.spec_command() == slave.spec_command() && r.0.1.spec_data() == slave.spec_data(),
        r.1@ == remap_writes(
            master.spec_command(),
            master.spec_data(),
            slave.spec_command(),
            slave.spec_data(),
            A,
            B,
            masks,
        ),
{
    let mut out: Vec<PortWrite> = Vec::new();
    let wait = PortWrite { port: WAIT_PORT, value: 0 };
    out.push(PortWrite { port: master.command, value: ICW1 });
    out.push(wait);
    out.push(PortWrite { port: slave.command, value: ICW1 });
    out.push(wait);
    out.push(PortWrite { port: master.data, value: A });
    out.push(wait);
    out.push(PortWrite { port: slave.data, value: B });
    out.push(wait);
    out.push(PortWrite { port: master.data, value: 4 });
    out.push(wait);
    out.push(PortWrite { port: slave.data, value: 2 });
    out.push(wait);
    out.push(PortWrite { port: master.data, value: ICW4 });
    out.push(wait);
    out.push(PortWrite { port: slave.data, value: ICW4 });
    out.push(wait);
    out.push(PortWrite { port: master.data, value: masks.0 });
    out.push(PortWrite { port: slave.data, value: masks.1 });
    let m: Pic<RemapICW1, A> = master.into_state();
    let m: Pic<RemapICW2, A> = m.into_state();
    let m: Pic<RemapICW3, A> = m.into_state();
    let m: Pic<RemapICW4, A> = m.into_state();
    let s: Pic<RemapICW1, B> = slave.into_state();
    let s: Pic<RemapICW2, B> = s.into_state();
    let s: Pic<RemapICW3, B> = s.into_state();
    let s: Pic<RemapICW4, B> = s.into_state();
    proof {
        assert(out@ =~= remap_writes(m.spec_command(), m.spec_data(), s.spec_command(), s.spec_data(), A, B, masks));
    }
    ((m.into_state(), s.into_state()), out)
}

/// The state of a pair of chained controllers.
pub enum State<const A: u8, const B: u8> {
    Init((Pic<RemapInit, A>, Pic<RemapInit, B>)),
    Uninit(Option<(Pic<RemapUninit, A>, Pic<RemapUninit, B>)>),
    Raw((Pic<Raw, A>, Pic<Raw, B>)),
}

/// A primary controller with interrupts from `A` on, chained to a secondary
/// one with interrupts from `B` on.
pub struct Chained<const A: u8, const B: u8> {
    pub state: State<A, B>,
}

/// Why a request to the controllers failed.
#[derive(Clone, Copy, PartialEq, Eq, Structural, Debug)]
pub enum Error {
    UnhandledInterrupt,
    AlreadyInit,
    UnexpectedUnitialized,
}

impl<const A: u8, const B: u8> Chained<A, B> {
    /// The standard controllers, not yet remapped.
    pub fn uninit() -> (r: Self)
        ensures
            r.state matches State::Uninit(Some((m, s))) && m.spec_command() == 0x20 && m.spec_data() == 0x21
                && s.spec_command() == 0xA0 && s.spec_data() == 0xA1,
    {
        Chained { state: State::Uninit(Some((Pic::master(), Pic::slave()))) }
    }

    /// Controllers used as the firmware left them.
    pub fn raw(master: Pic<Raw, A>, slave: Pic<Raw, B>) -> (r: Self)
        ensures
            r.state matches State::Raw((m, s)) && m.spec_command() == master.spec_command()
                && m.spec_data() == master.spec_data() && s.spec_command() == slave.spec_command()
                && s.spec_data() == slave.spec_data(),
    {
        Chained { state: State::Raw((master, slave)) }
    }

    /// Remaps controllers not yet remapped, keeping `masks`, the masks read
    /// from their data ports: what to send them. Controllers already set up
    /// are refused.
    pub fn init(&mut self, masks: (u8, u8)) -> (r: Result<Vec<PortWrite>, Error>)
        ensures
            match old(self).state {
                State::Uninit(Some((m, s))) => (r matches Ok(w) && w@ == remap_writes(
                    m.spec_command(),
                    m.spec_data(),
                    s.spec_command(),
                    s.spec_data(),
                    A,
                    B,
                    masks,
                ) && (final(self).state matches State::Init((m2, s2)) && m2.spec_command() == m.spec_command()
                    && m2.spec_data() == m.spec_data() && s2.spec_command() == s.spec_command()
                    && s2.spec_data() == s.spec_data())),
                State::Uninit(None) => r == Err::<Vec<PortWrite>, Error>(Error::UnexpectedUnitialized),
                _ => r == Err::<Vec<PortWrite>, Error>(Error::AlreadyInit),
            },
            r is Err ==> *final(self) == *old(self),
    {
        match &self.state {
            State::Uninit(Some(_)) => {},
            State::Uninit(None) => {
                return Err(Error::UnexpectedUnitialized);
            },
            _ => {
                return Err(Error::AlreadyInit);
            },
        }
        let mut old_state = State::Uninit(None);
        std::mem::swap(&mut old_state, &mut self.state);
        match old_state {
            State::Uninit(Some((master, slave))) => {
                let (pics, writes) = remap_init(master, slave, masks);
                self.state = State::Init(pics);
                Ok(writes)
            },
            _ => {
                proof {
                    assert(false);
                }
                Err(Error::AlreadyInit)
            },
        }
    }

    /// Acknowledges interrupt `int_code`: the end of interrupt commands to
    /// send, to the secondary controller first where it raised it.
    pub fn interupt_fn(&mut self, int_code: u8) -> (r: Result<Vec<PortWrite>, Error>)
        requires
            !(old(self).state is Raw),
            A + 8 <= u8::MAX,
            B + 8 <= u8::MAX,
        ensures
            match old(self).state {
                State::Init((m, s)) => {
                    let on_m = A <= int_code < A + 8;
                    let on_s = B <= int_code < B + 8;
                    if on_s {
                        r matches Ok(w) && w@ == seq![
                            PortWrite { port: s.spec_command(), value: EOI },
                            PortWrite { port: m.spec_command(), value: EOI },
                        ]
                    } else if on_m {
                        r matches Ok(w) && w@ == seq![PortWrite { port: m.spec_command(), value: EOI }]
                    } else {
                        r == Err::<Vec<PortWrite>, Error>(Error::UnhandledInterrupt)
                    }
                },
                _ => r == Err::<Vec<PortWrite>, Error>(Error::UnexpectedUnitialized),
            },
    {
        match &self.state {
            State::Init((master, slave)) => {
                if master.handles_interrupt(int_code) || slave.handles_interrupt(int_code) {
                    let mut out: Vec<PortWrite> = Vec::new();
                    if slave.handles_interrupt(int_code) {
                        out.push(slave.eoi());
                    }
                    out.push(master.eoi());
                    Ok(out)
                } else {
                    Err(Error::UnhandledInterrupt)
                }
            },
            _ => Err(Error::UnexpectedUnitialized),
        }
    }
}

} // verus!
