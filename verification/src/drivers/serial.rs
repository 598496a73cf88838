//! The 16550 UART serial port. Port traffic is left to the caller: the
//! functions here say which bytes go to which port, in order.
use vstd::prelude::*;

use crate::drivers::pic::PortWrite;

verus! {

/// A serial port whose registers start at the I/O port `base`.
pub struct SerialPort {
    base: u16,
}

/// Bit of the line status register: a byte was received.
pub const INPUT_FULL: u8 = 0x01;

/// Bit of the line status register: the transmitter can take a byte.
pub const OUTPUT_EMPTY: u8 = 0x20;

/// The bytes that put a character on the line: a backspace or a delete
/// becomes backspace, space, backspace, which erases the character before
/// the cursor; any other ASCII character is sent as it is.
pub open spec fn char_bytes(c: char) -> Seq<u8> {
    if c as u32 == 8 || c as u32 == 0x7f {
        seq![8u8, 32u8, 8u8]
    } else {
        seq![c as u8]
    }
}

impl SerialPort {
    /// The first register's port.
    pub closed spec fn spec_base(&self) -> u16 {
        self.base
    }

    /// The serial port on the registers from `base` on.
    pub fn new(base: u16) -> (r: Self)
        requires
            base + 5 <= u16::MAX,
        ensures
            r.spec_base() == base,
    {
        SerialPort { base }
    }

    /// The data register: bytes are written there, each once the line
    /// status shows `OUTPUT_EMPTY`, and read there once it shows
    /// `INPUT_FULL`.
    pub fn data_port(&self) -> (r: u16)
        ensures
            r == self.spec_base(),
    {
        self.base
    }

    /// The line status register.
    pub fn line_status_port(&self) -> (r: u16)
        requires
            self.spec_base() + 5 <= u16::MAX,
        ensures
            r == self.spec_base() + 5,
    {
        self.base + 5
    }

    /// What sets the port up for 38400 bps, 8 data bits, no parity, one
    /// stop bit, with its FIFO on and interrupts enabled.
    pub fn init(&self) -> (r: Vec<PortWrite>)
        requires
            self.spec_base() + 5 <= u16::MAX,
        ensures
            r@ == seq![
                PortWrite { port: (self.spec_base() + 1) as u16, value: 0x00 },
                PortWrite { port: (self.spec_base() + 3) as u16, value: 0x80 },
                PortWrite { port: self.spec_base(), value: 0x03 },
                PortWrite { port: (self.spec_base() + 1) as u16, value: 0x00 },
                PortWrite { port: (self.spec_base() + 3) as u16, value: 0x03 },
                PortWrite { port: (self.spec_base() + 2) as u16, value: 0xC7 },
                PortWrite { port: (self.spec_base() + 4) as u16, value: 0x0B },
                PortWrite { port: (self.spec_base() + 1) as u16, value: 0x01 },
            ],
    {
        let b = self.base;
        let mut r: Vec<PortWrite> = Vec::new();
        r.push(PortWrite { port: b + 1, value: 0x00 });
        r.push(PortWrite { port: b + 3, value: 0x80 });
        r.push(PortWrite { port: b, value: 0x03 });
        r.push(PortWrite { port: b + 1, value: 0x00 });
        r.push(PortWrite { port: b + 3, value: 0x03 });
        r.push(PortWrite { port: b + 2, value: 0xC7 });
        r.push(PortWrite { port: b + 4, value: 0x0B });
        r.push(PortWrite { port: b + 1, value: 0x01 });
        proof {
            assert(r@ =~= seq![
                PortWrite { port: (self.spec_base() + 1) as u16, value: 0x00 },
                PortWrite { port: (self.spec_base() + 3) as u16, value: 0x80 },
                PortWrite { port: self.spec_base(), value: 0x03 },
                PortWrite { port: (self.spec_base() + 1) as u16, value: 0x00 },
                PortWrite { port: (self.spec_base() + 3) as u16, value: 0x03 },
                PortWrite { port: (self.spec_base() + 2) as u16, value: 0xC7 },
                PortWrite { port: (self.spec_base() + 4) as u16, value: 0x0B },
                PortWrite { port: (self.spec_base() + 1) as u16, value: 0x01 },
            ]);
        }
        r
    }

    /// The bytes to send, one by one, for the ASCII character `c`.
    pub fn send_char(&self, c: char) -> (r: Vec<u8>)
        requires
            (c as u32) < 128,
        ensures
            r@ == char_bytes(c),
    {
        let v = c as u32;
        let mut r: Vec<u8> = Vec::new();
        if v == 8 || v == 0x7f {
            r.push(8);
            r.push(32);
            r.push(8);
            proof {
                assert(r@ =~= seq![8u8, 32u8, 8u8]);
            }
        } else {
            r.push(v as u8);
            proof {
                assert(r@ =~= seq![c as u8]);
            }
        }
        r
    }
}

/// The line status shows that the transmitter can take a byte.
pub fn output_empty(status: u8) -> (r: bool)
    ensures
        r == (status & OUTPUT_EMPTY != 0),
{
    status & OUTPUT_EMPTY != 0
}

/// The line status shows that a byte was received.
pub fn input_full(status: u8) -> (r: bool)
    ensures
        r == (status & INPUT_FULL != 0),
{
    status & INPUT_FULL != 0
}

} // verus!
