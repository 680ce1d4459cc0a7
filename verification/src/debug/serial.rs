//! The 16550 serial port the kernel prints on: the probe and set-up
//! sequence, the loopback test, and the bytes a line of text becomes on the
//! wire. Port reads and writes are the caller's.

use vstd::prelude::*;

verus! {

/// The first serial port's base I/O port.
pub const COM1_BASE: u16 = 0x3F8;

/// Register offsets from the base port.
pub const DATA_BUFFER: u16 = 0;
pub const DIVISOR_LOW: u16 = 0;
pub const INTERRUPT_ENABLE: u16 = 1;
pub const DIVISOR_HIGH: u16 = 1;
pub const FIFO_CONTROL: u16 = 2;
pub const LINE_CONTROL: u16 = 3;
pub const MODEM_CONTROL: u16 = 4;
pub const LINE_STATUS: u16 = 5;
pub const SCRATCH: u16 = 7;

/// The value the scratch register must keep for the port to be there, and
/// the byte the loopback test sends.
pub const SCRATCH_TEST_VALUE: u8 = 0x42;
pub const LOOPBACK_TEST_VALUE: u8 = 0xAE;

/// The line status bit that says the transmitter can take a byte.
pub const TRANSMITTER_EMPTY: u8 = 0x20;

/// Why the serial port cannot be used.
#[derive(Clone, Copy, Debug, PartialEq, Eq, Structural)]
pub enum SerialPortError {
    NotFound,
    Faulty,
}

/// A serial port at a base I/O port.
#[derive(Clone, Copy, Debug, PartialEq, Eq, Structural)]
pub struct SerialPort {
    base: u16,
}

impl SerialPort {
    pub closed spec fn spec_base(&self) -> u16 {
        self.base
    }

    /// The port at `base`.
    pub fn new(base: u16) -> (r: Self)
        ensures
            r.spec_base() == base,
    {
        SerialPort { base }
    }

    /// The first serial port.
    pub fn com1() -> (r: Self)
        ensures
            r.spec_base() == COM1_BASE,
    {
        SerialPort { base: COM1_BASE }
    }

    /// The I/O port of register `register`.
    pub fn port(&self, register: u16) -> (r: u16)
        requires
            self.spec_base() + register <= u16::MAX,
        ensures
            r == self.spec_base() + register,
    {
        self.base + register
    }

    /// The write that probes for the port: the test value into the scratch
    /// register, which has no other use.
    pub fn probe_write(&self) -> (r: (u16, u8))
        requires
            self.spec_base() + SCRATCH <= u16::MAX,
        ensures
            r == ((self.spec_base() + SCRATCH) as u16, SCRATCH_TEST_VALUE),
    {
        (self.base + SCRATCH, SCRATCH_TEST_VALUE)
    }

    /// Sets the port up once the scratch register read back `scratch`:
    /// `NotFound` unless it kept the test value; otherwise the writes, in
    /// order, that turn interrupts off, set 115200 baud (divisor 1, through
    /// the divisor latch), eight data bits, the FIFOs on and cleared with a
    /// 14-byte trigger, the modem lines up, and then loopback mode for the
    /// test. The caller then sends [`LOOPBACK_TEST_VALUE`] and reads the
    /// data register back.
    pub fn init(&self, scratch: u8) -> (r: Result<Vec<(u16, u8)>, SerialPortError>)
        requires
            self.spec_base() + SCRATCH <= u16::MAX,
        ensures
            scratch != SCRATCH_TEST_VALUE ==> r == Err::<Vec<(u16, u8)>, SerialPortError>(SerialPortError::NotFound),
            scratch == SCRATCH_TEST_VALUE ==> (r matches Ok(w) && w@ == seq![
                ((self.spec_base() + INTERRUPT_ENABLE) as u16, 0u8),
                ((self.spec_base() + LINE_CONTROL) as u16, 0x80u8),
                ((self.spec_base() + DIVISOR_LOW) as u16, 1u8),
                ((self.spec_base() + DIVISOR_HIGH) as u16, 0u8),
                ((self.spec_base() + LINE_CONTROL) as u16, 0x03u8),
                ((self.spec_base() + FIFO_CONTROL) as u16, 0xC7u8),
                ((self.spec_base() + MODEM_CONTROL) as u16, 0x0Bu8),
                ((self.spec_base() + MODEM_CONTROL) as u16, 0x1Eu8),
            ]),
    {
        if scratch != SCRATCH_TEST_VALUE {
            return Err(SerialPortError::NotFound);
        }
        let mut w: Vec<(u16, u8)> = Vec::new();
        w.push((self.base + INTERRUPT_ENABLE, 0));
        w.push((self.base + LINE_CONTROL, 0x80));
        w.push((self.base + DIVISOR_LOW, 1));
        w.push((self.base + DIVISOR_HIGH, 0));
        w.push((self.base + LINE_CONTROL, 0x03));
        // FIFOs enabled (bit 0), both cleared (bits 1, 2), 14-byte trigger (bits 6, 7).
        w.push((self.base + FIFO_CONTROL, 0xC7));
        // Data terminal ready (bit 0), request to send (bit 1), OUT2 (bit 3).
        w.push((self.base + MODEM_CONTROL, 0x0B));
        // Request to send, OUT1 (bit 2), OUT2 and loopback (bit 4).
        w.push((self.base + MODEM_CONTROL, 0x1E));
        Ok(w)
    }

    /// Ends the set-up once the loopback test's byte came back as `echoed`:
    /// `Faulty` unless it is the byte sent; otherwise the write that leaves
    /// loopback mode with the modem lines up.
    pub fn finish_init(&self, echoed: u8) -> (r: Result<(u16, u8), SerialPortError>)
        requires
            self.spec_base() + MODEM_CONTROL <= u16::MAX,
        ensures
            echoed != LOOPBACK_TEST_VALUE ==> r == Err::<(u16, u8), SerialPortError>(SerialPortError::Faulty),
            echoed == LOOPBACK_TEST_VALUE ==> r == Ok::<(u16, u8), SerialPortError>(
                ((self.spec_base() + MODEM_CONTROL) as u16, 0x0Fu8),
            ),
    {
        if echoed != LOOPBACK_TEST_VALUE {
            return Err(SerialPortError::Faulty);
        }
        // Data terminal ready, request to send, OUT1 and OUT2.
        Ok((self.base + MODEM_CONTROL, 0x0F))
    }

    /// Whether the line status `status` lets a byte be sent.
    pub fn can_transfer(status: u8) -> (r: bool)
        ensures
            r == (status & TRANSMITTER_EMPTY != 0),
    {
        status & TRANSMITTER_EMPTY != 0
    }

    /// The bytes that sending `byte` puts on the line: a newline goes as a
    /// carriage return and a newline.
    pub fn write_byte(byte: u8) -> (r: Vec<u8>)
        ensures
            r@ == spec_line_bytes(byte),
    {
        let mut v: Vec<u8> = Vec::new();
        if byte == 10 {
            v.push(13);
        }
        v.push(byte);
        v
    }
}

/// What sending `byte` puts on the line.
pub open spec fn spec_line_bytes(byte: u8) -> Seq<u8> {
    if byte == 10 {
        seq![13u8, 10u8]
    } else {
        seq![byte]
    }
}

/// What sending the bytes `s` puts on the line, byte after byte.
pub open spec fn spec_wire(s: Seq<u8>) -> Seq<u8>
    decreases s.len(),
{
    if s.len() == 0 {
        Seq::empty()
    } else {
        spec_wire(s.drop_last()) + spec_line_bytes(s.last())
    }
}

/// The bytes that printing `text` puts on the line: each byte as
/// [`SerialPort::write_byte`] sends it, in order.
pub fn print(text: &[u8]) -> (r: Vec<u8>)
    ensures
        r@ == spec_wire(text@),
{
    let mut out: Vec<u8> = Vec::new();
    let mut i: usize = 0;
    while i < text.len()
        invariant
            i <= text@.len(),
            out@ == spec_wire(text@.subrange(0, i as int)),
        decreases text@.len() - i,
    {
        let b = text[i];
        let piece = SerialPort::write_byte(b);
        let mut j: usize = 0;
        let ghost before = out@;
        while j < piece.len()
            invariant
                j <= piece@.len(),
                out@ == before + piece@.subrange(0, j as int),
            decreases piece@.len() - j,
        {
            out.push(piece[j]);
            j = j + 1;
            proof {
                assert(piece@.subrange(0, j as int) == piece@.subrange(0, j - 1).push(piece@[j - 1]));
            }
        }
        proof {
            assert(piece@.subrange(0, piece@.len() as int) == piece@);
            assert(text@.subrange(0, i + 1).drop_last() == text@.subrange(0, i as int));
            assert(text@.subrange(0, i + 1).last() == b);
        }
        i = i + 1;
    }
    proof {
        assert(text@.subrange(0, text@.len() as int) == text@);
    }
    out
}

} // verus!
