//! A NS16550a UART, the console every RISC-V Linux device tree expects.
//!
//! The register set is from 1987 and it shows: eight byte-wide registers, two
//! of which change meaning depending on a bit in a third. That bit is DLAB,
//! and it swaps the first two registers for the baud-rate divisor. Nothing
//! here cares about baud rate, but the divisor has to be writable and
//! readable or driver probing fails.

use crate::text;
use std::collections::VecDeque;
use vstd::prelude::*;
use vstd::utf8::*;

verus! {

pub const UART_BASE: u64 = 0x1000_0000;

pub const UART_SIZE: u64 = 0x100;

/// The interrupt line this UART is wired to on the `virt` machine.
pub const UART_IRQ: u32 = 10;

// Register offsets.
/// Receive buffer and transmit holding, or divisor low.
pub const RBR_THR: u64 = 0;

/// Interrupt enable, or divisor high.
pub const IER: u64 = 1;

/// Interrupt identification and FIFO control.
pub const IIR_FCR: u64 = 2;

/// Line control.
pub const LCR: u64 = 3;

/// Modem control.
pub const MCR: u64 = 4;

/// Line status.
pub const LSR: u64 = 5;

/// Modem status.
pub const MSR: u64 = 6;

/// Scratch.
pub const SCR: u64 = 7;

// Line status: data ready is bit 0; the transmitter is idle in bits 5 and 6.
pub const LSR_DATA_READY: u8 = 0x01;

pub const LSR_IDLE: u8 = 0x60;

// Interrupt enable bits.
pub const IER_RX: u8 = 0x01;

pub const IER_THR: u8 = 0x02;

pub const LCR_DLAB: u8 = 0x80;

/// What the UART holds.
#[verifier::ext_equal]
pub struct UartState {
    /// Input not yet read, oldest first.
    pub rx: Seq<u8>,
    /// Everything transmitted, oldest first.
    pub tx: Seq<u8>,
    pub echo: bool,
    pub ier: u8,
    pub fcr: u8,
    pub lcr: u8,
    pub mcr: u8,
    pub scr: u8,
    pub divisor_low: u8,
    pub divisor_high: u8,
}

impl UartState {
    pub open spec fn reset() -> UartState {
        UartState {
            rx: Seq::empty(),
            tx: Seq::empty(),
            echo: false,
            ier: 0,
            fcr: 0,
            lcr: 0,
            mcr: 0,
            scr: 0,
            divisor_low: 0,
            divisor_high: 0,
        }
    }

    pub open spec fn push_input(self, bytes: Seq<u8>) -> UartState {
        UartState { rx: self.rx + bytes, ..self }
    }

    pub open spec fn take_input(self) -> UartState {
        if self.rx.len() > 0 {
            UartState { rx: self.rx.drop_first(), ..self }
        } else {
            self
        }
    }

    pub open spec fn next_input(self) -> Option<u8> {
        if self.rx.len() > 0 {
            Some(self.rx[0])
        } else {
            None
        }
    }

    pub open spec fn dlab(self) -> bool {
        self.lcr & LCR_DLAB != 0
    }

    pub open spec fn receive_interrupt(self) -> bool {
        self.ier & IER_RX != 0 && self.rx.len() > 0
    }

    pub open spec fn transmit_interrupt(self) -> bool {
        self.ier & IER_THR != 0
    }

    pub open spec fn is_interrupting(self) -> bool {
        self.receive_interrupt() || self.transmit_interrupt()
    }

    /// The identification register: the FIFOs are enabled (bits 6 and 7), and
    /// the highest-priority interrupt, where 1 is none.
    pub open spec fn iir(self) -> u8 {
        if self.receive_interrupt() {
            0xc4
        } else if self.transmit_interrupt() {
            0xc2
        } else {
            0xc1
        }
    }

    pub open spec fn line_status(self) -> u8 {
        if self.rx.len() > 0 {
            LSR_IDLE | LSR_DATA_READY
        } else {
            LSR_IDLE
        }
    }

    /// What a load at an offset returns.
    pub open spec fn read_value(self, offset: u64) -> u64 {
        if offset == RBR_THR {
            if self.dlab() {
                self.divisor_low as u64
            } else {
                match self.next_input() {
                    Some(b) => b as u64,
                    None => 0,
                }
            }
        } else if offset == IER {
            if self.dlab() {
                self.divisor_high as u64
            } else {
                self.ier as u64
            }
        } else if offset == IIR_FCR {
            self.iir() as u64
        } else if offset == LCR {
            self.lcr as u64
        } else if offset == MCR {
            self.mcr as u64
        } else if offset == LSR {
            self.line_status() as u64
        } else if offset == MSR {
            0xb0
        } else if offset == SCR {
            self.scr as u64
        } else {
            0
        }
    }

    /// What a load at an offset leaves behind: reading the receive buffer
    /// takes a byte, and nothing else changes anything.
    pub open spec fn after_read(self, offset: u64) -> UartState {
        if offset == RBR_THR && !self.dlab() {
            self.take_input()
        } else {
            self
        }
    }

    pub open spec fn transmit(self, byte: u8) -> UartState {
        UartState { tx: self.tx.push(byte), ..self }
    }

    pub open spec fn write(self, offset: u64, value: u64) -> UartState {
        let byte = value as u8;
        if offset == RBR_THR {
            if self.dlab() {
                UartState { divisor_low: byte, ..self }
            } else {
                self.transmit(byte)
            }
        } else if offset == IER {
            if self.dlab() {
                UartState { divisor_high: byte, ..self }
            } else {
                UartState { ier: byte, ..self }
            }
        } else if offset == IIR_FCR {
            UartState { fcr: byte, ..self }
        } else if offset == LCR {
            UartState { lcr: byte, ..self }
        } else if offset == MCR {
            UartState { mcr: byte, ..self }
        } else if offset == SCR {
            UartState { scr: byte, ..self }
        } else {
            self
        }
    }
}

pub struct Uart {
    pub rx: VecDeque<u8>,
    /// Everything the guest has written, kept so tests can assert on it.
    pub tx: Vec<u8>,
    /// Whether the host should also show transmitted bytes as they appear.
    pub echo: bool,
    pub ier: u8,
    pub fcr: u8,
    pub lcr: u8,
    pub mcr: u8,
    pub scr: u8,
    pub divisor_low: u8,
    pub divisor_high: u8,
}

impl View for Uart {
    type V = UartState;

    open spec fn view(&self) -> UartState {
        UartState {
            rx: self.rx@,
            tx: self.tx@,
            echo: self.echo,
            ier: self.ier,
            fcr: self.fcr,
            lcr: self.lcr,
            mcr: self.mcr,
            scr: self.scr,
            divisor_low: self.divisor_low,
            divisor_high: self.divisor_high,
        }
    }
}

impl Default for Uart {
    fn default() -> (r: Self)
        ensures
            r@ == UartState::reset(),
    {
        Uart {
            rx: VecDeque::new(),
            tx: Vec::new(),
            echo: false,
            ier: 0,
            fcr: 0,
            lcr: 0,
            mcr: 0,
            scr: 0,
            divisor_low: 0,
            divisor_high: 0,
        }
    }
}

impl Uart {
    /// Queues bytes for the guest to read, as though someone typed them.
    pub fn push_input(&mut self, bytes: &[u8])
        ensures
            final(self)@ == old(self)@.push_input(bytes@),
    {
        let mut i: usize = 0;
        assert(bytes@.take(0) =~= Seq::<u8>::empty());
        assert(self@ =~= old(self)@.push_input(bytes@.take(0)));
        while i < bytes.len()
            invariant
                i <= bytes.len(),
                self@ == old(self)@.push_input(bytes@.take(i as int)),
            decreases bytes.len() - i,
        {
            self.rx.push_back(bytes[i]);
            i = i + 1;
            assert(bytes@.take(i as int) =~= bytes@.take(i - 1).push(bytes@[i - 1]));
            assert(self@ =~= old(self)@.push_input(bytes@.take(i as int)));
        }
        assert(bytes@.take(i as int) =~= bytes@);
    }

    /// Takes one queued input byte, if any. Used by the SBI console, which
    /// reports "nothing waiting" rather than blocking.
    pub fn take_input(&mut self) -> (r: Option<u8>)
        ensures
            r == old(self)@.next_input(),
            final(self)@ == old(self)@.take_input(),
    {
        let r = self.rx.pop_front();
        assert(self@ =~= old(self)@.take_input());
        r
    }

    /// Everything written so far, as text. Invalid UTF-8 is replaced rather
    /// than rejected, since a console carries whatever the guest emits.
    pub fn output(&self) -> (r: String)
        ensures
            r@ == text::lossy(self@.tx),
            valid_utf8(self@.tx) ==> r@ == decode_utf8(self@.tx),
    {
        text::decode_lossy(self.tx.as_slice())
    }

    fn line_status(&self) -> (r: u8)
        ensures
            r == self@.line_status(),
    {
        // The transmitter is always idle here: a write completes instantly,
        // so THR is empty the moment it is written.
        if self.rx.len() > 0 {
            LSR_IDLE | LSR_DATA_READY
        } else {
            LSR_IDLE
        }
    }

    /// Whether the UART is asserting its interrupt line.
    ///
    /// A 16550 with the transmit interrupt enabled asserts continuously,
    /// because the holding register is always empty. That is not a bug to
    /// work around: drivers enable it only while they have something to send.
    pub fn is_interrupting(&self) -> (r: bool)
        ensures
            r == self@.is_interrupting(),
    {
        (self.ier & IER_RX != 0 && self.rx.len() > 0) || self.ier & IER_THR != 0
    }

    /// The interrupt identification register, highest priority first.
    fn iir(&self) -> (r: u8)
        ensures
            r == self@.iir(),
    {
        // Bits 6:7 report that the FIFOs are enabled; bit 0 set means "no
        // interrupt pending", which is the inverted sense the hardware uses.
        if self.ier & IER_RX != 0 && self.rx.len() > 0 {
            0xc4
        } else if self.ier & IER_THR != 0 {
            0xc2
        } else {
            0xc1
        }
    }

    pub fn read(&mut self, offset: u64) -> (r: u64)
        ensures
            r == old(self)@.read_value(offset),
            final(self)@ == old(self)@.after_read(offset),
    {
        let dlab = self.lcr & LCR_DLAB != 0;
        let v: u8 = if offset == RBR_THR {
            if dlab {
                self.divisor_low
            } else {
                match self.take_input() {
                    Some(b) => b,
                    None => 0,
                }
            }
        } else if offset == IER {
            if dlab {
                self.divisor_high
            } else {
                self.ier
            }
        } else if offset == IIR_FCR {
            self.iir()
        } else if offset == LCR {
            self.lcr
        } else if offset == MCR {
            self.mcr
        } else if offset == LSR {
            self.line_status()
        } else if offset == MSR {
            // No modem is attached, so report the lines a driver wants to see
            // asserted: clear-to-send, data-set-ready, carrier detect.
            0xb0
        } else if offset == SCR {
            self.scr
        } else {
            0
        };
        v as u64
    }

    pub fn write(&mut self, offset: u64, value: u64)
        ensures
            final(self)@ == old(self)@.write(offset, value),
    {
        let byte = value as u8;
        let dlab = self.lcr & LCR_DLAB != 0;
        if offset == RBR_THR {
            if dlab {
                self.divisor_low = byte;
            } else {
                self.tx.push(byte);
            }
        } else if offset == IER {
            if dlab {
                self.divisor_high = byte;
            } else {
                self.ier = byte;
            }
        } else if offset == IIR_FCR {
            self.fcr = byte;
        } else if offset == LCR {
            self.lcr = byte;
        } else if offset == MCR {
            self.mcr = byte;
        } else if offset == SCR {
            self.scr = byte;
        }
        // LSR and MSR are read-only status.
    }
}

/// Input comes out in the order it went in, whatever was waiting before it.
pub proof fn law_input_is_first_in_first_out(s: UartState, bytes: Seq<u8>)
    requires
        bytes.len() > 0,
    ensures
        s.rx.len() == 0 ==> s.push_input(bytes).next_input() == Some(bytes[0]),
        s.rx.len() == 0 ==> s.push_input(bytes).take_input() == s.push_input(bytes.drop_first()),
        s.rx.len() > 0 ==> s.push_input(bytes).next_input() == s.next_input(),
        s.rx.len() > 0 ==> s.push_input(bytes).take_input() == s.take_input().push_input(bytes),
{
    assert(s.rx.len() == 0 ==> s.push_input(bytes).take_input() =~= s.push_input(
        bytes.drop_first(),
    ));
    assert(s.rx.len() > 0 ==> s.push_input(bytes).take_input() =~= s.take_input().push_input(
        bytes,
    ));
}

/// While DLAB is set the first two registers are the divisor: what is written
/// there reads back, nothing is sent, and no input is taken.
pub proof fn law_the_divisor_reads_back(s: UartState, value: u64)
    requires
        s.dlab(),
    ensures
        s.write(RBR_THR, value).read_value(RBR_THR) == value as u8,
        s.write(IER, value).read_value(IER) == value as u8,
        s.write(RBR_THR, value).tx == s.tx,
        s.after_read(RBR_THR) == s,
{
}

/// Nothing but a write to the holding register, with DLAB clear, transmits.
pub proof fn law_only_the_holding_register_transmits(s: UartState, offset: u64, value: u64)
    ensures
        s.write(offset, value).tx == if offset == RBR_THR && !s.dlab() {
            s.tx.push(value as u8)
        } else {
            s.tx
        },
        s.after_read(offset).tx == s.tx,
{
}

} // verus!
