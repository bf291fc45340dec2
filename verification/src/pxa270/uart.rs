//! PXA27x UARTs: 16550-compatible, but with registers spaced four bytes apart.
//!
//! FFUART at 0x40100000 is EBOOT's console, which makes it the first thing
//! that has to work: its output is how we find out whether anything else does.

use super::intc::Intc;
use std::collections::VecDeque;
use vstd::prelude::*;

verus! {

pub const FFUART: u32 = 0x4010_0000;
pub const BTUART: u32 = 0x4020_0000;
pub const STUART: u32 = 0x4070_0000;

// LSR
pub const LSR_DR: u32 = 0x01;
pub const LSR_THRE: u32 = 0x20;
pub const LSR_TEMT: u32 = 0x40;
// IER
pub const IER_RAVIE: u32 = 0x01;
pub const IER_TIE: u32 = 0x02;
pub const IER_UUE: u32 = 0x40;

pub struct Uart {
    pub irq: u32,
    pub ier: u32,
    pub fcr: u32,
    pub lcr: u32,
    pub mcr: u32,
    pub spr: u32,
    pub isr: u32,
    pub divisor: u32,
    /// Bytes the guest has transmitted, waiting for the host to drain.
    pub tx: Vec<u8>,
    /// Bytes the host has queued for the guest to receive.
    pub rx: VecDeque<u8>,
    /// Register accesses, so it is visible which ports a guest actually uses
    /// even when it never sends a byte.
    pub reads: u64,
    pub writes: u64,
    pub bytes_sent: u64,
    /// Program counter of the first byte transmitted, so the sending driver
    /// can be identified rather than assumed.
    pub first_tx_pc: u32,
}

/// What a [`Uart`] holds. `tx` and `rx` are oldest first.
#[verifier::ext_equal]
pub struct UartState {
    pub irq: u32,
    pub ier: u32,
    pub fcr: u32,
    pub lcr: u32,
    pub mcr: u32,
    pub spr: u32,
    pub isr: u32,
    pub divisor: u32,
    pub tx: Seq<u8>,
    pub rx: Seq<u8>,
    pub reads: u64,
    pub writes: u64,
    pub bytes_sent: u64,
    pub first_tx_pc: u32,
}

impl View for Uart {
    type V = UartState;

    open spec fn view(&self) -> UartState {
        UartState {
            irq: self.irq,
            ier: self.ier,
            fcr: self.fcr,
            lcr: self.lcr,
            mcr: self.mcr,
            spr: self.spr,
            isr: self.isr,
            divisor: self.divisor,
            tx: self.tx@,
            rx: self.rx@,
            reads: self.reads,
            writes: self.writes,
            bytes_sent: self.bytes_sent,
            first_tx_pc: self.first_tx_pc,
        }
    }
}

impl UartState {
    pub open spec fn fresh(irq: u32) -> UartState {
        UartState {
            irq,
            ier: 0,
            fcr: 0,
            lcr: 0,
            mcr: 0,
            spr: 0,
            isr: 0,
            divisor: 1,
            tx: Seq::empty(),
            rx: Seq::empty(),
            reads: 0,
            writes: 0,
            bytes_sent: 0,
            first_tx_pc: 0,
        }
    }

    pub open spec fn dlab_spec(self) -> bool {
        self.lcr & 0x80 != 0
    }

    pub open spec fn lsr_spec(self) -> u32 {
        if self.rx.len() > 0 {
            (LSR_THRE | LSR_TEMT) | LSR_DR
        } else {
            LSR_THRE | LSR_TEMT
        }
    }

    pub open spec fn iir_spec(self) -> u32 {
        if self.ier & IER_RAVIE != 0 && self.rx.len() > 0 {
            0x04
        } else if self.ier & IER_TIE != 0 {
            0x02
        } else {
            0x01
        }
    }

    /// The interrupt line: the unit is enabled and has something to report.
    pub open spec fn drive(self, intc: Intc) -> Intc {
        intc.driven(self.irq, self.ier & IER_UUE != 0 && self.iir_spec() & 1 == 0)
    }

    pub open spec fn read_spec(self, offset: u32) -> u32 {
        if offset == 0x00 {
            if self.dlab_spec() {
                self.divisor & 0xFF
            } else if self.rx.len() > 0 {
                self.rx[0] as u32
            } else {
                0
            }
        } else if offset == 0x04 {
            if self.dlab_spec() {
                (self.divisor >> 8) & 0xFF
            } else {
                self.ier
            }
        } else if offset == 0x08 {
            self.iir_spec() | (if self.fcr & 1 != 0 {
                0xC0u32
            } else {
                0u32
            })
        } else if offset == 0x0C {
            self.lcr
        } else if offset == 0x10 {
            self.mcr
        } else if offset == 0x14 {
            self.lsr_spec()
        } else if offset == 0x18 {
            0xB0
        } else if offset == 0x1C {
            self.spr
        } else if offset == 0x20 {
            self.isr
        } else if offset == 0x24 {
            self.rx.len() as u32
        } else {
            0
        }
    }

    /// Reading the data register takes the oldest received byte; every read
    /// is counted.
    pub open spec fn after_read(self, offset: u32) -> UartState {
        UartState {
            reads: self.reads.wrapping_add(1),
            rx: if offset == 0x00 && !self.dlab_spec() && self.rx.len() > 0 {
                self.rx.subrange(1, self.rx.len() as int)
            } else {
                self.rx
            },
            ..self
        }
    }

    pub open spec fn written(self, offset: u32, val: u32) -> UartState {
        let s = UartState { writes: self.writes.wrapping_add(1), ..self };
        if offset == 0x00 {
            if self.dlab_spec() {
                UartState { divisor: (s.divisor & 0xFF00) | (val & 0xFF), ..s }
            } else {
                UartState {
                    tx: s.tx.push(val as u8),
                    bytes_sent: s.bytes_sent.wrapping_add(1),
                    ..s
                }
            }
        } else if offset == 0x04 {
            if self.dlab_spec() {
                UartState { divisor: (s.divisor & 0xFF) | ((val & 0xFF) << 8), ..s }
            } else {
                UartState { ier: val, ..s }
            }
        } else if offset == 0x08 {
            UartState {
                fcr: val,
                rx: if val & 0x02 != 0 {
                    Seq::empty()
                } else {
                    s.rx
                },
                ..s
            }
        } else if offset == 0x0C {
            UartState { lcr: val, ..s }
        } else if offset == 0x10 {
            UartState { mcr: val, ..s }
        } else if offset == 0x1C {
            UartState { spr: val, ..s }
        } else if offset == 0x20 {
            UartState { isr: val, ..s }
        } else {
            s
        }
    }

    /// As [`UartState::written`], noting who sent the first byte.
    pub open spec fn written_from(self, offset: u32, val: u32, pc: u32) -> UartState {
        if offset == 0 && !self.dlab_spec() && self.bytes_sent == 0 {
            (UartState { first_tx_pc: pc, ..self }).written(offset, val)
        } else {
            self.written(offset, val)
        }
    }
}

impl Uart {
    pub fn new(irq: u32) -> (r: Self)
        ensures
            r@ == UartState::fresh(irq),
    {
        Uart {
            irq,
            ier: 0,
            fcr: 0,
            lcr: 0,
            mcr: 0,
            spr: 0,
            isr: 0,
            divisor: 1,
            tx: Vec::new(),
            rx: VecDeque::new(),
            reads: 0,
            writes: 0,
            bytes_sent: 0,
            first_tx_pc: 0,
        }
    }

    fn dlab(&self) -> (r: bool)
        ensures
            r == self@.dlab_spec(),
    {
        self.lcr & 0x80 != 0
    }

    fn lsr(&self) -> (r: u32)
        ensures
            r == self@.lsr_spec(),
    {
        // Transmission is instantaneous here, so the holding register is
        // always empty.
        let mut v: u32 = LSR_THRE | LSR_TEMT;
        if self.rx.len() > 0 {
            v = v | LSR_DR;
        }
        v
    }

    /// The 16550 interrupt identification register, highest priority first.
    fn iir(&self) -> (r: u32)
        ensures
            r == self@.iir_spec(),
    {
        if self.ier & IER_RAVIE != 0 && self.rx.len() > 0 {
            0x04  // received data available

        } else if self.ier & IER_TIE != 0 {
            0x02  // transmitter holding register empty

        } else {
            0x01  // no interrupt pending

        }
    }

    pub fn update_irq(&self, intc: &mut Intc)
        ensures
            *final(intc) == self@.drive(*old(intc)),
    {
        let active = self.ier & IER_UUE != 0 && self.iir() & 1 == 0;
        intc.set(self.irq, active);
    }

    pub fn read(&mut self, offset: u32, intc: &mut Intc) -> (r: u32)
        ensures
            r == old(self)@.read_spec(offset),
            final(self)@ == old(self)@.after_read(offset),
            *final(intc) == final(self)@.drive(*old(intc)),
    {
        self.reads = self.reads.wrapping_add(1);
        let v: u32 = match offset {
            0x00 => if self.dlab() {
                self.divisor & 0xFF
            } else {
                match self.rx.pop_front() {
                    Some(b) => b as u32,
                    None => 0,
                }
            },
            0x04 => if self.dlab() {
                (self.divisor >> 8) & 0xFF
            } else {
                self.ier
            },
            0x08 => self.iir() | (if self.fcr & 1 != 0 {
                0xC0u32
            } else {
                0u32
            }),
            0x0C => self.lcr,
            0x10 => self.mcr,
            0x14 => self.lsr(),
            // Modem status: assert CTS, DSR and DCD so flow control never
            // blocks. Nothing on this board wires them up.
            0x18 => 0xB0,
            0x1C => self.spr,
            0x20 => self.isr,
            0x24 => self.rx.len() as u32,  // FOR, receive FIFO occupancy
            _ => 0,
        };
        self.update_irq(intc);
        v
    }

    pub fn write_from(&mut self, offset: u32, val: u32, intc: &mut Intc, pc: u32)
        ensures
            final(self)@ == old(self)@.written_from(offset, val, pc),
            *final(intc) == final(self)@.drive(*old(intc)),
    {
        if offset == 0 && !self.dlab() && self.bytes_sent == 0 {
            self.first_tx_pc = pc;
        }
        self.write(offset, val, intc);
    }

    pub fn write(&mut self, offset: u32, val: u32, intc: &mut Intc)
        ensures
            final(self)@ == old(self)@.written(offset, val),
            *final(intc) == final(self)@.drive(*old(intc)),
    {
        self.writes = self.writes.wrapping_add(1);
        match offset {
            0x00 => if self.dlab() {
                self.divisor = (self.divisor & 0xFF00) | (val & 0xFF);
            } else {
                self.tx.push(val as u8);
                self.bytes_sent = self.bytes_sent.wrapping_add(1);
            },
            0x04 => if self.dlab() {
                self.divisor = (self.divisor & 0xFF) | ((val & 0xFF) << 8);
            } else {
                self.ier = val;
            },
            0x08 => {
                self.fcr = val;
                // Bits 1 and 2 reset the receive and transmit FIFOs.
                if val & 0x02 != 0 {
                    self.rx.clear();
                }
            },
            0x0C => self.lcr = val,
            0x10 => self.mcr = val,
            0x1C => self.spr = val,
            0x20 => self.isr = val,
            _ => {},
        }
        self.update_irq(intc);
    }

    /// Queue a byte from the host for the guest to read.
    pub fn feed(&mut self, byte: u8, intc: &mut Intc)
        ensures
            final(self)@ == (UartState { rx: old(self)@.rx.push(byte), ..old(self)@ }),
            *final(intc) == final(self)@.drive(*old(intc)),
    {
        self.rx.push_back(byte);
        self.update_irq(intc);
    }

    /// Take everything the guest has printed.
    pub fn drain_tx(&mut self) -> (r: Vec<u8>)
        ensures
            r@ == old(self)@.tx,
            final(self)@ == (UartState { tx: Seq::empty(), ..old(self)@ }),
    {
        let mut taken: Vec<u8> = Vec::new();
        std::mem::swap(&mut taken, &mut self.tx);
        taken
    }
}

/// Bytes come out of the receiver in the order the host queued them.
pub proof fn law_received_bytes_keep_their_order(u: UartState, byte: u8)
    requires
        !u.dlab_spec(),
        u.rx.len() > 0,
    ensures
        ({
            let fed = UartState { rx: u.rx.push(byte), ..u };
            &&& fed.read_spec(0) == u.rx[0]
            &&& fed.after_read(0).rx == u.after_read(0).rx.push(byte)
        }),
{
    let fed = UartState { rx: u.rx.push(byte), ..u };
    assert(fed.after_read(0).rx =~= u.after_read(0).rx.push(byte));
}

impl UartState {
    /// The port after its data register was read `n` times.
    pub open spec fn after_takes(self, n: nat) -> UartState
        decreases n,
    {
        if n == 0 {
            self
        } else {
            self.after_takes((n - 1) as nat).after_read(0)
        }
    }

    /// The port after values were written to its data register, one after
    /// another.
    pub open spec fn after_sends(self, vals: Seq<u32>) -> UartState
        decreases vals.len(),
    {
        if vals.len() == 0 {
            self
        } else {
            self.after_sends(vals.drop_last()).written(0, vals.last())
        }
    }
}

proof fn lemma_takes(u: UartState, n: nat)
    requires
        !u.dlab_spec(),
        n <= u.rx.len(),
    ensures
        u.after_takes(n).rx == u.rx.skip(n as int),
        u.after_takes(n).lcr == u.lcr,
        u.after_takes(n).tx == u.tx,
    decreases n,
{
    if n == 0 {
        assert(u.rx.skip(0) =~= u.rx);
    } else {
        lemma_takes(u, (n - 1) as nat);
        let was = u.rx.skip(n - 1);
        assert(was.subrange(1, was.len() as int) =~= u.rx.skip(n as int));
    }
}

/// What is waiting comes out a byte at a time, oldest first; the line status
/// says that there is something to take, and the occupancy how much, until
/// there is nothing. An empty receiver reads as zero and stays empty.
pub proof fn law_waiting_bytes_are_taken_in_order(u: UartState, n: nat)
    requires
        u.lcr & 0x80 == 0,
        n <= u.rx.len() <= u32::MAX,
    ensures
        ({
            let t = u.after_takes(n);
            &&& n < u.rx.len() ==> t.read_spec(0x00) == u.rx[n as int]
            &&& n == u.rx.len() ==> t.read_spec(0x00) == 0 && t.after_read(0x00).rx.len() == 0
            &&& (t.read_spec(0x14) & LSR_DR != 0) == (n < u.rx.len())
            &&& t.read_spec(0x14) & LSR_THRE != 0
            &&& t.read_spec(0x24) == u.rx.len() - n
            &&& t.tx == u.tx
        }),
{
    lemma_takes(u, n);
    crate::bits::lemma_uart();
}

proof fn lemma_sends(u: UartState, vals: Seq<u32>)
    requires
        !u.dlab_spec(),
    ensures
        u.after_sends(vals).tx == u.tx + vals.map_values(|v: u32| v as u8),
        u.after_sends(vals).lcr == u.lcr,
        u.after_sends(vals).rx == u.rx,
    decreases vals.len(),
{
    let low = |v: u32| v as u8;
    if vals.len() == 0 {
        assert(u.tx + vals.map_values(low) =~= u.tx);
    } else {
        lemma_sends(u, vals.drop_last());
        assert((u.tx + vals.drop_last().map_values(low)).push(vals.last() as u8) =~= u.tx
            + vals.map_values(low));
    }
}

/// What the guest sends waits for the host in the order it was sent, and does
/// not disturb what is waiting for the guest.
pub proof fn law_sent_bytes_keep_their_order(u: UartState, vals: Seq<u32>)
    requires
        u.lcr & 0x80 == 0,
    ensures
        u.after_sends(vals).tx == u.tx + vals.map_values(|v: u32| v as u8),
        u.after_sends(vals).rx == u.rx,
{
    lemma_sends(u, vals);
}

/// While bit 7 of the line control is set, the first two registers are the
/// halves of the divisor, and nothing is sent, received or enabled through
/// them; once it is clear they are data and interrupt enable again, as they
/// were.
pub proof fn law_the_divisor_hides_behind_line_control(
    u: UartState,
    open: u32,
    low: u32,
    high: u32,
    shut: u32,
)
    requires
        open & 0x80 != 0,
        shut & 0x80 == 0,
    ensures
        ({
            let s = u.written(0x0C, open).written(0x00, low).written(0x04, high);
            let t = s.written(0x0C, shut);
            &&& s.read_spec(0x00) == low & 0xFF
            &&& s.read_spec(0x04) == high & 0xFF
            &&& s.after_read(0x00).rx == u.rx
            &&& t.tx == u.tx && t.rx == u.rx
            &&& t.read_spec(0x04) == u.ier
            &&& t.read_spec(0x0C) == shut
        }),
{
    let d = u.divisor;
    crate::bits::lemma_divisor(d, low, high);
}

/// A register that holds its value reads back as it was written, and leaves
/// what is waiting alone.
pub proof fn law_registers_read_back(u: UartState, val: u32)
    ensures
        u.written(0x0C, val).read_spec(0x0C) == val,
        u.written(0x10, val).read_spec(0x10) == val,
        u.written(0x1C, val).read_spec(0x1C) == val,
        u.written(0x20, val).read_spec(0x20) == val,
        u.lcr & 0x80 == 0 ==> u.written(0x04, val).read_spec(0x04) == val,
        u.written(0x10, val).rx == u.rx && u.written(0x10, val).tx == u.tx,
        u.written(0x1C, val).rx == u.rx && u.written(0x1C, val).tx == u.tx,
        u.written(0x10, val).spr == u.spr && u.written(0x1C, val).mcr == u.mcr,
        u.written(0x08, val).tx == u.tx,
        u.written(0x08, val).rx == if val & 0x02 != 0 {
            Seq::empty()
        } else {
            u.rx
        },
{
}

/// The port asks for the processor exactly where it is enabled as a unit and
/// either a byte is waiting and such bytes are to be reported, or an empty
/// transmitter is; the identification says which, the received byte first, and
/// no other source is touched.
pub proof fn law_the_line_reports_what_is_enabled(u: UartState, intc: Intc, other: u32)
    requires
        u.irq < 64,
    ensures
        ({
            let received = u.ier & 0x01 != 0 && u.rx.len() > 0;
            let empty = u.ier & 0x02 != 0;
            &&& u.drive(intc).pending_spec(u.irq) == (u.ier & 0x40 != 0 && (received || empty))
            &&& other != u.irq ==> u.drive(intc).pending_spec(other) == intc.pending_spec(other)
            &&& u.read_spec(0x08) % 8 == if received {
                4
            } else if empty {
                2
            } else {
                1u32
            }
        }),
{
    crate::bits::lemma_uart();
    super::intc::law_sources_are_independent(
        intc,
        u.irq,
        u.ier & IER_UUE != 0 && u.iir_spec() & 1 == 0,
        other,
    );
}

} // verus!
