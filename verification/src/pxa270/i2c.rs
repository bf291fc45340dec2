//! PXA27x I2C controller, at physical 0x40300000.
//!
//! The OAL drives this hard:
//!
//! ```text
//! str r2, [base+0x20]    ; ISAR = slave address
//! orr r0, r1, #0x40      ; ICR |= IUE, enable the unit
//! lsl r2, r0, #1         ; seven-bit address shifted left for the R/W bit
//! str r2, [base+0x08]    ; IDBR = address byte
//! orr r1, r0, #9         ; ICR |= START | TB
//! ldr r3, [base+0x18]    ; poll ISR
//! and r0, r3, #0x40      ; bit 6, ITE: the byte has gone
//! ```
//!
//! Every transaction records the slave address it was aimed at, which is the
//! only way to find out what is actually on this board's I2C bus. What is on
//! it is a **Smart Battery** at 7-bit address 0x0B, the address reserved for
//! one, read with standard Smart Battery Data commands. Anything else is
//! answered with a NAK, which is what an empty bus does and lets a probe fail
//! quickly rather than spinning out a timeout.

use super::intc::{Intc, IRQ_I2C};
use std::collections::BTreeMap;
use vstd::prelude::*;

verus! {

broadcast use vstd::std_specs::btree::group_btree_axioms;

pub const BASE: u32 = 0x4030_0000;

// ICR
pub const ICR_START: u32 = 0x1;
pub const ICR_STOP: u32 = 0x2;
pub const ICR_ACKNAK: u32 = 0x4;
pub const ICR_TB: u32 = 0x8;
pub const ICR_MA: u32 = 0x10;
pub const ICR_IUE: u32 = 0x40;
pub const ICR_ITEIE: u32 = 0x100;
pub const ICR_IRFIE: u32 = 0x200;
pub const ICR_UR: u32 = 0x4000;

// ISR
pub const ISR_RWM: u32 = 0x1;
/// Set when the slave did **not** acknowledge.
pub const ISR_ACKNAK: u32 = 0x2;
pub const ISR_UB: u32 = 0x4;
pub const ISR_IBB: u32 = 0x8;
pub const ISR_ITE: u32 = 0x40;
pub const ISR_IRF: u32 = 0x80;

/// Status bits the guest clears by writing one: ITE, IRF, ACKNAK, and bits 4,
/// 5 and 10.
pub const ISR_W1C: u32 = 0x4F2;

/// What a master writes to ICR to move a byte behind a start, and without one.
pub const START_TRANSFER: u32 = 0x49;
pub const TRANSFER: u32 = 0x48;

/// How many transfers are kept.
pub const LOG_LIMIT: usize = 256;

#[derive(Debug, Clone, Copy, PartialEq, Eq, Structural)]
pub struct Transfer {
    pub address: u8,
    pub read: bool,
    pub data: u8,
    /// True when this byte carried the address rather than payload.
    pub is_address: bool,
}

// Smart Battery Data command codes used by this board.
pub const SBS_TEMPERATURE: u8 = 0x08;
pub const SBS_VOLTAGE: u8 = 0x09;
pub const SBS_CURRENT: u8 = 0x0A;
pub const SBS_RELATIVE_CHARGE: u8 = 0x0D;
pub const SBS_ABSOLUTE_CHARGE: u8 = 0x0E;
pub const SBS_REMAINING_CAPACITY: u8 = 0x0F;
pub const SBS_FULL_CHARGE_CAPACITY: u8 = 0x10;
pub const SBS_BATTERY_STATUS: u8 = 0x16;
pub const SBS_CYCLE_COUNT: u8 = 0x17;
pub const SBS_DESIGN_CAPACITY: u8 = 0x18;
pub const SBS_DESIGN_VOLTAGE: u8 = 0x19;
pub const SBS_MANUFACTURER_NAME: u8 = 0x20;
pub const SBS_DEVICE_NAME: u8 = 0x21;
pub const SBS_DEVICE_CHEMISTRY: u8 = 0x22;

/// The address reserved for a Smart Battery.
pub const SMART_BATTERY_ADDRESS: u8 = 0x0B;

/// A Smart Battery, reporting a healthy pack.
#[derive(Debug, Clone, Copy)]
pub struct SmartBattery {
    pub present: bool,
    /// Reported by DeviceName.
    ///
    /// battdrvr requires a length of 1 to 7 and takes a scaling factor from
    /// the last four characters when they are all digits, falling back to
    /// 2500 otherwise. The name a real pack reports is unknown, so this one
    /// is chosen to land on the driver's own default rather than invent a
    /// different figure.
    pub device_name: &'static str,
    pub manufacturer: &'static str,
    /// Tenths of a kelvin.
    pub temperature_dk: u16,
    pub voltage_mv: u16,
    /// Milliamps, positive charging and negative discharging.
    pub current_ma: i16,
    pub charge_percent: u16,
    pub capacity_mah: u16,
}

impl Default for SmartBattery {
    fn default() -> (r: Self)
        ensures
            r == SmartBattery::healthy(),
    {
        SmartBattery {
            present: true,
            device_name: "PD2500",
            manufacturer: "PulseData",
            temperature_dk: 2982,
            voltage_mv: 8200,
            current_ma: 0,
            charge_percent: 100,
            capacity_mah: 2500,
        }
    }
}

/// A block answer: its length, then its bytes.
pub open spec fn block_answer(text: Seq<char>) -> Seq<u8> {
    let bytes = vstd::utf8::encode_utf8(text);
    seq![bytes.len() as u8] + bytes
}

impl SmartBattery {
    pub open spec fn healthy() -> SmartBattery {
        SmartBattery {
            present: true,
            device_name: "PD2500",
            manufacturer: "PulseData",
            temperature_dk: 2982,
            voltage_mv: 8200,
            current_ma: 0,
            charge_percent: 100,
            capacity_mah: 2500,
        }
    }

    /// The bytes a command reads back.
    pub open spec fn answer(self, command: u8) -> Seq<u8> {
        if command == SBS_TEMPERATURE {
            crate::bytes::le16(self.temperature_dk)
        } else if command == SBS_VOLTAGE {
            crate::bytes::le16(self.voltage_mv)
        } else if command == SBS_CURRENT {
            crate::bytes::le16(self.current_ma as u16)
        } else if command == SBS_RELATIVE_CHARGE || command == SBS_ABSOLUTE_CHARGE {
            crate::bytes::le16(self.charge_percent)
        } else if command == SBS_REMAINING_CAPACITY {
            crate::bytes::le16((self.capacity_mah * self.charge_percent / 100) as u16)
        } else if command == SBS_FULL_CHARGE_CAPACITY || command == SBS_DESIGN_CAPACITY {
            crate::bytes::le16(self.capacity_mah)
        } else if command == SBS_DESIGN_VOLTAGE {
            crate::bytes::le16(8400)
        } else if command == SBS_BATTERY_STATUS {
            crate::bytes::le16(0x0020)
        } else if command == SBS_CYCLE_COUNT {
            crate::bytes::le16(12)
        } else if command == SBS_MANUFACTURER_NAME {
            block_answer(self.manufacturer@)
        } else if command == SBS_DEVICE_NAME {
            block_answer(self.device_name@)
        } else if command == SBS_DEVICE_CHEMISTRY {
            block_answer("LION"@)
        } else {
            crate::bytes::le16(0)
        }
    }

    /// The bytes a command reads back. Words go low byte first; the block
    /// commands are length-prefixed, which is how SMBus block reads work and
    /// what battdrvr parses.
    pub fn response(&self, command: u8) -> (r: Vec<u8>)
        ensures
            r@ == self.answer(command),
    {
        match command {
            0x08 => word_bytes(self.temperature_dk),
            0x09 => word_bytes(self.voltage_mv),
            0x0A => word_bytes(self.current_ma as u16),
            0x0D | 0x0E => word_bytes(self.charge_percent),
            0x0F => {
                assert(self.capacity_mah * self.charge_percent <= 0xFFFF * 0xFFFF)
                    by (nonlinear_arith)
                    requires
                        self.capacity_mah <= 0xFFFF,
                        self.charge_percent <= 0xFFFF,
                ;
                word_bytes((self.capacity_mah as u32 * self.charge_percent as u32 / 100) as u16)
            },
            0x10 | 0x18 => word_bytes(self.capacity_mah),
            0x19 => word_bytes(8400),
            0x16 => word_bytes(0x0020),
            0x17 => word_bytes(12),
            0x20 => block_bytes(self.manufacturer),
            0x21 => block_bytes(self.device_name),
            0x22 => block_bytes("LION"),
            _ => word_bytes(0),
        }
    }
}

fn word_bytes(v: u16) -> (r: Vec<u8>)
    ensures
        r@ == crate::bytes::le16(v),
{
    let mut out: Vec<u8> = Vec::new();
    crate::bytes::push16(&mut out, v);
    out
}

fn block_bytes(text: &str) -> (r: Vec<u8>)
    ensures
        r@ == block_answer(text@),
{
    let bytes: &[u8] = text.as_bytes();
    let mut out: Vec<u8> = Vec::new();
    out.push(bytes.len() as u8);
    crate::bytes::push_all(&mut out, bytes);
    out
}

/// `v` back to front.
fn reversed(v: &Vec<u8>) -> (r: Vec<u8>)
    ensures
        r@ == v@.reverse(),
{
    let mut out: Vec<u8> = Vec::new();
    let mut i: usize = v.len();
    while i > 0
        invariant
            i <= v.len(),
            out@ =~= v@.subrange(i as int, v.len() as int).reverse(),
        decreases i,
    {
        i = i - 1;
        out.push(v[i]);
    }
    assert(v@.subrange(0, v.len() as int) =~= v@);
    out
}

pub struct I2c {
    pub battery: SmartBattery,
    /// Command byte of the transaction in progress.
    pub command: Option<u8>,
    /// Bytes still to be handed back on reads, in reverse order.
    pub read_buf: Vec<u8>,
    pub ibmr: u32,
    pub idbr: u32,
    pub icr: u32,
    pub isr: u32,
    pub isar: u32,
    /// Every slave address the guest has addressed, and how often.
    pub addresses: BTreeMap<u8, u32>,
    /// Bounded record of the opening traffic.
    pub log: Vec<Transfer>,
    /// Address of the transaction in progress.
    pub current: Option<u8>,
    pub reading: bool,
}

/// What an [`I2c`] holds. `read_buf` is back to front, as it is stored.
#[verifier::ext_equal]
pub struct I2cState {
    pub battery: SmartBattery,
    pub command: Option<u8>,
    pub read_buf: Seq<u8>,
    pub ibmr: u32,
    pub idbr: u32,
    pub icr: u32,
    pub isr: u32,
    pub isar: u32,
    pub addresses: Map<u8, u32>,
    pub log: Seq<Transfer>,
    pub current: Option<u8>,
    pub reading: bool,
}

impl View for I2c {
    type V = I2cState;

    open spec fn view(&self) -> I2cState {
        I2cState {
            battery: self.battery,
            command: self.command,
            read_buf: self.read_buf@,
            ibmr: self.ibmr,
            idbr: self.idbr,
            icr: self.icr,
            isr: self.isr,
            isar: self.isar,
            addresses: self.addresses@,
            log: self.log@,
            current: self.current,
            reading: self.reading,
        }
    }
}

impl I2cState {
    /// Idle bus, both lines high, a healthy battery on it.
    pub open spec fn at_reset() -> I2cState {
        I2cState {
            battery: SmartBattery::healthy(),
            command: None,
            read_buf: Seq::empty(),
            ibmr: 0x3,
            idbr: 0,
            icr: 0,
            isr: 0,
            isar: 0,
            addresses: Map::empty(),
            log: Seq::empty(),
            current: None,
            reading: false,
        }
    }

    pub open spec fn drive(self, intc: Intc) -> Intc {
        let done = (self.icr & ICR_ITEIE != 0 && self.isr & ISR_ITE != 0) || (self.icr & ICR_IRFIE
            != 0 && self.isr & ISR_IRF != 0);
        intc.driven(IRQ_I2C, done && self.icr & ICR_IUE != 0)
    }

    pub open spec fn battery_at(self, address: u8) -> bool {
        address == SMART_BATTERY_ADDRESS && self.battery.present
    }

    pub open spec fn with_log(self, t: Transfer) -> I2cState {
        I2cState { log: super::logged(self.log, t, LOG_LIMIT as int), ..self }
    }

    /// The first byte of a transaction: the address in bits 7:1 and the
    /// direction in bit 0. Addressing the battery for a read stages the answer
    /// to the command that the write phase left behind.
    pub open spec fn addressed(self) -> I2cState {
        let byte = self.idbr as u8;
        let address = byte >> 1;
        let reading = byte & 1 != 0;
        let seen = if self.addresses.contains_key(address) {
            self.addresses[address]
        } else {
            0
        };
        let s = (I2cState {
            reading,
            current: Some(address),
            addresses: self.addresses.insert(address, seen.wrapping_add(1)),
            ..self
        }).with_log(Transfer { address, read: reading, data: byte, is_address: true });
        let t = if !self.battery_at(address) {
            s
        } else if reading {
            I2cState {
                read_buf: match s.command {
                    Some(c) => s.battery.answer(c).reverse(),
                    None => Seq::empty(),
                },
                ..s
            }
        } else {
            I2cState { command: None, ..s }
        };
        I2cState { isr: t.isr | ISR_ITE, ..t }
    }

    /// A byte clocked out of the slave; an idle bus reads as ones.
    pub open spec fn received(self) -> I2cState {
        let s = if self.read_buf.len() > 0 {
            I2cState {
                idbr: self.read_buf.last() as u32,
                read_buf: self.read_buf.drop_last(),
                ..self
            }
        } else {
            I2cState { idbr: 0xFF, ..self }
        };
        let t = match s.current {
            Some(address) => s.with_log(
                Transfer { address, read: true, data: s.idbr as u8, is_address: false },
            ),
            None => s,
        };
        I2cState { isr: t.isr | ISR_IRF, ..t }
    }

    /// A payload byte clocked into the slave. The battery takes the first of
    /// them as its command.
    pub open spec fn sent(self) -> I2cState {
        let byte = self.idbr as u8;
        let s = match self.current {
            Some(address) => {
                let l = self.with_log(
                    Transfer { address, read: false, data: byte, is_address: false },
                );
                if self.battery_at(address) && self.command is None {
                    I2cState { command: Some(byte), ..l }
                } else {
                    l
                }
            },
            None => self,
        };
        I2cState { isr: s.isr | ISR_ITE, ..s }
    }

    /// Whether the byte about to move will be acknowledged.
    pub open spec fn will_ack(self) -> bool {
        if self.icr & ICR_START != 0 {
            self.battery_at((self.idbr as u8) >> 1)
        } else if self.reading {
            self.read_buf.len() > 0
        } else {
            match self.current {
                Some(address) => self.battery_at(address),
                None => false,
            }
        }
    }

    /// Status and control once a byte has moved: acknowledge and direction
    /// are reported, a stop frees the bus, and the controller clears TB and
    /// the START/STOP requests.
    pub open spec fn settled(self, acked: bool) -> I2cState {
        let a = if acked {
            self.isr & !ISR_ACKNAK
        } else {
            self.isr | ISR_ACKNAK
        };
        let b = if self.reading {
            a | ISR_RWM
        } else {
            a & !ISR_RWM
        };
        let stop = self.icr & ICR_STOP != 0;
        I2cState {
            isr: if stop {
                b & !(ISR_UB | ISR_IBB)
            } else {
                b | ISR_UB
            },
            current: if stop {
                None
            } else {
                self.current
            },
            icr: self.icr & !(ICR_TB | ICR_START | ICR_STOP),
            ..self
        }
    }

    /// After one byte moved, which is what setting TB asks for.
    pub open spec fn transferred(self) -> I2cState {
        let moved = if self.icr & ICR_START != 0 {
            self.addressed()
        } else if self.reading {
            self.received()
        } else {
            self.sent()
        };
        moved.settled(self.will_ack())
    }

    pub open spec fn read_spec(self, offset: u32) -> u32 {
        if offset == 0x00 {
            self.ibmr
        } else if offset == 0x08 {
            self.idbr
        } else if offset == 0x10 {
            self.icr
        } else if offset == 0x18 {
            self.isr
        } else if offset == 0x20 {
            self.isar
        } else {
            0
        }
    }

    /// A unit reset clears everything but the record of traffic.
    pub open spec fn unit_reset(self) -> I2cState {
        I2cState { addresses: self.addresses, log: self.log, ..I2cState::at_reset() }
    }

    pub open spec fn written(self, offset: u32, val: u32) -> I2cState {
        if offset == 0x08 {
            I2cState { idbr: val, ..self }
        } else if offset == 0x10 {
            if val & ICR_UR != 0 {
                self.unit_reset()
            } else if val & ICR_MA != 0 {
                I2cState {
                    icr: val & !ICR_MA,
                    current: None,
                    isr: self.isr & !(ISR_UB | ISR_IBB),
                    ..self
                }
            } else if val & ICR_TB != 0 && val & ICR_IUE != 0 {
                (I2cState { icr: val, ..self }).transferred()
            } else {
                I2cState { icr: val, ..self }
            }
        } else if offset == 0x18 {
            I2cState { isr: self.isr & !(val & ISR_W1C), ..self }
        } else if offset == 0x20 {
            I2cState { isar: val, ..self }
        } else {
            self
        }
    }

    /// A unit reset leaves the interrupt line where it was; every other write
    /// refreshes it.
    pub open spec fn write_drives(offset: u32, val: u32) -> bool {
        !(offset == 0x10 && val & ICR_UR != 0)
    }
}

impl Default for I2c {
    fn default() -> (r: Self)
        ensures
            r@ == I2cState::at_reset(),
    {
        I2c {
            battery: SmartBattery::default(),
            command: None,
            read_buf: Vec::new(),
            // Both bus lines idle high.
            ibmr: 0x3,
            idbr: 0,
            icr: 0,
            isr: 0,
            isar: 0,
            addresses: BTreeMap::new(),
            log: Vec::new(),
            current: None,
            reading: false,
        }
    }
}

impl I2c {
    fn update_irq(&self, intc: &mut Intc)
        ensures
            *final(intc) == self@.drive(*old(intc)),
    {
        let mut active = false;
        if self.icr & ICR_ITEIE != 0 && self.isr & ISR_ITE != 0 {
            active = true;
        }
        if self.icr & ICR_IRFIE != 0 && self.isr & ISR_IRF != 0 {
            active = true;
        }
        intc.set(IRQ_I2C, active && self.icr & ICR_IUE != 0);
    }

    fn note(&mut self, t: Transfer)
        ensures
            final(self)@ == old(self)@.with_log(t),
    {
        if self.log.len() < LOG_LIMIT {
            self.log.push(t);
        }
    }

    /// Count one more transaction aimed at `address`.
    fn count(&mut self, address: u8)
        ensures
            final(self)@ == (I2cState {
                addresses: old(self)@.addresses.insert(
                    address,
                    (if old(self)@.addresses.contains_key(address) {
                        old(self)@.addresses[address]
                    } else {
                        0
                    }).wrapping_add(1),
                ),
                ..old(self)@
            }),
    {
        let seen: u32 = match self.addresses.get(&address) {
            Some(n) => *n,
            None => 0,
        };
        self.addresses.insert(address, seen.wrapping_add(1));
    }

    /// Whether the battery answers at `address`.
    fn battery_answers(&self, address: u8) -> (r: bool)
        ensures
            r == self@.battery_at(address),
    {
        address == SMART_BATTERY_ADDRESS && self.battery.present
    }

    /// Move one byte, which is what setting TB asks for.
    pub fn transfer_byte(&mut self)
        ensures
            final(self)@ == old(self)@.transferred(),
    {
        let byte: u8 = self.idbr as u8;

        let mut acked = false;

        if self.icr & ICR_START != 0 {
            // The first byte of a transaction carries the address in bits 7:1
            // and the direction in bit 0.
            let address: u8 = byte >> 1;
            self.reading = byte & 1 != 0;
            self.current = Some(address);
            self.count(address);
            let read = self.reading;
            self.note(Transfer { address, read, data: byte, is_address: true });
            if self.battery_answers(address) {
                acked = true;
                if self.reading {
                    // A repeated start into a read: stage the answer to the
                    // command the write phase left behind.
                    self.read_buf = match self.command {
                        Some(c) => reversed(&self.battery.response(c)),
                        None => Vec::new(),
                    };
                } else {
                    self.command = None;
                }
            }
            self.isr = self.isr | ISR_ITE;
        } else if self.reading {
            match self.read_buf.pop() {
                Some(b) => {
                    self.idbr = b as u32;
                    acked = true;
                },
                None => self.idbr = 0xFF,
            }
            if let Some(address) = self.current {
                let d: u8 = self.idbr as u8;
                self.note(Transfer { address, read: true, data: d, is_address: false });
            }
            self.isr = self.isr | ISR_IRF;
        } else {
            if let Some(address) = self.current {
                self.note(Transfer { address, read: false, data: byte, is_address: false });
                if self.battery_answers(address) {
                    acked = true;
                    if self.command.is_none() {
                        self.command = Some(byte);
                    }
                }
            }
            self.isr = self.isr | ISR_ITE;
        }

        if acked {
            self.isr = self.isr & !ISR_ACKNAK;
        } else {
            self.isr = self.isr | ISR_ACKNAK;
        }
        if self.reading {
            self.isr = self.isr | ISR_RWM;
        } else {
            self.isr = self.isr & !ISR_RWM;
        }

        if self.icr & ICR_STOP != 0 {
            self.current = None;
            self.isr = self.isr & !(ISR_UB | ISR_IBB);
        } else {
            self.isr = self.isr | ISR_UB;
        }

        // The controller clears TB and the START/STOP requests once the byte
        // has moved; firmware that does not clear them itself relies on it.
        self.icr = self.icr & !(ICR_TB | ICR_START | ICR_STOP);
    }

    pub fn read(&mut self, offset: u32) -> (r: u32)
        ensures
            r == old(self)@.read_spec(offset),
            final(self)@ == old(self)@,
    {
        match offset {
            0x00 => self.ibmr,
            0x08 => self.idbr,
            0x10 => self.icr,
            0x18 => self.isr,
            0x20 => self.isar,
            _ => 0,
        }
    }

    pub fn write(&mut self, offset: u32, val: u32, intc: &mut Intc)
        ensures
            final(self)@ == old(self)@.written(offset, val),
            *final(intc) == (if I2cState::write_drives(offset, val) {
                final(self)@.drive(*old(intc))
            } else {
                *old(intc)
            }),
    {
        match offset {
            0x08 => self.idbr = val,
            0x10 => {
                if val & ICR_UR != 0 {
                    let mut fresh = I2c::default();
                    std::mem::swap(&mut fresh.addresses, &mut self.addresses);
                    std::mem::swap(&mut fresh.log, &mut self.log);
                    *self = fresh;
                    return ;
                }
                self.icr = val;
                if val & ICR_MA != 0 {
                    self.current = None;
                    self.isr = self.isr & !(ISR_UB | ISR_IBB);
                    self.icr = self.icr & !ICR_MA;
                } else if val & ICR_TB != 0 && val & ICR_IUE != 0 {
                    self.transfer_byte();
                }
            },
            0x18 => self.isr = self.isr & !(val & ISR_W1C),
            0x20 => self.isar = val,
            _ => {},
        }
        self.update_irq(intc);
    }
}

/// Nothing but a fitted battery acknowledges its address.
pub proof fn law_an_empty_bus_never_acknowledges(i: I2cState)
    requires
        i.icr & ICR_START != 0,
    ensures
        (i.transferred().isr & ISR_ACKNAK == 0) == (i.battery.present && (i.idbr as u8) >> 1
            == SMART_BATTERY_ADDRESS),
{
    lemma_bits(i.addressed().isr, 0);
}

/// The transfer bit clears itself, and so do the start and stop requests that
/// went with it.
pub proof fn law_the_transfer_bit_clears_itself(i: I2cState, val: u32)
    requires
        val & ICR_IUE != 0,
        val & ICR_MA == 0,
        val & ICR_TB != 0,
    ensures
        i.written(0x10, val).read_spec(0x10) & (ICR_TB | ICR_START | ICR_STOP) == 0,
{
    lemma_bits(0, val);
}

/// What a transfer does to the status `x` and the control word `val`, bit by
/// bit, and what the control words of a master say.
proof fn lemma_bits(x: u32, val: u32)
    ensures
        (((x & !ISR_ACKNAK) | ISR_RWM) & !(ISR_UB | ISR_IBB)) & ISR_ACKNAK == 0,
        (((x & !ISR_ACKNAK) | ISR_RWM) | ISR_UB) & ISR_ACKNAK == 0,
        (((x & !ISR_ACKNAK) & !ISR_RWM) & !(ISR_UB | ISR_IBB)) & ISR_ACKNAK == 0,
        (((x & !ISR_ACKNAK) & !ISR_RWM) | ISR_UB) & ISR_ACKNAK == 0,
        (((x | ISR_ACKNAK) | ISR_RWM) & !(ISR_UB | ISR_IBB)) & ISR_ACKNAK != 0,
        (((x | ISR_ACKNAK) | ISR_RWM) | ISR_UB) & ISR_ACKNAK != 0,
        (((x | ISR_ACKNAK) & !ISR_RWM) & !(ISR_UB | ISR_IBB)) & ISR_ACKNAK != 0,
        (((x | ISR_ACKNAK) & !ISR_RWM) | ISR_UB) & ISR_ACKNAK != 0,
        (val & !(ICR_TB | ICR_START | ICR_STOP)) & (ICR_TB | ICR_START | ICR_STOP) == 0,
        0u32 & (ICR_TB | ICR_START | ICR_STOP) == 0,
        ((((x | ISR_IRF) & !ISR_ACKNAK) | ISR_RWM) | ISR_UB) & ISR_ACKNAK == 0,
        ((((x | ISR_IRF) & !ISR_ACKNAK) | ISR_RWM) | ISR_UB) & ISR_IRF != 0,
        ((((x | ISR_IRF) & !ISR_ACKNAK) | ISR_RWM) | ISR_UB) & ISR_RWM != 0,
        ((((x | ISR_IRF) | ISR_ACKNAK) | ISR_RWM) | ISR_UB) & ISR_ACKNAK != 0,
        ((((x | ISR_IRF) | ISR_ACKNAK) | ISR_RWM) | ISR_UB) & ISR_IRF != 0,
        ((((x | ISR_IRF) | ISR_ACKNAK) | ISR_RWM) | ISR_UB) & ISR_RWM != 0,
        START_TRANSFER & ICR_UR == 0 && START_TRANSFER & ICR_MA == 0 && START_TRANSFER & ICR_TB
            != 0 && START_TRANSFER & ICR_IUE != 0 && START_TRANSFER & ICR_START != 0
            && START_TRANSFER & ICR_STOP == 0,
        TRANSFER & ICR_UR == 0 && TRANSFER & ICR_MA == 0 && TRANSFER & ICR_TB != 0 && TRANSFER
            & ICR_IUE != 0 && TRANSFER & ICR_START == 0 && TRANSFER & ICR_STOP == 0,
        (0x16u32 as u8) >> 1 == SMART_BATTERY_ADDRESS && (0x16u32 as u8) & 1 == 0,
        (0x17u32 as u8) >> 1 == SMART_BATTERY_ADDRESS && (0x17u32 as u8) & 1 != 0,
{
    assert(((((x & !ISR_ACKNAK) | ISR_RWM) & !(ISR_UB | ISR_IBB)) & ISR_ACKNAK == 0) && ((((x
        & !ISR_ACKNAK) | ISR_RWM) | ISR_UB) & ISR_ACKNAK == 0) && ((((x & !ISR_ACKNAK) & !ISR_RWM)
        & !(ISR_UB | ISR_IBB)) & ISR_ACKNAK == 0) && ((((x & !ISR_ACKNAK) & !ISR_RWM) | ISR_UB)
        & ISR_ACKNAK == 0) && ((((x | ISR_ACKNAK) | ISR_RWM) & !(ISR_UB | ISR_IBB)) & ISR_ACKNAK
        != 0) && ((((x | ISR_ACKNAK) | ISR_RWM) | ISR_UB) & ISR_ACKNAK != 0) && ((((x | ISR_ACKNAK)
        & !ISR_RWM) & !(ISR_UB | ISR_IBB)) & ISR_ACKNAK != 0) && ((((x | ISR_ACKNAK) & !ISR_RWM)
        | ISR_UB) & ISR_ACKNAK != 0) && ((val & !(ICR_TB | ICR_START | ICR_STOP)) & (ICR_TB
        | ICR_START | ICR_STOP) == 0) && (0u32 & (ICR_TB | ICR_START | ICR_STOP) == 0) && (((((x
        | ISR_IRF) & !ISR_ACKNAK) | ISR_RWM) | ISR_UB) & ISR_ACKNAK == 0) && (((((x | ISR_IRF)
        & !ISR_ACKNAK) | ISR_RWM) | ISR_UB) & ISR_IRF != 0) && (((((x | ISR_IRF) & !ISR_ACKNAK)
        | ISR_RWM) | ISR_UB) & ISR_RWM != 0) && (((((x | ISR_IRF) | ISR_ACKNAK) | ISR_RWM)
        | ISR_UB) & ISR_ACKNAK != 0) && (((((x | ISR_IRF) | ISR_ACKNAK) | ISR_RWM) | ISR_UB)
        & ISR_IRF != 0) && (((((x | ISR_IRF) | ISR_ACKNAK) | ISR_RWM) | ISR_UB) & ISR_RWM != 0) && (
    START_TRANSFER & ICR_UR == 0) && (START_TRANSFER & ICR_MA == 0) && (START_TRANSFER & ICR_TB
        != 0) && (START_TRANSFER & ICR_IUE != 0) && (START_TRANSFER & ICR_START != 0) && (
    START_TRANSFER & ICR_STOP == 0) && (TRANSFER & ICR_UR == 0) && (TRANSFER & ICR_MA == 0) && (
    TRANSFER & ICR_TB != 0) && (TRANSFER & ICR_IUE != 0) && (TRANSFER & ICR_START == 0) && (TRANSFER
        & ICR_STOP == 0) && ((0x16u32 as u8) >> 1 == SMART_BATTERY_ADDRESS) && ((0x16u32 as u8) & 1
        == 0) && ((0x17u32 as u8) >> 1 == SMART_BATTERY_ADDRESS) && ((0x17u32 as u8) & 1 != 0))
        by (bit_vector);
}

impl I2cState {
    /// A master has sent the battery a command, and turned the bus round to
    /// read the answer.
    pub open spec fn asked(self, command: u8) -> I2cState {
        self.written(0x08, 0x16).written(0x10, START_TRANSFER).written(
            0x08,
            command as u32,
        ).written(0x10, TRANSFER).written(0x08, 0x17).written(0x10, START_TRANSFER)
    }

    /// It has then clocked in `k` bytes.
    pub open spec fn clocked_in(self, k: nat) -> I2cState
        decreases k,
    {
        if k == 0 {
            self
        } else {
            self.clocked_in((k - 1) as nat).written(0x10, TRANSFER)
        }
    }
}

/// A whole exchange with the battery: the answer to a command comes back byte
/// by byte, each acknowledged, and behind its end the bus reads as ones with
/// nobody acknowledging. Every byte is announced as received.
pub proof fn law_a_command_reads_its_answer(i: I2cState, command: u8, k: nat)
    requires
        i.battery.present,
    ensures
        ({
            let answer = i.battery.answer(command);
            let after = i.asked(command).clocked_in((k + 1) as nat);
            let isr = after.read_spec(0x18);
            &&& k < answer.len() ==> after.read_spec(0x08) == answer[k as int] && isr & ISR_ACKNAK
                == 0
            &&& k >= answer.len() ==> after.read_spec(0x08) == 0xFF && isr & ISR_ACKNAK != 0
            &&& isr & ISR_IRF != 0
            &&& isr & ISR_RWM != 0
        }),
{
    let answer = i.battery.answer(command);
    lemma_staged(i, command, k);
    let before = i.asked(command).clocked_in(k);
    lemma_bits(before.isr, 0);
    let ready = I2cState { icr: TRANSFER, ..before };
    assert(i.asked(command).clocked_in((k + 1) as nat) == ready.transferred());
    if k < answer.len() {
        assert(before.read_buf.last() == answer[k as int]);
    }
}

/// With `k` bytes clocked in, the rest of the answer waits.
proof fn lemma_staged(i: I2cState, command: u8, k: nat)
    requires
        i.battery.present,
    ensures
        ({
            let answer = i.battery.answer(command);
            let s = i.asked(command).clocked_in(k);
            &&& s.battery == i.battery
            &&& s.reading
            &&& s.current == Some(SMART_BATTERY_ADDRESS)
            &&& s.read_buf == (if k < answer.len() {
                answer.skip(k as int).reverse()
            } else {
                Seq::empty()
            })
        }),
    decreases k,
{
    let answer = i.battery.answer(command);
    lemma_bits(0, 0);
    if k == 0 {
        let one = i.written(0x08, 0x16).written(0x10, START_TRANSFER);
        assert(one.command is None && !one.reading && one.current == Some(SMART_BATTERY_ADDRESS)
            && one.battery == i.battery);
        let two = one.written(0x08, command as u32).written(0x10, TRANSFER);
        assert((command as u32) as u8 == command);
        assert(two.command == Some(command) && two.battery == i.battery);
        assert(answer.skip(0) =~= answer);
        if answer.len() == 0 {
            assert(answer.reverse() =~= Seq::<u8>::empty());
        }
    } else {
        lemma_staged(i, command, (k - 1) as nat);
        if k - 1 < answer.len() {
            let left = answer.skip(k - 1).reverse();
            if k < answer.len() {
                assert(left.drop_last() =~= answer.skip(k as int).reverse());
            } else {
                assert(left.drop_last() =~= Seq::<u8>::empty());
            }
        }
    }
}

/// A unit reset clears the state of the bus and keeps the record of traffic.
pub proof fn law_a_unit_reset_keeps_the_record(i: I2cState, val: u32)
    requires
        val & ICR_UR != 0,
    ensures
        i.written(0x10, val).addresses == i.addresses,
        i.written(0x10, val).log == i.log,
        i.written(0x10, val).read_spec(0x18) == 0,
        i.written(0x10, val).current is None,
{
}

/// A staged answer comes back in order: each byte clocked out is the next one
/// of it.
pub proof fn law_answers_come_back_in_order(i: I2cState, answer: Seq<u8>)
    requires
        answer.len() > 0,
        i.read_buf == answer.reverse(),
    ensures
        i.received().idbr == answer[0],
        i.received().read_buf == answer.drop_first().reverse(),
{
    assert(i.received().read_buf =~= answer.drop_first().reverse());
}

/// Every time an address is put on the bus it is counted, and no other count
/// moves, whether anything answers or not.
pub proof fn law_every_address_is_counted(i: I2cState, other: u8)
    requires
        i.icr & ICR_START != 0,
    ensures
        ({
            let address = (i.idbr as u8) >> 1;
            let was = if i.addresses.contains_key(address) {
                i.addresses[address] as int
            } else {
                0
            };
            let after = i.transferred().addresses;
            &&& after.contains_key(address)
            &&& was < u32::MAX ==> after[address] == was + 1
            &&& other != address ==> after.contains_key(other) == i.addresses.contains_key(other)
                && (after.contains_key(other) ==> after[other] == i.addresses[other])
        }),
{
}

/// What the battery says about itself hangs together: words are two bytes, the
/// low one first; what is left is the charge's share of the capacity, rounded
/// down, so that a full battery has all of it left; texts say how long they
/// are first.
pub proof fn law_the_battery_tells_a_consistent_story(b: SmartBattery)
    ensures
        ({
            let word = |command: u8| b.answer(command)[0] + 0x100 * b.answer(command)[1];
            &&& word(0x08) == b.temperature_dk
            &&& word(0x09) == b.voltage_mv
            &&& word(0x0D) == b.charge_percent && word(0x0E) == b.charge_percent
            &&& word(0x10) == b.capacity_mah && word(0x18) == b.capacity_mah
            &&& b.charge_percent <= 100 ==> word(0x0F) * 100 <= b.capacity_mah * b.charge_percent
                < word(0x0F) * 100 + 100
            &&& b.charge_percent == 100 ==> word(0x0F) == word(0x10)
        }),
        b.answer(0x20).len() == 1 + vstd::utf8::encode_utf8(b.manufacturer@).len(),
        vstd::utf8::encode_utf8(b.manufacturer@).len() < 256 ==> b.answer(0x20)[0]
            == b.answer(0x20).len() - 1,
        b.answer(0x20).skip(1) == vstd::utf8::encode_utf8(b.manufacturer@),
        b.answer(0x21).skip(1) == vstd::utf8::encode_utf8(b.device_name@),
{
    assert(b.answer(0x20).skip(1) =~= vstd::utf8::encode_utf8(b.manufacturer@));
    assert(b.answer(0x21).skip(1) =~= vstd::utf8::encode_utf8(b.device_name@));
    let left = b.capacity_mah * b.charge_percent / 100;
    if b.charge_percent <= 100 {
        assert(b.capacity_mah * b.charge_percent <= b.capacity_mah * 100) by (nonlinear_arith)
            requires
                b.charge_percent <= 100,
                b.capacity_mah >= 0,
        ;
        assert(b.capacity_mah * b.charge_percent >= 0) by (nonlinear_arith);
        assert(0 <= left <= b.capacity_mah);
    }
    crate::bytes::law_the_first_byte_is_lowest(0, 0, 0, 0, 0, b.temperature_dk);
    crate::bytes::law_the_first_byte_is_lowest(0, 0, 0, 0, 0, b.voltage_mv);
    crate::bytes::law_the_first_byte_is_lowest(0, 0, 0, 0, 0, b.charge_percent);
    crate::bytes::law_the_first_byte_is_lowest(0, 0, 0, 0, 0, b.capacity_mah);
    crate::bytes::law_the_first_byte_is_lowest(0, 0, 0, 0, 0, left as u16);
}

/// A stop lets the bus go: nobody is addressed any more. Without one whoever
/// was addressed still is.
pub proof fn law_a_stop_lets_the_bus_go(i: I2cState)
    requires
        i.icr & ICR_START == 0,
    ensures
        i.icr & ICR_STOP != 0 ==> i.transferred().current is None,
        i.icr & ICR_STOP == 0 ==> i.transferred().current == i.current,
        i.transferred().reading == i.reading,
        i.transferred().battery == i.battery,
{
}

/// The first byte that is sent to the battery is its command, and the bytes
/// behind it change nothing. Addressing it to be written to starts over, and
/// addressing it to be read keeps the command.
pub proof fn law_the_first_byte_is_the_command(i: I2cState)
    requires
        i.battery.present,
    ensures
        i.current == Some(0x0Bu8) && i.command is None ==> i.sent().command == Some(i.idbr as u8),
        i.command is Some ==> i.sent().command == i.command,
        i.current != Some(0x0Bu8) ==> i.sent().command == i.command,
        i.idbr == 0x16 ==> i.addressed().command is None && !i.addressed().reading,
        i.idbr == 0x17 ==> i.addressed().command == i.command && i.addressed().reading,
{
    lemma_bits(0, 0);
    lemma_staged(i, 0, 0);
}

/// Every byte on the bus is noted behind those before it, while there is room:
/// who it was to or from, which way it went, and what it was.
pub proof fn law_every_byte_is_noted(i: I2cState, address: u8)
    requires
        i.log.len() < 256,
    ensures
        i.addressed().log == i.log.push(
            Transfer {
                address: (i.idbr as u8) >> 1,
                read: (i.idbr as u8) & 1 != 0,
                data: i.idbr as u8,
                is_address: true,
            },
        ),
        i.current == Some(address) ==> i.sent().log == i.log.push(
            Transfer { address, read: false, data: i.idbr as u8, is_address: false },
        ),
        i.current == Some(address) ==> i.received().log == i.log.push(
            Transfer { address, read: true, data: i.received().idbr as u8, is_address: false },
        ),
{
}

/// The line is up while the unit is on and a byte has been sent, or received,
/// and the driver asked to hear of that.
pub proof fn law_the_line_follows_the_status(i: I2cState, intc: Intc, other: u32)
    ensures
        i.drive(intc).pending_spec(18) == (i.icr & 0x40 != 0 && ((i.icr & 0x100 != 0 && i.isr & 0x40
            != 0) || (i.icr & 0x200 != 0 && i.isr & 0x80 != 0))),
        other != 18 ==> i.drive(intc).pending_spec(other) == intc.pending_spec(other),
{
    let done = (i.icr & ICR_ITEIE != 0 && i.isr & ISR_ITE != 0) || (i.icr & ICR_IRFIE != 0 && i.isr
        & ISR_IRF != 0);
    super::intc::law_sources_are_independent(
        intc,
        IRQ_I2C,
        done && i.icr & ICR_IUE != 0,
        other,
    );
}

/// Status bits clear where ones are written to them, if they are ones that a
/// driver can clear; the others stay. The data and address registers hold what
/// they are given.
pub proof fn law_status_clears_where_ones_are_written(i: I2cState, val: u32, n: u32)
    requires
        n < 32,
    ensures
        crate::bits::bit_of(i.written(0x18, val).read_spec(0x18), n) == (crate::bits::bit_of(
            i.isr,
            n,
        ) && !(crate::bits::bit_of(val, n) && crate::bits::bit_of(0x4F2, n))),
        i.written(0x08, val).read_spec(0x08) == val,
        i.written(0x20, val).read_spec(0x20) == val,
        i.written(0x08, val).log == i.log,
{
    crate::bits::lemma_word(i.isr, n, val & ISR_W1C);
    crate::bits::lemma_word(val, n, ISR_W1C);
}

} // verus!
