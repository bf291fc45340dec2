//! The internal modem: a 16C550 UART on the CPLD's chip select.
//!
//! The ROM registry says where it is, under `Drivers\BuiltIn\UART1`:
//!
//! ```text
//! FriendlyName  UART1-TL16C
//! IoBase        0x10000000     the CPLD chip select
//! IoStride      0x00000002     registers a halfword apart
//! IRQ           0x0000000a
//! GPIO          0x00000010
//! BaudClock     0x00c65d40     12.96 MHz
//! Tsp           Unimodem.dll
//! ```
//!
//! A 16C550's registers are eight bytes; at a stride of two they occupy CPLD
//! offsets `0x00` to `0x0e`, clear of the keyboard at `0x402` and the braille
//! display at `0x400`.
//!
//! # What this models, and what it does not
//!
//! Enough for the machine to find a modem, talk to it, and be answered. It
//! keeps the register file honest and answers AT commands with `OK`, which is
//! what a modem that is present but not dialling anything says. It does not
//! dial, and there is no carrier. Giving it a real line means handing the
//! bytes to something on the host through [`Modem::feed`] and
//! [`Modem::take_tx`].
//!
//! # The interrupt is not optional
//!
//! The driver does not poll: it enables every interrupt source, writes one
//! byte and waits to be told the transmitter has drained. The part signals by
//! driving GPIO 16, which the OAL arms for a rising edge.

use std::collections::VecDeque;
use vstd::prelude::*;

verus! {

// Register numbers, in units of the stride the board wires up.
/// RBR reading, THR writing, DLL when DLAB is set.
pub const REG_DATA: u32 = 0;
/// DLM when DLAB is set.
pub const REG_IER: u32 = 1;
/// FCR writing.
pub const REG_IIR: u32 = 2;
pub const REG_LCR: u32 = 3;
pub const REG_MCR: u32 = 4;
pub const REG_LSR: u32 = 5;
pub const REG_MSR: u32 = 6;
pub const REG_SCRATCH: u32 = 7;

// Line status bits. A driver will not send until it is told the transmitter
// is free, and will not read until it is told there is something there.
pub const LSR_DATA_READY: u16 = 0x01;
pub const LSR_THR_EMPTY: u16 = 0x20;
pub const LSR_TRANSMITTER_IDLE: u16 = 0x40;

// Interrupt-enable bits, as the driver writes them.
pub const IER_RECEIVED_DATA: u16 = 0x1;
pub const IER_TRANSMITTER_EMPTY: u16 = 0x2;

// What `IIR` reports. Bit 0 clear means there is something to report.
pub const IIR_NONE: u16 = 0x01;
pub const IIR_TRANSMITTER_EMPTY: u16 = 0x02;
pub const IIR_RECEIVED_DATA: u16 = 0x04;
/// Set in the top two bits whenever the FIFOs are on, which is how a driver
/// tells a 16550 from a 16450 that has none.
pub const IIR_FIFOS_ENABLED: u16 = 0xC0;

/// The pin the part pulls up to interrupt, from `Drivers\BuiltIn\UART1`.
pub const INTERRUPT_GPIO: u32 = 16;

// Modem status bits. All asserted: a modem that is plugged in and ready.
pub const MSR_CTS: u16 = 0x10;
pub const MSR_DSR: u16 = 0x20;
pub const MSR_CARRIER_DETECT: u16 = 0x80;

/// `LCR` bit 7 swaps the first two registers for the baud divisor.
pub const LCR_DLAB: u16 = 0x80;

/// How many registers the part has, at the board's stride.
pub const REGISTERS: u32 = 8;

pub struct Modem {
    pub ier: u16,
    pub lcr: u16,
    pub mcr: u16,
    pub scratch: u16,
    /// Baud divisor, kept so a driver that writes and reads it back agrees
    /// with itself. Nothing here runs at a baud rate.
    pub divisor: u16,
    /// Whether the FIFOs have been turned on, which only changes what `IIR`
    /// reports about itself.
    pub fifos: bool,
    /// The transmitter has drained and the driver has not been told yet.
    ///
    /// It is a latch, not a level: it is set when a byte finishes going out
    /// (here, at once) and cleared when the driver reads `IIR` and sees it.
    pub transmitter_drained: bool,
    /// What the guest has sent and this has not answered yet.
    pub command: Vec<u8>,
    /// What the guest has yet to read, oldest first.
    pub rx: VecDeque<u8>,
    /// Bytes the guest has sent, for anything that wants to see them.
    pub tx: Vec<u8>,
    /// Commands answered, so a run can say whether the modem was talked to.
    pub commands: u64,
}

/// What a [`Modem`] holds.
#[verifier::ext_equal]
pub struct ModemState {
    pub ier: u16,
    pub lcr: u16,
    pub mcr: u16,
    pub scratch: u16,
    pub divisor: u16,
    pub fifos: bool,
    pub transmitter_drained: bool,
    pub command: Seq<u8>,
    pub rx: Seq<u8>,
    pub tx: Seq<u8>,
    pub commands: u64,
}

impl View for Modem {
    type V = ModemState;

    open spec fn view(&self) -> ModemState {
        ModemState {
            ier: self.ier,
            lcr: self.lcr,
            mcr: self.mcr,
            scratch: self.scratch,
            divisor: self.divisor,
            fifos: self.fifos,
            transmitter_drained: self.transmitter_drained,
            command: self.command@,
            rx: self.rx@,
            tx: self.tx@,
            commands: self.commands,
        }
    }
}

pub open spec fn upper_spec(b: u8) -> u8 {
    if 0x61 <= b <= 0x7A {
        (b - 0x20) as u8
    } else {
        b
    }
}

/// How many bytes the white-space character at `i` takes, or none if there is
/// no such character: the white space of Unicode in UTF-8.
pub open spec fn space_at(s: Seq<u8>, i: int) -> int {
    if i < s.len() && (0x09 <= s[i] <= 0x0D || s[i] == 0x20) {
        1
    } else if i + 1 < s.len() && s[i] == 0xC2 && (s[i + 1] == 0x85 || s[i + 1] == 0xA0) {
        2
    } else if i + 2 < s.len() && ((s[i] == 0xE1 && s[i + 1] == 0x9A && s[i + 2] == 0x80) || (s[i]
        == 0xE2 && s[i + 1] == 0x80 && (0x80 <= s[i + 2] <= 0x8A || s[i + 2] == 0xA8 || s[i + 2]
        == 0xA9 || s[i + 2] == 0xAF)) || (s[i] == 0xE2 && s[i + 1] == 0x81 && s[i + 2] == 0x9F)
        || (s[i] == 0xE3 && s[i + 1] == 0x80 && s[i + 2] == 0x80)) {
        3
    } else {
        0
    }
}

/// Where the text after any leading white space starts.
pub open spec fn text_start(s: Seq<u8>, i: int) -> int
    decreases s.len() - i,
{
    if space_at(s, i) == 0 {
        i
    } else {
        text_start(s, i + space_at(s, i))
    }
}

/// The line is an AT command, whatever its case and leading white space.
pub open spec fn is_at(s: Seq<u8>) -> bool {
    let i = text_start(s, 0);
    i + 1 < s.len() && upper_spec(s[i]) == 0x41 && upper_spec(s[i + 1]) == 0x54
}

/// The line is `ATI` and nothing else, but for white space round it.
pub open spec fn is_bare_ati(s: Seq<u8>) -> bool {
    let i = text_start(s, 0);
    is_at(s) && i + 2 < s.len() && upper_spec(s[i + 2]) == 0x49 && text_start(s, i + 3) == s.len()
}

/// The line asks who it is talking to: `I3` or `I0` stands in it, or it is
/// `ATI` alone.
pub open spec fn asks_identity(s: Seq<u8>) -> bool {
    is_bare_ati(s) || exists|i: int|
        #![trigger s[i]]
        0 <= i < s.len() - 1 && upper_spec(s[i]) == 0x49 && (s[i + 1] == 0x33 || s[i + 1] == 0x30)
}

/// `\r\nOK\r\n`
pub open spec fn ok_reply() -> Seq<u8> {
    seq![0x0Du8, 0x0A, 0x4F, 0x4B, 0x0D, 0x0A]
}

/// `\r\nTL16C V.90\r\n`
pub open spec fn identity_reply() -> Seq<u8> {
    seq![
        0x0Du8,
        0x0A,
        0x54,
        0x4C,
        0x31,
        0x36,
        0x43,
        0x20,
        0x56,
        0x2E,
        0x39,
        0x30,
        0x0D,
        0x0A,
    ]
}

/// What the modem says to a line, if anything.
pub open spec fn reply_to(line: Seq<u8>) -> Seq<u8> {
    if !is_at(line) {
        Seq::empty()
    } else if asks_identity(line) {
        identity_reply()
    } else {
        ok_reply()
    }
}

impl ModemState {
    pub open spec fn fresh() -> ModemState {
        ModemState {
            ier: 0,
            lcr: 0,
            mcr: 0,
            scratch: 0,
            divisor: 0,
            fifos: false,
            transmitter_drained: false,
            command: Seq::empty(),
            rx: Seq::empty(),
            tx: Seq::empty(),
            commands: 0,
        }
    }

    pub open spec fn dlab(self) -> bool {
        self.lcr & LCR_DLAB != 0
    }

    /// Which interrupt the part would report. Received data outranks the
    /// transmitter.
    pub open spec fn pending_spec(self) -> u16 {
        if self.ier & IER_RECEIVED_DATA != 0 && self.rx.len() > 0 {
            IIR_RECEIVED_DATA
        } else if self.ier & IER_TRANSMITTER_EMPTY != 0 && self.transmitter_drained {
            IIR_TRANSMITTER_EMPTY
        } else {
            IIR_NONE
        }
    }

    /// After a line of the guest's. One that is no AT command is not answered,
    /// and not counted.
    pub open spec fn answered(self, line: Seq<u8>) -> ModemState {
        if is_at(line) {
            ModemState {
                commands: self.commands.wrapping_add(1),
                rx: self.rx + reply_to(line),
                ..self
            }
        } else {
            self
        }
    }

    /// After the guest transmitted `byte`. A carriage return or line feed
    /// ends the command.
    pub open spec fn sent(self, byte: u8) -> ModemState {
        let s = ModemState { tx: self.tx.push(byte), transmitter_drained: true, ..self };
        if byte == 0x0D || byte == 0x0A {
            if self.command.len() > 0 {
                (ModemState { command: Seq::empty(), ..s }).answered(self.command)
            } else {
                s
            }
        } else {
            ModemState { command: s.command.push(byte), ..s }
        }
    }

    pub open spec fn read_spec(self, offset: u32) -> u16 {
        let reg = offset / 2;
        if reg == REG_DATA {
            if self.dlab() {
                self.divisor & 0xFF
            } else if self.rx.len() > 0 {
                self.rx[0] as u16
            } else {
                0
            }
        } else if reg == REG_IER {
            if self.dlab() {
                self.divisor >> 8
            } else {
                self.ier
            }
        } else if reg == REG_IIR {
            self.pending_spec() | (if self.fifos {
                IIR_FIFOS_ENABLED
            } else {
                0u16
            })
        } else if reg == REG_LCR {
            self.lcr
        } else if reg == REG_MCR {
            self.mcr
        } else if reg == REG_LSR {
            if self.rx.len() > 0 {
                (LSR_THR_EMPTY | LSR_TRANSMITTER_IDLE) | LSR_DATA_READY
            } else {
                LSR_THR_EMPTY | LSR_TRANSMITTER_IDLE
            }
        } else if reg == REG_MSR {
            MSR_CTS | MSR_DSR | MSR_CARRIER_DETECT
        } else if reg == REG_SCRATCH {
            self.scratch
        } else {
            0
        }
    }

    /// Reading data takes the oldest byte; reading why it interrupted
    /// acknowledges a drained transmitter.
    pub open spec fn after_read(self, offset: u32) -> ModemState {
        let reg = offset / 2;
        if reg == REG_DATA && !self.dlab() && self.rx.len() > 0 {
            ModemState { rx: self.rx.subrange(1, self.rx.len() as int), ..self }
        } else if reg == REG_IIR && self.pending_spec() == IIR_TRANSMITTER_EMPTY {
            ModemState { transmitter_drained: false, ..self }
        } else {
            self
        }
    }

    pub open spec fn written(self, offset: u32, value: u16) -> ModemState {
        let v = value & 0xFF;
        let reg = offset / 2;
        if reg == REG_DATA {
            if self.dlab() {
                ModemState { divisor: (self.divisor & 0xFF00) | v, ..self }
            } else {
                self.sent(v as u8)
            }
        } else if reg == REG_IER {
            if self.dlab() {
                ModemState { divisor: (self.divisor & 0x00FF) | (v << 8), ..self }
            } else {
                ModemState {
                    ier: v,
                    transmitter_drained: self.transmitter_drained || (v & !self.ier)
                        & IER_TRANSMITTER_EMPTY != 0,
                    ..self
                }
            }
        } else if reg == REG_IIR {
            ModemState { fifos: v & 1 != 0, ..self }
        } else if reg == REG_LCR {
            ModemState { lcr: v, ..self }
        } else if reg == REG_MCR {
            ModemState { mcr: v, ..self }
        } else if reg == REG_SCRATCH {
            ModemState { scratch: v, ..self }
        } else {
            self
        }
    }
}

impl Default for Modem {
    fn default() -> (r: Self)
        ensures
            r@ == ModemState::fresh(),
    {
        Modem {
            ier: 0,
            lcr: 0,
            mcr: 0,
            scratch: 0,
            divisor: 0,
            fifos: false,
            transmitter_drained: false,
            command: Vec::new(),
            rx: VecDeque::new(),
            tx: Vec::new(),
            commands: 0,
        }
    }
}

fn upper(b: u8) -> (r: u8)
    ensures
        r == upper_spec(b),
{
    if 0x61 <= b && b <= 0x7A {
        b - 0x20
    } else {
        b
    }
}

fn space_len(s: &Vec<u8>, i: usize) -> (r: usize)
    requires
        i <= s.len(),
    ensures
        r == space_at(s@, i as int),
        i + r <= s.len(),
{
    let left: usize = s.len() - i;
    if left >= 1 && ((0x09 <= s[i] && s[i] <= 0x0D) || s[i] == 0x20) {
        return 1;
    }
    if left >= 2 && s[i] == 0xC2 && (s[i + 1] == 0x85 || s[i + 1] == 0xA0) {
        return 2;
    }
    if left >= 3 {
        let a: u8 = s[i];
        let b: u8 = s[i + 1];
        let c: u8 = s[i + 2];
        if (a == 0xE1 && b == 0x9A && c == 0x80) || (a == 0xE2 && b == 0x80 && ((0x80 <= c && c
            <= 0x8A) || c == 0xA8 || c == 0xA9 || c == 0xAF)) || (a == 0xE2 && b == 0x81 && c
            == 0x9F) || (a == 0xE3 && b == 0x80 && c == 0x80) {
            return 3;
        }
    }
    0
}

/// Where the text at or after `from` starts.
fn skip_space(s: &Vec<u8>, from: usize) -> (r: usize)
    requires
        from <= s.len(),
    ensures
        r == text_start(s@, from as int),
        r <= s.len(),
{
    let mut i: usize = from;
    loop
        invariant
            i <= s.len(),
            text_start(s@, from as int) == text_start(s@, i as int),
        ensures
            i <= s.len(),
            text_start(s@, from as int) == i,
        decreases s.len() - i,
    {
        let n: usize = space_len(s, i);
        if n == 0 {
            break ;
        }
        i = i + n;
    }
    i
}

fn is_at_command(s: &Vec<u8>) -> (r: bool)
    ensures
        r == is_at(s@),
{
    let i: usize = skip_space(s, 0);
    s.len() - i >= 2 && upper(s[i]) == 0x41 && upper(s[i + 1]) == 0x54
}

fn is_ati_alone(s: &Vec<u8>) -> (r: bool)
    ensures
        r == is_bare_ati(s@),
{
    let i: usize = skip_space(s, 0);
    is_at_command(s) && s.len() - i >= 3 && upper(s[i + 2]) == 0x49 && skip_space(s, i + 3)
        == s.len()
}

fn asks_who(s: &Vec<u8>) -> (r: bool)
    ensures
        r == asks_identity(s@),
{
    if is_ati_alone(s) {
        return true;
    }
    let mut i: usize = 0;
    while i < s.len() && s.len() - i > 1
        invariant
            i <= s.len(),
            forall|k: int|
                #![trigger s@[k]]
                0 <= k < i && k < s.len() - 1 ==> !(upper_spec(s@[k]) == 0x49 && (s@[k + 1] == 0x33
                    || s@[k + 1] == 0x30)),
        decreases s.len() - i,
    {
        if upper(s[i]) == 0x49 && (s[i + 1] == 0x33 || s[i + 1] == 0x30) {
            return true;
        }
        i = i + 1;
    }
    false
}

impl Modem {
    /// Whether an offset in the CPLD's window belongs to this.
    pub fn owns(offset: u32) -> (r: bool)
        ensures
            r == (offset < REGISTERS * 2),
    {
        offset < REGISTERS * 2
    }

    pub fn read(&mut self, offset: u32) -> (r: u16)
        ensures
            r == old(self)@.read_spec(offset),
            final(self)@ == old(self)@.after_read(offset),
    {
        let dlab = self.lcr & LCR_DLAB != 0;
        match offset / 2 {
            0 => if dlab {
                self.divisor & 0xFF
            } else {
                match self.rx.pop_front() {
                    Some(b) => b as u16,
                    None => 0,
                }
            },
            1 => if dlab {
                self.divisor >> 8
            } else {
                self.ier
            },
            2 => {
                let pending: u16 = self.pending();
                // Reading which interrupt it was is how the driver
                // acknowledges a drained transmitter.
                if pending == IIR_TRANSMITTER_EMPTY {
                    self.transmitter_drained = false;
                }
                pending | (if self.fifos {
                    IIR_FIFOS_ENABLED
                } else {
                    0u16
                })
            },
            3 => self.lcr,
            4 => self.mcr,
            5 => {
                let mut v: u16 = LSR_THR_EMPTY | LSR_TRANSMITTER_IDLE;
                if self.rx.len() > 0 {
                    v = v | LSR_DATA_READY;
                }
                v
            },
            6 => MSR_CTS | MSR_DSR | MSR_CARRIER_DETECT,
            7 => self.scratch,
            _ => 0,
        }
    }

    pub fn write(&mut self, offset: u32, value: u16)
        ensures
            final(self)@ == old(self)@.written(offset, value),
    {
        let v: u16 = value & 0xFF;
        let dlab = self.lcr & LCR_DLAB != 0;
        match offset / 2 {
            0 => if dlab {
                self.divisor = (self.divisor & 0xFF00) | v;
            } else {
                self.send(v as u8);
            },
            1 => if dlab {
                self.divisor = (self.divisor & 0x00FF) | (v << 8);
            } else {
                // Enabling the transmit interrupt on an empty transmitter
                // interrupts straight away; that is what gets the first byte
                // moving, since the driver is waiting rather than writing.
                let newly = (v & !self.ier) & IER_TRANSMITTER_EMPTY != 0;
                self.ier = v;
                if newly {
                    self.transmitter_drained = true;
                }
            },
            // FCR. The FIFOs themselves are not modelled, but whether they
            // are on has to be remembered, because `IIR` reports it and a
            // driver checks.
            2 => self.fifos = v & 1 != 0,
            3 => self.lcr = v,
            4 => self.mcr = v,
            7 => self.scratch = v,
            _ => {},
        }
    }

    /// Which interrupt this would report, honouring what is enabled.
    fn pending(&self) -> (r: u16)
        ensures
            r == self@.pending_spec(),
    {
        if self.ier & IER_RECEIVED_DATA != 0 && self.rx.len() > 0 {
            IIR_RECEIVED_DATA
        } else if self.ier & IER_TRANSMITTER_EMPTY != 0 && self.transmitter_drained {
            IIR_TRANSMITTER_EMPTY
        } else {
            IIR_NONE
        }
    }

    /// Whether the part is asserting its interrupt line.
    pub fn interrupting(&self) -> (r: bool)
        ensures
            r == (self@.pending_spec() != IIR_NONE),
    {
        self.pending() != IIR_NONE
    }

    /// A byte the guest transmitted.
    fn send(&mut self, byte: u8)
        ensures
            final(self)@ == old(self)@.sent(byte),
    {
        self.tx.push(byte);
        // It is gone as soon as it is written, so the transmitter is drained
        // the moment the driver hands a byte over.
        self.transmitter_drained = true;
        // A command ends at a carriage return, which is what `<cr>` in the
        // firmware's init strings means.
        if byte == 0x0D || byte == 0x0A {
            if self.command.len() > 0 {
                let mut line: Vec<u8> = Vec::new();
                std::mem::swap(&mut line, &mut self.command);
                self.answer(&line);
            }
            return ;
        }
        self.command.push(byte);
    }

    /// Answer one AT command.
    ///
    /// Everything gets `OK`, which is true of a modem that is attached and
    /// idle. `ATI` is answered with something that identifies the part,
    /// because a driver that asks who it is talking to and gets `OK` may
    /// decide the answer was rubbish.
    fn answer(&mut self, line: &Vec<u8>)
        ensures
            final(self)@ == old(self)@.answered(line@),
    {
        if !is_at_command(line) {
            return ;
        }
        self.commands = self.commands.wrapping_add(1);
        if asks_who(line) {
            let reply: [u8; 14] = [
                0x0D,
                0x0A,
                0x54,
                0x4C,
                0x31,
                0x36,
                0x43,
                0x20,
                0x56,
                0x2E,
                0x39,
                0x30,
                0x0D,
                0x0A,
            ];
            assert(reply@ =~= identity_reply());
            self.feed(reply.as_slice());
        } else {
            let reply: [u8; 6] = [0x0D, 0x0A, 0x4F, 0x4B, 0x0D, 0x0A];
            assert(reply@ =~= ok_reply());
            self.feed(reply.as_slice());
        }
    }

    /// Give the guest bytes to read, as a real modem or a host bridge would.
    pub fn feed(&mut self, bytes: &[u8])
        ensures
            final(self)@ == (ModemState { rx: old(self)@.rx + bytes@, ..old(self)@ }),
    {
        let ghost start = self@;
        let mut i: usize = 0;
        while i < bytes.len()
            invariant
                i <= bytes.len(),
                self@ =~= (ModemState { rx: start.rx + bytes@.take(i as int), ..start }),
            decreases bytes.len() - i,
        {
            self.rx.push_back(bytes[i]);
            assert(bytes@.take(i as int + 1) =~= bytes@.take(i as int).push(bytes[i as int]));
            i = i + 1;
        }
        assert(bytes@.take(bytes.len() as int) =~= bytes@);
    }

    /// Take what the guest has sent, for a host bridge to deal with.
    pub fn take_tx(&mut self) -> (r: Vec<u8>)
        ensures
            r@ == old(self)@.tx,
            final(self)@ == (ModemState { tx: Seq::empty(), ..old(self)@ }),
    {
        let mut taken: Vec<u8> = Vec::new();
        std::mem::swap(&mut taken, &mut self.tx);
        taken
    }
}

/// With the transmit interrupt enabled and nothing to read, handing a byte
/// over interrupts for the next one, and reading `IIR` acknowledges it.
pub proof fn law_each_byte_asks_for_the_next(m: ModemState, byte: u8)
    requires
        !m.dlab(),
        m.ier & IER_TRANSMITTER_EMPTY != 0,
        byte != 0x0D,
        byte != 0x0A,
        m.rx.len() == 0,
    ensures
        m.sent(byte).pending_spec() == IIR_TRANSMITTER_EMPTY,
        m.sent(byte).after_read(4).pending_spec() == IIR_NONE,
{
}

/// Nothing enabled means nothing reported, whatever the part has to say.
pub proof fn law_nothing_enabled_is_quiet(m: ModemState)
    requires
        m.ier & IER_RECEIVED_DATA == 0,
        m.ier & IER_TRANSMITTER_EMPTY == 0,
    ensures
        m.pending_spec() == IIR_NONE,
{
}

/// The scratch register holds what it is given, and with the latch open the
/// two halves of the divisor read back as they were written.
pub proof fn law_scratch_and_divisor_read_back(m: ModemState, low: u16, high: u16)
    ensures
        m.written(14, low).read_spec(14) == low & 0xFF,
        m.dlab() ==> {
            let set = m.written(0, low).written(2, high);
            &&& set.read_spec(0) == low & 0xFF
            &&& set.read_spec(2) == high & 0xFF
        },
{
    lemma_divisor(m.divisor, low, high, 0);
}

impl ModemState {
    /// The modem after bytes were sent to it, one after another.
    pub open spec fn after_sends(self, bytes: Seq<u8>) -> ModemState
        decreases bytes.len(),
    {
        if bytes.len() == 0 {
            self
        } else {
            self.after_sends(bytes.drop_last()).written(0, bytes.last() as u16)
        }
    }

    /// The modem after its data register was read `n` times.
    pub open spec fn after_takes(self, n: nat) -> ModemState
        decreases n,
    {
        if n == 0 {
            self
        } else {
            self.after_takes((n - 1) as nat).after_read(0)
        }
    }
}

/// No byte of these ends a line.
pub open spec fn within_a_line(bytes: Seq<u8>) -> bool {
    forall|i: int| 0 <= i < bytes.len() ==> #[trigger] bytes[i] != 0x0D && bytes[i] != 0x0A
}

proof fn lemma_sends(m: ModemState, bytes: Seq<u8>)
    requires
        !m.dlab(),
        within_a_line(bytes),
    ensures
        m.after_sends(bytes) == (ModemState {
            tx: m.tx + bytes,
            command: m.command + bytes,
            transmitter_drained: m.transmitter_drained || bytes.len() > 0,
            ..m
        }),
    decreases bytes.len(),
{
    if bytes.len() == 0 {
        assert(m.tx + bytes =~= m.tx && m.command + bytes =~= m.command);
    } else {
        let front = bytes.drop_last();
        assert(within_a_line(front)) by {
            assert(forall|i: int| 0 <= i < front.len() ==> front[i] == bytes[i]);
        }
        lemma_sends(m, front);
        lemma_low_byte(bytes.last());
        assert((m.tx + front).push(bytes.last()) =~= m.tx + bytes);
        assert((m.command + front).push(bytes.last()) =~= m.command + bytes);
    }
}

proof fn lemma_low_byte(b: u8)
    ensures
        ((b as u16) & 0xFF) as u8 == b,
{
    lemma_divisor(0, 0, 0, b);
}

/// Nothing is answered before a line ends; the carriage return or the line feed
/// that ends it brings one reply to the whole of it, behind whatever is still
/// waiting to be read, and the next line starts afresh. Every byte is kept for
/// whoever wants to see what was sent.
pub proof fn law_a_line_is_answered_when_it_ends(m: ModemState, line: Seq<u8>, end: u8)
    requires
        !m.dlab(),
        m.command.len() == 0,
        line.len() > 0,
        within_a_line(line),
        end == 0x0D || end == 0x0A,
    ensures
        ({
            let before = m.after_sends(line);
            let after = m.after_sends(line.push(end));
            &&& before.rx == m.rx
            &&& before.commands == m.commands
            &&& after.rx == m.rx + reply_to(line)
            &&& after.command.len() == 0
            &&& after.tx == m.tx + line.push(end)
            &&& (reply_to(line).len() > 0 && m.commands < u64::MAX ==> after.commands == m.commands
                + 1)
            &&& reply_to(line).len() == 0 ==> after.commands == m.commands
        }),
{
    lemma_sends(m, line);
    lemma_low_byte(end);
    assert(line.push(end).drop_last() =~= line);
    assert(m.command + line =~= line);
    assert((m.tx + line).push(end) =~= m.tx + line.push(end));
    if !is_at(line) {
        assert(m.rx + reply_to(line) =~= m.rx);
    }
}

/// A line is answered exactly where it is a command: `AT`, in either case,
/// first or behind blanks. The answer is a line of its own, and it names the
/// modem only where an `I` is in the line; other commands are just accepted.
pub proof fn law_commands_are_answered(line: Seq<u8>, blanks: int)
    requires
        0 <= blanks <= line.len(),
        forall|i: int| 0 <= i < blanks ==> #[trigger] line[i] == 0x20 || line[i] == 0x09,
        blanks < line.len() ==> line[blanks] < 0x80 && !(0x09 <= line[blanks] <= 0x0D)
            && line[blanks] != 0x20,
    ensures
        ({
            let reply = reply_to(line);
            let a = blanks + 1 < line.len() && (line[blanks] == 0x41 || line[blanks] == 0x61) && (
            line[blanks + 1] == 0x54 || line[blanks + 1] == 0x74);
            &&& (reply.len() > 0) == a
            &&& a ==> reply[0] == 0x0D && reply[1] == 0x0A && reply[reply.len() - 2] == 0x0D
                && reply.last() == 0x0A
            &&& a && (forall|i: int|
                0 <= i < line.len() ==> #[trigger] line[i] != 0x49 && line[i] != 0x69) ==> reply
                == ok_reply()
            &&& a && (exists|i: int|
                #![trigger line[i]]
                0 <= i < line.len() - 1 && (line[i] == 0x49 || line[i] == 0x69) && (line[i + 1]
                    == 0x33 || line[i + 1] == 0x30)) ==> reply == identity_reply()
        }),
{
    lemma_blanks(line, 0, blanks);
    let a = blanks + 1 < line.len() && (line[blanks] == 0x41 || line[blanks] == 0x61) && (
    line[blanks + 1] == 0x54 || line[blanks + 1] == 0x74);
    assert(is_at(line) == a);
    if exists|i: int|
        #![trigger line[i]]
        0 <= i < line.len() - 1 && (line[i] == 0x49 || line[i] == 0x69) && (line[i + 1] == 0x33
            || line[i + 1] == 0x30) {
        let i = choose|i: int|
            #![trigger line[i]]
            0 <= i < line.len() - 1 && (line[i] == 0x49 || line[i] == 0x69) && (line[i + 1] == 0x33
                || line[i + 1] == 0x30);
        assert(upper_spec(line[i]) == 0x49);
        assert(asks_identity(line));
    }
}

proof fn lemma_blanks(line: Seq<u8>, i: int, blanks: int)
    requires
        0 <= i <= blanks <= line.len(),
        forall|j: int| 0 <= j < blanks ==> #[trigger] line[j] == 0x20 || line[j] == 0x09,
        blanks < line.len() ==> line[blanks] < 0x80 && !(0x09 <= line[blanks] <= 0x0D)
            && line[blanks] != 0x20,
    ensures
        text_start(line, i) == blanks,
    decreases blanks - i,
{
    if i < blanks {
        assert(line[i] == 0x20 || line[i] == 0x09);
        lemma_blanks(line, i + 1, blanks);
    }
}

proof fn lemma_takes(m: ModemState, n: nat)
    requires
        !m.dlab(),
        n <= m.rx.len(),
    ensures
        m.after_takes(n) == (ModemState { rx: m.rx.skip(n as int), ..m }),
    decreases n,
{
    if n == 0 {
        assert(m.rx.skip(0) =~= m.rx);
    } else {
        lemma_takes(m, (n - 1) as nat);
        let was = m.rx.skip(n - 1);
        assert(was.subrange(1, was.len() as int) =~= m.rx.skip(n as int));
    }
}

/// What the modem says is read a byte at a time, oldest first, and the line
/// status says whether there is more of it.
pub proof fn law_replies_are_read_in_order(m: ModemState, n: nat)
    requires
        !m.dlab(),
        n <= m.rx.len(),
    ensures
        ({
            let t = m.after_takes(n);
            &&& n < m.rx.len() ==> t.read_spec(0) == m.rx[n as int]
            &&& (t.read_spec(10) & LSR_DATA_READY != 0) == (n < m.rx.len())
            &&& t.read_spec(10) & LSR_THR_EMPTY != 0
            &&& t.tx == m.tx && t.command == m.command
        }),
{
    lemma_takes(m, n);
    lemma_divisor(0, 0, 0, 0);
}

/// The part interrupts for a byte to be read where that is enabled and there is
/// one, before it interrupts for a drained transmitter. Turning the transmit
/// interrupt on counts as the transmitter having drained; turning it on again
/// does not.
pub proof fn law_interrupts_by_rank(m: ModemState, val: u16)
    requires
        !m.dlab(),
    ensures
        ({
            let received = m.ier & 0x1 != 0 && m.rx.len() > 0;
            let drained = m.ier & 0x2 != 0 && m.transmitter_drained;
            let w = m.written(2, val);
            &&& m.read_spec(4) & 0x0F == if received {
                4
            } else if drained {
                2
            } else {
                1u16
            }
            &&& w.read_spec(2) == val & 0xFF
            &&& m.ier & 0x2 == 0 && val & 0x2 != 0 ==> w.transmitter_drained
            &&& m.ier & 0x2 != 0 || val & 0x2 == 0 ==> w.transmitter_drained
                == m.transmitter_drained
            &&& w.rx == m.rx && w.tx == m.tx
        }),
{
    let i = m.ier;
    lemma_divisor(i, val, 0, 0);
}

/// What the bits of the part's registers say.
proof fn lemma_divisor(d: u16, low: u16, high: u16, b: u8)
    ensures
        ((((d & 0xFF00u16) | (low & 0xFF)) & 0x00FF) | ((high & 0xFF) << 8)) & 0xFF == low & 0xFF,
        ((((d & 0xFF00u16) | (low & 0xFF)) & 0x00FF) | ((high & 0xFF) << 8)) >> 8 == high & 0xFF,
        ((b as u16) & 0xFF) as u8 == b,
        ((LSR_THR_EMPTY | LSR_TRANSMITTER_IDLE) | LSR_DATA_READY) & LSR_DATA_READY != 0,
        ((LSR_THR_EMPTY | LSR_TRANSMITTER_IDLE) | LSR_DATA_READY) & LSR_THR_EMPTY != 0,
        (LSR_THR_EMPTY | LSR_TRANSMITTER_IDLE) & LSR_DATA_READY == 0,
        (LSR_THR_EMPTY | LSR_TRANSMITTER_IDLE) & LSR_THR_EMPTY != 0,
        (0x04u16 | 0xC0) & 0x0F == 4 && (0x04u16 | 0) & 0x0F == 4,
        (0x02u16 | 0xC0) & 0x0F == 2 && (0x02u16 | 0) & 0x0F == 2,
        (0x01u16 | 0xC0) & 0x0F == 1 && (0x01u16 | 0) & 0x0F == 1,
        (((low & 0xFF) & !d) & 0x2 != 0) == (low & 0x2 != 0 && d & 0x2 == 0),
{
    assert(((((d & 0xFF00u16) | (low & 0xFF)) & 0x00FF) | ((high & 0xFF) << 8)) & 0xFF == low & 0xFF
        && ((((d & 0xFF00u16) | (low & 0xFF)) & 0x00FF) | ((high & 0xFF) << 8)) >> 8 == high & 0xFF
        && ((b as u16) & 0xFF) as u8 == b && ((LSR_THR_EMPTY | LSR_TRANSMITTER_IDLE)
        | LSR_DATA_READY) & LSR_DATA_READY != 0 && ((LSR_THR_EMPTY | LSR_TRANSMITTER_IDLE)
        | LSR_DATA_READY) & LSR_THR_EMPTY != 0 && (LSR_THR_EMPTY | LSR_TRANSMITTER_IDLE)
        & LSR_DATA_READY == 0 && (LSR_THR_EMPTY | LSR_TRANSMITTER_IDLE) & LSR_THR_EMPTY != 0 && (
    0x04u16 | 0xC0) & 0x0F == 4 && (0x04u16 | 0) & 0x0F == 4 && (0x02u16 | 0xC0) & 0x0F == 2 && (
    0x02u16 | 0) & 0x0F == 2 && (0x01u16 | 0xC0) & 0x0F == 1 && (0x01u16 | 0) & 0x0F == 1 && (((low
        & 0xFF) & !d) & 0x2 != 0) == (low & 0x2 != 0 && d & 0x2 == 0)) by (bit_vector);
}

/// While the divisor latch is open nothing is sent, taken or enabled through
/// the first two registers.
pub proof fn law_the_divisor_latch_hides_the_data(m: ModemState, a: u16, b: u16)
    requires
        m.lcr & 0x80 != 0,
    ensures
        ({
            let s = m.written(0, a).written(2, b).after_read(0);
            s.rx == m.rx && s.tx == m.tx && s.command == m.command && s.ier == m.ier
        }),
        m.written(6, a).read_spec(6) == a & 0xFF,
        m.written(8, a).read_spec(8) == a & 0xFF,
        m.written(8, a).lcr == m.lcr,
{
}

/// Reading why the part interrupted acknowledges a drained transmitter where
/// that is what was read, and only there: behind a byte that is waiting it stays
/// to be reported. Nothing else changes.
pub proof fn law_only_what_was_said_is_acknowledged(m: ModemState)
    ensures
        ({
            let t = m.after_read(4);
            let received = m.ier & 0x1 != 0 && m.rx.len() > 0;
            let drained = m.ier & 0x2 != 0 && m.transmitter_drained;
            &&& received || !drained ==> t == m
            &&& !received && drained ==> t == (ModemState { transmitter_drained: false, ..m })
        }),
{
}

} // verus!
