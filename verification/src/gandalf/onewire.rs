//! The 1-Wire EEPROM the machine keeps its serial number in.
//!
//! KeySoft asks the kernel for "serial number data", and the kernel bit-bangs
//! a Dallas/Maxim 1-Wire bus on **GPIO 22** to get it. With nothing on that
//! pin the line sits idle, every read comes back failing its checksum, and
//! KeySoft gives up after fifty tries.
//!
//! # The wire
//!
//! 1-Wire is open drain: the pull-up holds the line high and either end
//! signals by pulling it low. Everything is timed from the falling edge, so
//! this model watches transitions rather than trying to keep a clock:
//!
//! | the master holds low for | it means |
//! |---|---|
//! | ~480 us or more | reset: the device answers with a presence pulse |
//! | ~60 us or more | it is writing a zero |
//! | ~1-15 us | it is writing a one, or starting a read slot |
//!
//! In a read slot the device answers by holding the line down for the rest of
//! the slot to send a zero, or leaving it alone to send a one.
//!
//! # What the kernel asks for
//!
//! `0xCC` then `0xF0` (Skip ROM, then Read Memory), then a two-byte address,
//! and then it clocks bytes out.

use std::collections::VecDeque;
use vstd::prelude::*;

verus! {

/// The pin. The kernel passes this as a "store id" and then hands it straight
/// to its GPIO set and clear routines, which take a pin number.
pub const PIN: u32 = 22;

/// Bytes in the EEPROM. A DS2431 holds 128; this is the same shape.
pub const SIZE: usize = 128;

/// Read ROM: hand back the 64-bit identity every 1-Wire device carries.
///
/// This is the **first** thing the kernel asks for, and a device that does not
/// answer it is a device the master decides is not there.
pub const CMD_READ_ROM: u8 = 0x33;
/// Skip ROM: there is only one device here, so it needs no addressing.
pub const CMD_SKIP_ROM: u8 = 0xCC;
/// Read Memory, followed by a two-byte address.
pub const CMD_READ_MEMORY: u8 = 0xF0;

/// The shortest pull, in **OSCR ticks**, that is a reset.
///
/// The bus has to be timed by the same clock the guest uses, and the guest
/// uses OSCR: the kernel's delay routine spins reading it.
pub const RESET_LOW: u32 = 1_400;
/// The longest a pull can be and still be a reset.
///
/// A pull much longer than this is not a reset however long it is: it is a
/// zero bit that took its time, which happens because the guest can be
/// interrupted in the middle of one.
pub const RESET_HIGH: u32 = 2_400;
/// The shortest pull that is a written zero.
pub const WRITE_ZERO_LOW: u32 = 100;

/// How long the device holds the line down to say it is there.
///
/// A master samples for this about 70 us after it lets the line up, and the
/// device may hold for up to 240. A pulse that ends as the master looks is
/// seen by nobody.
pub const PRESENCE_LOW: u32 = 600;

#[derive(Debug, Clone, Copy, PartialEq, Eq, Structural)]
pub enum Stage {
    /// Waiting for a command byte.
    Command,
    /// Reading the two address bytes of a Read Memory.
    Address(u8),
    /// Streaming bytes out from `cursor`.
    Sending,
}

/// Dallas's CRC-8 after `n` more bits of `inbyte`, least significant first.
pub open spec fn crc_bits(crc: u8, inbyte: u8, n: nat) -> u8
    decreases n,
{
    if n == 0 {
        crc
    } else {
        let next = if (crc ^ inbyte) & 1 != 0 {
            (crc >> 1) ^ 0x8C
        } else {
            crc >> 1
        };
        crc_bits(next, inbyte >> 1, (n - 1) as nat)
    }
}

/// Dallas's CRC-8 over a whole string of bytes.
pub open spec fn crc_spec(bytes: Seq<u8>) -> u8
    decreases bytes.len(),
{
    if bytes.len() == 0 {
        0
    } else {
        crc_bits(crc_spec(bytes.drop_last()), bytes.last(), 8)
    }
}

/// Dallas's CRC-8, over the polynomial x^8 + x^5 + x^4 + 1.
///
/// The last byte of a ROM id is this over the first seven, and a master that
/// checks it will reject an id that does not carry the right one.
pub fn crc8(bytes: &[u8]) -> (r: u8)
    ensures
        r == crc_spec(bytes@),
{
    let mut crc: u8 = 0;
    let mut k: usize = 0;
    while k < bytes.len()
        invariant
            k <= bytes.len(),
            crc == crc_spec(bytes@.take(k as int)),
        decreases bytes.len() - k,
    {
        let ghost start = crc;
        let b: u8 = bytes[k];
        let mut inbyte: u8 = b;
        let mut n: usize = 8;
        while n > 0
            invariant
                n <= 8,
                crc_bits(crc, inbyte, n as nat) == crc_bits(start, b, 8),
            decreases n,
        {
            let mix: u8 = (crc ^ inbyte) & 1;
            crc = crc >> 1;
            if mix != 0 {
                crc = crc ^ 0x8C;
            }
            inbyte = inbyte >> 1;
            n = n - 1;
        }
        assert(bytes@.take(k as int + 1).drop_last() =~= bytes@.take(k as int));
        k = k + 1;
    }
    assert(bytes@.take(bytes.len() as int) =~= bytes@);
    crc
}

/// The identity that a family code and a serial number make.
pub open spec fn id_spec(family: u8, serial: Seq<u8>) -> Seq<u8> {
    let body = seq![family] + serial;
    body.push(crc_spec(body))
}

/// A well-formed ROM id: a family code, six bytes of serial, and the CRC.
pub fn rom_id(family: u8, serial: [u8; 6]) -> (r: [u8; 8])
    ensures
        r@ == id_spec(family, serial@),
{
    let body: [u8; 7] = [
        family,
        serial[0],
        serial[1],
        serial[2],
        serial[3],
        serial[4],
        serial[5],
    ];
    let crc: u8 = crc8(body.as_slice());
    let id: [u8; 8] = [
        family,
        serial[0],
        serial[1],
        serial[2],
        serial[3],
        serial[4],
        serial[5],
        crc,
    ];
    assert(body@ =~= seq![family] + serial@);
    assert(id@ =~= id_spec(family, serial@));
    id
}

proof fn lemma_crc_of_itself(x: u8, n: nat)
    requires
        n <= 8,
        n == 8 || x < vstd::arithmetic::power2::pow2(n),
    ensures
        crc_bits(x, x, n) == 0,
    decreases n,
{
    vstd::arithmetic::power2::lemma2_to64();
    if n > 0 {
        assert((x ^ x) & 1 == 0 && x >> 1 == x / 2) by (bit_vector);
        vstd::arithmetic::power2::lemma_pow2_unfold(n);
        lemma_crc_of_itself(x >> 1, (n - 1) as nat);
    }
}

/// Anything followed by its own CRC has a CRC of zero, which is how a master
/// usually tests an identity.
pub proof fn law_a_checked_string_sums_to_zero(bytes: Seq<u8>)
    ensures
        crc_spec(bytes.push(crc_spec(bytes))) == 0,
{
    let whole = bytes.push(crc_spec(bytes));
    assert(whole.drop_last() =~= bytes);
    lemma_crc_of_itself(crc_spec(bytes), 8);
}

pub struct OneWire {
    /// The 64-bit identity: family code, serial, CRC.
    pub rom: [u8; 8],
    pub data: [u8; 128],
    /// Whether the master is currently holding the line down.
    pub master_low: bool,
    /// When it started doing so, on the guest's clock.
    pub fell_at: u32,
    /// Whether this device is holding the line down.
    pub pulling: bool,
    /// When this device should stop holding it down.
    pub release_at: u32,
    /// Bits of the byte being received, and how many have arrived.
    pub in_bits: u8,
    pub in_count: u8,
    /// The byte being sent and how much of it is left.
    pub out_bits: u8,
    pub out_count: u8,
    pub stage: Stage,
    pub cursor: usize,
    /// Set once a reset has been seen, so a bus with no traffic yet does not
    /// look like one mid-transfer.
    pub started: bool,
    /// Bytes queued to go out that are not memory: the ROM id.
    pub out_queue: VecDeque<u8>,
}

/// What a [`OneWire`] holds.
#[verifier::ext_equal]
pub struct OneWireState {
    pub rom: Seq<u8>,
    pub data: Seq<u8>,
    pub master_low: bool,
    pub fell_at: u32,
    pub pulling: bool,
    pub release_at: u32,
    pub in_bits: u8,
    pub in_count: u8,
    pub out_bits: u8,
    pub out_count: u8,
    pub stage: Stage,
    pub cursor: usize,
    pub started: bool,
    pub out_queue: Seq<u8>,
}

impl View for OneWire {
    type V = OneWireState;

    open spec fn view(&self) -> OneWireState {
        OneWireState {
            rom: self.rom@,
            data: self.data@,
            master_low: self.master_low,
            fell_at: self.fell_at,
            pulling: self.pulling,
            release_at: self.release_at,
            in_bits: self.in_bits,
            in_count: self.in_count,
            out_bits: self.out_bits,
            out_count: self.out_count,
            stage: self.stage,
            cursor: self.cursor,
            started: self.started,
            out_queue: self.out_queue@,
        }
    }
}

/// How far `now` is past `then`, on a counter that wraps.
#[verifier::opaque]
pub open spec fn since(now: u32, then: u32) -> int {
    (now - then) % 0x1_0000_0000
}

/// `now` comes before `then` on a counter that wraps: nearer going forward
/// than going back.
pub open spec fn before(now: u32, then: u32) -> bool {
    since(now, then) >= 0x8000_0000
}

/// A moment `d` ticks after `t`.
#[verifier::opaque]
pub open spec fn after(t: u32, d: int) -> u32 {
    ((t + d) % 0x1_0000_0000) as u32
}

/// Moving both the present and the past along by the same clock.
proof fn lemma_since(t: u32, d: int, then: u32)
    requires
        0 <= d < 0x1_0000_0000,
    ensures
        since(after(t, d), t) == d,
        since(after(t, d), then) == since(t, then) + d || since(after(t, d), then) == since(t, then)
            + d - 0x1_0000_0000,
        0 <= since(t, then) < 0x1_0000_0000,
        0 <= since(after(t, d), then) < 0x1_0000_0000,
{
    reveal(since);
    reveal(after);
}

/// Steps forward compose.
proof fn lemma_after(t: u32, d: int, e: int)
    ensures
        after(after(t, d), e) == after(t, d + e),
{
    reveal(after);
}

impl OneWireState {
    /// Fewer than eight bits of the next byte have arrived.
    pub open spec fn wf(self) -> bool {
        self.rom.len() == 8 && self.data.len() == 128 && self.in_count < 8
    }

    /// A part with the default identity and this memory.
    pub open spec fn holding(rom: Seq<u8>, data: Seq<u8>) -> OneWireState {
        OneWireState {
            rom,
            data,
            master_low: false,
            fell_at: 0,
            pulling: false,
            release_at: 0,
            in_bits: 0,
            in_count: 0,
            out_bits: 0,
            out_count: 0,
            stage: Stage::Command,
            cursor: 0,
            started: false,
            out_queue: Seq::empty(),
        }
    }

    /// What the device drives: it holds the line down until its time is up.
    pub open spec fn line_spec(self, now: u32) -> bool {
        !(self.pulling && before(now, self.release_at))
    }

    /// The next byte to shift out: whatever is queued from a Read ROM,
    /// otherwise the next byte of memory, and erased past its end.
    pub open spec fn loaded(self) -> OneWireState {
        if self.out_queue.len() > 0 {
            OneWireState {
                out_bits: self.out_queue[0],
                out_queue: self.out_queue.subrange(1, self.out_queue.len() as int),
                out_count: 8,
                ..self
            }
        } else {
            OneWireState {
                out_bits: if self.cursor < 128 {
                    self.data[self.cursor as int]
                } else {
                    0xFF
                },
                cursor: self.cursor.wrapping_add(1),
                out_count: 8,
                ..self
            }
        }
    }

    pub open spec fn byte_taken(self, byte: u8) -> OneWireState {
        match self.stage {
            Stage::Command => if byte == CMD_READ_ROM {
                (OneWireState { out_queue: self.out_queue + self.rom, ..self }).loaded()
            } else if byte == CMD_READ_MEMORY {
                OneWireState { stage: Stage::Address(0), ..self }
            } else {
                self
            },
            Stage::Address(n) => if n == 0 {
                OneWireState { cursor: byte as usize, stage: Stage::Address(1), ..self }
            } else {
                (OneWireState {
                    cursor: self.cursor | ((byte as usize) << 8),
                    stage: Stage::Sending,
                    ..self
                }).loaded()
            },
            Stage::Sending => self,
        }
    }

    /// After the master wrote a bit, least significant first.
    pub open spec fn bit_taken(self, one: bool) -> OneWireState {
        let bits = if one {
            (self.in_bits >> 1) | 0x80
        } else {
            self.in_bits >> 1
        };
        if !self.started {
            self
        } else if self.in_count == 7 {
            (OneWireState { in_bits: 0, in_count: 0, ..self }).byte_taken(bits)
        } else {
            OneWireState { in_bits: bits, in_count: (self.in_count + 1) as u8, ..self }
        }
    }

    /// After the device sent a bit: a zero is sent by holding the line down
    /// through the slot.
    pub open spec fn bit_sent(self, now: u32) -> OneWireState {
        let one = self.out_bits & 1 != 0;
        let s = OneWireState {
            out_bits: self.out_bits >> 1,
            out_count: (self.out_count - 1) as u8,
            pulling: self.pulling || !one,
            release_at: if one {
                self.release_at
            } else {
                after(now, WRITE_ZERO_LOW as int)
            },
            ..self
        };
        if s.out_count == 0 && (s.stage == Stage::Sending || s.out_queue.len() > 0) {
            s.loaded()
        } else {
            s
        }
    }

    /// After a reset pulse: everything forgotten but the contents, and the
    /// presence pulse under way.
    pub open spec fn reset_at(self, now: u32) -> OneWireState {
        OneWireState {
            in_bits: 0,
            in_count: 0,
            out_bits: 0,
            out_count: 0,
            stage: Stage::Command,
            cursor: 0,
            started: true,
            out_queue: Seq::empty(),
            pulling: true,
            release_at: after(now, PRESENCE_LOW as int),
            ..self
        }
    }

    /// After the master let the line up, having held it for `held` ticks.
    pub open spec fn released(self, held: u32, now: u32) -> OneWireState {
        if RESET_LOW <= held <= RESET_HIGH {
            self.reset_at(now)
        } else if held >= WRITE_ZERO_LOW {
            self.bit_taken(false)
        } else if self.out_count > 0 {
            self.bit_sent(now)
        } else {
            self.bit_taken(true)
        }
    }

    pub open spec fn updated(self, master_low: bool, now: u32) -> OneWireState {
        let s = if master_low && !self.master_low {
            OneWireState { fell_at: now, ..self }
        } else if !master_low && self.master_low {
            self.released(since(now, self.fell_at) as u32, now)
        } else {
            self
        };
        OneWireState { master_low, ..s }
    }

    /// The level of the pin: open drain, low if either end is pulling.
    pub open spec fn level(self, now: u32) -> bool {
        !self.master_low && self.line_spec(now)
    }
}

impl Default for OneWire {
    fn default() -> (r: Self)
        ensures
            r@ == OneWireState::holding(
                id_spec(0x2D, seq![0u8, 0, 0, 0, 0, 0]),
                Seq::new(128, |i: int| 0xFFu8),
            ),
    {
        let serial: [u8; 6] = [0, 0, 0, 0, 0, 0];
        assert(serial@ =~= seq![0u8, 0, 0, 0, 0, 0]);
        let r = OneWire {
            // A DS2431's family code, and a serial that is plainly not a real
            // machine's. Anything reading this should be reading a dump.
            rom: rom_id(0x2D, serial),
            data: [0xFF; 128],
            master_low: false,
            fell_at: 0,
            pulling: false,
            release_at: 0,
            in_bits: 0,
            in_count: 0,
            out_bits: 0,
            out_count: 0,
            stage: Stage::Command,
            cursor: 0,
            started: false,
            out_queue: VecDeque::new(),
        };
        assert(r@.data =~= Seq::new(128, |i: int| 0xFFu8));
        r
    }
}

/// `bytes` at the start of an otherwise erased memory.
pub open spec fn memory_of(bytes: Seq<u8>) -> Seq<u8> {
    Seq::new(
        128,
        |i: int|
            if i < bytes.len() {
                bytes[i]
            } else {
                0xFFu8
            },
    )
}

impl OneWire {
    /// A part holding this memory, with the default identity.
    pub fn with_contents(bytes: &[u8]) -> (r: Self)
        ensures
            r@ == OneWireState::holding(
                id_spec(0x2D, seq![0u8, 0, 0, 0, 0, 0]),
                memory_of(bytes@),
            ),
    {
        let mut d = OneWire::default();
        let n: usize = if bytes.len() < SIZE {
            bytes.len()
        } else {
            SIZE
        };
        let mut data: [u8; 128] = [0xFF; 128];
        let mut i: usize = 0;
        while i < n
            invariant
                i <= n,
                n <= SIZE,
                n <= bytes.len(),
                forall|k: int| 0 <= k < i ==> #[trigger] data@[k] == bytes@[k],
                forall|k: int| i <= k < 128 ==> #[trigger] data@[k] == 0xFF,
            decreases n - i,
        {
            data[i] = bytes[i];
            i = i + 1;
        }
        d.data = data;
        assert(d@.data =~= memory_of(bytes@));
        d
    }

    /// A part read out of a machine.
    ///
    /// The dump is the eight bytes of ROM id followed by the memory, which is
    /// the order the wire hands them over and the order a reader would write
    /// them down. A file shorter than eight bytes is treated as memory alone,
    /// so an experiment that only cares about the record still works.
    pub fn from_dump(bytes: &[u8]) -> (r: Self)
        ensures
            r@ == (if bytes@.len() < 8 {
                OneWireState::holding(
                    id_spec(0x2D, seq![0u8, 0, 0, 0, 0, 0]),
                    memory_of(bytes@),
                )
            } else {
                OneWireState::holding(bytes@.take(8), memory_of(bytes@.skip(8)))
            }),
    {
        if bytes.len() < 8 {
            return OneWire::with_contents(bytes);
        }
        let rest: &[u8] = vstd::slice::slice_subrange(bytes, 8, bytes.len());
        assert(rest@ =~= bytes@.skip(8));
        let mut d = OneWire::with_contents(rest);
        d.rom = [
            bytes[0],
            bytes[1],
            bytes[2],
            bytes[3],
            bytes[4],
            bytes[5],
            bytes[6],
            bytes[7],
        ];
        assert(d@.rom =~= bytes@.take(8));
        d
    }

    /// What the device is driving: `false` means it is holding the line down.
    /// Nothing else on the board pulls it, so anything else reads high.
    pub fn line(&self, now: u32) -> (r: bool)
        ensures
            r == self@.line_spec(now),
    {
        proof {
            reveal(since);
        }
        // The counter wraps, so "before" is a difference rather than a
        // comparison.
        !(self.pulling && now.wrapping_sub(self.release_at) >= 0x8000_0000)
    }

    /// Tell the device what the master is doing with the line.
    ///
    /// Called on every write that could change the pin, with the tick count
    /// so durations can be measured. Returns the level the pin should now
    /// read, which is the wired-AND of both ends.
    pub fn update(&mut self, master_low: bool, now: u32) -> (r: bool)
        requires
            old(self)@.wf(),
        ensures
            final(self)@ == old(self)@.updated(master_low, now),
            r == final(self)@.level(now),
            final(self)@.wf(),
    {
        proof {
            reveal(since);
        }
        if master_low && !self.master_low {
            self.fell_at = now;
        } else if !master_low && self.master_low {
            let held: u32 = now.wrapping_sub(self.fell_at);
            self.on_release(held, now);
        }
        self.master_low = master_low;
        // Open drain: low if either end is pulling.
        !master_low && self.line(now)
    }

    /// A reset has to look like one. Anything else long is a slow zero.
    fn on_release(&mut self, held: u32, now: u32)
        requires
            old(self)@.wf(),
        ensures
            final(self)@ == old(self)@.released(held, now),
            final(self)@.wf(),
    {
        if RESET_LOW <= held && held <= RESET_HIGH {
            self.reset(now);
        } else if held >= WRITE_ZERO_LOW {
            self.bit_in(false);
        } else {
            // A short pull is either a written one or the start of a read
            // slot. Which it is depends on whether the device has something
            // to say; if it does, it answers now.
            if self.out_count > 0 {
                self.bit_out(now);
            } else {
                self.bit_in(true);
            }
        }
    }

    fn reset(&mut self, now: u32)
        ensures
            final(self)@ == old(self)@.reset_at(now),
    {
        proof {
            reveal(after);
        }
        self.in_bits = 0;
        self.in_count = 0;
        self.out_bits = 0;
        self.out_count = 0;
        self.stage = Stage::Command;
        self.cursor = 0;
        self.started = true;
        self.out_queue.clear();
        // The presence pulse: hold the line down so the master sees somebody
        // is there.
        self.pulling = true;
        self.release_at = now.wrapping_add(PRESENCE_LOW);
    }

    fn bit_in(&mut self, one: bool)
        requires
            old(self)@.wf(),
        ensures
            final(self)@ == old(self)@.bit_taken(one),
            final(self)@.wf(),
    {
        if !self.started {
            return ;
        }
        // Least significant bit first.
        self.in_bits = self.in_bits >> 1;
        if one {
            self.in_bits = self.in_bits | 0x80;
        }
        self.in_count = self.in_count + 1;
        if self.in_count == 8 {
            let byte: u8 = self.in_bits;
            self.in_bits = 0;
            self.in_count = 0;
            self.byte_in(byte);
        }
    }

    fn byte_in(&mut self, byte: u8)
        requires
            old(self)@.wf(),
        ensures
            final(self)@ == old(self)@.byte_taken(byte),
            final(self)@.wf(),
    {
        match self.stage {
            Stage::Command => {
                if byte == CMD_READ_ROM {
                    // The identity goes out immediately; there is no address.
                    self.queue_rom();
                    self.load_next();
                } else if byte == CMD_READ_MEMORY {
                    self.stage = Stage::Address(0);
                }
                // Skip ROM needs nothing done. Anything else is a command
                // this part does not implement; staying quiet is what an
                // unprogrammed device would do.
            },
            Stage::Address(n) => {
                if n == 0 {
                    self.cursor = byte as usize;
                    self.stage = Stage::Address(1);
                } else {
                    self.cursor = self.cursor | ((byte as usize) << 8);
                    self.stage = Stage::Sending;
                    self.load_next();
                }
            },
            Stage::Sending => {},
        }
    }

    /// Queue the identity to go out.
    fn queue_rom(&mut self)
        ensures
            final(self)@ == (OneWireState {
                out_queue: old(self)@.out_queue + old(self)@.rom,
                ..old(self)@
            }),
    {
        let ghost start = self@;
        let mut i: usize = 0;
        while i < 8
            invariant
                i <= 8,
                start.rom.len() == 8,
                self@ =~= (OneWireState {
                    out_queue: start.out_queue + start.rom.take(i as int),
                    ..start
                }),
            decreases 8 - i,
        {
            self.out_queue.push_back(self.rom[i]);
            assert(start.rom.take(i as int + 1) =~= start.rom.take(i as int).push(
                start.rom[i as int],
            ));
            i = i + 1;
        }
        assert(start.rom.take(8) =~= start.rom);
    }

    /// Load the next byte to shift out: whatever is queued from a Read ROM,
    /// otherwise the next byte of memory.
    fn load_next(&mut self)
        ensures
            final(self)@ == old(self)@.loaded(),
    {
        self.out_bits = match self.out_queue.pop_front() {
            Some(b) => b,
            None => {
                let b: u8 = if self.cursor < SIZE {
                    self.data[self.cursor]
                } else {
                    0xFF
                };
                self.cursor = self.cursor.wrapping_add(1);
                b
            },
        };
        self.out_count = 8;
    }

    fn bit_out(&mut self, now: u32)
        requires
            old(self)@.out_count > 0,
        ensures
            final(self)@ == old(self)@.bit_sent(now),
    {
        proof {
            reveal(after);
        }
        let one = self.out_bits & 1 != 0;
        self.out_bits = self.out_bits >> 1;
        self.out_count = self.out_count - 1;
        if !one {
            // A zero is sent by holding the line down through the slot.
            self.pulling = true;
            self.release_at = now.wrapping_add(WRITE_ZERO_LOW);
        }
        if self.out_count == 0 && (self.stage == Stage::Sending || self.out_queue.len() > 0) {
            self.load_next();
        }
    }
}

/// The sum of a string of bytes.
pub open spec fn sum_of(bytes: Seq<u8>) -> int
    decreases bytes.len(),
{
    if bytes.len() == 0 {
        0
    } else {
        sum_of(bytes.drop_last()) + bytes.last()
    }
}

/// A length, the payload, and the sum of its bytes.
pub open spec fn record_spec(payload: Seq<u8>) -> Seq<u8> {
    seq![payload.len() as u8] + payload + seq![(sum_of(payload) % 256) as u8]
}

/// Build the record KeySoft expects on top of the wire: a byte of length,
/// that many bytes of data, and then a checksum byte which is the sum of the
/// data.
pub fn record(payload: &[u8]) -> (r: Vec<u8>)
    ensures
        r@ == record_spec(payload@),
{
    let mut v: Vec<u8> = Vec::new();
    v.push(payload.len() as u8);
    crate::bytes::push_all(&mut v, payload);
    let mut sum: u8 = 0;
    let mut i: usize = 0;
    while i < payload.len()
        invariant
            i <= payload.len(),
            sum == sum_of(payload@.take(i as int)) % 256,
        decreases payload.len() - i,
    {
        assert(payload@.take(i as int + 1).drop_last() =~= payload@.take(i as int));
        sum = sum.wrapping_add(payload[i]);
        i = i + 1;
    }
    assert(payload@.take(payload.len() as int) =~= payload@);
    v.push(sum);
    v
}

// What a master sees when it reads.

/// Ticks into a read slot at which the master lets go and looks.
pub const SLOT_PULL: u32 = 10;
/// Ticks from one read slot to the next.
pub const SLOT_PERIOD: u32 = 210;

impl OneWireState {
    /// The device after a read slot that started at `t`: a short pull, then
    /// the master lets go and looks.
    pub open spec fn after_slot(self, t: u32) -> OneWireState {
        self.updated(true, t).updated(false, after(t, SLOT_PULL as int))
    }

    /// What the master sees in that slot.
    pub open spec fn slot_level(self, t: u32) -> bool {
        self.after_slot(t).level(after(t, SLOT_PULL as int))
    }

    /// The device after `n` read slots, the first at `t`.
    pub open spec fn after_slots(self, t: u32, n: int) -> OneWireState
        decreases n,
    {
        if n <= 0 {
            self
        } else {
            self.after_slots(t, n - 1).after_slot(after(t, SLOT_PERIOD * (n - 1)))
        }
    }

    /// The line is up, the device is about to send a whole byte of memory, and
    /// its last pull is over and not so long ago that the counter has wrapped
    /// round to it.
    pub open spec fn ready_to_read(self, t: u32) -> bool {
        &&& !self.master_low
        &&& self.stage == Stage::Sending
        &&& self.out_queue.len() == 0
        &&& self.out_count == 8
        &&& self.pulling ==> since(t, self.release_at) < 0x7000_0000
    }
}

/// In a read slot the device sends its next bit: a zero by holding the line
/// down, a one by leaving it as it is.
proof fn lemma_slot_sends(s: OneWireState, t: u32)
    requires
        !s.master_low,
        s.out_count > 0,
    ensures
        ({
            let now = after(t, SLOT_PULL as int);
            let e = s.after_slot(t);
            let sent = (OneWireState { fell_at: t, ..s }).bit_sent(now);
            &&& e == (OneWireState { master_low: false, fell_at: t, ..sent })
            &&& s.slot_level(t) == (s.out_bits & 1 != 0 && s.line_spec(now))
        }),
{
    let now = after(t, SLOT_PULL as int);
    let low = s.updated(true, t);
    let sent = low.bit_sent(now);
    lemma_since(t, SLOT_PULL as int, s.release_at);
    assert(s.after_slot(t) == (OneWireState { master_low: false, ..sent }));
    let over = after(now, WRITE_ZERO_LOW as int);
    lemma_after(t, SLOT_PULL as int, WRITE_ZERO_LOW as int);
    lemma_since(now, WRITE_ZERO_LOW as int, over);
    assert(since(over, over) == 0) by {
        reveal(since);
    }
}

proof fn lemma_slot(s: OneWireState, t: u32, age: int)
    requires
        !s.master_low,
        s.out_count > 0,
        0 <= age < 0x7FFF_FF00,
        s.pulling ==> since(t, s.release_at) <= age,
    ensures
        s.slot_level(t) == (s.out_bits & 1 != 0),
        ({
            let e = s.after_slot(t);
            let sent = (OneWireState { fell_at: t, ..s }).bit_sent(after(t, SLOT_PULL as int));
            &&& e == (OneWireState { master_low: false, fell_at: t, ..sent })
            &&& e.pulling ==> since(after(t, SLOT_PERIOD as int), e.release_at) <= age + SLOT_PERIOD
        }),
{
    let now = after(t, SLOT_PULL as int);
    let next = after(t, SLOT_PERIOD as int);
    let low = s.updated(true, t);
    let sent = low.bit_sent(now);
    lemma_since(t, SLOT_PULL as int, s.release_at);
    lemma_since(t, SLOT_PERIOD as int, s.release_at);
    assert(s.after_slot(t) == (OneWireState { master_low: false, ..sent }));
    let let_go = after(now, WRITE_ZERO_LOW as int);
    lemma_after(t, SLOT_PULL as int, WRITE_ZERO_LOW as int);
    lemma_since(t, SLOT_PULL as int, let_go);
    lemma_since(t, SLOT_PERIOD as int, let_go);
    lemma_since(t, SLOT_PULL + WRITE_ZERO_LOW, let_go);
    assert(since(let_go, let_go) == 0) by {
        reveal(since);
    }
}

/// Eight read slots hand over the byte the device was about to send, least
/// significant bit first, and leave it about to send the next byte of memory:
/// a host reads back what the device holds, one address after another.
pub proof fn law_a_byte_is_read_back(s: OneWireState, t: u32)
    requires
        s.wf(),
        s.ready_to_read(t),
    ensures
        forall|i: int|
            #![trigger s.after_slots(t, i)]
            0 <= i < 8 ==> s.after_slots(t, i).slot_level(after(t, SLOT_PERIOD * i)) == ((
            s.out_bits >> (i as u8)) & 1 != 0),
        ({
            let e = s.after_slots(t, 8);
            &&& e.out_bits == (if s.cursor < 128 {
                s.data[s.cursor as int]
            } else {
                0xFF
            })
            &&& e.cursor == s.cursor.wrapping_add(1)
            &&& e.data == s.data
            &&& e.out_count == 8
            &&& e.stage == Stage::Sending
            &&& !e.master_low
            &&& e.out_queue.len() == 0
        }),
{
    assert forall|i: int| #![trigger s.after_slots(t, i)] 0 <= i < 8 implies s.after_slots(
        t,
        i,
    ).slot_level(after(t, SLOT_PERIOD * i)) == ((s.out_bits >> (i as u8)) & 1 != 0) by {
        lemma_slots(s, t, i);
        lemma_slot(
            s.after_slots(t, i),
            after(t, SLOT_PERIOD * i),
            0x7000_0000 + SLOT_PERIOD * i,
        );
    }
    lemma_slots(s, t, 7);
    let last = s.after_slots(t, 7);
    lemma_slot(last, after(t, SLOT_PERIOD * 7), 0x7000_0000 + SLOT_PERIOD * 7);
}

proof fn lemma_slots(s: OneWireState, t: u32, n: int)
    requires
        s.wf(),
        s.ready_to_read(t),
        0 <= n < 8,
    ensures
        ({
            let e = s.after_slots(t, n);
            &&& !e.master_low
            &&& e.stage == Stage::Sending
            &&& e.out_queue.len() == 0
            &&& e.out_count == 8 - n
            &&& e.out_bits == s.out_bits >> (n as u8)
            &&& e.cursor == s.cursor
            &&& e.data == s.data
            &&& e.pulling ==> since(after(t, SLOT_PERIOD * n), e.release_at) <= 0x7000_0000
                + SLOT_PERIOD * n
        }),
    decreases n,
{
    if n > 0 {
        lemma_slots(s, t, n - 1);
        let p = s.after_slots(t, n - 1);
        let now = after(t, SLOT_PERIOD * (n - 1));
        lemma_slot(p, now, 0x7000_0000 + SLOT_PERIOD * (n - 1));
        lemma_after(t, SLOT_PERIOD * (n - 1), SLOT_PERIOD as int);
        assert(after(now, SLOT_PERIOD as int) == after(t, SLOT_PERIOD * n));
        lemma_byte_bits(s.out_bits, (n - 1) as u8, 0, 0);
    } else {
        lemma_byte_bits(s.out_bits, 0, 0, 0);
        assert(after(t, 0) == t) by {
            reveal(after);
        }
    }
}

/// Shifting a byte out and in, bit by bit, and two of them put together.
proof fn lemma_byte_bits(b: u8, k: u8, low: u8, high: u8)
    ensures
        b >> 0u8 == b,
        b << 8u8 == 0,
        b << 0u8 == b,
        k < 8 ==> (b >> k) >> 1 == b >> ((k + 1) as u8),
        k < 8 ==> ((b << ((8 - k) as u8)) >> 1) | (if (b >> k) & 1 != 0 {
            0x80u8
        } else {
            0
        }) == b << ((7 - k) as u8),
        (b << ((8 - k) as u8)) >> 1 | 0 == (b << ((8 - k) as u8)) >> 1,
        (low as usize) | ((high as usize) << 8) == low + 256 * high,
{
    assert((b >> 0u8 == b) && (b << 8u8 == 0) && (b << 0u8 == b) && (k < 8 ==> (b >> k) >> 1 == b >> (
    (k + 1) as u8)) && (k < 8 ==> ((b << ((8 - k) as u8)) >> 1) | (if (b >> k) & 1 != 0 {
        0x80u8
    } else {
        0
    }) == b << ((7 - k) as u8)) && ((b << ((8 - k) as u8)) >> 1 | 0 == (b << ((8 - k) as u8)) >> 1)
        && ((low as usize) | ((high as usize) << 8) == low + 256 * high)) by (bit_vector);
}

/// Every reset is answered with a presence pulse: the line is held from the
/// moment the master lets go until the pulse is over, and then let up.
pub proof fn law_a_reset_is_answered(s: OneWireState, t: u32, held: int, d: int)
    requires
        !s.master_low,
        RESET_LOW <= held <= RESET_HIGH,
        0 <= d < 0x4000_0000,
    ensures
        ({
            let e = s.updated(true, t).updated(false, after(t, held));
            e.level(after(t, held + d)) == (d >= PRESENCE_LOW)
        }),
{
    let up = after(t, held);
    let over = after(up, PRESENCE_LOW as int);
    lemma_since(t, held, t);
    lemma_after(t, held, d);
    lemma_since(up, d, over);
    lemma_since(up, PRESENCE_LOW as int, over);
    assert(since(over, over) == 0) by {
        reveal(since);
    }
}

// A whole exchange: a reset, Skip ROM, Read Memory with an address, and then
// one read slot after another.

/// How long the master holds the line to reset the bus, and to write a zero.
pub const RESET_PULL: u32 = 1_900;
pub const ZERO_PULL: u32 = 150;

/// How far apart slots are at least.
pub const SLOT_GAP: u32 = 200;

/// The slot that the first bit is read in: behind the reset and four bytes.
pub const FIRST_READ: usize = 33;

/// The bytes that ask for memory from an address on.
pub open spec fn asking_byte(address: u16, n: int) -> u8 {
    if n == 0 {
        CMD_SKIP_ROM
    } else if n == 1 {
        CMD_READ_MEMORY
    } else if n == 2 {
        (address % 256) as u8
    } else {
        (address / 256) as u8
    }
}

/// How long the master holds the line in slot `k` of an exchange.
pub open spec fn held_in(address: u16, k: int) -> int {
    if k == 0 {
        RESET_PULL as int
    } else if k < FIRST_READ && (asking_byte(address, (k - 1) / 8) >> (((k - 1) % 8) as u8)) & 1
        == 0 {
        ZERO_PULL as int
    } else {
        SLOT_PULL as int
    }
}

/// When the slots of an exchange that reads `n` bytes start, in ticks: each
/// some while behind the one before.
pub open spec fn is_schedule(at: Seq<int>, n: int) -> bool {
    &&& n >= 0
    &&& at.len() == FIRST_READ + 8 * n
    &&& at[0] + RESET_PULL <= at[1]
    &&& forall|i: int| 1 <= i < at.len() - 1 ==> #[trigger] at[i] + SLOT_GAP <= at[i + 1]
}

/// What memory holds at an address, and past its end.
pub open spec fn memory_at(data: Seq<u8>, i: int) -> u8 {
    if i < 128 {
        data[i]
    } else {
        0xFF
    }
}

/// Bit `j` of memory from an address on, the least significant of each byte
/// first.
pub open spec fn memory_bit(data: Seq<u8>, address: u16, j: int) -> bool {
    (memory_at(data, address + j / 8) >> ((j % 8) as u8)) & 1 != 0
}

/// When the device last let go of the line before bit `j` is read: behind the
/// last zero it sent, or behind the presence pulse.
pub open spec fn let_go(data: Seq<u8>, at: Seq<int>, address: u16, j: int) -> int
    decreases j,
{
    if j <= 0 {
        at[0] + RESET_PULL + PRESENCE_LOW
    } else if memory_bit(data, address, j - 1) {
        let_go(data, at, address, j - 1)
    } else {
        at[FIRST_READ + j - 1] + SLOT_PULL + WRITE_ZERO_LOW
    }
}

impl OneWireState {
    /// The device after the first `k` slots of an exchange, on a counter that
    /// stood at `t` when it began.
    pub open spec fn after_exchange(self, t: u32, at: Seq<int>, address: u16, k: int) -> OneWireState
        decreases k,
    {
        if k <= 0 {
            self
        } else {
            let now = after(t, at[k - 1]);
            self.after_exchange(t, at, address, k - 1).updated(true, now).updated(
                false,
                after(now, held_in(address, k - 1)),
            )
        }
    }
}

/// A master that resets the bus, skips the identity and asks for memory from
/// an address on reads what stands there, byte after byte, the least
/// significant bit of each first, and ones past the end. Neither the memory
/// nor the identity changes. A one is read so long as the device has not left
/// the line alone for half a turn of the counter, which then takes it for still
/// held.
pub proof fn law_memory_is_read_from_an_address(
    s: OneWireState,
    t: u32,
    at: Seq<int>,
    address: u16,
    n: int,
    j: int,
)
    requires
        s.wf(),
        !s.master_low,
        is_schedule(at, n),
        0 <= j < 8 * n,
        address + n <= usize::MAX,
        memory_bit(s.data, address, j) ==> (at[FIRST_READ + j] + SLOT_PULL - let_go(
            s.data,
            at,
            address,
            j,
        )) % 0x1_0000_0000 < 0x8000_0000,
    ensures
        ({
            let slot = FIRST_READ + j;
            let e = s.after_exchange(t, at, address, slot + 1);
            &&& e.level(after(t, at[slot] + SLOT_PULL)) == memory_bit(s.data, address, j)
            &&& e.data == s.data
            &&& e.rom == s.rom
        }),
{
    let slot = FIRST_READ + j;
    lemma_reading(s, t, at, address, n, j);
    let p = s.after_exchange(t, at, address, slot);
    let now = after(t, at[slot]);
    lemma_after(t, at[slot], SLOT_PULL as int);
    lemma_slot_sends(p, now);
    lemma_apart(t, at[slot] + SLOT_PULL, let_go(s.data, at, address, j));
    assert(s.after_exchange(t, at, address, slot + 1) == p.after_slot(now));
}

/// A whole exchange that the counter can tell apart, from first to last: the
/// reset is answered with a presence pulse, which is over in its time, and
/// then every bit of memory comes as it stands. Neither the memory nor the
/// identity changes.
pub proof fn law_a_whole_read_of_memory(
    s: OneWireState,
    t: u32,
    at: Seq<int>,
    address: u16,
    n: int,
)
    requires
        s.wf(),
        !s.master_low,
        is_schedule(at, n),
        address + n <= usize::MAX,
        at[at.len() - 1] - at[0] <= 0x7FFF_0000,
    ensures
        ({
            let up = after(t, at[0] + RESET_PULL);
            let reset = s.after_exchange(t, at, address, 1);
            &&& !reset.level(up)
            &&& forall|d: int|
                0 <= d < 0x4000_0000 ==> reset.line_spec(#[trigger] after(up, d)) == (d
                    >= PRESENCE_LOW)
        }),
        forall|j: int|
            #![trigger memory_bit(s.data, address, j)]
            0 <= j < 8 * n ==> ({
                let slot = FIRST_READ + j;
                let e = s.after_exchange(t, at, address, slot + 1);
                &&& e.level(after(t, at[slot] + SLOT_PULL)) == memory_bit(s.data, address, j)
                &&& e.data == s.data
                &&& e.rom == s.rom
            }),
{
    let start = after(t, at[0]);
    let up = after(t, at[0] + RESET_PULL);
    lemma_after(t, at[0], RESET_PULL as int);
    let reset = s.after_exchange(t, at, address, 1);
    assert(s.after_exchange(t, at, address, 0) == s);
    assert forall|d: int| 0 <= d < 0x4000_0000 implies reset.line_spec(#[trigger] after(up, d)) == (d
        >= PRESENCE_LOW) by {
        lemma_after(start, RESET_PULL as int, d);
        law_a_reset_is_answered(s, start, RESET_PULL as int, d);
    }
    assert(after(up, 0) == up) by {
        reveal(after);
    }
    assert forall|j: int| #![trigger memory_bit(s.data, address, j)] 0 <= j < 8 * n implies ({
        let slot = FIRST_READ + j;
        let e = s.after_exchange(t, at, address, slot + 1);
        &&& e.level(after(t, at[slot] + SLOT_PULL)) == memory_bit(s.data, address, j)
        &&& e.data == s.data
        &&& e.rom == s.rom
    }) by {
        let slot = FIRST_READ + j;
        lemma_gaps(at, n, 0, slot);
        lemma_gaps(at, n, slot, at.len() - 1);
        lemma_let_go(s.data, at, address, n, j);
        law_memory_is_read_from_an_address(s, t, at, address, n, j);
    }
}

/// The device let go between the reset and the slot.
proof fn lemma_let_go(data: Seq<u8>, at: Seq<int>, address: u16, n: int, j: int)
    requires
        is_schedule(at, n),
        0 <= j < 8 * n,
    ensures
        at[0] <= let_go(data, at, address, j) <= at[FIRST_READ + j],
    decreases j,
{
    lemma_gaps(at, n, 0, FIRST_READ + j);
    if j > 0 {
        lemma_let_go(data, at, address, n, j - 1);
        lemma_gaps(at, n, FIRST_READ + j - 1, FIRST_READ + j);
        lemma_gaps(at, n, 0, FIRST_READ + j - 1);
    }
}

/// How far apart two moments are on the counter.
proof fn lemma_apart(t: u32, a: int, b: int)
    ensures
        since(after(t, a), after(t, b)) == (a - b) % 0x1_0000_0000,
{
    reveal(since);
    reveal(after);
}

/// Slots are apart.
proof fn lemma_gaps(at: Seq<int>, n: int, i: int, j: int)
    requires
        is_schedule(at, n),
        0 <= i <= j < at.len(),
    ensures
        i > 0 ==> at[j] >= at[i] + SLOT_GAP * (j - i),
        i == 0 && j > 0 ==> at[j] >= at[0] + RESET_PULL + SLOT_GAP * (j - 1),
    decreases j - i,
{
    if i < j {
        lemma_gaps(at, n, i, j - 1);
        if j - 1 > 0 {
            assert(at[j - 1] + SLOT_GAP <= at[j - 1 + 1]);
        }
    }
}

/// While the master is asking: what of the byte has arrived, and where the
/// question has got to.
spec fn is_asked(s: OneWireState, e: OneWireState, t: u32, at: Seq<int>, address: u16, k: int) -> bool {
    let b = (k - 1) / 8;
    let m = (k - 1) % 8;
    &&& !e.master_low
    &&& e.started
    &&& e.rom == s.rom
    &&& e.data == s.data
    &&& e.out_count == 0
    &&& e.out_queue.len() == 0
    &&& e.pulling
    &&& e.release_at == after(t, at[0] + RESET_PULL + PRESENCE_LOW)
    &&& e.in_count == m
    &&& e.in_bits == asking_byte(address, b) << ((8 - m) as u8)
    &&& e.stage == (if b < 2 {
        Stage::Command
    } else if b == 2 {
        Stage::Address(0)
    } else {
        Stage::Address(1)
    })
    &&& b == 3 ==> e.cursor == address % 256
}

proof fn lemma_asking(s: OneWireState, t: u32, at: Seq<int>, address: u16, n: int, k: int)
    requires
        s.wf(),
        !s.master_low,
        is_schedule(at, n),
        1 <= k < FIRST_READ,
    ensures
        is_asked(s, s.after_exchange(t, at, address, k), t, at, address, k),
    decreases k,
{
    let now = after(t, at[k - 1]);
    let held = held_in(address, k - 1);
    lemma_since(now, held, now);
    let p = s.after_exchange(t, at, address, k - 1);
    let low = p.updated(true, now);
    assert(low.fell_at == now) by {
        if k > 1 {
            lemma_asking(s, t, at, address, n, k - 1);
        }
    }
    if k == 1 {
        lemma_after(t, at[0], RESET_PULL as int);
        lemma_after(t, at[0] + RESET_PULL, PRESENCE_LOW as int);
        lemma_byte_bits(asking_byte(address, 0), 0, 0, 0);
    } else {
        lemma_asking(s, t, at, address, n, k - 1);
        let b = (k - 2) / 8;
        let m = (k - 2) % 8;
        let byte = asking_byte(address, b);
        lemma_byte_bits(byte, m as u8, 0, 0);
        lemma_byte_bits(asking_byte(address, b + 1), 0, 0, 0);
        let one = (byte >> (m as u8)) & 1 != 0;
        assert(low.released(held as u32, after(now, held)) == low.bit_taken(one));
        if m == 7 {
            assert((k - 1) / 8 == b + 1 && (k - 1) % 8 == 0);
        } else {
            assert((k - 1) / 8 == b && (k - 1) % 8 == m + 1);
        }
    }
}

/// While the master is reading: which byte is going out, and how far it is.
proof fn lemma_reading(s: OneWireState, t: u32, at: Seq<int>, address: u16, n: int, j: int)
    requires
        s.wf(),
        !s.master_low,
        is_schedule(at, n),
        0 <= j < 8 * n,
        address + n <= usize::MAX,
    ensures
        ({
            let e = s.after_exchange(t, at, address, FIRST_READ + j);
            &&& !e.master_low
            &&& e.rom == s.rom
            &&& e.data == s.data
            &&& e.stage == Stage::Sending
            &&& e.out_queue.len() == 0
            &&& e.out_count == 8 - j % 8
            &&& e.out_bits == memory_at(s.data, address + j / 8) >> ((j % 8) as u8)
            &&& e.cursor == address + j / 8 + 1
            &&& e.pulling
            &&& e.release_at == after(t, let_go(s.data, at, address, j))
        }),
    decreases j,
{
    let k = FIRST_READ + j;
    let now = after(t, at[k - 1]);
    let p = s.after_exchange(t, at, address, k - 1);
    let e = s.after_exchange(t, at, address, k);
    let byte = memory_at(s.data, address + j / 8);
    if j == 0 {
        lemma_asking(s, t, at, address, n, k - 1);
        let held = held_in(address, k - 1);
        lemma_since(now, held, now);
        let low = p.updated(true, now);
        let high = asking_byte(address, 3);
        lemma_byte_bits(high, 7, (address % 256) as u8, high);
        lemma_byte_bits(byte, 0, 0, 0);
        assert(low.released(held as u32, after(now, held)) == low.bit_taken((high >> 7u8) & 1 != 0));
    } else {
        lemma_reading(s, t, at, address, n, j - 1);
        lemma_slot_sends(p, now);
        lemma_after(t, at[k - 1], SLOT_PULL as int);
        lemma_after(t, at[k - 1] + SLOT_PULL, WRITE_ZERO_LOW as int);
        assert(e == p.after_slot(now));
        let b = (j - 1) / 8;
        let m = (j - 1) % 8;
        lemma_byte_bits(memory_at(s.data, address + b), m as u8, 0, 0);
        lemma_byte_bits(byte, 0, 0, 0);
        if m == 7 {
            assert(j / 8 == b + 1 && j % 8 == 0);
        } else {
            assert(j / 8 == b && j % 8 == m + 1);
        }
    }
}

/// How long the master held the line says what it meant: between 1400 and 2400
/// ticks a reset, after which everything but the contents is forgotten; less
/// than 100 a one, if the device has nothing to send; and all else a zero, a
/// pull that is too long for a reset among them.
pub proof fn law_a_pull_is_told_by_its_length(s: OneWireState, t: u32, held: int)
    requires
        !s.master_low,
        s.started,
        s.in_count < 7,
        0 < held < 0x1_0000_0000,
    ensures
        ({
            let e = s.updated(true, t).updated(false, after(t, held));
            if 1400 <= held <= 2400 {
                &&& e.in_count == 0 && e.out_count == 0 && e.out_queue.len() == 0
                &&& e.stage == Stage::Command
                &&& e.data == s.data && e.rom == s.rom
            } else if 100 <= held {
                &&& e.in_bits == s.in_bits >> 1
                &&& e.in_count == s.in_count + 1
                &&& e.out_count == s.out_count && e.out_bits == s.out_bits
                &&& e.stage == s.stage
            } else {
                &&& s.out_count == 0 ==> e.in_bits == (s.in_bits >> 1) | 0x80 && e.in_count
                    == s.in_count + 1
                &&& s.out_count > 0 ==> e.in_bits == s.in_bits && e.in_count == s.in_count
            }
        }),
{
    lemma_since(t, held, t);
}

impl OneWireState {
    /// The device after so many more bytes were loaded to be sent.
    pub open spec fn after_loads(self, n: nat) -> OneWireState
        decreases n,
    {
        if n == 0 {
            self
        } else {
            self.after_loads((n - 1) as nat).loaded()
        }
    }
}

/// A device that is asked for its identity sends the eight bytes of it in order,
/// and nothing of its memory before they are all sent.
pub proof fn law_the_identity_is_sent_in_order(s: OneWireState, k: nat)
    requires
        s.wf(),
        s.stage == Stage::Command,
        s.out_queue.len() == 0,
        k < 8,
    ensures
        ({
            let e = s.byte_taken(0x33).after_loads(k);
            &&& e.out_bits == s.rom[k as int]
            &&& e.out_count == 8
            &&& e.out_queue == s.rom.skip(k as int + 1)
            &&& e.cursor == s.cursor
        }),
    decreases k,
{
    assert(s.out_queue + s.rom =~= s.rom);
    assert(s.rom.subrange(1, 8) =~= s.rom.skip(1));
    if k > 0 {
        law_the_identity_is_sent_in_order(s, (k - 1) as nat);
        let e = s.byte_taken(0x33).after_loads((k - 1) as nat);
        assert(s.rom.skip(k as int).subrange(1, s.rom.skip(k as int).len() as int) =~= s.rom.skip(
            k as int + 1,
        ));
        assert(s.byte_taken(0x33).after_loads(k) == e.loaded());
    }
}

/// An identity is the family, the serial and a byte that makes the whole of it
/// sum to zero.
pub proof fn law_an_identity_checks_out(family: u8, serial: Seq<u8>)
    requires
        serial.len() == 6,
    ensures
        id_spec(family, serial).len() == 8,
        id_spec(family, serial)[0] == family,
        id_spec(family, serial).subrange(1, 7) == serial,
        crc_spec(id_spec(family, serial)) == 0,
{
    law_a_checked_string_sums_to_zero(seq![family] + serial);
    assert(id_spec(family, serial).subrange(1, 7) =~= serial);
}

/// A record holds its payload whole, behind its length and in front of a byte
/// that the payload adds up to.
pub proof fn law_a_record_frames_its_payload(payload: Seq<u8>)
    requires
        payload.len() < 256,
    ensures
        record_spec(payload).len() == payload.len() + 2,
        record_spec(payload)[0] == payload.len(),
        record_spec(payload).subrange(1, payload.len() as int + 1) == payload,
        (record_spec(payload).last() - sum_of(payload)) % 256 == 0,
{
    assert(record_spec(payload).subrange(1, payload.len() as int + 1) =~= payload);
}

} // verus!
