//! Intel-command-set CFI NOR flash, the 64 MB device on nCS0.
//!
//! The board wires two 16-bit devices in parallel onto the PXA's 32-bit bus,
//! which is visible in the firmware's very first command write: EBOOT writes
//! `0x00FF00FF`, the same 16-bit "read array" opcode in both halves. Every
//! command and every status or query response is therefore replicated across
//! the two halves, and a query address advances four bytes per device word.

use vstd::prelude::*;

verus! {

/// Number of parallel devices making up the bank.
pub const INTERLEAVE: u32 = 2;
/// Bytes per erase block, per device.
pub const DEVICE_BLOCK_SIZE: usize = 0x2_0000;
/// Bytes per device.
pub const DEVICE_SIZE: usize = 0x200_0000;
/// Bytes per erase block on the bus, both devices together.
pub const BUS_BLOCK: usize = 0x4_0000;

// Intel command set.
pub const CMD_READ_ARRAY: u16 = 0xFF;
pub const CMD_READ_ID: u16 = 0x90;
pub const CMD_READ_CFI: u16 = 0x98;
pub const CMD_READ_STATUS: u16 = 0x70;
pub const CMD_CLEAR_STATUS: u16 = 0x50;
pub const CMD_PROGRAM: u16 = 0x40;
pub const CMD_PROGRAM_ALT: u16 = 0x10;
pub const CMD_BUFFER_WRITE: u16 = 0xE8;
pub const CMD_BLOCK_ERASE: u16 = 0x20;
pub const CMD_LOCK_SETUP: u16 = 0x60;
pub const CMD_LOCK: u16 = 0x01;
pub const CMD_SUSPEND: u16 = 0xB0;
pub const CMD_CONFIRM: u16 = 0xD0;

// Status register bits.
pub const SR_READY: u16 = 0x80;
pub const SR_ERASE_ERROR: u16 = 0x20;
pub const SR_PROGRAM_ERROR: u16 = 0x10;

#[derive(Clone, Copy, PartialEq, Eq, Debug, Structural)]
pub enum Mode {
    ReadArray,
    ReadStatus,
    ReadId,
    ReadCfi,
    ProgramSetup,
    EraseSetup,
    LockSetup,
    /// Buffered write: collecting the count, then the data.
    BufferCount,
    BufferData { addr: u32, remaining: u32 },
    BufferConfirm,
}

pub struct NorFlash {
    pub data: Vec<u8>,
    pub mode: Mode,
    pub status: u16,
    /// Per-block lock bits, indexed by bus block.
    pub locked: Vec<bool>,
    /// Commands the guest has issued; useful for diagnostics.
    pub commands_seen: u32,
    /// Erases and programs actually performed.
    pub writes_performed: u32,
}

/// What a [`NorFlash`] holds.
#[verifier::ext_equal]
pub struct FlashState {
    pub data: Seq<u8>,
    pub mode: Mode,
    pub status: u16,
    pub locked: Seq<bool>,
    pub commands_seen: u32,
    pub writes_performed: u32,
}

impl View for NorFlash {
    type V = FlashState;

    open spec fn view(&self) -> FlashState {
        FlashState {
            data: self.data@,
            mode: self.mode,
            status: self.status,
            locked: self.locked@,
            commands_seen: self.commands_seen,
            writes_performed: self.writes_performed,
        }
    }
}

/// The same half-word from both devices.
pub open spec fn both(v: u16) -> u32 {
    (v as u32) | ((v as u32) << 16)
}

/// CFI query table, by device word.
pub open spec fn cfi_spec(index: u32) -> u16 {
    if index == 0x10 {
        0x51  // 'Q'

    } else if index == 0x11 {
        0x52  // 'R'

    } else if index == 0x12 {
        0x59  // 'Y'

    } else if index == 0x13 {
        0x01  // primary command set: Intel/Sharp extended

    } else if index == 0x15 {
        0x31  // primary extended table at 0x31

    } else if index == 0x1B {
        0x27  // Vcc min 2.7 V

    } else if index == 0x1C {
        0x36  // Vcc max 3.6 V

    } else if index == 0x1F || index == 0x20 {
        0x07  // typical word program and buffer write timeouts, 2^7 us

    } else if index == 0x21 {
        0x0A  // typical block erase timeout, 2^10 ms

    } else if index == 0x23 || index == 0x24 || index == 0x25 {
        0x04  // maximum multipliers

    } else if index == 0x27 {
        0x19  // device size, 2^25 bytes

    } else if index == 0x28 {
        0x02  // x8/x16 asynchronous interface

    } else if index == 0x2A {
        0x05  // write buffer 2^5 = 32 bytes

    } else if index == 0x2C {
        0x01  // one erase block region

    } else if index == 0x2D {
        0xFF  // blocks per device, less one

    } else if index == 0x30 {
        0x02  // block size in units of 256 bytes, high byte

    } else if index == 0x31 {
        0x50  // 'P'

    } else if index == 0x32 {
        0x52  // 'R'

    } else if index == 0x33 {
        0x49  // 'I'

    } else if index == 0x34 || index == 0x35 {
        0x31  // version '1.1'

    } else {
        0
    }
}

/// `n` bytes from `at` on as a number, least significant first.
pub open spec fn le_number(data: Seq<u8>, at: int, n: int) -> u32
    decreases n,
{
    if n <= 0 {
        0
    } else {
        le_number(data, at, n - 1) | ((data[at + n - 1] as u32) << ((8 * (n - 1)) as u32))
    }
}

impl FlashState {
    /// An erased part of `size` bytes, reading its array.
    pub open spec fn erased(size: nat) -> FlashState {
        FlashState {
            data: Seq::new(size, |i: int| 0xFFu8),
            mode: Mode::ReadArray,
            status: SR_READY,
            locked: Seq::new(size / 0x4_0000, |i: int| false),
            commands_seen: 0,
            writes_performed: 0,
        }
    }

    /// The erase block an offset falls in, the last one at most.
    pub open spec fn block_of(self, offset: u32) -> int {
        let last = if self.locked.len() > 0 {
            self.locked.len() - 1
        } else {
            0
        };
        if offset / 0x4_0000 < last {
            (offset / 0x4_0000) as int
        } else {
            last
        }
    }

    pub open spec fn is_locked(self, offset: u32) -> bool {
        let b = self.block_of(offset);
        b < self.locked.len() && self.locked[b]
    }

    pub open spec fn array_spec(self, offset: u32, width: u32) -> u32 {
        if offset + width > self.data.len() {
            0xFFFF_FFFF
        } else {
            le_number(self.data, offset as int, width as int)
        }
    }

    /// Read identifier response: maker, device, and block lock state.
    pub open spec fn id_spec(self, index: u32) -> u16 {
        let low = index & 0xFF;
        if low == 0 {
            0x0089
        } else if low == 1 {
            0x001D
        } else if low == 2 {
            if self.locked[(index / 0x1_0000) as int % (self.locked.len() as int)] {
                1
            } else {
                0
            }
        } else {
            0
        }
    }

    /// A read is answered: only the lock state of a part with no whole block
    /// has no answer.
    pub open spec fn readable(self, offset: u32) -> bool {
        self.mode == Mode::ReadId && (offset >> 2) & 0xFF == 2 ==> self.locked.len() > 0
    }

    pub open spec fn read_spec(self, offset: u32, width: u32) -> u32 {
        match self.mode {
            Mode::ReadArray => self.array_spec(offset, width),
            Mode::ReadId => both(self.id_spec(offset >> 2)),
            Mode::ReadCfi => both(cfi_spec(offset >> 2)),
            _ => both(self.status),
        }
    }

    /// Programming can only clear bits, and only of an unlocked block.
    pub open spec fn programmed(self, offset: u32, val: u32, width: u32) -> FlashState {
        if self.is_locked(offset) || offset + width > self.data.len() {
            FlashState { status: self.status | SR_PROGRAM_ERROR, ..self }
        } else {
            FlashState {
                data: Seq::new(
                    self.data.len(),
                    |i: int|
                        if offset <= i < offset + width {
                            self.data[i] & ((val >> ((8 * (i - offset)) as u32)) as u8)
                        } else {
                            self.data[i]
                        },
                ),
                writes_performed: self.writes_performed.wrapping_add(1),
                status: self.status | SR_READY,
                ..self
            }
        }
    }

    /// Erasing sets every bit of the block that the offset falls in.
    pub open spec fn erased_block(self, offset: u32) -> FlashState {
        let start = self.block_of(offset) * 0x4_0000;
        if self.is_locked(offset) {
            FlashState { status: self.status | SR_ERASE_ERROR, ..self }
        } else if start < self.data.len() {
            FlashState {
                data: Seq::new(
                    self.data.len(),
                    |i: int|
                        if start <= i < start + 0x4_0000 {
                            0xFFu8
                        } else {
                            self.data[i]
                        },
                ),
                writes_performed: self.writes_performed.wrapping_add(1),
                status: self.status | SR_READY,
                ..self
            }
        } else {
            FlashState { status: self.status | SR_READY, ..self }
        }
    }

    pub open spec fn lock_set(self, offset: u32, locked: bool) -> FlashState {
        let b = self.block_of(offset);
        if b < self.locked.len() {
            FlashState { locked: self.locked.update(b, locked), ..self }
        } else {
            self
        }
    }

    /// What a command does when no earlier one is waiting for its second
    /// cycle.
    pub open spec fn commanded(self, cmd: u16) -> FlashState {
        if cmd == CMD_READ_ID {
            FlashState { mode: Mode::ReadId, ..self }
        } else if cmd == CMD_READ_CFI {
            FlashState { mode: Mode::ReadCfi, ..self }
        } else if cmd == CMD_READ_STATUS {
            FlashState { mode: Mode::ReadStatus, ..self }
        } else if cmd == CMD_CLEAR_STATUS {
            FlashState { status: SR_READY, mode: Mode::ReadArray, ..self }
        } else if cmd == CMD_PROGRAM || cmd == CMD_PROGRAM_ALT {
            FlashState { mode: Mode::ProgramSetup, ..self }
        } else if cmd == CMD_BLOCK_ERASE {
            FlashState { mode: Mode::EraseSetup, ..self }
        } else if cmd == CMD_LOCK_SETUP {
            FlashState { mode: Mode::LockSetup, ..self }
        } else if cmd == CMD_BUFFER_WRITE {
            FlashState { mode: Mode::BufferCount, ..self }
        } else if cmd == CMD_SUSPEND || cmd == CMD_CONFIRM {
            self
        } else {
            FlashState { mode: Mode::ReadArray, ..self }
        }
    }

    pub open spec fn written(self, offset: u32, val: u32, width: u32) -> FlashState {
        let cmd = (val & 0xFFFF) as u16;
        let s = FlashState { commands_seen: self.commands_seen.wrapping_add(1), ..self };
        match self.mode {
            Mode::ProgramSetup => FlashState {
                mode: Mode::ReadStatus,
                ..s.programmed(offset, val, width)
            },
            Mode::EraseSetup => FlashState {
                mode: Mode::ReadStatus,
                ..if cmd == CMD_CONFIRM {
                    s.erased_block(offset)
                } else {
                    FlashState { status: s.status | SR_ERASE_ERROR, ..s }
                }
            },
            Mode::LockSetup => FlashState {
                mode: Mode::ReadStatus,
                ..if cmd == CMD_LOCK {
                    s.lock_set(offset, true)
                } else if cmd == CMD_CONFIRM {
                    s.lock_set(offset, false)
                } else {
                    s
                }
            },
            Mode::BufferCount => FlashState {
                mode: Mode::BufferData {
                    addr: offset,
                    remaining: ((cmd as u32 & 0xFF) + 1) as u32,
                },
                ..s
            },
            Mode::BufferData { addr, remaining } => FlashState {
                mode: if remaining <= 1 {
                    Mode::BufferConfirm
                } else {
                    Mode::BufferData { addr, remaining: (remaining - 1) as u32 }
                },
                ..s.programmed(offset, val, width)
            },
            Mode::BufferConfirm => FlashState { mode: Mode::ReadStatus, ..s },
            _ => s.commanded(cmd),
        }
    }
}

impl NorFlash {
    pub fn new(size: usize) -> (r: Self)
        ensures
            r@ == FlashState::erased(size as nat),
    {
        let blocks: usize = size / BUS_BLOCK;
        let locked: Vec<bool> = vec![false; blocks];
        assert(locked@ =~= Seq::new(blocks as nat, |i: int| false));
        NorFlash {
            data: crate::bytes::filled(size, 0xFF),
            mode: Mode::ReadArray,
            status: SR_READY,
            locked,
            commands_seen: 0,
            writes_performed: 0,
        }
    }

    /// Erase block size as seen on the bus, which is the per-device block
    /// size multiplied by the interleave.
    pub fn bus_block_size() -> (r: usize)
        ensures
            r == DEVICE_BLOCK_SIZE * INTERLEAVE,
            r == BUS_BLOCK,
    {
        DEVICE_BLOCK_SIZE * INTERLEAVE as usize
    }

    fn replicate(v: u16) -> (r: u32)
        ensures
            r == both(v),
    {
        (v as u32) | ((v as u32) << 16)
    }

    /// CFI query response for a device-word address.
    fn cfi_word(&self, index: u32) -> (r: u16)
        ensures
            r == cfi_spec(index),
    {
        match index {
            0x10 => 0x51,  // 'Q'
            0x11 => 0x52,  // 'R'
            0x12 => 0x59,  // 'Y'
            0x13 => 0x01,  // primary command set: Intel/Sharp extended
            0x15 => 0x31,  // primary extended table at 0x31
            0x1B => 0x27,  // Vcc min 2.7 V
            0x1C => 0x36,  // Vcc max 3.6 V
            0x1F => 0x07,  // typical word program timeout, 2^7 us
            0x20 => 0x07,  // typical buffer write timeout
            0x21 => 0x0A,  // typical block erase timeout, 2^10 ms
            0x23 => 0x04,  // max word program multiplier
            0x24 => 0x04,  // max buffer write multiplier
            0x25 => 0x04,  // max block erase multiplier
            0x27 => 0x19,  // device size, 2^n bytes
            0x28 => 0x02,  // x8/x16 asynchronous interface
            0x2A => 0x05,  // write buffer 2^5 = 32 bytes
            0x2C => 0x01,  // one erase block region
            // Erase region: 256 blocks of 128 KB, encoded as (count - 1) and
            // (size / 256), both little-endian byte pairs.
            0x2D => 0xFF,
            0x2E => 0x00,
            0x2F => 0x00,
            0x30 => 0x02,
            0x31 => 0x50,  // 'P'
            0x32 => 0x52,  // 'R'
            0x33 => 0x49,  // 'I'
            0x34 => 0x31,  // major version '1'
            0x35 => 0x31,  // minor version '1'
            _ => 0x00,
        }
    }

    /// Read identifier response for a device-word address.
    fn id_word(&self, index: u32) -> (r: u16)
        requires
            index & 0xFF == 2 ==> self@.locked.len() > 0,
        ensures
            r == self@.id_spec(index),
    {
        match index & 0xFF {
            0x00 => 0x0089,  // Intel
            0x01 => 0x001D,  // 28F256J3, 256 Mbit
            0x02 => {
                let block: usize = (index as usize / (BUS_BLOCK / 4)) % self.locked.len();
                if self.locked[block] {
                    1
                } else {
                    0
                }
            },
            _ => 0,
        }
    }

    /// Put the part back in the state it powers up in.
    ///
    /// Only the command state; the contents are not touched, because a reset
    /// does not erase a flash chip. The operating system leaves the part in a
    /// status or query mode, and a processor reset that did not also reset
    /// the flash would fetch its first instruction from a chip answering
    /// `0xFFFFFFFF`.
    pub fn reset(&mut self)
        ensures
            final(self)@ == (FlashState { mode: Mode::ReadArray, ..old(self)@ }),
    {
        self.mode = Mode::ReadArray;
    }

    pub fn read(&mut self, offset: u32, width: u32) -> (r: u32)
        requires
            width <= 4,
            old(self)@.readable(offset),
        ensures
            r == old(self)@.read_spec(offset, width),
            final(self)@ == old(self)@,
    {
        match self.mode {
            Mode::ReadArray => self.read_array(offset, width),
            Mode::ReadId => Self::replicate(self.id_word(offset >> 2)),
            Mode::ReadCfi => Self::replicate(self.cfi_word(offset >> 2)),
            // Setting up, or mid buffered-write, the device reports status.
            _ => Self::replicate(self.status),
        }
    }

    /// Read the array regardless of the current command mode. Used for
    /// instruction fetch: EBOOT deliberately probes the flash it is executing
    /// from, relying on the instruction cache to keep running.
    pub fn read_array_direct(&self, offset: u32, width: u32) -> (r: u32)
        requires
            width <= 4,
        ensures
            r == self@.array_spec(offset, width),
    {
        self.read_array(offset, width)
    }

    fn read_array(&self, offset: u32, width: u32) -> (r: u32)
        requires
            width <= 4,
        ensures
            r == self@.array_spec(offset, width),
    {
        let o: usize = offset as usize;
        let n: usize = width as usize;
        if o > self.data.len() || n > self.data.len() - o {
            return 0xFFFF_FFFF;
        }
        let mut v: u32 = 0;
        let mut i: usize = 0;
        while i < n
            invariant
                i <= n <= 4,
                o + n <= self.data.len(),
                v == le_number(self.data@, o as int, i as int),
            decreases n - i,
        {
            v = v | ((self.data[o + i] as u32) << ((8 * i) as u32));
            i = i + 1;
        }
        v
    }

    pub fn write(&mut self, offset: u32, val: u32, width: u32)
        requires
            width <= 4,
        ensures
            final(self)@ == old(self)@.written(offset, val, width),
    {
        // Both devices receive the same command in their own half of the bus,
        // so the low 16 bits carry it.
        let cmd: u16 = (val & 0xFFFF) as u16;
        self.commands_seen = self.commands_seen.wrapping_add(1);

        match self.mode {
            Mode::ProgramSetup => {
                self.program(offset, val, width);
                self.mode = Mode::ReadStatus;
            },
            Mode::EraseSetup => {
                if cmd == CMD_CONFIRM {
                    self.erase_block(offset);
                } else {
                    self.status = self.status | SR_ERASE_ERROR;
                }
                self.mode = Mode::ReadStatus;
            },
            Mode::LockSetup => {
                let block: usize = self.block_index(offset);
                if cmd == CMD_LOCK {
                    self.set_lock(block, true);
                } else if cmd == CMD_CONFIRM {
                    self.set_lock(block, false);
                }
                self.mode = Mode::ReadStatus;
            },
            Mode::BufferCount => {
                // Count is words-minus-one, per device.
                proof {
                    lemma_command(val);
                }
                let count: u32 = (cmd as u32 & 0xFF) + 1;
                self.mode = Mode::BufferData { addr: offset, remaining: count };
            },
            Mode::BufferData { addr, remaining } => {
                self.program(offset, val, width);
                let left: u32 = remaining.saturating_sub(1);
                if left == 0 {
                    self.mode = Mode::BufferConfirm;
                } else {
                    self.mode = Mode::BufferData { addr, remaining: left };
                }
            },
            Mode::BufferConfirm => {
                self.mode = Mode::ReadStatus;
            },
            _ => self.command(cmd),
        }
    }

    /// A command's first cycle.
    fn command(&mut self, cmd: u16)
        ensures
            final(self)@ == old(self)@.commanded(cmd),
    {
        match cmd {
            0xFF => self.mode = Mode::ReadArray,
            0x90 => self.mode = Mode::ReadId,
            0x98 => self.mode = Mode::ReadCfi,
            0x70 => self.mode = Mode::ReadStatus,
            0x50 => {
                self.status = SR_READY;
                self.mode = Mode::ReadArray;
            },
            0x40 | 0x10 => self.mode = Mode::ProgramSetup,
            0x20 => self.mode = Mode::EraseSetup,
            0x60 => self.mode = Mode::LockSetup,
            0xE8 => self.mode = Mode::BufferCount,
            // Erase suspend and resume complete instantly here.
            0xB0 | 0xD0 => {},
            _ => self.mode = Mode::ReadArray,
        }
    }

    fn block_index(&self, offset: u32) -> (r: usize)
        ensures
            r == self@.block_of(offset),
    {
        let block: usize = offset as usize / BUS_BLOCK;
        let last: usize = self.locked.len().saturating_sub(1);
        if block < last {
            block
        } else {
            last
        }
    }

    fn set_lock(&mut self, block: usize, locked: bool)
        ensures
            final(self)@ == (if block < old(self)@.locked.len() {
                FlashState {
                    locked: old(self)@.locked.update(block as int, locked),
                    ..old(self)@
                }
            } else {
                old(self)@
            }),
    {
        if block < self.locked.len() {
            self.locked[block] = locked;
        }
    }

    fn block_locked(&self, offset: u32) -> (r: bool)
        ensures
            r == self@.is_locked(offset),
    {
        let block: usize = self.block_index(offset);
        block < self.locked.len() && self.locked[block]
    }

    /// Programming can only clear bits; setting one requires an erase.
    fn program(&mut self, offset: u32, val: u32, width: u32)
        requires
            width <= 4,
        ensures
            final(self)@ == old(self)@.programmed(offset, val, width),
    {
        if self.block_locked(offset) {
            self.status = self.status | SR_PROGRAM_ERROR;
            return ;
        }
        let o: usize = offset as usize;
        let n: usize = width as usize;
        if o > self.data.len() || n > self.data.len() - o {
            self.status = self.status | SR_PROGRAM_ERROR;
            return ;
        }
        let ghost start = self@;
        let mut i: usize = 0;
        while i < n
            invariant
                i <= n <= 4,
                o == offset,
                o + n <= self.data.len(),
                self@ =~= (FlashState { data: self@.data, ..start }),
                self@.data.len() == start.data.len(),
                forall|k: int|
                    0 <= k < start.data.len() ==> #[trigger] self@.data[k] == (if o <= k < o + i {
                        start.data[k] & ((val >> ((8 * (k - offset)) as u32)) as u8)
                    } else {
                        start.data[k]
                    }),
            decreases n - i,
        {
            let b: u8 = (val >> ((8 * i) as u32)) as u8;
            self.data[o + i] = self.data[o + i] & b;
            i = i + 1;
        }
        self.writes_performed = self.writes_performed.wrapping_add(1);
        self.status = self.status | SR_READY;
        assert(self@.data =~= start.programmed(offset, val, width).data);
    }

    fn erase_block(&mut self, offset: u32)
        ensures
            final(self)@ == old(self)@.erased_block(offset),
    {
        if self.block_locked(offset) {
            self.status = self.status | SR_ERASE_ERROR;
            return ;
        }
        let block: usize = self.block_index(offset);
        let start: usize = block * BUS_BLOCK;
        let end: usize = if self.data.len() < start || self.data.len() - start < BUS_BLOCK {
            self.data.len()
        } else {
            start + BUS_BLOCK
        };
        if start < end {
            let ghost before = self@;
            let mut i: usize = start;
            while i < end
                invariant
                    start <= i <= end <= self.data.len(),
                    self@ =~= (FlashState { data: self@.data, ..before }),
                    self@.data.len() == before.data.len(),
                    forall|k: int|
                        0 <= k < before.data.len() ==> #[trigger] self@.data[k] == (if start <= k
                            < i {
                            0xFFu8
                        } else {
                            before.data[k]
                        }),
                decreases end - i,
            {
                self.data[i] = 0xFF;
                i = i + 1;
            }
            self.writes_performed = self.writes_performed.wrapping_add(1);
            assert(self@.data =~= before.erased_block(offset).data);
        }
        self.status = self.status | SR_READY;
    }
}

/// Programming never sets a bit: every byte afterwards is a subset of what it
/// was, and nothing outside the programmed bytes changes.
pub proof fn law_programming_only_clears_bits(
    f: FlashState,
    offset: u32,
    val: u32,
    width: u32,
    i: int,
)
    requires
        0 <= i < f.data.len(),
    ensures
        f.programmed(offset, val, width).data[i] & f.data[i] == f.programmed(
            offset,
            val,
            width,
        ).data[i],
        !(offset <= i < offset + width) ==> f.programmed(offset, val, width).data[i] == f.data[i],
{
    lemma_masked(f.data[i], (val >> ((8 * (i - offset)) as u32)) as u8);
}

/// What the low bits of a bus word say, as a command and as a count.
proof fn lemma_command(val: u32)
    ensures
        (val & 0xFFFF) as u16 == val % 0x1_0000,
        ((val & 0xFFFF) as u16) as u32 & 0xFF == val % 0x100,
{
    lemma_bits(val, 0, 0, 0);
}

proof fn lemma_masked(a: u8, b: u8)
    ensures
        (a & b) & a == a & b,
        a & a == a,
        0xFFu8 & b == b,
{
    lemma_bits(0, a, b, 0);
}

/// Where nothing is shifted nothing moves, and an error stays in the status.
proof fn lemma_plain(v: u32, t: u16)
    ensures
        v >> 0u32 == v,
        (0 | (v << 0u32)) == v,
        (t | SR_PROGRAM_ERROR) & 0x30 != 0,
        (t | SR_ERASE_ERROR) & 0x30 != 0,
        (t | SR_ERASE_ERROR) & 0x20 != 0,
{
    lemma_bits(v, 0, 0, t);
}

proof fn lemma_bits(v: u32, a: u8, b: u8, t: u16)
    ensures
        (v & 0xFFFF) as u16 == v % 0x1_0000,
        ((v & 0xFFFF) as u16) as u32 & 0xFF == v % 0x100,
        (a & b) & a == a & b,
        a & a == a,
        0xFFu8 & b == b,
        v >> 0u32 == v,
        (0 | (v << 0u32)) == v,
        (t | SR_PROGRAM_ERROR) & 0x30 != 0,
        (t | SR_ERASE_ERROR) & 0x30 != 0,
        (t | SR_ERASE_ERROR) & 0x20 != 0,
{
    assert((v & 0xFFFF) as u16 == v % 0x1_0000 && ((v & 0xFFFF) as u16) as u32 & 0xFF == v % 0x100
        && (a & b) & a == a & b && a & a == a && 0xFFu8 & b == b && v >> 0u32 == v && (0 | (v
        << 0u32)) == v && (t | SR_PROGRAM_ERROR) & 0x30 != 0 && (t | SR_ERASE_ERROR) & 0x30 != 0
        && (t | SR_ERASE_ERROR) & 0x20 != 0) by (bit_vector);
}

/// What is programmed into a block that was just erased is there to be read,
/// every byte of it.
pub proof fn law_programming_after_erasing(
    f: FlashState,
    at: u32,
    offset: u32,
    val: u32,
    width: u32,
    i: int,
)
    requires
        !f.is_locked(at),
        f.block_of(at) * 0x4_0000 <= offset,
        offset + width <= f.block_of(at) * 0x4_0000 + 0x4_0000,
        offset + width <= f.data.len(),
        !f.is_locked(offset),
        offset <= i < offset + width,
    ensures
        f.erased_block(at).programmed(offset, val, width).data[i] == (val >> ((8 * (i
            - offset)) as u32)) as u8,
{
    lemma_masked(0, (val >> ((8 * (i - offset)) as u32)) as u8);
}

/// A locked block refuses both programming and erasing, and says so.
pub proof fn law_a_locked_block_is_untouched(f: FlashState, offset: u32, val: u32, width: u32)
    requires
        f.is_locked(offset),
    ensures
        f.programmed(offset, val, width).data == f.data,
        f.programmed(offset, val, width).status == f.status | SR_PROGRAM_ERROR,
        f.erased_block(offset).data == f.data,
        f.erased_block(offset).status == f.status | SR_ERASE_ERROR,
{
}

/// Erasing touches its own block and no other, and leaves every bit of it set.
pub proof fn law_erasing_keeps_to_its_block(f: FlashState, offset: u32, i: int)
    requires
        0 <= i < f.data.len(),
        !f.is_locked(offset),
    ensures
        i / 0x4_0000 == f.block_of(offset) ==> f.erased_block(offset).data[i] == 0xFF,
        i / 0x4_0000 != f.block_of(offset) ==> f.erased_block(offset).data[i] == f.data[i],
{
}

/// No bus write changes the size of the part or the number of its blocks.
pub proof fn law_writes_keep_the_size(f: FlashState, offset: u32, val: u32, width: u32)
    ensures
        f.written(offset, val, width).data.len() == f.data.len(),
        f.written(offset, val, width).locked.len() == f.locked.len(),
{
}

/// A bus write: where, what, and how many bytes wide.
pub struct BusWrite {
    pub offset: u32,
    pub val: u32,
    pub width: u32,
}

impl BusWrite {
    /// The write puts a byte at place `i` of the part.
    pub open spec fn covers(self, i: int) -> bool {
        self.offset <= i < self.offset + self.width
    }

    /// The byte that the write carries for place `i`, the lowest first.
    pub open spec fn byte_for(self, i: int) -> u8 {
        (self.val >> ((8 * (i - self.offset)) as u32)) as u8
    }
}

impl FlashState {
    /// The part after bus writes, one after another.
    pub open spec fn after_writes(self, writes: Seq<BusWrite>) -> FlashState
        decreases writes.len(),
    {
        if writes.len() == 0 {
            self
        } else {
            let w = writes[0];
            self.written(w.offset, w.val, w.width).after_writes(writes.skip(1))
        }
    }

    /// No command is waiting for its second cycle.
    pub open spec fn takes_commands(self) -> bool {
        self.mode == Mode::ReadArray || self.mode == Mode::ReadStatus || self.mode == Mode::ReadId
            || self.mode == Mode::ReadCfi
    }

    /// A write of data keeps to a block of the part that is not locked, and to
    /// places that are erased.
    pub open spec fn has_room_for(self, w: BusWrite) -> bool {
        &&& w.width <= 4
        &&& w.offset + w.width <= self.data.len()
        &&& w.offset / 0x4_0000 < self.locked.len()
        &&& !self.locked[(w.offset / 0x4_0000) as int]
        &&& forall|i: int| w.covers(i) ==> #[trigger] self.data[i] == 0xFF
    }
}

/// No two writes go to one place.
pub open spec fn apart(writes: Seq<BusWrite>) -> bool {
    forall|j: int, k: int, i: int|
        #![trigger writes[j].covers(i), writes[k].covers(i)]
        0 <= j < k < writes.len() && writes[j].covers(i) ==> !writes[k].covers(i)
}

/// Data words while a buffered write is collecting them.
proof fn lemma_collected(f: FlashState, words: Seq<BusWrite>)
    requires
        words.len() >= 1,
        f.mode matches Mode::BufferData { remaining, .. } && remaining == words.len(),
        apart(words),
        forall|k: int| 0 <= k < words.len() ==> f.has_room_for(#[trigger] words[k]),
    ensures
        f.after_writes(words).mode == Mode::BufferConfirm,
        f.after_writes(words).data.len() == f.data.len(),
        f.after_writes(words).locked == f.locked,
        forall|k: int, i: int|
            0 <= k < words.len() && #[trigger] words[k].covers(i) ==> f.after_writes(words).data[i]
                == words[k].byte_for(i),
        forall|i: int|
            0 <= i < f.data.len() && (forall|k: int|
                0 <= k < words.len() ==> !#[trigger] words[k].covers(i))
                ==> #[trigger] f.after_writes(words).data[i] == f.data[i],
    decreases words.len(),
{
    let w = words[0];
    let g = f.written(w.offset, w.val, w.width);
    let rest = words.skip(1);
    assert(f.has_room_for(w));
    assert(!f.is_locked(w.offset));
    assert forall|i: int| w.covers(i) implies #[trigger] g.data[i] == w.byte_for(i) by {
        lemma_masked(0, w.byte_for(i));
    }
    assert(forall|i: int| 0 <= i < f.data.len() && !w.covers(i) ==> #[trigger] g.data[i]
        == f.data[i]);
    assert(forall|k: int| 0 <= k < rest.len() ==> #[trigger] rest[k] == words[k + 1]);
    assert(f.after_writes(words) == g.after_writes(rest));
    if words.len() == 1 {
        assert(g.after_writes(rest) == g);
    } else {
        assert(apart(rest)) by {
            assert forall|j: int, k: int, i: int|
                #![trigger rest[j].covers(i), rest[k].covers(i)]
                0 <= j < k < rest.len() && rest[j].covers(i) implies !rest[k].covers(i) by {
                assert(words[j + 1].covers(i));
                assert(rest[k] == words[k + 1]);
            }
        }
        assert forall|k: int| 0 <= k < rest.len() implies g.has_room_for(#[trigger] rest[k]) by {
            let x = words[k + 1];
            assert(f.has_room_for(x));
            assert forall|i: int| x.covers(i) implies #[trigger] g.data[i] == 0xFF by {
                assert(f.data[i] == 0xFF);
                if w.covers(i) {
                    assert(words[0].covers(i) && words[k + 1].covers(i));
                }
            }
        }
        lemma_collected(g, rest);
        let h = g.after_writes(rest);
        assert forall|k: int, i: int|
            0 <= k < words.len() && #[trigger] words[k].covers(i) implies h.data[i]
            == words[k].byte_for(i) by {
            if k == 0 {
                assert forall|l: int| 0 <= l < rest.len() implies !#[trigger] rest[l].covers(
                    i,
                ) by {
                    assert(words[0].covers(i));
                    assert(rest[l] == words[l + 1]);
                }
                assert(h.data[i] == g.data[i]);
            } else {
                assert(rest[k - 1] == words[k]);
                assert(rest[k - 1].covers(i));
            }
        }
        assert forall|i: int|
            0 <= i < f.data.len() && (forall|k: int|
                0 <= k < words.len() ==> !#[trigger] words[k].covers(
                    i,
                )) implies #[trigger] h.data[i] == f.data[i] by {
            assert(!words[0].covers(i));
            assert forall|l: int| 0 <= l < rest.len() implies !#[trigger] rest[l].covers(i) by {
                assert(!words[l + 1].covers(i));
            }
        }
    }
}

/// A buffered write: after the command and a count of `n`, the next `n + 1`
/// writes are data. Each puts its bytes where it points, in erased places of
/// unlocked blocks, and nothing else of the part changes. The write after
/// them is the confirmation and changes no data, whatever it is; then the part
/// reports its status, and takes commands again.
pub proof fn law_a_buffered_write_takes_its_count(
    f: FlashState,
    setup: BusWrite,
    count: BusWrite,
    words: Seq<BusWrite>,
    confirm: BusWrite,
)
    requires
        f.takes_commands(),
        setup.val % 0x1_0000 == 0xE8,
        words.len() == count.val % 0x100 + 1,
        apart(words),
        forall|k: int| 0 <= k < words.len() ==> f.has_room_for(#[trigger] words[k]),
    ensures
        ({
            let filled = f.written(setup.offset, setup.val, setup.width).written(
                count.offset,
                count.val,
                count.width,
            ).after_writes(words);
            let done = filled.written(confirm.offset, confirm.val, confirm.width);
            &&& filled.data.len() == f.data.len()
            &&& forall|k: int, i: int|
                0 <= k < words.len() && #[trigger] words[k].covers(i) ==> filled.data[i]
                    == words[k].byte_for(i)
            &&& forall|i: int|
                0 <= i < f.data.len() && (forall|k: int|
                    0 <= k < words.len() ==> !#[trigger] words[k].covers(i))
                    ==> #[trigger] filled.data[i] == f.data[i]
            &&& done.data == filled.data
            &&& done.mode == Mode::ReadStatus
        }),
{
    lemma_command(setup.val);
    lemma_command(count.val);
    let g = f.written(setup.offset, setup.val, setup.width).written(
        count.offset,
        count.val,
        count.width,
    );
    assert forall|k: int| 0 <= k < words.len() implies g.has_room_for(#[trigger] words[k]) by {
        assert(f.has_room_for(words[k]));
    }
    lemma_collected(g, words);
}

/// A word programmed into an erased place of an unlocked block is read there
/// once the part reads its array again, and every other byte is as it was.
pub proof fn law_a_programmed_word_reads_back(f: FlashState, setup: BusWrite, word: BusWrite)
    requires
        f.takes_commands(),
        setup.val % 0x1_0000 == 0x40 || setup.val % 0x1_0000 == 0x10,
        f.has_room_for(word),
        word.width == 4,
    ensures
        ({
            let done = f.after_writes(
                seq![setup, word, BusWrite { offset: 0, val: 0x00FF_00FF, width: 4 }],
            );
            &&& done.read_spec(word.offset, 4) == word.val
            &&& forall|i: int|
                0 <= i < f.data.len() && !word.covers(i) ==> #[trigger] done.data[i] == f.data[i]
        }),
{
    let array = BusWrite { offset: 0, val: 0x00FF_00FF, width: 4 };
    lemma_command(setup.val);
    lemma_command(array.val);
    let run = seq![setup, word, array];
    assert(run.skip(1) =~= seq![word, array]);
    assert(run.skip(1).skip(1) =~= seq![array]);
    assert(run.skip(1).skip(1).skip(1) =~= Seq::<BusWrite>::empty());
    reveal_with_fuel(FlashState::after_writes, 5);
    let done = f.after_writes(run);
    let at = word.offset as int;
    assert(f.data[at] == 0xFF && f.data[at + 1] == 0xFF && f.data[at + 2] == 0xFF && f.data[at + 3]
        == 0xFF);
    lemma_masked(0, word.byte_for(at));
    lemma_masked(0, word.byte_for(at + 1));
    lemma_masked(0, word.byte_for(at + 2));
    lemma_masked(0, word.byte_for(at + 3));
    assert(done.data[at] == word.byte_for(at));
    assert(done.data[at + 1] == word.byte_for(at + 1));
    assert(done.data[at + 2] == word.byte_for(at + 2));
    assert(done.data[at + 3] == word.byte_for(at + 3));
    crate::bytes::lemma_word32_round_trip(word.val);
    reveal_with_fuel(le_number, 6);
    lemma_plain(word.val, 0);
    lemma_plain(done.data[at] as u32, 0);
}

/// An erase sets every bit of the block it names, and of no other, once it is
/// confirmed; with anything but the confirmation it changes no data and says
/// so in the status.
pub proof fn law_an_erase_wants_its_confirmation(
    f: FlashState,
    setup: BusWrite,
    second: BusWrite,
    i: int,
)
    requires
        f.takes_commands(),
        setup.val % 0x1_0000 == 0x20,
        second.offset / 0x4_0000 < f.locked.len(),
        !f.locked[(second.offset / 0x4_0000) as int],
        f.locked.len() * 0x4_0000 <= f.data.len(),
        0 <= i < f.data.len(),
    ensures
        ({
            let done = f.written(setup.offset, setup.val, setup.width).written(
                second.offset,
                second.val,
                second.width,
            );
            if second.val % 0x1_0000 == 0xD0 {
                done.data[i] == if i / 0x4_0000 == second.offset / 0x4_0000 {
                    0xFF
                } else {
                    f.data[i]
                }
            } else {
                done.data == f.data && done.status & 0x20 != 0
            }
        }),
{
    lemma_command(setup.val);
    lemma_command(second.val);
    lemma_plain(0, f.status);
}

/// Locking a block keeps data out of it until it is unlocked, and no other
/// block changes its lock: what is sent to be programmed or erased there
/// leaves the data alone and is reported in the status.
pub proof fn law_a_lock_holds_until_it_is_undone(
    f: FlashState,
    setup: BusWrite,
    lock: BusWrite,
    again: BusWrite,
    data: BusWrite,
    other: int,
)
    requires
        f.takes_commands(),
        setup.val % 0x1_0000 == 0x60,
        lock.val % 0x1_0000 == 0x01 || lock.val % 0x1_0000 == 0xD0,
        again.val % 0x1_0000 == 0x40 || again.val % 0x1_0000 == 0x10 || again.val % 0x1_0000
            == 0x20,
        lock.offset / 0x4_0000 < f.locked.len(),
        data.offset / 0x4_0000 == lock.offset / 0x4_0000,
        0 <= other < f.locked.len(),
    ensures
        ({
            let set = f.written(setup.offset, setup.val, setup.width).written(
                lock.offset,
                lock.val,
                lock.width,
            );
            let tried = set.written(again.offset, again.val, again.width).written(
                data.offset,
                data.val,
                data.width,
            );
            &&& set.data == f.data
            &&& set.locked[other] == if other == lock.offset / 0x4_0000 {
                lock.val % 0x1_0000 == 0x01
            } else {
                f.locked[other]
            }
            &&& lock.val % 0x1_0000 == 0x01 ==> tried.data == f.data && tried.status & 0x30 != 0
        }),
{
    lemma_command(setup.val);
    lemma_command(lock.val);
    lemma_command(again.val);
    lemma_plain(0, f.status);
}

} // verus!
