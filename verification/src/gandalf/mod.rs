//! The "Gandalf" board: a PXA270 plus the parts HumanWare added around it.
//!
//! Physical memory map:
//!
//! ```text
//!   0x00000000  64 MB  nCS0  boot NOR flash, KeySoft system image, XIP
//!   0x10000000   1 MB  nCS4  board CPLD
//!   0x40000000  32 MB        PXA270 internal peripherals
//!   0x5C000000 256 KB        PXA270 internal SRAM
//!   0xA0000000  64 MB        SDRAM
//! ```

use crate::bytes::{get16, get32, put16, put32};
use crate::pxa270::{note_access, AccessStat, Pxa270, SocState};
use std::collections::BTreeMap;
use vstd::prelude::*;
use vstd::string::*;

pub mod boardlaws;
pub mod cardlaws;
pub mod braille;
pub mod cpld;
pub mod dma;
pub mod dmalaws;
pub mod fat32;
pub mod fatfile;
pub mod fatlaws;
pub mod fatname;
pub mod flash;
pub mod image;
pub mod keyboard;
pub mod licence;
pub mod modem;
pub mod nkp;
pub mod onewire;
pub mod patch;
pub mod pcmcia;
pub mod power;
pub mod provision;
pub mod registry;
pub mod sparse;
pub mod usb;
pub mod usbdisk;
pub mod usblaws;
pub mod vhd;

use cpld::{Cpld, CpldState};
use flash::{FlashState, NorFlash};
use image::CeImage;
use modem::Modem;
use onewire::{OneWire, OneWireState};
use power::PowerState;

verus! {

broadcast use vstd::std_specs::btree::group_btree_axioms;

pub const FLASH_BASE: u32 = 0x0000_0000;
pub const FLASH_SIZE: usize = 0x400_0000;
pub const CPLD_BASE: u32 = 0x1000_0000;
/// The two chip selects the DiskOnChip sockets sit on. Nothing is fitted to
/// them, but they have to *read* like an empty socket, which is all ones
/// rather than all zeroes: a bus with no device driving it floats high.
///
/// `trueffs.dll` probes here and goes on probing. Zeroes are a plausible
/// answer from a chip that is present and unwell, so it keeps trying; ones
/// are what absence looks like.
pub const DOC_NCS1_BASE: u32 = 0x0400_0000;
pub const DOC_NCS3_BASE: u32 = 0x0C00_0000;
pub const SDRAM_BASE: u32 = 0xA000_0000;
pub const SDRAM_SIZE: usize = 0x400_0000;

/// Nominal core clock. The PXA270 in this machine runs at 312 MHz; the exact
/// figure only affects how guest time maps to host time.
pub const CPU_HZ: u64 = 312_000_000;

/// A larger figure to run the guest's clocks against.
///
/// An interpreter retires far less work per emulated second than a real
/// PXA270, so everything the guest times against the wall clock fires early.
/// Telling the timers the core is faster than it claims stretches guest time
/// relative to instructions executed.
pub const CPU_HZ_EFFECTIVE: u64 = 1_200_000_000;

/// What to clock the guest at by default: what an interpreter can actually
/// retire in a second, so that the guest's audio comes out in real time.
pub const CPU_HZ_DEFAULT: u64 = 63_000_000;

/// How many cycles pass between refreshes of the power sense pins.
pub const POWER_PERIOD: u32 = 100_000;

pub struct Gandalf {
    pub soc: Pxa270,
    pub sdram: Vec<u8>,
    pub flash: NorFlash,
    pub cpld: Cpld,
    pub power: PowerState,
    pub power_divider: u32,
    /// The EEPROM holding the machine's serial number, on GPIO 22.
    pub onewire: OneWire,
    /// Emulated cycles since start.
    pub elapsed: u64,
    /// Accesses that hit nothing at all.
    pub unmapped: BTreeMap<u32, AccessStat>,
    /// Updated by the runner before each instruction, for attribution.
    pub pc: u32,
}

/// What a [`Gandalf`] holds.
#[verifier::ext_equal]
pub struct BoardState {
    pub soc: SocState,
    pub sdram: Seq<u8>,
    pub flash: FlashState,
    pub cpld: CpldState,
    pub power: PowerState,
    pub power_divider: u32,
    pub onewire: OneWireState,
    pub elapsed: u64,
    pub unmapped: Map<u32, AccessStat>,
    pub pc: u32,
}

impl View for Gandalf {
    type V = BoardState;

    open spec fn view(&self) -> BoardState {
        BoardState {
            soc: self.soc@,
            sdram: self.sdram@,
            flash: self.flash@,
            cpld: self.cpld@,
            power: self.power,
            power_divider: self.power_divider,
            onewire: self.onewire@,
            elapsed: self.elapsed,
            unmapped: self.unmapped@,
            pc: self.pc,
        }
    }
}

/// Why an image could not be put into memory.
#[derive(Debug, Clone, Copy, PartialEq, Eq, Structural)]
pub enum LoadError {
    /// A record is linked to an address the static map does not cover.
    RecordOutsideMap { addr: u32 },
    /// The launch address is one the static map does not cover.
    LaunchOutsideMap { addr: u32 },
    /// A record maps past the end of the flash.
    PastFlash { addr: u32, offset: u32 },
    /// The whole image is larger than the flash.
    TooLarge { len: usize },
    /// There is no memory at the address.
    NoMemory { pa: u32 },
    /// The block starts in memory and ends outside it.
    PastMemory { pa: u32 },
}

impl LoadError {
    pub open spec fn text(self) -> Seq<char> {
        match self {
            LoadError::RecordOutsideMap { addr } => "record at "@ + crate::text::address(addr)
                + " is outside the static map"@,
            LoadError::LaunchOutsideMap { addr } => "launch address "@ + crate::text::address(addr)
                + " is outside the static map"@,
            LoadError::PastFlash { addr, offset } => "record at "@ + crate::text::address(addr)
                + " maps to flash offset "@ + crate::text::short_hex(offset as nat)
                + ", past the end of the device"@,
            LoadError::TooLarge { len } => "flash image is "@ + crate::text::decimal(
                (len / 0x10_0000) as nat,
            ) + " MB, larger than the 64 MB device"@,
            LoadError::NoMemory { pa } => "no memory at "@ + crate::text::address(pa),
            LoadError::PastMemory { pa } => "block at "@ + crate::text::address(pa)
                + " runs past the end of memory"@,
        }
    }

    pub fn message(&self) -> (r: String)
        ensures
            r@ == self.text(),
    {
        let mut s = String::new();
        match *self {
            LoadError::RecordOutsideMap { addr } => {
                s.append("record at ");
                crate::text::push_address(&mut s, addr);
                s.append(" is outside the static map");
            },
            LoadError::LaunchOutsideMap { addr } => {
                s.append("launch address ");
                crate::text::push_address(&mut s, addr);
                s.append(" is outside the static map");
            },
            LoadError::PastFlash { addr, offset } => {
                s.append("record at ");
                crate::text::push_address(&mut s, addr);
                s.append(" maps to flash offset ");
                crate::text::push_short_hex(&mut s, offset as u64);
                s.append(", past the end of the device");
            },
            LoadError::TooLarge { len } => {
                s.append("flash image is ");
                crate::text::push_decimal(&mut s, (len / 0x10_0000) as u64);
                s.append(" MB, larger than the 64 MB device");
            },
            LoadError::NoMemory { pa } => {
                s.append("no memory at ");
                crate::text::push_address(&mut s, pa);
            },
            LoadError::PastMemory { pa } => {
                s.append("block at ");
                crate::text::push_address(&mut s, pa);
                s.append(" runs past the end of memory");
            },
        }
        assert(s@ =~= self.text());
        s
    }
}

pub open spec fn in_sdram(pa: u32) -> bool {
    SDRAM_BASE <= pa < SDRAM_BASE + SDRAM_SIZE
}

pub open spec fn sdram_at(pa: u32) -> int {
    pa - SDRAM_BASE
}

/// An `n`-byte access at `pa` that starts in SDRAM or in the SoC's SRAM also
/// ends there. Any access aligned to its size does.
pub open spec fn access_ok(pa: u32, n: int) -> bool {
    &&& in_sdram(pa) ==> pa + n <= SDRAM_BASE + SDRAM_SIZE
    &&& crate::pxa270::sram_ok(pa, n)
}

/// An engine with nothing to do still has nothing to do as time passes.
proof fn lemma_idle_when_clocked(b: BoardState, cycles: u32)
    ensures
        b.dma_idle() ==> b.clocked(cycles).dma_idle() && b.clocked(cycles).dma_safe(cycles as nat)
            && b.ticked(cycles).dma_idle(),
{
    reveal(BoardState::clocked);
    reveal(BoardState::power_refreshed);
    if b.dma_idle() {
        dma::law_idle_engine_is_safe(b.clocked(cycles), cycles as nat);
    }
}

/// Whether an `n`-byte access at `pa` does.
pub fn access_fits(pa: u32, n: u32) -> (r: bool)
    ensures
        r == access_ok(pa, n as int),
{
    let from: u64 = pa as u64;
    let to: u64 = from + n as u64;
    let sdram: u64 = SDRAM_BASE as u64;
    let sram: u64 = crate::pxa270::SRAM_BASE as u64;
    !(sdram <= from && from < sdram + SDRAM_SIZE as u64 && to > sdram + SDRAM_SIZE as u64) && !(sram
        <= from && from < sram + 0x10_0000 && from % 0x4_0000 + n as u64
        > crate::pxa270::SRAM_SIZE as u64)
}

/// A byte access always fits, and so does an aligned one.
pub proof fn lemma_access_ok(pa: u32)
    ensures
        access_ok(pa, 1),
        pa % 2 == 0 ==> access_ok(pa, 2),
        pa % 4 == 0 ==> access_ok(pa, 4),
{
}

/// A read in SDRAM is of the bytes there, and leaves nothing behind.
pub proof fn lemma_sdram_reads(b: BoardState, pa: u32)
    requires
        in_sdram(pa),
    ensures
        b.read8_spec(pa) == b.sdram[sdram_at(pa)],
        b.read16_spec(pa) == crate::bytes::word16(b.sdram, sdram_at(pa)),
        b.read32_spec(pa) == crate::bytes::word32(b.sdram, sdram_at(pa)),
        b.after_narrow_read(pa) == b,
        b.after_read32(pa) == b,
{
    reveal(BoardState::read8_spec);
    reveal(BoardState::read16_spec);
    reveal(BoardState::read32_spec);
    reveal(BoardState::after_narrow_read);
    reveal(BoardState::after_read32);
    lemma_block(pa);
}

/// A write in SDRAM changes the bytes there, and nothing else.
pub proof fn lemma_sdram_writes(b: BoardState, pa: u32, byte: u8, half: u16, word: u32)
    requires
        in_sdram(pa),
    ensures
        b.written8(pa, byte) == (BoardState {
            sdram: b.sdram.update(sdram_at(pa), byte),
            ..b
        }),
        b.written16(pa, half) == (BoardState {
            sdram: crate::bytes::overlaid(b.sdram, sdram_at(pa), crate::bytes::le16(half)),
            ..b
        }),
        b.written32(pa, word) == (BoardState {
            sdram: crate::bytes::overlaid(b.sdram, sdram_at(pa), crate::bytes::le32(word)),
            ..b
        }),
{
    reveal(BoardState::written8);
    reveal(BoardState::written16);
    reveal(BoardState::written32);
    lemma_block(pa);
}

/// A block starts at or below each of its addresses, less than a megabyte
/// away.
pub proof fn lemma_block(pa: u32)
    ensures
        crate::pxa270::block_of(pa) <= pa < crate::pxa270::block_of(pa) + 0x10_0000,
{
    lemma_parts(pa);
}

/// The parts of an address, and of a number, that bits single out.
pub proof fn lemma_parts(pa: u32)
    ensures
        pa & 0xFFF0_0000 <= pa,
        pa - (pa & 0xFFF0_0000) < 0x10_0000,
        pa & 0x0FFF_FFFF == pa % 0x1000_0000,
        pa & 0x03FF_FFFF == pa % 0x400_0000,
        pa >> 26 == pa / 0x400_0000,
        (pa & 0xFFFF) as u16 == pa % 0x1_0000,
        (pa >> 16) as u16 == pa / 0x1_0000,
        pa & 0x0F == pa % 16,
        0x40u8 | 0x01u8 == 0x41,
        0x40u8 | 0x08u8 == 0x48,
{
    assert(pa & 0xFFF0_0000 <= pa && pa - (pa & 0xFFF0_0000) < 0x10_0000 && pa & 0x0FFF_FFFF == pa
        % 0x1000_0000 && pa & 0x03FF_FFFF == pa % 0x400_0000 && pa >> 26 == pa / 0x400_0000 && (pa
        & 0xFFFF) as u16 == pa % 0x1_0000 && (pa >> 16) as u16 == pa / 0x1_0000 && pa & 0x0F == pa
        % 16 && 0x40u8 | 0x01u8 == 0x41 && 0x40u8 | 0x08u8 == 0x48) by (bit_vector);
}

/// What is written to SDRAM reads back as it was written, at every width;
/// nothing else about the board changes, and no other byte of the memory.
pub proof fn law_sdram_reads_back(b: BoardState, pa: u32, byte: u8, half: u16, word: u32)
    requires
        b.wf(),
        in_sdram(pa),
    ensures
        b.written8(pa, byte).read8_spec(pa) == byte,
        pa % 2 == 0 ==> b.written16(pa, half).read16_spec(pa) == half,
        pa % 4 == 0 ==> b.written32(pa, word).read32_spec(pa) == word,
        b.written8(pa, byte) == (BoardState { sdram: b.written8(pa, byte).sdram, ..b }),
        b.written16(pa, half) == (BoardState { sdram: b.written16(pa, half).sdram, ..b }),
        b.written32(pa, word) == (BoardState { sdram: b.written32(pa, word).sdram, ..b }),
        b.written8(pa, byte).wf(),
        b.written16(pa, half).wf(),
        b.written32(pa, word).wf(),
        forall|i: int|
            0 <= i < SDRAM_SIZE && i != sdram_at(pa) ==> #[trigger] b.written8(pa, byte).sdram[i]
                == b.sdram[i],
        forall|i: int|
            0 <= i < SDRAM_SIZE && !(sdram_at(pa) <= i < sdram_at(pa) + 2)
                ==> #[trigger] b.written16(pa, half).sdram[i] == b.sdram[i],
        forall|i: int|
            0 <= i < SDRAM_SIZE && !(sdram_at(pa) <= i < sdram_at(pa) + 4)
                ==> #[trigger] b.written32(pa, word).sdram[i] == b.sdram[i],
{
    lemma_sdram_writes(b, pa, byte, half, word);
    lemma_sdram_reads(b.written8(pa, byte), pa);
    lemma_sdram_reads(b.written16(pa, half), pa);
    lemma_sdram_reads(b.written32(pa, word), pa);
    crate::bytes::lemma_word16_round_trip(half);
    crate::bytes::lemma_word32_round_trip(word);
}

/// While the flash reads as an array, an instruction fetched from it is the
/// word that is read there.
pub proof fn law_fetching_is_reading(b: BoardState, pa: u32)
    requires
        b.flash.mode == flash::Mode::ReadArray,
        pa + 4 <= FLASH_SIZE,
    ensures
        b.read32_spec(pa) == b.flash.array_spec(pa, 4),
        b.after_read32(pa) == b,
{
    reveal(BoardState::read32_spec);
    reveal(BoardState::after_read32);
    lemma_block(pa);
}

/// Where a socket is empty the bus floats high: every read there, of any
/// width, is all ones, and nothing notices it.
pub proof fn law_empty_sockets_float_high(b: BoardState, pa: u32)
    requires
        crate::pxa270::block_of(pa) == DOC_NCS1_BASE || crate::pxa270::block_of(pa)
            == DOC_NCS3_BASE,
    ensures
        b.read8_spec(pa) == 0xFF,
        b.read16_spec(pa) == 0xFFFF,
        b.read32_spec(pa) == 0xFFFF_FFFF,
        b.after_narrow_read(pa) == b,
        b.after_read32(pa) == b,
{
    reveal(BoardState::read8_spec);
    reveal(BoardState::read16_spec);
    reveal(BoardState::read32_spec);
    reveal(BoardState::after_narrow_read);
    reveal(BoardState::after_read32);
}

/// An access that hits nothing at all reads as zero, changes nothing, and is
/// noted, at every width.
pub proof fn law_misses_are_noted(b: BoardState, pa: u32, byte: u8, half: u16, word: u32)
    requires
        !in_sdram(pa),
        pa >= FLASH_SIZE,
        crate::pxa270::block_of(pa) != CPLD_BASE,
        crate::pxa270::block_of(pa) != DOC_NCS1_BASE,
        crate::pxa270::block_of(pa) != DOC_NCS3_BASE,
        !crate::pxa270::is_soc_block(crate::pxa270::block_of(pa)),
    ensures
        b.read8_spec(pa) == 0,
        b.read16_spec(pa) == 0,
        b.read32_spec(pa) == 0,
        b.after_narrow_read(pa) == b.unmapped_noted(pa, false, 0),
        b.after_read32(pa) == b.unmapped_noted(pa, false, 0),
        b.written8(pa, byte) == b.unmapped_noted(pa, true, byte as u32),
        b.written16(pa, half) == b.unmapped_noted(pa, true, half as u32),
        b.written32(pa, word) == b.unmapped_noted(pa, true, word),
{
    reveal(BoardState::read8_spec);
    reveal(BoardState::read16_spec);
    reveal(BoardState::read32_spec);
    reveal(BoardState::after_narrow_read);
    reveal(BoardState::after_read32);
    reveal(BoardState::written8);
    reveal(BoardState::written16);
    reveal(BoardState::written32);
}

/// Map a Windows CE static kernel virtual address to a physical one, as the
/// contract of [`kernel_va_to_pa`] says it.
pub open spec fn static_map(va: u32) -> Option<int> {
    if 0x9660_0000 <= va <= 0x9AC0_0000 {
        Some(va - 0x96C0_0000 + SDRAM_BASE)
    } else if 0x8000_0000 <= va <= 0x83FF_FFFF {
        Some(va - 0x8000_0000)
    } else if va <= 0x5FFF_FFFF || in_sdram(va) {
        Some(va as int)
    } else {
        None
    }
}

/// Map a Windows CE static kernel virtual address to a physical one.
///
/// Only the two entries the boot path needs are handled; the peripheral
/// windows are already physical in every image that is loaded.
pub fn kernel_va_to_pa(va: u32) -> (r: Option<u32>)
    ensures
        match r {
            Some(pa) => static_map(va) == Some(pa as int),
            None => static_map(va) is None,
        },
{
    if 0x9660_0000 <= va && va <= 0x9AC0_0000 {
        // 0xA0000000 - 0x96C00000.
        Some(va + 0x0940_0000)
    } else if 0x8000_0000 <= va && va <= 0x83FF_FFFF {
        Some(va - 0x8000_0000)
    } else if va <= 0x5FFF_FFFF || (0xA000_0000 <= va && va <= 0xA3FF_FFFF) {
        // Already physical.
        Some(va)
    } else {
        None
    }
}

/// The PXA270 scatters its blocks across 0x40000000-0x5C000000 rather than
/// packing them, so this is a list rather than one range.
fn is_soc(base: u32) -> (r: bool)
    ensures
        r == crate::pxa270::is_soc_block(base),
{
    0x4000_0000 <= base && base <= 0x4200_0000  // peripheral bus: DMA through keypad
     || base == 0x4400_0000  // LCD controller
     || base == 0x4800_0000  // static memory controller
     || base == 0x4C00_0000  // USB host OHCI
     || base == 0x5C00_0000  // internal SRAM

}

impl BoardState {
    /// Every memory has its size, every device its invariant.
    pub open spec fn wf(self) -> bool {
        &&& self.soc.wf()
        &&& self.sdram.len() == SDRAM_SIZE
        &&& self.flash.data.len() == FLASH_SIZE
        &&& self.flash.locked.len() == 256
        &&& self.cpld.wf()
        &&& self.onewire.wf()
    }

    /// A GPIO input pin driven to `level`, with the interrupts that follow.
    pub open spec fn with_pin(self, pin: u32, level: bool) -> BoardState {
        let g = self.soc.gpio.with_input(pin, level);
        BoardState {
            soc: SocState {
                gpio: g,
                intc: if pin / 32 >= 4 {
                    self.soc.intc
                } else {
                    g.drive(self.soc.intc)
                },
                ..self.soc
            },
            ..self
        }
    }

    /// The modem's interrupt line put where the part drives it.
    pub open spec fn modem_driven(self) -> BoardState {
        self.with_pin(
            modem::INTERRUPT_GPIO,
            self.cpld.modem.pending_spec() != modem::IIR_NONE,
        )
    }

    /// The master is pulling the 1-Wire line: the pin is an output with a
    /// zero in its latch.
    pub open spec fn onewire_pulled(self) -> bool {
        let bit = 1u32 << (onewire::PIN % 32);
        self.soc.gpio.dir[0] & bit != 0 && self.soc.gpio.out[0] & bit == 0
    }

    /// The 1-Wire device has seen the pin, and the pin what it drives.
    pub open spec fn onewire_driven(self) -> BoardState {
        let now = self.soc.ost.oscr;
        let w = self.onewire.updated(self.onewire_pulled(), now);
        (BoardState { onewire: w, ..self }).with_pin(onewire::PIN, w.level(now))
    }

    /// The board after a write to the SoC block at `base`. The serial number's
    /// EEPROM hangs off a GPIO, so it sees the pin move on the write that
    /// moves it.
    pub open spec fn pin_seen(self, base: u32) -> BoardState {
        if base == crate::pxa270::gpio::BASE {
            self.onewire_driven()
        } else {
            self
        }
    }

    pub open spec fn cpld_after_read(self, offset: u32) -> BoardState {
        let s = BoardState { cpld: self.cpld.after_read(offset, self.pc), ..self };
        if cpld::is_modem(offset) {
            s.modem_driven()
        } else {
            s
        }
    }

    /// A CPLD write, plus the board wires that depend on it: the braille
    /// chain's far end and the modem's interrupt.
    pub open spec fn cpld_written(self, offset: u32, val: u16) -> BoardState {
        let s = BoardState { cpld: self.cpld.written(offset, val, self.pc), ..self };
        let t = if offset == cpld::BRAILLE_REG {
            s.with_pin(braille::END_OF_CHAIN_GPIO, s.cpld.braille.end_spec())
        } else {
            s
        };
        if cpld::is_modem(offset) {
            t.modem_driven()
        } else {
            t
        }
    }

    pub open spec fn unmapped_noted(self, pa: u32, write: bool, val: u32) -> BoardState {
        BoardState {
            unmapped: crate::pxa270::noted(self.unmapped, pa, self.pc, write, val),
            ..self
        }
    }

    #[verifier::opaque]
    pub open spec fn read8_spec(self, pa: u32) -> u8 {
        let base = crate::pxa270::block_of(pa);
        if base == CPLD_BASE {
            self.cpld.read_spec(crate::pxa270::offset_of(pa)) as u8
        } else if base == DOC_NCS1_BASE || base == DOC_NCS3_BASE {
            0xFF
        } else if crate::pxa270::is_soc_block(base) {
            self.soc.read8_spec(pa)
        } else if in_sdram(pa) {
            self.sdram[sdram_at(pa)]
        } else if pa < FLASH_SIZE {
            self.flash.read_spec(pa, 1) as u8
        } else {
            0
        }
    }

    #[verifier::opaque]
    pub open spec fn read16_spec(self, pa: u32) -> u16 {
        let base = crate::pxa270::block_of(pa);
        if base == CPLD_BASE {
            self.cpld.read_spec(crate::pxa270::offset_of(pa))
        } else if base == DOC_NCS1_BASE || base == DOC_NCS3_BASE {
            0xFFFF
        } else if crate::pxa270::is_soc_block(base) {
            self.soc.read16_spec(pa)
        } else if in_sdram(pa) {
            crate::bytes::word16(self.sdram, sdram_at(pa))
        } else if pa < FLASH_SIZE {
            self.flash.read_spec(pa, 2) as u16
        } else {
            0
        }
    }

    #[verifier::opaque]
    pub open spec fn read32_spec(self, pa: u32) -> u32 {
        let base = crate::pxa270::block_of(pa);
        if base == CPLD_BASE {
            self.cpld.read_spec(crate::pxa270::offset_of(pa)) as u32
        } else if base == DOC_NCS1_BASE || base == DOC_NCS3_BASE {
            0xFFFF_FFFF
        } else if crate::pxa270::is_soc_block(base) {
            self.soc.read32_spec(pa)
        } else if in_sdram(pa) {
            crate::bytes::word32(self.sdram, sdram_at(pa))
        } else if pa + 4 <= FLASH_SIZE {
            self.flash.read_spec(pa, 4)
        } else {
            0
        }
    }

    /// What a byte or halfword read leaves behind; one that hits nothing is
    /// noted.
    #[verifier::opaque]
    pub open spec fn after_narrow_read(self, pa: u32) -> BoardState {
        let base = crate::pxa270::block_of(pa);
        if base == CPLD_BASE {
            self.cpld_after_read(crate::pxa270::offset_of(pa))
        } else if base == DOC_NCS1_BASE || base == DOC_NCS3_BASE {
            self
        } else if crate::pxa270::is_soc_block(base) {
            BoardState { soc: self.soc.after_read32(pa & !3u32), ..self }
        } else if in_sdram(pa) || pa < FLASH_SIZE {
            self
        } else {
            self.unmapped_noted(pa, false, 0)
        }
    }

    /// What a word read leaves behind; one that hits nothing is noted.
    #[verifier::opaque]
    pub open spec fn after_read32(self, pa: u32) -> BoardState {
        let base = crate::pxa270::block_of(pa);
        if base == CPLD_BASE {
            self.cpld_after_read(crate::pxa270::offset_of(pa))
        } else if base == DOC_NCS1_BASE || base == DOC_NCS3_BASE {
            self
        } else if crate::pxa270::is_soc_block(base) {
            BoardState { soc: self.soc.after_read32(pa), ..self }
        } else if in_sdram(pa) || pa + 4 <= FLASH_SIZE {
            self
        } else {
            self.unmapped_noted(pa, false, 0)
        }
    }

    #[verifier::opaque]
    pub open spec fn written8(self, pa: u32, val: u8) -> BoardState {
        let base = crate::pxa270::block_of(pa);
        if base == CPLD_BASE {
            self.cpld_written(crate::pxa270::offset_of(pa), val as u16)
        } else if crate::pxa270::is_soc_block(base) {
            (BoardState { soc: self.soc.written8(pa, val), ..self }).pin_seen(base)
        } else if in_sdram(pa) {
            BoardState { sdram: self.sdram.update(sdram_at(pa), val), ..self }
        } else if pa < FLASH_SIZE {
            BoardState { flash: self.flash.written(pa, val as u32, 1), ..self }
        } else {
            self.unmapped_noted(pa, true, val as u32)
        }
    }

    #[verifier::opaque]
    pub open spec fn written16(self, pa: u32, val: u16) -> BoardState {
        let base = crate::pxa270::block_of(pa);
        if base == CPLD_BASE {
            self.cpld_written(crate::pxa270::offset_of(pa), val)
        } else if crate::pxa270::is_soc_block(base) {
            (BoardState { soc: self.soc.written16(pa, val), ..self }).pin_seen(base)
        } else if in_sdram(pa) {
            BoardState {
                sdram: crate::bytes::overlaid(
                    self.sdram,
                    sdram_at(pa),
                    crate::bytes::le16(val),
                ),
                ..self
            }
        } else if pa < FLASH_SIZE {
            BoardState { flash: self.flash.written(pa, val as u32, 2), ..self }
        } else {
            self.unmapped_noted(pa, true, val as u32)
        }
    }

    #[verifier::opaque]
    pub open spec fn written32(self, pa: u32, val: u32) -> BoardState {
        let base = crate::pxa270::block_of(pa);
        if base == CPLD_BASE {
            self.cpld_written(crate::pxa270::offset_of(pa), val as u16)
        } else if crate::pxa270::is_soc_block(base) {
            (BoardState { soc: self.soc.written32(pa, val), ..self }).pin_seen(base)
        } else if in_sdram(pa) {
            BoardState {
                sdram: crate::bytes::overlaid(
                    self.sdram,
                    sdram_at(pa),
                    crate::bytes::le32(val),
                ),
                ..self
            }
        } else if pa < FLASH_SIZE {
            BoardState { flash: self.flash.written(pa, val, 4), ..self }
        } else {
            self.unmapped_noted(pa, true, val)
        }
    }

    /// The power sense pins refreshed, once enough cycles have passed.
    #[verifier::opaque]
    pub open spec fn power_refreshed(self, cycles: u32) -> BoardState {
        let divider = self.power_divider.wrapping_add(cycles);
        if divider > POWER_PERIOD {
            BoardState {
                power_divider: 0,
                power: self.power.sampled(),
                soc: SocState {
                    gpio: self.power.driven(self.soc.gpio),
                    intc: self.power.interrupts(self.soc.gpio, self.soc.intc),
                    ..self.soc
                },
                ..self
            }
        } else {
            BoardState { power_divider: divider, ..self }
        }
    }

    /// The board with its clocks advanced and the 1-Wire pin refreshed, before
    /// the DMA engine gets its turn.
    #[verifier::opaque]
    pub open spec fn clocked(self, cycles: u32) -> BoardState {
        (BoardState {
            elapsed: self.elapsed.wrapping_add(cycles as u64),
            soc: self.soc.ticked(cycles),
            ..self
        }).onewire_driven()
    }

    /// The board after `cycles` CPU cycles.
    pub open spec fn ticked(self, cycles: u32) -> BoardState {
        self.clocked(cycles).dma_run(cycles as nat).power_refreshed(cycles)
    }

    /// Where a block of bytes at `pa` belongs: SDRAM, the flash array, or
    /// nowhere it fits.
    pub open spec fn block_error(pa: u32, len: int) -> Option<LoadError> {
        if in_sdram(pa) {
            if sdram_at(pa) + len > SDRAM_SIZE {
                Some(LoadError::PastMemory { pa })
            } else {
                None
            }
        } else if pa < FLASH_SIZE {
            if pa + len > FLASH_SIZE {
                Some(LoadError::PastMemory { pa })
            } else {
                None
            }
        } else {
            Some(LoadError::NoMemory { pa })
        }
    }

    pub open spec fn with_block(self, pa: u32, data: Seq<u8>) -> BoardState {
        if in_sdram(pa) {
            BoardState {
                sdram: crate::bytes::overlaid(self.sdram, sdram_at(pa), data),
                ..self
            }
        } else {
            BoardState {
                flash: FlashState {
                    data: crate::bytes::overlaid(self.flash.data, pa as int, data),
                    ..self.flash
                },
                ..self
            }
        }
    }

    /// The board with the first `n` records of an image in place.
    pub open spec fn with_records(self, image: CeImage, n: int) -> BoardState
        decreases n,
    {
        if n <= 0 {
            self
        } else {
            let r = image.records[n - 1];
            self.with_records(image, n - 1).with_block(static_map(r.addr)->0 as u32, r.data@)
        }
    }

    /// What is wrong with record `i` of an image, if anything.
    pub open spec fn record_error(image: CeImage, i: int) -> Option<LoadError> {
        let r = image.records[i];
        match static_map(r.addr) {
            Some(pa) => Self::block_error(pa as u32, r.data@.len() as int),
            None => Some(LoadError::RecordOutsideMap { addr: r.addr }),
        }
    }

    /// Where record `i` of a bootloader goes in the flash.
    pub open spec fn flash_offset(image: CeImage, i: int) -> u32 {
        image.records[i].addr.wrapping_sub(image.base)
    }

    /// The flash with the first `n` records of a bootloader in place.
    pub open spec fn with_flash_records(self, image: CeImage, n: int) -> BoardState
        decreases n,
    {
        if n <= 0 {
            self
        } else {
            let s = self.with_flash_records(image, n - 1);
            BoardState {
                flash: FlashState {
                    data: crate::bytes::overlaid(
                        s.flash.data,
                        Self::flash_offset(image, n - 1) as int,
                        image.records[n - 1].data@,
                    ),
                    ..s.flash
                },
                ..s
            }
        }
    }

    /// Every record of the image went where the static map puts it.
    pub open spec fn image_loaded(self, image: CeImage, after: BoardState) -> bool {
        let n = image.records@.len() as int;
        &&& forall|i: int| 0 <= i < n ==> #[trigger] Self::record_error(image, i) is None
        &&& after == self.with_records(image, n)
    }

    /// The image was refused with `e`: a record does not fit, and those in
    /// front of it have been copied, or the launch address is not mapped.
    pub open spec fn image_refused(self, image: CeImage, e: LoadError, after: BoardState) -> bool {
        ||| exists|i: int|
            {
                &&& 0 <= i < image.records@.len()
                &&& #[trigger] Self::record_error(image, i) == Some(e)
                &&& forall|j: int| 0 <= j < i ==> #[trigger] Self::record_error(image, j) is None
                &&& after == self.with_records(image, i)
            }
        ||| {
            &&& self.image_loaded(image, after)
            &&& static_map(image.launch) is None
            &&& e == (LoadError::LaunchOutsideMap { addr: image.launch })
        }
    }

    /// Every record of the bootloader went into the flash.
    pub open spec fn flash_image_loaded(self, image: CeImage, after: BoardState) -> bool {
        let n = image.records@.len() as int;
        &&& forall|i: int| 0 <= i < n ==> #[trigger] Self::fits_flash(image, i)
        &&& after == self.with_flash_records(image, n)
    }

    /// The bootloader was refused with `e`: a record does not fit, and those
    /// in front of it have been copied.
    pub open spec fn flash_image_refused(
        self,
        image: CeImage,
        e: LoadError,
        after: BoardState,
    ) -> bool {
        exists|i: int|
            {
                &&& 0 <= i < image.records@.len()
                &&& !#[trigger] Self::fits_flash(image, i)
                &&& forall|j: int| 0 <= j < i ==> #[trigger] Self::fits_flash(image, j)
                &&& e == (LoadError::PastFlash {
                    addr: image.records[i].addr,
                    offset: Self::flash_offset(image, i),
                })
                &&& after == self.with_flash_records(image, i)
            }
    }

    pub open spec fn fits_flash(image: CeImage, i: int) -> bool {
        Self::flash_offset(image, i) + image.records[i].data@.len() <= FLASH_SIZE
    }
}

impl Gandalf {
    pub fn new() -> (r: Self)
        ensures
            r.powered_up(CPU_HZ_EFFECTIVE),
    {
        Gandalf::with_clock(CPU_HZ_EFFECTIVE)
    }

    /// The board as it powers up: memory clear, flash erased, nothing pressed,
    /// the clocks at the rate asked for, and the sense pins showing mains
    /// power and the switch on.
    pub open spec fn powered_up(self, cpu_hz: u64) -> bool {
        let b = self@;
        &&& b.wf()
        &&& b.sdram == Seq::new(SDRAM_SIZE as nat, |i: int| 0u8)
        &&& b.flash == FlashState::erased(FLASH_SIZE as nat)
        &&& b.cpld.fresh()
        &&& b.power == PowerState::on_mains()
        &&& b.power_divider == 0
        &&& b.onewire == OneWireState::holding(
            onewire::id_spec(0x2D, seq![0u8, 0, 0, 0, 0, 0]),
            Seq::new(128, |i: int| 0xFFu8),
        )
        &&& b.elapsed == 0
        &&& b.unmapped == Map::<u32, AccessStat>::empty()
        &&& b.pc == 0
        &&& b.dma_idle()
        &&& exists|s: SocState| #[trigger]
            s.at_reset(cpu_hz) && b.soc == (SocState {
                gpio: PowerState::on_mains().driven(s.gpio),
                intc: PowerState::on_mains().interrupts(s.gpio, s.intc),
                ..s
            })
    }

    /// Build a board whose timers run against `cpu_hz`.
    pub fn with_clock(cpu_hz: u64) -> (r: Self)
        requires
            0 < cpu_hz <= crate::pxa270::ost::MAX_CPU_HZ,
        ensures
            r.powered_up(cpu_hz),
    {
        let mut board = Gandalf {
            soc: Pxa270::new(cpu_hz),
            sdram: crate::bytes::filled(SDRAM_SIZE, 0),
            flash: NorFlash::new(FLASH_SIZE),
            cpld: Cpld::default(),
            power: PowerState::default(),
            power_divider: 0,
            onewire: OneWire::default(),
            elapsed: 0,
            unmapped: BTreeMap::new(),
            pc: 0,
        };
        let ghost s = board.soc@;
        // Present the sense pins before the guest runs, so the very first
        // read the battery driver makes already sees mains power.
        board.power.drive(&mut board.soc.gpio, &mut board.soc.intc);
        assert(s.at_reset(cpu_hz));
        proof {
            dma::lemma_idle_channels(board@);
        }
        board
    }

    /// Copy a Windows CE image's records into memory at their target
    /// addresses, translating kernel virtual addresses to physical ones, and
    /// return the physical address to start at.
    ///
    /// CE images are linked for the static kernel mapping, so a record aimed
    /// at 0x96C79000 belongs at physical 0xA0079000. Records in front of one
    /// that does not fit have been copied when the error is returned.
    pub fn load_image(&mut self, image: &CeImage) -> (r: Result<u32, String>)
        requires
            old(self)@.wf(),
        ensures
            final(self)@.wf(),
            match r {
                Ok(pa) => old(self)@.image_loaded(*image, final(self)@) && static_map(
                    image.launch,
                ) == Some(pa as int),
                Err(s) => exists|e: LoadError| #[trigger]
                    old(self)@.image_refused(*image, e, final(self)@) && s@ == e.text(),
            },
    {
        match self.place_image(image) {
            Ok(pa) => Ok(pa),
            Err(e) => Err(e.message()),
        }
    }

    fn place_image(&mut self, image: &CeImage) -> (r: Result<u32, LoadError>)
        requires
            old(self)@.wf(),
        ensures
            final(self)@.wf(),
            match r {
                Ok(pa) => old(self)@.image_loaded(*image, final(self)@) && static_map(
                    image.launch,
                ) == Some(pa as int),
                Err(e) => old(self)@.image_refused(*image, e, final(self)@),
            },
    {
        let mut i: usize = 0;
        while i < image.records.len()
            invariant
                i <= image.records.len(),
                self@.wf(),
                self@ == old(self)@.with_records(*image, i as int),
                forall|j: int|
                    0 <= j < i ==> #[trigger] BoardState::record_error(*image, j) is None,
            decreases image.records.len() - i,
        {
            let addr: u32 = image.records[i].addr;
            let pa: u32 = match kernel_va_to_pa(addr) {
                Some(pa) => pa,
                None => {
                    assert(BoardState::record_error(*image, i as int) is Some);
                    return Err(LoadError::RecordOutsideMap { addr });
                },
            };
            match self.write_block(pa, image.records[i].data.as_slice()) {
                Ok(()) => {},
                Err(e) => {
                    assert(BoardState::record_error(*image, i as int) == Some(e));
                    return Err(e);
                },
            }
            i = i + 1;
        }
        match kernel_va_to_pa(image.launch) {
            Some(pa) => Ok(pa),
            None => Err(LoadError::LaunchOutsideMap { addr: image.launch }),
        }
    }

    /// Place a bootloader image into NOR flash the way the real board stores
    /// it, and return the reset vector.
    ///
    /// The image's base address corresponds to flash offset zero: EBOOT's
    /// first record is the four-byte reset branch, and its own flash-to-SDRAM
    /// copy loop reads from physical 0 and writes to the physical address its
    /// base maps to.
    pub fn load_flash_image(&mut self, image: &CeImage) -> (r: Result<u32, String>)
        requires
            old(self)@.wf(),
        ensures
            final(self)@.wf(),
            match r {
                Ok(vector) => vector == 0 && old(self)@.flash_image_loaded(*image, final(self)@),
                Err(s) => exists|e: LoadError| #[trigger]
                    old(self)@.flash_image_refused(*image, e, final(self)@) && s@ == e.text(),
            },
    {
        match self.place_flash_image(image) {
            Ok(()) => Ok(0),
            Err(e) => Err(e.message()),
        }
    }

    fn place_flash_image(&mut self, image: &CeImage) -> (r: Result<(), LoadError>)
        requires
            old(self)@.wf(),
        ensures
            final(self)@.wf(),
            match r {
                Ok(()) => old(self)@.flash_image_loaded(*image, final(self)@),
                Err(e) => old(self)@.flash_image_refused(*image, e, final(self)@),
            },
    {
        let mut i: usize = 0;
        while i < image.records.len()
            invariant
                i <= image.records.len(),
                self@.wf(),
                self@ == old(self)@.with_flash_records(*image, i as int),
                forall|j: int| 0 <= j < i ==> #[trigger] BoardState::fits_flash(*image, j),
            decreases image.records.len() - i,
        {
            let addr: u32 = image.records[i].addr;
            let offset: u32 = addr.wrapping_sub(image.base);
            let len: usize = image.records[i].data.len();
            if offset as usize > FLASH_SIZE || len > FLASH_SIZE - offset as usize {
                assert(!BoardState::fits_flash(*image, i as int));
                return Err(LoadError::PastFlash { addr, offset });
            }
            crate::bytes::put_all(
                &mut self.flash.data,
                offset as usize,
                image.records[i].data.as_slice(),
            );
            assert(BoardState::fits_flash(*image, i as int));
            i = i + 1;
        }
        Ok(())
    }

    /// Install a complete, already-laid-out flash image. What it does not
    /// cover is left erased.
    pub fn load_raw_flash(&mut self, image: &[u8]) -> (r: Result<(), String>)
        requires
            old(self)@.wf(),
        ensures
            final(self)@.wf(),
            match r {
                Ok(()) => image@.len() <= FLASH_SIZE && final(self)@ == (BoardState {
                    flash: FlashState {
                        data: image@ + Seq::new(
                            (FLASH_SIZE - image@.len()) as nat,
                            |i: int| 0xFFu8,
                        ),
                        ..old(self)@.flash
                    },
                    ..old(self)@
                }),
                Err(s) => image@.len() > FLASH_SIZE && s@ == (LoadError::TooLarge {
                    len: image.len(),
                }).text() && final(self)@ == old(self)@,
            },
    {
        if image.len() > FLASH_SIZE {
            let e = LoadError::TooLarge { len: image.len() };
            return Err(e.message());
        }
        let mut data: Vec<u8> = crate::bytes::filled(FLASH_SIZE, 0xFF);
        crate::bytes::put_all(&mut data, 0, image);
        self.flash.data = data;
        assert(self@.flash.data =~= image@ + Seq::new(
            (FLASH_SIZE - image@.len()) as nat,
            |i: int| 0xFFu8,
        ));
        Ok(())
    }

    fn write_block(&mut self, pa: u32, data: &[u8]) -> (r: Result<(), LoadError>)
        requires
            old(self)@.wf(),
        ensures
            final(self)@.wf(),
            match r {
                Ok(()) => BoardState::block_error(pa, data@.len() as int) is None && final(self)@
                    == old(self)@.with_block(pa, data@),
                Err(e) => BoardState::block_error(pa, data@.len() as int) == Some(e)
                    && final(self)@ == old(self)@,
            },
    {
        if let Some(off) = Self::sdram_off(pa) {
            if data.len() > SDRAM_SIZE - off {
                return Err(LoadError::PastMemory { pa });
            }
            crate::bytes::put_all(&mut self.sdram, off, data);
            Ok(())
        } else if (pa as usize) < FLASH_SIZE {
            let off: usize = pa as usize;
            if data.len() > FLASH_SIZE - off {
                return Err(LoadError::PastMemory { pa });
            }
            crate::bytes::put_all(&mut self.flash.data, off, data);
            Ok(())
        } else {
            Err(LoadError::NoMemory { pa })
        }
    }

    /// Drive a GPIO input pin from the board.
    fn drive_pin(&mut self, pin: u32, level: bool)
        requires
            old(self)@.wf(),
        ensures
            final(self)@ == old(self)@.with_pin(pin, level),
            final(self)@.wf(),
    {
        self.soc.gpio.set_input(pin, level, &mut self.soc.intc);
    }

    /// A CPLD write, plus the one board wire that depends on it.
    ///
    /// The braille display's far end is on GPIO 103, and the OAL reads that
    /// pin between bytes to find out how long the chain is. So the pin has to
    /// follow the shift register on every write, not on a poll.
    fn cpld_write(&mut self, offset: u32, val: u16)
        requires
            old(self)@.wf(),
        ensures
            final(self)@ == old(self)@.cpld_written(offset, val),
            final(self)@.wf(),
    {
        self.cpld.write(offset, val, self.pc);
        if offset == cpld::BRAILLE_REG {
            let level = self.cpld.braille.end_of_chain();
            self.drive_pin(braille::END_OF_CHAIN_GPIO, level);
        }
        if Modem::owns(offset) {
            self.drive_modem_interrupt();
        }
    }

    /// A CPLD read, plus the interrupt line that a read can lower.
    ///
    /// Reading `IIR` is how the driver acknowledges the modem, and reading the
    /// data register is what empties it, so both change whether the part is
    /// still asking to be served.
    fn cpld_read(&mut self, offset: u32) -> (r: u16)
        requires
            old(self)@.wf(),
        ensures
            r == old(self)@.cpld.read_spec(offset),
            final(self)@ == old(self)@.cpld_after_read(offset),
            final(self)@.wf(),
    {
        let val: u16 = self.cpld.read(offset, self.pc);
        if Modem::owns(offset) {
            self.drive_modem_interrupt();
        }
        val
    }

    /// Let the modem put its interrupt line where it belongs.
    ///
    /// The pin is armed for a rising edge, so the line has to fall again
    /// between interrupts or the second one is never noticed. Driving it from
    /// the part's own state on every register access does that by itself.
    fn drive_modem_interrupt(&mut self)
        requires
            old(self)@.wf(),
        ensures
            final(self)@ == old(self)@.modem_driven(),
            final(self)@.wf(),
    {
        let level = self.cpld.modem.interrupting();
        self.drive_pin(modem::INTERRUPT_GPIO, level);
    }

    /// Put the board back the way it powers up, without disturbing anything
    /// that survives a reset.
    ///
    /// Memory keeps its contents and so does the flash array, exactly as on
    /// the real machine. What has to go is the state the running system left
    /// in the *devices*: a flash chip mid-command answers a fetch with
    /// `0xFFFFFFFF`, and the keyboard would come back with keys still held.
    pub fn reset(&mut self)
        requires
            old(self)@.wf(),
        ensures
            final(self)@.wf(),
            final(self)@ == (BoardState {
                flash: FlashState { mode: flash::Mode::ReadArray, ..old(self)@.flash },
                cpld: CpldState {
                    keyboard: keyboard::Keyboard {
                        columns: final(self)@.cpld.keyboard.columns,
                        ..old(self)@.cpld.keyboard
                    },
                    ..old(self)@.cpld
                },
                ..old(self)@
            }),
            final(self)@.cpld.keyboard.columns@ =~= Seq::new(12, |i: int| 0u8),
    {
        self.flash.reset();
        self.cpld.keyboard.release_all();
    }

    /// Let the 1-Wire device see the pin, and report back what it drives.
    ///
    /// The bus is open drain: the master pulls low by driving the pin as an
    /// output with a zero in the latch, and lets go by turning it back into
    /// an input. So "the master is pulling" is exactly that pair of bits.
    fn drive_onewire(&mut self)
        requires
            old(self)@.wf(),
        ensures
            final(self)@ == old(self)@.onewire_driven(),
            final(self)@.wf(),
    {
        let bit: u32 = 1u32 << (onewire::PIN % 32);
        let master_low = self.soc.gpio.dir[0] & bit != 0 && self.soc.gpio.out[0] & bit == 0;
        // Timed by OSCR, the same counter the kernel's delay loop spins on.
        let now: u32 = self.soc.ost.oscr;
        let level = self.onewire.update(master_low, now);
        self.drive_pin(onewire::PIN, level);
    }

    /// After a write to the SoC block at `base`: one to the GPIO block may have
    /// moved the pin the EEPROM is on.
    fn see_pin(&mut self, base: u32)
        requires
            old(self)@.wf(),
        ensures
            final(self)@ == old(self)@.pin_seen(base),
            final(self)@.wf(),
    {
        if base == crate::pxa270::gpio::BASE {
            self.drive_onewire();
        }
    }

    fn note_unmapped(&mut self, pa: u32, write: bool, val: u32)
        requires
            old(self)@.wf(),
        ensures
            final(self)@ == old(self)@.unmapped_noted(pa, write, val),
            final(self)@.wf(),
    {
        note_access(&mut self.unmapped, pa, self.pc, write, val);
    }

    fn sdram_off(pa: u32) -> (r: Option<usize>)
        ensures
            match r {
                Some(off) => in_sdram(pa) && off == sdram_at(pa),
                None => !in_sdram(pa),
            },
    {
        let off: usize = pa.wrapping_sub(SDRAM_BASE) as usize;
        if off < SDRAM_SIZE {
            Some(off)
        } else {
            None
        }
    }

    pub fn read8(&mut self, pa: u32) -> (r: u8)
        requires
            old(self)@.wf(),
        ensures
            r == old(self)@.read8_spec(pa),
            final(self)@ == old(self)@.after_narrow_read(pa),
            final(self)@.wf(),
    {
        proof {
            reveal(BoardState::read8_spec);
            reveal(BoardState::after_narrow_read);
        }
        let base: u32 = pa & 0xFFF0_0000;
        if base == CPLD_BASE {
            self.cpld_read(pa & 0x000F_FFFF) as u8
        } else if base == DOC_NCS1_BASE || base == DOC_NCS3_BASE {
            0xFF
        } else if is_soc(base) {
            self.soc.read8(pa)
        } else if let Some(off) = Self::sdram_off(pa) {
            self.sdram[off]
        } else if (pa as usize) < FLASH_SIZE {
            self.flash.read(pa, 1) as u8
        } else {
            self.note_unmapped(pa, false, 0);
            0
        }
    }

    pub fn read16(&mut self, pa: u32) -> (r: u16)
        requires
            old(self)@.wf(),
            access_ok(pa, 2),
        ensures
            r == old(self)@.read16_spec(pa),
            final(self)@ == old(self)@.after_narrow_read(pa),
            final(self)@.wf(),
    {
        proof {
            reveal(BoardState::read16_spec);
            reveal(BoardState::after_narrow_read);
        }
        let base: u32 = pa & 0xFFF0_0000;
        if base == CPLD_BASE {
            self.cpld_read(pa & 0x000F_FFFF)
        } else if base == DOC_NCS1_BASE || base == DOC_NCS3_BASE {
            0xFFFF
        } else if is_soc(base) {
            self.soc.read16(pa)
        } else if let Some(off) = Self::sdram_off(pa) {
            get16(self.sdram.as_slice(), off)
        } else if (pa as usize) < FLASH_SIZE {
            self.flash.read(pa, 2) as u16
        } else {
            self.note_unmapped(pa, false, 0);
            0
        }
    }

    pub fn read32(&mut self, pa: u32) -> (r: u32)
        requires
            old(self)@.wf(),
            access_ok(pa, 4),
        ensures
            r == old(self)@.read32_spec(pa),
            final(self)@ == old(self)@.after_read32(pa),
            final(self)@.wf(),
    {
        proof {
            reveal(BoardState::read32_spec);
            reveal(BoardState::after_read32);
        }
        let base: u32 = pa & 0xFFF0_0000;
        if base == CPLD_BASE {
            self.cpld_read(pa & 0x000F_FFFF) as u32
        } else if base == DOC_NCS1_BASE || base == DOC_NCS3_BASE {
            0xFFFF_FFFF
        } else if is_soc(base) {
            self.soc.read32(pa)
        } else if let Some(off) = Self::sdram_off(pa) {
            get32(self.sdram.as_slice(), off)
        } else if pa as usize <= FLASH_SIZE - 4 {
            self.flash.read(pa, 4)
        } else {
            self.note_unmapped(pa, false, 0);
            0
        }
    }

    pub fn write8(&mut self, pa: u32, val: u8)
        requires
            old(self)@.wf(),
        ensures
            final(self)@ == old(self)@.written8(pa, val),
            final(self)@.wf(),
    {
        proof {
            reveal(BoardState::written8);
        }
        let base: u32 = pa & 0xFFF0_0000;
        if base == CPLD_BASE {
            self.cpld_write(pa & 0x000F_FFFF, val as u16);
        } else if is_soc(base) {
            self.soc.write8(pa, val);
            self.see_pin(base);
        } else if let Some(off) = Self::sdram_off(pa) {
            self.sdram[off] = val;
        } else if (pa as usize) < FLASH_SIZE {
            self.flash.write(pa, val as u32, 1);
        } else {
            self.note_unmapped(pa, true, val as u32);
        }
    }

    pub fn write16(&mut self, pa: u32, val: u16)
        requires
            old(self)@.wf(),
            access_ok(pa, 2),
        ensures
            final(self)@ == old(self)@.written16(pa, val),
            final(self)@.wf(),
    {
        proof {
            reveal(BoardState::written16);
        }
        let base: u32 = pa & 0xFFF0_0000;
        if base == CPLD_BASE {
            self.cpld_write(pa & 0x000F_FFFF, val);
        } else if is_soc(base) {
            self.soc.write16(pa, val);
            self.see_pin(base);
        } else if let Some(off) = Self::sdram_off(pa) {
            put16(&mut self.sdram, off, val);
        } else if (pa as usize) < FLASH_SIZE {
            self.flash.write(pa, val as u32, 2);
        } else {
            self.note_unmapped(pa, true, val as u32);
        }
    }

    pub fn write32(&mut self, pa: u32, val: u32)
        requires
            old(self)@.wf(),
            access_ok(pa, 4),
        ensures
            final(self)@ == old(self)@.written32(pa, val),
            final(self)@.wf(),
    {
        proof {
            reveal(BoardState::written32);
        }
        let base: u32 = pa & 0xFFF0_0000;
        if base == CPLD_BASE {
            self.cpld_write(pa & 0x000F_FFFF, val as u16);
        } else if is_soc(base) {
            self.soc.write32(pa, val);
            self.see_pin(base);
        } else if let Some(off) = Self::sdram_off(pa) {
            put32(&mut self.sdram, off, val);
        } else if (pa as usize) < FLASH_SIZE {
            self.flash.write(pa, val, 4);
        } else {
            self.note_unmapped(pa, true, val);
        }
    }

    /// Fetch an instruction. Flash is read as an array whatever command it is
    /// in the middle of.
    pub fn fetch32(&mut self, pa: u32) -> (r: u32)
        requires
            old(self)@.wf(),
            access_ok(pa, 4),
        ensures
            r == (if in_sdram(pa) {
                crate::bytes::word32(old(self)@.sdram, sdram_at(pa))
            } else if pa + 4 <= FLASH_SIZE {
                old(self)@.flash.array_spec(pa, 4)
            } else {
                old(self)@.read32_spec(pa)
            }),
            final(self)@ == (if in_sdram(pa) || pa + 4 <= FLASH_SIZE {
                old(self)@
            } else {
                old(self)@.after_read32(pa)
            }),
            final(self)@.wf(),
    {
        if let Some(off) = Self::sdram_off(pa) {
            return get32(self.sdram.as_slice(), off);
        }
        if pa as usize <= FLASH_SIZE - 4 {
            return self.flash.read_array_direct(pa, 4);
        }
        self.read32(pa)
    }

    /// Fetch a halfword instruction.
    pub fn fetch16(&mut self, pa: u32) -> (r: u16)
        requires
            old(self)@.wf(),
            access_ok(pa, 2),
        ensures
            r == (if in_sdram(pa) {
                crate::bytes::word16(old(self)@.sdram, sdram_at(pa))
            } else if pa + 2 <= FLASH_SIZE {
                old(self)@.flash.array_spec(pa, 2) as u16
            } else {
                old(self)@.read16_spec(pa)
            }),
            final(self)@ == (if in_sdram(pa) || pa + 2 <= FLASH_SIZE {
                old(self)@
            } else {
                old(self)@.after_narrow_read(pa)
            }),
            final(self)@.wf(),
    {
        if let Some(off) = Self::sdram_off(pa) {
            return get16(self.sdram.as_slice(), off);
        }
        if pa as usize <= FLASH_SIZE - 2 {
            return self.flash.read_array_direct(pa, 2) as u16;
        }
        self.read16(pa)
    }

    /// Let `cycles` CPU cycles pass.
    pub fn tick(&mut self, cycles: u32)
        requires
            old(self)@.wf(),
            old(self)@.dma_idle() || old(self)@.clocked(cycles).dma_safe(cycles as nat),
        ensures
            final(self)@ == old(self)@.ticked(cycles),
            old(self)@.dma_idle() ==> final(self)@.dma_idle(),
            final(self)@.wf(),
    {
        proof {
            lemma_idle_when_clocked(self@, cycles);
        }
        self.try_tick(cycles);
    }

    /// Let `cycles` CPU cycles pass, on a board of which nothing is known. A
    /// transfer that would run off the end of memory ends the tick where it
    /// stands, and the answer says so.
    pub fn try_tick(&mut self, cycles: u32) -> (r: bool)
        requires
            old(self)@.wf(),
        ensures
            r == old(self)@.clocked(cycles).dma_safe(cycles as nat),
            final(self)@ == (if r {
                old(self)@.ticked(cycles)
            } else {
                old(self)@.clocked(cycles).dma_stopped(cycles as nat)
            }),
            old(self)@.dma_idle() ==> r && final(self)@.dma_idle(),
            final(self)@.wf(),
    {
        proof {
            lemma_idle_when_clocked(self@, cycles);
            reveal(BoardState::clocked);
            reveal(BoardState::power_refreshed);
        }
        self.elapsed = self.elapsed.wrapping_add(cycles as u64);
        self.soc.tick(cycles);
        // The device answers by holding the line down for a while, so the pin
        // has to be refreshed as time passes and not only when it is written.
        self.drive_onewire();
        // Give the DMA engine a chance to advance, once for every cycle in the
        // batch rather than once per call: one per call would tie the speed of
        // a transfer to the size of the runner's batches.
        let ghost start = self@;
        assert(start == old(self)@.clocked(cycles));
        let mut budget: u32 = cycles;
        let mut going = true;
        while going && budget > 0
            invariant
                budget <= cycles,
                self@.wf(),
                start == old(self)@.clocked(cycles),
                going ==> start.dma_run(cycles as nat) == self@.dma_run(budget as nat)
                    && start.dma_safe(cycles as nat) == self@.dma_safe(budget as nat) && (
                !self@.dma_safe(budget as nat) ==> start.dma_stopped(cycles as nat)
                    == self@.dma_stopped(budget as nat)),
                !going ==> start.dma_run(cycles as nat) == self@ && start.dma_safe(cycles as nat),
                old(self)@.dma_idle() ==> start.dma_safe(cycles as nat),
            decreases budget + (if going {
                1int
            } else {
                0
            }),
        {
            if self.soc.dma.next_runnable().is_none() {
                going = false;
            } else {
                match dma::try_service(self) {
                    None => {
                        return false;
                    },
                    Some(done) => {
                        if done {
                            budget = budget - 1;
                        } else {
                            going = false;
                        }
                    },
                }
            }
        }
        // The charge line is sampled repeatedly to detect toggling, so it has
        // to be refreshed rather than set once.
        let ghost run = self@;
        assert(run == start.dma_run(cycles as nat));
        self.power_divider = self.power_divider.wrapping_add(cycles);
        if self.power_divider > POWER_PERIOD {
            self.power_divider = 0;
            let mut power: PowerState = self.power;
            power.drive(&mut self.soc.gpio, &mut self.soc.intc);
            self.power = power;
        }
        true
    }

    pub fn irq_pending(&self) -> (r: bool)
        ensures
            r == self@.soc.intc.irq_spec(),
    {
        self.soc.irq_pending()
    }

    pub fn fiq_pending(&self) -> (r: bool)
        ensures
            r == self@.soc.intc.fiq_spec(),
    {
        self.soc.fiq_pending()
    }
}

impl Default for Gandalf {
    fn default() -> (r: Self)
        ensures
            r.powered_up(CPU_HZ_EFFECTIVE),
    {
        Gandalf::new()
    }
}

} // verus!
