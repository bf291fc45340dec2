//! Intel PXA270 "Bulverde" on-chip peripherals.
//!
//! Only what the VoiceNote's firmware actually touches is modelled. Anything
//! else is recorded by the access log rather than silently returning zero, so
//! that bring-up failures show up as data instead of as a hang.

use std::collections::BTreeMap;
use vstd::prelude::*;

pub mod ac97;
pub mod dma;
pub mod gpio;
pub mod i2c;
pub mod intc;
pub mod mmc;
pub mod ohci;
pub mod ost;
pub mod power;
pub mod sdcard;
pub mod uart;

use ac97::{Ac97, Ac97State};
use dma::Dma;
use gpio::{Gpio, GpioState};
use i2c::{I2c, I2cState};
use intc::Intc;
use mmc::{Mmc, MmcState};
use ohci::{Ohci, OhciState};
use ost::Ost;
use power::{ClockManager, MemoryController, Pmu, Rtc};
use uart::{Uart, UartState};

verus! {

broadcast use vstd::std_specs::btree::group_btree_axioms;

/// The PXA270's internal SRAM, 256 KB at 0x5C000000.
pub const SRAM_BASE: u32 = 0x5C00_0000;
pub const SRAM_SIZE: usize = 0x4_0000;

/// A log takes entries until it is full, and then no more.
pub open spec fn logged<T>(log: Seq<T>, entry: T, limit: int) -> Seq<T> {
    if log.len() < limit {
        log.push(entry)
    } else {
        log
    }
}

#[derive(Clone, Copy)]
pub struct AccessStat {
    pub reads: u32,
    pub writes: u32,
    /// Program counter of the first access, which is what makes the log
    /// useful for finding the driver responsible.
    pub first_pc: u32,
    pub last_value: u32,
}

impl Default for AccessStat {
    fn default() -> (r: Self)
        ensures
            r == AccessStat::from_pc(0),
    {
        AccessStat { reads: 0, writes: 0, first_pc: 0, last_value: 0 }
    }
}

impl AccessStat {
    /// No access yet; the first will be blamed on `pc`.
    pub open spec fn from_pc(pc: u32) -> AccessStat {
        AccessStat { reads: 0, writes: 0, first_pc: pc, last_value: 0 }
    }

    /// One more access counted.
    pub open spec fn counted(self, write: bool, val: u32) -> AccessStat {
        if write {
            AccessStat { writes: self.writes.wrapping_add(1), last_value: val, ..self }
        } else {
            AccessStat { reads: self.reads.wrapping_add(1), ..self }
        }
    }
}

/// The log after one more access to `pa`, by the code at `pc`.
pub open spec fn noted(
    log: Map<u32, AccessStat>,
    pa: u32,
    pc: u32,
    write: bool,
    val: u32,
) -> Map<u32, AccessStat> {
    let e = if log.contains_key(pa) {
        log[pa]
    } else {
        AccessStat::from_pc(pc)
    };
    log.insert(pa, e.counted(write, val))
}

/// Record an access to `pa` in `log`.
pub fn note_access(
    log: &mut BTreeMap<u32, AccessStat>,
    pa: u32,
    pc: u32,
    write: bool,
    val: u32,
)
    ensures
        final(log)@ == noted(old(log)@, pa, pc, write, val),
{
    let mut e: AccessStat = match log.get(&pa) {
        Some(found) => *found,
        None => AccessStat { reads: 0, writes: 0, first_pc: pc, last_value: 0 },
    };
    if write {
        e.writes = e.writes.wrapping_add(1);
        e.last_value = val;
    } else {
        e.reads = e.reads.wrapping_add(1);
    }
    log.insert(pa, e);
}

pub struct Pxa270 {
    pub intc: Intc,
    pub ac97: Ac97,
    pub dma: Dma,
    pub ost: Ost,
    pub mmc: Mmc,
    pub gpio: Gpio,
    pub i2c: I2c,
    pub ffuart: Uart,
    pub btuart: Uart,
    pub stuart: Uart,
    pub clocks: ClockManager,
    pub pmu: Pmu,
    pub rtc: Rtc,
    pub memc: MemoryController,
    /// The USB host controller, and the root hub a storage device plugs into.
    pub ohci: Ohci,
    pub sram: Vec<u8>,
    /// Accesses to peripherals that are not modelled.
    pub unimplemented: BTreeMap<u32, AccessStat>,
    /// Set by the runner before each instruction so the log can attribute
    /// unimplemented accesses to code.
    pub pc: u32,
    pub cpu_hz: u64,
}

/// What a [`Pxa270`] holds.
#[verifier::ext_equal]
pub struct SocState {
    pub intc: Intc,
    pub ac97: Ac97State,
    pub dma: Dma,
    pub ost: Ost,
    pub mmc: MmcState,
    pub gpio: GpioState,
    pub i2c: I2cState,
    pub ffuart: UartState,
    pub btuart: UartState,
    pub stuart: UartState,
    pub clocks: ClockManager,
    pub pmu: Pmu,
    pub rtc: Rtc,
    pub memc: MemoryController,
    pub ohci: OhciState,
    pub sram: Seq<u8>,
    pub unimplemented: Map<u32, AccessStat>,
    pub pc: u32,
    pub cpu_hz: u64,
}

impl View for Pxa270 {
    type V = SocState;

    open spec fn view(&self) -> SocState {
        SocState {
            intc: self.intc,
            ac97: self.ac97@,
            dma: self.dma,
            ost: self.ost,
            mmc: self.mmc@,
            gpio: self.gpio@,
            i2c: self.i2c@,
            ffuart: self.ffuart@,
            btuart: self.btuart@,
            stuart: self.stuart@,
            clocks: self.clocks,
            pmu: self.pmu,
            rtc: self.rtc,
            memc: self.memc,
            ohci: self.ohci@,
            sram: self.sram@,
            unimplemented: self.unimplemented@,
            pc: self.pc,
            cpu_hz: self.cpu_hz,
        }
    }
}

/// The megabyte that an address lies in.
pub open spec fn block_of(pa: u32) -> u32 {
    pa & 0xFFF0_0000
}

/// An address within its megabyte.
pub open spec fn offset_of(pa: u32) -> u32 {
    pa & 0x000F_FFFF
}

/// Where an SRAM address lands; the 256 KB repeat through their megabyte.
pub open spec fn sram_at(pa: u32) -> int {
    (pa & 0x0003_FFFF) as int
}

/// An `n`-byte access at `pa` does not run off the end of SRAM.
pub open spec fn sram_ok(pa: u32, n: int) -> bool {
    SRAM_BASE <= pa < SRAM_BASE + 0x10_0000 ==> pa % 0x4_0000 + n <= SRAM_SIZE
}

/// The SRAM's megabyte, and where an address in it lands, as numbers.
pub proof fn lemma_sram(pa: u32)
    ensures
        block_of(pa) == SRAM_BASE <==> SRAM_BASE <= pa < SRAM_BASE + 0x10_0000,
        sram_at(pa) == pa % 0x4_0000,
{
    lemma_places(pa);
}

/// What masking does to an address.
proof fn lemma_places(pa: u32)
    ensures
        pa & 0xFFF0_0000 == pa - pa % 0x10_0000,
        pa & 0x000F_FFFF == pa % 0x10_0000,
        pa & 0x0003_FFFF == pa % 0x4_0000,
        ((pa & !3u32) & 0x0003_FFFF) + 4 <= 0x4_0000,
        (pa & 0x0003_FFFF) < 0x4_0000,
        (pa & !3u32) & 0xFFF0_0000 == pa & 0xFFF0_0000,
        pa & 3 <= 3,
        pa & 2 <= 2,
{
    assert(pa & 0xFFF0_0000 == pa - pa % 0x10_0000 && pa & 0x000F_FFFF == pa % 0x10_0000 && pa
        & 0x0003_FFFF == pa % 0x4_0000 && ((pa & !3u32) & 0x0003_FFFF) + 4 <= 0x4_0000 && (pa
        & 0x0003_FFFF) < 0x4_0000 && (pa & !3u32) & 0xFFF0_0000 == pa & 0xFFF0_0000 && pa & 3 <= 3
        && pa & 2 <= 2) by (bit_vector);
}

/// Addresses of the SoC's blocks, by the megabyte.
pub open spec fn is_soc_block(base: u32) -> bool {
    0x4000_0000 <= base <= 0x4200_0000 || base == 0x4400_0000 || base == 0x4800_0000 || base
        == 0x4C00_0000 || base == SRAM_BASE
}

impl SocState {
    /// The SRAM has its size and every clock runs against the same rate.
    pub open spec fn wf(self) -> bool {
        &&& self.sram.len() == SRAM_SIZE
        &&& self.ost.wf()
        &&& self.rtc.wf()
        &&& self.ost.cpu_hz == self.cpu_hz
        &&& self.rtc.cpu_hz == self.cpu_hz
        &&& self.ac97.wf()
        &&& self.ac97.frac < self.cpu_hz
    }

    /// As the part comes out of reset, its clocks at the rate given.
    pub open spec fn at_reset(self, cpu_hz: u64) -> bool {
        &&& self.intc.at_reset()
        &&& self.ac97 == Ac97State::at_reset()
        &&& self.dma.channels@ =~= Seq::new(32, |i: int| dma::Channel::idle())
        &&& self.dma.drcmr@ =~= Seq::new(75, |i: int| 0u32)
        &&& self.dma.bytes_moved == 0
        &&& self.dma.descriptors_run == 0
        &&& self.ost.osmr@ =~= seq![0u32, 0, 0, 0]
        &&& self.ost.oscr == 0
        &&& self.ost.ossr == 0
        &&& self.ost.oier == 0
        &&& self.ost.ower == 0
        &&& self.ost.frac == 0
        &&& self.ost.cpu_hz == cpu_hz
        &&& self.mmc == MmcState::at_reset()
        &&& self.gpio.at_reset()
        &&& self.i2c == I2cState::at_reset()
        &&& self.ffuart == UartState::fresh(intc::IRQ_FFUART)
        &&& self.btuart == UartState::fresh(intc::IRQ_BTUART)
        &&& self.stuart == UartState::fresh(intc::IRQ_STUART)
        &&& self.clocks == (ClockManager {
            cccr: power::CCCR_RESET,
            cken: 0,
            oscc: 0,
            ccsr: power::CCCR_RESET,
        })
        &&& self.pmu.rcsr == power::RCSR_HARDWARE
        &&& self.pmu.regs@ =~= Seq::new(64, |i: int| 0u32)
        &&& self.rtc.rcnr == 0
        &&& self.rtc.rtar == 0
        &&& self.rtc.rtsr == 0
        &&& self.rtc.rttr == 0x7FFF
        &&& self.rtc.frac == 0
        &&& self.rtc.cpu_hz == cpu_hz
        &&& self.rtc.accesses@ =~= Seq::new(16, |i: int| (0u64, 0u64))
        &&& self.ohci == OhciState::fresh()
        &&& self.sram == Seq::new(SRAM_SIZE as nat, |i: int| 0u8)
        &&& self.unimplemented == Map::<u32, AccessStat>::empty()
        &&& self.pc == 0
        &&& self.cpu_hz == cpu_hz
        &&& self.memc.regs@ =~= MemoryController::as_configured()
    }

    /// The SoC after `cycles` CPU cycles: OS timer, then clock, then codec.
    pub open spec fn ticked(self, cycles: u32) -> SocState {
        let ost = self.ost.ticked(cycles);
        let intc1 = if self.ost.accumulated(cycles) / (self.cpu_hz as int) == 0 {
            self.intc
        } else {
            ost.drive(self.intc)
        };
        let rtc = self.rtc.ticked(cycles);
        let intc2 = if self.rtc.frac + cycles < self.cpu_hz {
            intc1
        } else {
            rtc.drive(intc1)
        };
        SocState { ost, rtc, intc: intc2, ac97: self.ac97.ticked(cycles, self.cpu_hz), ..self }
    }

    pub open spec fn read32_spec(self, pa: u32) -> u32 {
        let base = block_of(pa);
        let off = offset_of(pa);
        if base == uart::FFUART {
            self.ffuart.read_spec(off)
        } else if base == uart::BTUART {
            self.btuart.read_spec(off)
        } else if base == uart::STUART {
            self.stuart.read_spec(off)
        } else if base == ac97::BASE {
            self.ac97.read_spec(off)
        } else if base == dma::BASE {
            self.dma.read_spec(off)
        } else if base == ost::BASE {
            self.ost.read_spec(off)
        } else if base == mmc::BASE {
            self.mmc.read_spec(off)
        } else if base == intc::BASE {
            self.intc.read_spec(off)
        } else if base == gpio::BASE {
            self.gpio.read_spec(off)
        } else if base == i2c::BASE {
            self.i2c.read_spec(off)
        } else if base == power::CLKMGR_BASE {
            self.clocks.read_spec(off)
        } else if base == power::PMU_BASE {
            self.pmu.read_spec(off)
        } else if base == power::RTC_BASE {
            self.rtc.read_spec(off)
        } else if base == power::MEMC_BASE {
            self.memc.read_spec(off)
        } else if base == ohci::BASE {
            self.ohci.read_spec(off)
        } else if base == SRAM_BASE {
            crate::bytes::word32(self.sram, sram_at(pa))
        } else {
            0
        }
    }

    /// What a word read at `pa` leaves behind: some registers change by being
    /// read, and a read of nothing is noted.
    pub open spec fn after_read32(self, pa: u32) -> SocState {
        let base = block_of(pa);
        let off = offset_of(pa);
        if base == uart::FFUART {
            let u = self.ffuart.after_read(off);
            SocState { ffuart: u, intc: u.drive(self.intc), ..self }
        } else if base == uart::BTUART {
            let u = self.btuart.after_read(off);
            SocState { btuart: u, intc: u.drive(self.intc), ..self }
        } else if base == uart::STUART {
            let u = self.stuart.after_read(off);
            SocState { stuart: u, intc: u.drive(self.intc), ..self }
        } else if base == ac97::BASE {
            let a = self.ac97.after_read(off);
            SocState { ac97: a, intc: a.drive(self.intc), ..self }
        } else if base == mmc::BASE {
            let m = self.mmc.after_read(off);
            SocState { mmc: m, intc: m.drive(self.intc), ..self }
        } else if base == power::RTC_BASE {
            SocState { rtc: self.rtc.counted(off, false), ..self }
        } else if base == ohci::BASE {
            SocState { ohci: self.ohci.after_read(off), ..self }
        } else if base == dma::BASE || base == ost::BASE || base == intc::BASE || base
            == gpio::BASE || base == i2c::BASE || base == power::CLKMGR_BASE || base
            == power::PMU_BASE || base == power::MEMC_BASE || base == SRAM_BASE {
            self
        } else {
            SocState {
                unimplemented: noted(self.unimplemented, pa, self.pc, false, 0),
                ..self
            }
        }
    }

    pub open spec fn written32(self, pa: u32, val: u32) -> SocState {
        let base = block_of(pa);
        let off = offset_of(pa);
        if base == uart::FFUART {
            let u = self.ffuart.written_from(off, val, self.pc);
            SocState { ffuart: u, intc: u.drive(self.intc), ..self }
        } else if base == uart::BTUART {
            let u = self.btuart.written_from(off, val, self.pc);
            SocState { btuart: u, intc: u.drive(self.intc), ..self }
        } else if base == uart::STUART {
            let u = self.stuart.written_from(off, val, self.pc);
            SocState { stuart: u, intc: u.drive(self.intc), ..self }
        } else if base == ac97::BASE {
            let a = self.ac97.written(off, val);
            SocState { ac97: a, intc: a.drive(self.intc), ..self }
        } else if base == dma::BASE {
            let d = self.dma.written(off, val);
            SocState { dma: d, intc: d.drive(self.intc), ..self }
        } else if base == ost::BASE {
            let o = self.ost.written(off, val);
            SocState { ost: o, intc: o.drive(self.intc), ..self }
        } else if base == mmc::BASE {
            let m = self.mmc.written(off, val);
            SocState { mmc: m, intc: m.drive(self.intc), ..self }
        } else if base == intc::BASE {
            SocState { intc: self.intc.written(off, val), ..self }
        } else if base == gpio::BASE {
            let g = (GpioState { pc: self.pc, ..self.gpio }).written(off, val);
            SocState {
                gpio: g,
                intc: if GpioState::write_drives(off) {
                    g.drive(self.intc)
                } else {
                    self.intc
                },
                ..self
            }
        } else if base == i2c::BASE {
            let i = self.i2c.written(off, val);
            SocState {
                i2c: i,
                intc: if I2cState::write_drives(off, val) {
                    i.drive(self.intc)
                } else {
                    self.intc
                },
                ..self
            }
        } else if base == power::CLKMGR_BASE {
            SocState { clocks: self.clocks.written(off, val), ..self }
        } else if base == power::PMU_BASE {
            SocState { pmu: self.pmu.written(off, val), ..self }
        } else if base == power::RTC_BASE {
            let r = self.rtc.written(off, val);
            SocState { rtc: r, intc: r.drive(self.intc), ..self }
        } else if base == power::MEMC_BASE {
            SocState { memc: self.memc.written(off, val), ..self }
        } else if base == ohci::BASE {
            let h = self.ohci.written(off, val);
            SocState {
                ohci: h,
                intc: if self.ohci.write_drives(off, val) {
                    h.drive(self.intc)
                } else {
                    self.intc
                },
                ..self
            }
        } else if base == SRAM_BASE {
            SocState {
                sram: crate::bytes::overlaid(self.sram, sram_at(pa), crate::bytes::le32(val)),
                ..self
            }
        } else {
            SocState {
                unimplemented: noted(self.unimplemented, pa, self.pc, true, val),
                ..self
            }
        }
    }

    pub open spec fn read8_spec(self, pa: u32) -> u8 {
        (self.read32_spec(pa & !3u32) >> ((8 * (pa & 3)) as u32)) as u8
    }

    pub open spec fn read16_spec(self, pa: u32) -> u16 {
        (self.read32_spec(pa & !3u32) >> ((8 * (pa & 2)) as u32)) as u16
    }

    pub open spec fn written8(self, pa: u32, val: u8) -> SocState {
        if block_of(pa) == SRAM_BASE {
            SocState { sram: self.sram.update(sram_at(pa), val), ..self }
        } else {
            self.written32(pa & !3u32, val as u32)
        }
    }

    pub open spec fn written16(self, pa: u32, val: u16) -> SocState {
        if block_of(pa) == SRAM_BASE {
            SocState {
                sram: crate::bytes::overlaid(self.sram, sram_at(pa), crate::bytes::le16(val)),
                ..self
            }
        } else {
            self.written32(pa & !3u32, val as u32)
        }
    }
}

/// Narrow accesses stay inside the word they fall in.
proof fn lemma_word_of(pa: u32)
    ensures
        sram_ok(pa & !3u32, 4),
        sram_at(pa) < SRAM_SIZE,
        block_of(pa & !3u32) == block_of(pa),
        pa & 3 <= 3,
        pa & 2 <= 2,
{
    lemma_places(pa);
    lemma_sram(pa & !3u32);
}

impl Pxa270 {
    pub fn new(cpu_hz: u64) -> (r: Self)
        ensures
            r@.at_reset(cpu_hz),
            0 < cpu_hz <= ost::MAX_CPU_HZ ==> r@.wf(),
    {
        Pxa270 {
            intc: Intc::default(),
            ac97: Ac97::default(),
            dma: Dma::default(),
            ost: Ost::new(cpu_hz),
            mmc: Mmc::default(),
            gpio: Gpio::default(),
            i2c: I2c::default(),
            ffuart: Uart::new(intc::IRQ_FFUART),
            btuart: Uart::new(intc::IRQ_BTUART),
            stuart: Uart::new(intc::IRQ_STUART),
            clocks: ClockManager::default(),
            pmu: Pmu::default(),
            rtc: Rtc::new(cpu_hz),
            memc: MemoryController::default(),
            ohci: Ohci::new(),
            sram: crate::bytes::filled(SRAM_SIZE, 0),
            unimplemented: BTreeMap::new(),
            pc: 0,
            cpu_hz,
        }
    }

    pub fn tick(&mut self, cycles: u32)
        requires
            old(self)@.wf(),
        ensures
            final(self)@ == old(self)@.ticked(cycles),
            final(self)@.wf(),
    {
        proof {
            let a = self.ac97@;
            let total = a.accumulated(cycles);
            assert(0 <= cycles * a.pcm_rate_spec() <= 0xFFFF_FFFF * 48_000) by (nonlinear_arith)
                requires
                    0 <= cycles <= 0xFFFF_FFFF,
                    0 <= a.pcm_rate_spec() <= 48_000,
            ;
            vstd::arithmetic::div_mod::lemma_div_is_ordered_by_denominator(
                total,
                1,
                self.cpu_hz as int,
            );
            ac97::law_credit_is_bounded(a, cycles, self.cpu_hz, 0);
        }
        self.ost.tick(cycles, &mut self.intc);
        self.rtc.tick(cycles, &mut self.intc);
        self.ac97.tick(cycles, self.cpu_hz);
    }

    /// True when the physical address belongs to the SoC rather than the board.
    pub fn owns(&self, pa: u32) -> (r: bool)
        ensures
            r == is_soc_block(block_of(pa)),
    {
        let base: u32 = pa & 0xFFF0_0000;
        0x4000_0000 <= base && base <= 0x4200_0000 || base == 0x4400_0000 || base == 0x4800_0000
            || base == 0x4C00_0000 || base == SRAM_BASE
    }

    fn note(&mut self, pa: u32, write: bool, val: u32)
        ensures
            final(self)@ == (SocState {
                unimplemented: noted(old(self)@.unimplemented, pa, old(self)@.pc, write, val),
                ..old(self)@
            }),
    {
        note_access(&mut self.unimplemented, pa, self.pc, write, val);
    }

    pub fn read32(&mut self, pa: u32) -> (r: u32)
        requires
            old(self)@.wf(),
            sram_ok(pa, 4),
        ensures
            r == old(self)@.read32_spec(pa),
            final(self)@ == old(self)@.after_read32(pa),
            final(self)@.wf(),
    {
        proof {
            lemma_sram(pa);
        }
        let base: u32 = pa & 0xFFF0_0000;
        let off: u32 = pa & 0x000F_FFFF;
        if base == uart::FFUART {
            self.ffuart.read(off, &mut self.intc)
        } else if base == uart::BTUART {
            self.btuart.read(off, &mut self.intc)
        } else if base == uart::STUART {
            self.stuart.read(off, &mut self.intc)
        } else if base == ac97::BASE {
            self.ac97.read(off, &mut self.intc)
        } else if base == dma::BASE {
            self.dma.read(off)
        } else if base == ost::BASE {
            self.ost.read(off)
        } else if base == mmc::BASE {
            self.mmc.read(off, &mut self.intc)
        } else if base == intc::BASE {
            self.intc.read(off)
        } else if base == gpio::BASE {
            self.gpio.read(off)
        } else if base == i2c::BASE {
            self.i2c.read(off)
        } else if base == power::CLKMGR_BASE {
            self.clocks.read(off)
        } else if base == power::PMU_BASE {
            self.pmu.read(off)
        } else if base == power::RTC_BASE {
            self.rtc.read(off)
        } else if base == power::MEMC_BASE {
            self.memc.read(off)
        } else if base == ohci::BASE {
            self.ohci.read(off, &mut self.intc)
        } else if base == SRAM_BASE {
            crate::bytes::get32(self.sram.as_slice(), (pa & 0x0003_FFFF) as usize)
        } else {
            self.note(pa, false, 0);
            0
        }
    }

    pub fn write32(&mut self, pa: u32, val: u32)
        requires
            old(self)@.wf(),
            sram_ok(pa, 4),
        ensures
            final(self)@ == old(self)@.written32(pa, val),
            final(self)@.wf(),
    {
        proof {
            lemma_sram(pa);
        }
        let base: u32 = pa & 0xFFF0_0000;
        let off: u32 = pa & 0x000F_FFFF;
        if base == uart::FFUART {
            self.ffuart.write_from(off, val, &mut self.intc, self.pc)
        } else if base == uart::BTUART {
            self.btuart.write_from(off, val, &mut self.intc, self.pc)
        } else if base == uart::STUART {
            self.stuart.write_from(off, val, &mut self.intc, self.pc)
        } else if base == ac97::BASE {
            self.ac97.write(off, val, &mut self.intc)
        } else if base == dma::BASE {
            self.dma.write(off, val, &mut self.intc)
        } else if base == ost::BASE {
            self.ost.write(off, val, &mut self.intc)
        } else if base == mmc::BASE {
            self.mmc.write(off, val, &mut self.intc)
        } else if base == intc::BASE {
            self.intc.write(off, val)
        } else if base == gpio::BASE {
            self.gpio.pc = self.pc;
            self.gpio.write(off, val, &mut self.intc)
        } else if base == i2c::BASE {
            self.i2c.write(off, val, &mut self.intc)
        } else if base == power::CLKMGR_BASE {
            self.clocks.write(off, val)
        } else if base == power::PMU_BASE {
            self.pmu.write(off, val)
        } else if base == power::RTC_BASE {
            self.rtc.write(off, val, &mut self.intc)
        } else if base == power::MEMC_BASE {
            self.memc.write(off, val)
        } else if base == ohci::BASE {
            self.ohci.write(off, val, &mut self.intc)
        } else if base == SRAM_BASE {
            crate::bytes::put32(&mut self.sram, (pa & 0x0003_FFFF) as usize, val)
        } else {
            self.note(pa, true, val)
        }
    }

    /// Byte and halfword accesses go through the word path. Every PXA
    /// register that firmware touches byte-wise is in the UARTs, where the
    /// low byte is the whole story.
    pub fn read8(&mut self, pa: u32) -> (r: u8)
        requires
            old(self)@.wf(),
        ensures
            r == old(self)@.read8_spec(pa),
            final(self)@ == old(self)@.after_read32(pa & !3u32),
            final(self)@.wf(),
    {
        proof {
            lemma_word_of(pa);
        }
        (self.read32(pa & !3u32) >> (8 * (pa & 3))) as u8
    }

    pub fn read16(&mut self, pa: u32) -> (r: u16)
        requires
            old(self)@.wf(),
        ensures
            r == old(self)@.read16_spec(pa),
            final(self)@ == old(self)@.after_read32(pa & !3u32),
            final(self)@.wf(),
    {
        proof {
            lemma_word_of(pa);
        }
        (self.read32(pa & !3u32) >> (8 * (pa & 2))) as u16
    }

    pub fn write8(&mut self, pa: u32, val: u8)
        requires
            old(self)@.wf(),
        ensures
            final(self)@ == old(self)@.written8(pa, val),
            final(self)@.wf(),
    {
        proof {
            lemma_word_of(pa);
        }
        if pa & 0xFFF0_0000 == SRAM_BASE {
            self.sram[(pa & 0x0003_FFFF) as usize] = val;
            return ;
        }
        self.write32(pa & !3u32, val as u32);
    }

    pub fn write16(&mut self, pa: u32, val: u16)
        requires
            old(self)@.wf(),
            sram_ok(pa, 2),
        ensures
            final(self)@ == old(self)@.written16(pa, val),
            final(self)@.wf(),
    {
        proof {
            lemma_word_of(pa);
            lemma_sram(pa);
        }
        if pa & 0xFFF0_0000 == SRAM_BASE {
            crate::bytes::put16(&mut self.sram, (pa & 0x0003_FFFF) as usize, val);
            return ;
        }
        self.write32(pa & !3u32, val as u32);
    }

    pub fn irq_pending(&self) -> (r: bool)
        ensures
            r == self@.intc.irq_spec(),
    {
        self.intc.irq_line()
    }

    pub fn fiq_pending(&self) -> (r: bool)
        ensures
            r == self@.intc.fiq_spec(),
    {
        self.intc.fiq_line()
    }
}

/// SRAM reads back the word written to it.
pub proof fn law_sram_reads_back(s: SocState, pa: u32, val: u32)
    requires
        s.wf(),
        block_of(pa) == SRAM_BASE,
        sram_ok(pa, 4),
    ensures
        s.written32(pa, val).read32_spec(pa) == val,
{
    lemma_sram(pa);
    crate::bytes::lemma_word32_round_trip(val);
}

/// A write to one block of the SoC never changes what memory or another
/// unrelated register block holds: only the addressed device and the
/// interrupt controller move.
pub proof fn law_writes_touch_one_device(s: SocState, pa: u32, val: u32)
    ensures
        block_of(pa) != SRAM_BASE ==> s.written32(pa, val).sram == s.sram,
        block_of(pa) != gpio::BASE ==> s.written32(pa, val).gpio == s.gpio,
        block_of(pa) != mmc::BASE ==> s.written32(pa, val).mmc == s.mmc,
        block_of(pa) != ohci::BASE ==> s.written32(pa, val).ohci == s.ohci,
        block_of(pa) != dma::BASE ==> s.written32(pa, val).dma == s.dma,
        block_of(pa) != ac97::BASE ==> s.written32(pa, val).ac97 == s.ac97,
        block_of(pa) != i2c::BASE ==> s.written32(pa, val).i2c == s.i2c,
        block_of(pa) != ost::BASE ==> s.written32(pa, val).ost == s.ost,
        block_of(pa) != power::RTC_BASE ==> s.written32(pa, val).rtc == s.rtc,
        s.written32(pa, val).cpu_hz == s.cpu_hz,
{
}

/// Where an address lies, as numbers: its megabyte, and how far into it.
pub proof fn lemma_megabyte(pa: u32)
    ensures
        block_of(pa) == pa - pa % 0x10_0000,
        offset_of(pa) == pa % 0x10_0000,
{
    lemma_places(pa);
}

/// Each device answers in the megabyte at its address: a word that is read
/// there is the device's register, by its offset.
pub proof fn law_devices_answer_at_their_addresses(s: SocState, pa: u32)
    ensures
        ({
            let off = (pa % 0x10_0000) as u32;
            let at = pa / 0x10_0000;
            &&& at == 0x400 ==> s.read32_spec(pa) == s.dma.read_spec(off)
            &&& at == 0x401 ==> s.read32_spec(pa) == s.ffuart.read_spec(off)
            &&& at == 0x402 ==> s.read32_spec(pa) == s.btuart.read_spec(off)
            &&& at == 0x403 ==> s.read32_spec(pa) == s.i2c.read_spec(off)
            &&& at == 0x405 ==> s.read32_spec(pa) == s.ac97.read_spec(off)
            &&& at == 0x407 ==> s.read32_spec(pa) == s.stuart.read_spec(off)
            &&& at == 0x409 ==> s.read32_spec(pa) == s.rtc.read_spec(off)
            &&& at == 0x40A ==> s.read32_spec(pa) == s.ost.read_spec(off)
            &&& at == 0x40D ==> s.read32_spec(pa) == s.intc.read_spec(off)
            &&& at == 0x40E ==> s.read32_spec(pa) == s.gpio.read_spec(off)
            &&& at == 0x40F ==> s.read32_spec(pa) == s.pmu.read_spec(off)
            &&& at == 0x411 ==> s.read32_spec(pa) == s.mmc.read_spec(off)
            &&& at == 0x413 ==> s.read32_spec(pa) == s.clocks.read_spec(off)
            &&& at == 0x480 ==> s.read32_spec(pa) == s.memc.read_spec(off)
            &&& at == 0x4C0 ==> s.read32_spec(pa) == s.ohci.read_spec(off)
        }),
{
    lemma_megabyte(pa);
}

/// A word that is written goes to the device at its address.
pub proof fn law_writes_reach_their_device(s: SocState, pa: u32, val: u32)
    ensures
        ({
            let off = (pa % 0x10_0000) as u32;
            let at = pa / 0x10_0000;
            let w = s.written32(pa, val);
            &&& at == 0x400 ==> w.dma == s.dma.written(off, val)
            &&& at == 0x401 ==> w.ffuart == s.ffuart.written_from(off, val, s.pc)
            &&& at == 0x402 ==> w.btuart == s.btuart.written_from(off, val, s.pc)
            &&& at == 0x403 ==> w.i2c == s.i2c.written(off, val)
            &&& at == 0x405 ==> w.ac97 == s.ac97.written(off, val)
            &&& at == 0x407 ==> w.stuart == s.stuart.written_from(off, val, s.pc)
            &&& at == 0x409 ==> w.rtc == s.rtc.written(off, val)
            &&& at == 0x40A ==> w.ost == s.ost.written(off, val)
            &&& at == 0x40D ==> w.intc == s.intc.written(off, val)
            &&& at == 0x40F ==> w.pmu == s.pmu.written(off, val)
            &&& at == 0x411 ==> w.mmc == s.mmc.written(off, val)
            &&& at == 0x413 ==> w.clocks == s.clocks.written(off, val)
            &&& at == 0x480 ==> w.memc == s.memc.written(off, val)
            &&& at == 0x4C0 ==> w.ohci == s.ohci.written(off, val)
            &&& at == 0x40E ==> w.gpio == (GpioState { pc: s.pc, ..s.gpio }).written(off, val)
        }),
{
    lemma_megabyte(pa);
}

/// An access log has an entry for each address that was touched, which counts
/// its reads and writes, keeps the last value written, and remembers who
/// touched it first; the entries of other addresses do not move.
pub proof fn law_accesses_are_counted(
    log: Map<u32, AccessStat>,
    pa: u32,
    pc: u32,
    write: bool,
    val: u32,
    other: u32,
)
    requires
        log.contains_key(pa) ==> log[pa].reads < u32::MAX && log[pa].writes < u32::MAX,
        other != pa,
    ensures
        ({
            let after = noted(log, pa, pc, write, val);
            let known = log.contains_key(pa);
            let e = after[pa];
            &&& after.contains_key(pa)
            &&& e.reads == (if known {
                log[pa].reads as int
            } else {
                0
            }) + (if write {
                0int
            } else {
                1
            })
            &&& e.writes == (if known {
                log[pa].writes as int
            } else {
                0
            }) + (if write {
                1int
            } else {
                0
            })
            &&& e.first_pc == if known {
                log[pa].first_pc
            } else {
                pc
            }
            &&& write ==> e.last_value == val
            &&& !write && known ==> e.last_value == log[pa].last_value
            &&& after.contains_key(other) == log.contains_key(other)
            &&& log.contains_key(other) ==> after[other] == log[other]
        }),
{
}

/// A log with a run of entries added, one after another.
pub open spec fn all_logged<T>(log: Seq<T>, entries: Seq<T>, limit: int) -> Seq<T>
    decreases entries.len(),
{
    if entries.len() == 0 {
        log
    } else {
        logged(all_logged(log, entries.drop_last(), limit), entries.last(), limit)
    }
}

/// A log keeps the first entries it is given, in order, as many as it has room
/// for.
pub proof fn law_a_log_keeps_its_first_entries<T>(entries: Seq<T>, limit: int)
    requires
        0 <= limit,
    ensures
        all_logged(Seq::<T>::empty(), entries, limit) == entries.take(
            if entries.len() < limit {
                entries.len() as int
            } else {
                limit
            },
        ),
    decreases entries.len(),
{
    if entries.len() == 0 {
        assert(entries.take(0) =~= Seq::<T>::empty());
    } else {
        let front = entries.drop_last();
        law_a_log_keeps_its_first_entries(front, limit);
        if entries.len() <= limit {
            assert(front.take(front.len() as int).push(entries.last()) =~= entries.take(
                entries.len() as int,
            ));
        } else {
            assert(front.take(limit) =~= entries.take(limit));
        }
    }
}

} // verus!
