//! Clock manager, power manager, real-time clock and memory controller.
//!
//! EBOOT reads all of them during startup: it prints the run-mode and turbo
//! multipliers from CCCR, and it reads RCSR to decide whether it came up from
//! a cold boot, a watchdog reset or a resume from sleep.

use super::intc::{Intc, IRQ_RTC_ALARM, IRQ_RTC_HZ};
use vstd::prelude::*;

verus! {

pub const CLKMGR_BASE: u32 = 0x4130_0000;
pub const PMU_BASE: u32 = 0x40F0_0000;
pub const RTC_BASE: u32 = 0x4090_0000;

/// L = 16, 2N = 2 (turbo x1), A = 0: a 13 MHz crystal times L gives a
/// 208 MHz run mode, which is a configuration the PXA270 ships in and which
/// EBOOT prints without complaint.
pub const CCCR_RESET: u32 = 0x110;

pub struct ClockManager {
    pub cccr: u32,
    pub cken: u32,
    pub oscc: u32,
    pub ccsr: u32,
}

impl Default for ClockManager {
    fn default() -> (r: Self)
        ensures
            r == (ClockManager { cccr: CCCR_RESET, cken: 0, oscc: 0, ccsr: CCCR_RESET }),
    {
        ClockManager { cccr: CCCR_RESET, cken: 0, oscc: 0, ccsr: CCCR_RESET }
    }
}

impl ClockManager {
    pub open spec fn read_spec(self, offset: u32) -> u32 {
        if offset == 0x00 {
            self.cccr
        } else if offset == 0x04 {
            self.cken
        } else if offset == 0x08 {
            self.oscc
        } else if offset == 0x0C {
            self.ccsr
        } else {
            0
        }
    }

    pub open spec fn written(self, offset: u32, val: u32) -> ClockManager {
        if offset == 0x00 {
            ClockManager { cccr: val, ccsr: val, ..self }
        } else if offset == 0x04 {
            ClockManager { cken: val, ..self }
        } else if offset == 0x08 {
            ClockManager { oscc: val | ((val & 0x2) >> 1), ..self }
        } else {
            self
        }
    }

    pub fn read(&self, offset: u32) -> (r: u32)
        ensures
            r == self.read_spec(offset),
    {
        match offset {
            0x00 => self.cccr,
            0x04 => self.cken,
            0x08 => self.oscc,
            0x0C => self.ccsr,
            _ => 0,
        }
    }

    pub fn write(&mut self, offset: u32, val: u32)
        ensures
            *final(self) == old(self).written(offset, val),
    {
        match offset {
            0x00 => {
                self.cccr = val;
                self.ccsr = val;
            },
            0x04 => self.cken = val,
            0x08 => {
                // Bit 1 requests the 32.768 kHz oscillator; bit 0 reports it
                // running. Firmware spins on bit 0, so grant it immediately.
                self.oscc = val | ((val & 0x2) >> 1);
            },
            _ => {},
        }
    }
}

/// Requesting the oscillator makes it report itself running.
pub proof fn law_oscillator_reports_ready(c: ClockManager, val: u32)
    requires
        val & 0x2 != 0,
    ensures
        c.written(0x08, val).read_spec(0x08) & 1 == 1,
{
    lemma_status_bits(0, val);
}

/// Reset controller status bits, reported in RCSR.
///
/// Bit 2 is **sleep-mode reset**, not a software one. It is how the firmware
/// tells a resume from a cold boot: waking this part is architecturally a
/// reset, and the only thing that says the memory is still worth anything is
/// this bit.
pub const RCSR_HARDWARE: u32 = 0x1;
pub const RCSR_WATCHDOG: u32 = 0x2;
pub const RCSR_SLEEP: u32 = 0x4;
pub const RCSR_GPIO: u32 = 0x8;

pub struct Pmu {
    pub regs: [u32; 64],
    pub rcsr: u32,
}

impl Default for Pmu {
    fn default() -> (r: Self)
        ensures
            r.regs@ =~= Seq::new(64, |i: int| 0u32),
            r.rcsr == RCSR_HARDWARE,
    {
        Pmu { regs: [0; 64], rcsr: RCSR_HARDWARE }
    }
}

impl Pmu {
    pub open spec fn read_spec(self, offset: u32) -> u32 {
        if offset == 0x30 {
            self.rcsr
        } else if offset / 4 < 64 {
            self.regs[(offset / 4) as int]
        } else {
            0
        }
    }

    /// RCSR is write-one-to-clear; everything else is a plain cell.
    pub open spec fn written(self, offset: u32, val: u32) -> Pmu {
        if offset == 0x30 {
            Pmu { rcsr: self.rcsr & !val, ..self }
        } else if offset / 4 < 64 {
            Pmu {
                regs: vstd::array::spec_array_update(self.regs, (offset / 4) as int, val),
                ..self
            }
        } else {
            self
        }
    }

    pub fn read(&self, offset: u32) -> (r: u32)
        ensures
            r == self.read_spec(offset),
    {
        if offset == 0x30 {
            self.rcsr
        } else if offset / 4 < 64 {
            self.regs[(offset / 4) as usize]
        } else {
            0
        }
    }

    pub fn write(&mut self, offset: u32, val: u32)
        ensures
            *final(self) == old(self).written(offset, val),
    {
        if offset == 0x30 {
            self.rcsr = self.rcsr & !val;
        } else if offset / 4 < 64 {
            self.regs[(offset / 4) as usize] = val;
        }
    }
}

/// Seconds from the Unix epoch to the one this machine counts from.
///
/// `RCNR` counts seconds from midnight on **1 January 1980**: the OAL's year
/// loop starts at `0x7bc`, which is 1980, and its day-of-week is
/// `(days + 2) mod 7` with Sunday zero, making day zero a Tuesday, which that
/// day was.
///
/// The machine announces midnight on 1 January **2010** when it has no clock,
/// so 2010 looks like the epoch. The two differ by a whole number of days, so
/// seeding with the wrong one gives exactly the right time of day and a date
/// thirty years out.
pub const EPOCH_IN_UNIX_TIME: u64 = 315_532_800;

pub open spec fn is_leap(y: int) -> bool {
    y % 4 == 0 && (y % 100 != 0 || y % 400 == 0)
}

pub open spec fn month_length(y: int, m: int) -> int {
    if m == 2 {
        if is_leap(y) {
            29
        } else {
            28
        }
    } else if m == 4 || m == 6 || m == 9 || m == 11 {
        30
    } else {
        31
    }
}

/// Leap days before 1 January of year `y`, counting from year 1.
pub open spec fn leap_days_before(y: int) -> int {
    (y - 1) / 4 - (y - 1) / 100 + (y - 1) / 400
}

/// Days of year `y` before the first of month `m`.
pub open spec fn days_before_month(y: int, m: int) -> int
    decreases m,
{
    if m <= 1 {
        0
    } else {
        days_before_month(y, m - 1) + month_length(y, m - 1)
    }
}

/// Days from 1 January 1970 to a Gregorian date.
pub open spec fn civil_days(y: int, m: int, d: int) -> int {
    365 * (y - 1970) + leap_days_before(y) - leap_days_before(1970) + days_before_month(y, m) + d
        - 1
}

proof fn lemma_months(y: int)
    ensures
        days_before_month(y, 1) == 0,
        days_before_month(y, 2) == 31,
        days_before_month(y, 3) == 59 + leap_day(y),
        days_before_month(y, 4) == 90 + leap_day(y),
        days_before_month(y, 5) == 120 + leap_day(y),
        days_before_month(y, 6) == 151 + leap_day(y),
        days_before_month(y, 7) == 181 + leap_day(y),
        days_before_month(y, 8) == 212 + leap_day(y),
        days_before_month(y, 9) == 243 + leap_day(y),
        days_before_month(y, 10) == 273 + leap_day(y),
        days_before_month(y, 11) == 304 + leap_day(y),
        days_before_month(y, 12) == 334 + leap_day(y),
{
    reveal_with_fuel(days_before_month, 13);
}

spec fn leap_day(y: int) -> int {
    if is_leap(y) {
        1
    } else {
        0
    }
}

/// Quotient rounded toward zero.
pub open spec fn toward_zero(a: int, b: int) -> int {
    if a >= 0 {
        a / b
    } else {
        -((-a) / b)
    }
}

/// Days from 1 January 1970, counted in years that start in March so that the
/// leap day comes last. Months are taken modulo a year.
pub open spec fn march_days(y: int, m: int, d: int) -> int {
    let s = if m <= 2 {
        y - 1
    } else {
        y
    };
    let month = m + 9 - 12 * toward_zero(m + 9, 12);
    365 * s + s / 4 - s / 100 + s / 400 + toward_zero(153 * month + 2, 5) + d - 1 - 719468
}

/// The day a date falls on. A month outside the calendar is taken round it.
pub open spec fn day_number(y: int, m: int, d: int) -> int {
    if 1 <= m <= 12 {
        civil_days(y, m, d)
    } else {
        march_days(y, m, d)
    }
}

proof fn lemma_era(s: int, era: int, yoe: int)
    requires
        s == 400 * era + yoe,
        0 <= yoe < 400,
    ensures
        era * 146097 + yoe * 365 + yoe / 4 - yoe / 100 == 365 * s + s / 4 - s / 100 + s / 400,
{
    assert(s / 4 == 100 * era + yoe / 4);
    assert(s / 100 == 4 * era + yoe / 100);
    assert(s / 400 == era);
}

/// A quotient grows by one exactly at the multiples of its divisor.
proof fn lemma_quotient_step(y: int, k: int)
    requires
        k > 1,
    ensures
        y / k == (y - 1) / k + (if y % k == 0 {
            1int
        } else {
            0
        }),
{
    let q = y / k;
    let r = y % k;
    vstd::arithmetic::div_mod::lemma_fundamental_div_mod(y, k);
    vstd::arithmetic::div_mod::lemma_mod_bound(y, k);
    if r == 0 {
        assert(y - 1 == (q - 1) * k + (k - 1)) by (nonlinear_arith)
            requires
                y == k * q + r,
                r == 0,
        ;
        vstd::arithmetic::div_mod::lemma_fundamental_div_mod_converse(y - 1, k, q - 1, k - 1);
    } else {
        assert(y - 1 == q * k + (r - 1)) by (nonlinear_arith)
            requires
                y == k * q + r,
        ;
        vstd::arithmetic::div_mod::lemma_fundamental_div_mod_converse(y - 1, k, q, r - 1);
    }
}

proof fn lemma_leap_days(y: int)
    ensures
        leap_days_before(y + 1) == leap_days_before(y) + leap_day(y),
{
    lemma_quotient_step(y, 4);
    lemma_quotient_step(y, 100);
    lemma_quotient_step(y, 400);
    assert(y % 100 == 0 ==> y % 4 == 0);
    assert(y % 400 == 0 ==> y % 100 == 0);
}

/// Counting from March gives the same day as counting from January.
proof fn lemma_march(y: int, m: int, d: int)
    requires
        1 <= m <= 12,
    ensures
        march_days(y, m, d) == civil_days(y, m, d),
{
    lemma_months(y);
    lemma_leap_days(y);
}

/// Days from 1970-01-01 to a civil date.
pub fn days_from_civil(y: i64, m: i64, d: i64) -> (r: i64)
    requires
        i64::MIN <= day_number(y as int, m as int, d as int) <= i64::MAX,
    ensures
        r == day_number(y as int, m as int, d as int),
{
    day_of(y, m, d) as i64
}

/// Days from 1970-01-01 to a civil date, counting in 400-year eras, with room
/// for any of them.
fn day_of(y: i64, m: i64, d: i64) -> (r: i128)
    ensures
        r == day_number(y as int, m as int, d as int),
{
    let s: i128 = if m <= 2 {
        y as i128 - 1
    } else {
        y as i128
    };
    let era: i128 = floor_div_400(s);
    let yoe: i128 = s - era * 400;
    let shifted: i128 = m as i128 + 9;
    let mp: i128 = if shifted >= 0 {
        shifted % 12
    } else {
        -((-shifted) % 12)
    };
    let scaled: i128 = 153 * mp + 2;
    let month_start: i128 = if scaled >= 0 {
        scaled / 5
    } else {
        -((-scaled) / 5)
    };
    let doy: i128 = month_start + d as i128 - 1;
    let doe: i128 = yoe * 365 + yoe / 4 - yoe / 100 + doy;
    proof {
        lemma_era(s as int, era as int, yoe as int);
        assert(mp == m + 9 - 12 * toward_zero(m + 9, 12));
        if 1 <= m <= 12 {
            lemma_march(y as int, m as int, d as int);
        }
    }
    era * 146097 + doe - 719468
}

/// `y / 400` rounded down.
fn floor_div_400(y: i128) -> (r: i128)
    requires
        i64::MIN - 1 <= y <= i64::MAX,
    ensures
        r == (y as int) / 400,
{
    if y >= 0 {
        y / 400
    } else {
        let up: i128 = -(y + 1);
        -(up / 400) - 1
    }
}

/// A day number stays within a year's slack of its year and day.
proof fn lemma_day_range(y: int, m: int, d: int)
    ensures
        -800_000 <= day_number(y, m, d) - 365 * y - y / 4 + y / 100 - y / 400 - d <= 800_000,
{
    lemma_months(y);
}

/// Seconds from the machine's epoch to a wall-clock time.
pub open spec fn seconds_since_1980(y: int, mo: int, d: int, h: int, mi: int, sec: int) -> int {
    (day_number(y, mo, d) - day_number(1980, 1, 1)) * 86_400 + h * 3_600 + mi * 60 + sec
}

/// What `RCNR` should hold for a given wall-clock time.
///
/// Saturates rather than wrapping: a date before the machine's epoch has no
/// representation, and counting backwards from zero would put the machine
/// somewhere in 2146.
pub fn rtc_count_for(y: i64, mo: i64, d: i64, h: i64, mi: i64, sec: i64) -> (r: u32)
    ensures
        ({
            let total = seconds_since_1980(
                y as int,
                mo as int,
                d as int,
                h as int,
                mi as int,
                sec as int,
            );
            r == (if total < 0 {
                0
            } else if total > u32::MAX {
                u32::MAX as int
            } else {
                total
            })
        }),
{
    proof {
        lemma_months(y as int);
        lemma_months(1980);
        lemma_day_range(y as int, mo as int, d as int);
    }
    let days: i128 = day_of(y, mo, d) - day_of(1980, 1, 1);
    let total: i128 = days * 86_400 + h as i128 * 3_600 + mi as i128 * 60 + sec as i128;
    if total < 0 {
        0
    } else if total > 0xFFFF_FFFF {
        0xFFFF_FFFF
    } else {
        total as u32
    }
}

/// The day after the last of a month is the first of the next, and the day
/// after the last of December is the first of January: no date is skipped or
/// counted twice, leap years included.
pub proof fn law_dates_follow_one_another(y: int, m: int)
    requires
        1 <= m <= 12,
    ensures
        m < 12 ==> civil_days(y, m + 1, 1) == civil_days(y, m, month_length(y, m)) + 1,
        civil_days(y + 1, 1, 1) == civil_days(y, 12, 31) + 1,
        civil_days(y + 1, 1, 1) - civil_days(y, 1, 1) == (if is_leap(y) {
            366int
        } else {
            365
        }),
{
    lemma_months(y);
    lemma_months(y + 1);
    lemma_leap_days(y);
}

/// The counter agrees with Unix time, offset by [`EPOCH_IN_UNIX_TIME`].
pub proof fn law_count_agrees_with_unix_time(
    y: int,
    mo: int,
    d: int,
    h: int,
    mi: int,
    sec: int,
)
    ensures
        seconds_since_1980(y, mo, d, h, mi, sec) == day_number(y, mo, d) * 86_400 + h * 3_600 + mi
            * 60 + sec - EPOCH_IN_UNIX_TIME,
{
    lemma_months(1980);
}

pub struct Rtc {
    pub rcnr: u32,
    pub rtar: u32,
    pub rtsr: u32,
    pub rttr: u32,
    pub frac: u64,
    pub cpu_hz: u64,
    /// Reads and writes per register, by offset / 4.
    ///
    /// Seeding the clock is only worth anything if the guest looks at it, and
    /// "the machine still asks for the time" does not say whether it read a
    /// register and disliked the answer or never read it at all.
    pub accesses: [(u64, u64); 16],
}

// RTSR bits.
pub const RTSR_AL: u32 = 0x1;
pub const RTSR_HZ: u32 = 0x2;
pub const RTSR_ALE: u32 = 0x4;
pub const RTSR_HZE: u32 = 0x8;

impl Rtc {
    /// The accumulator holds less than one second of a running clock.
    pub open spec fn wf(self) -> bool {
        0 < self.cpu_hz && self.frac < self.cpu_hz
    }

    /// The clock after `cycles` CPU cycles. The alarm goes off when the count
    /// comes up to RTAR from below it.
    pub open spec fn ticked(self, cycles: u32) -> Rtc {
        let total = self.frac + cycles;
        let seconds = total / (self.cpu_hz as int);
        if total < self.cpu_hz {
            Rtc { frac: total as u64, ..self }
        } else {
            let now = ((self.rcnr + seconds) % 0x1_0000_0000) as u32;
            Rtc {
                frac: (total % (self.cpu_hz as int)) as u64,
                rcnr: now,
                rtsr: if self.rcnr < self.rtar && now >= self.rtar {
                    (self.rtsr | RTSR_HZ) | RTSR_AL
                } else {
                    self.rtsr | RTSR_HZ
                },
                ..self
            }
        }
    }

    pub open spec fn drive(self, intc: Intc) -> Intc {
        intc.driven(
            IRQ_RTC_HZ,
            self.rtsr & RTSR_HZE != 0 && self.rtsr & RTSR_HZ != 0,
        ).driven(IRQ_RTC_ALARM, self.rtsr & RTSR_ALE != 0 && self.rtsr & RTSR_AL != 0)
    }

    /// The access counts after one more read or write at `offset`.
    pub open spec fn counted(self, offset: u32, write: bool) -> Rtc {
        let i = (offset / 4) as int;
        if i < 16 {
            let a = self.accesses[i];
            Rtc {
                accesses: vstd::array::spec_array_update(
                    self.accesses,
                    i,
                    if write {
                        (a.0, a.1.wrapping_add(1))
                    } else {
                        (a.0.wrapping_add(1), a.1)
                    },
                ),
                ..self
            }
        } else {
            self
        }
    }

    pub open spec fn read_spec(self, offset: u32) -> u32 {
        if offset == 0x00 {
            self.rcnr
        } else if offset == 0x04 {
            self.rtar
        } else if offset == 0x08 {
            self.rtsr
        } else if offset == 0x0C {
            self.rttr
        } else {
            0
        }
    }

    /// In RTSR the enable bits are read/write; the status bits below them are
    /// write-one-to-clear. Setting a new alarm silences the old one.
    pub open spec fn written(self, offset: u32, val: u32) -> Rtc {
        let s = self.counted(offset, true);
        if offset == 0x00 {
            Rtc { rcnr: val, ..s }
        } else if offset == 0x04 {
            Rtc { rtar: val, rtsr: s.rtsr & !RTSR_AL, ..s }
        } else if offset == 0x08 {
            Rtc {
                rtsr: ((s.rtsr & !(RTSR_ALE | RTSR_HZE)) & !(val & (RTSR_AL | RTSR_HZ))) | (val & (
                RTSR_ALE | RTSR_HZE)),
                ..s
            }
        } else if offset == 0x0C {
            Rtc { rttr: val, ..s }
        } else {
            s
        }
    }

    pub fn new(cpu_hz: u64) -> (r: Self)
        ensures
            r.rcnr == 0,
            r.rtar == 0,
            r.rtsr == 0,
            r.rttr == 0x7FFF,
            r.frac == 0,
            r.cpu_hz == cpu_hz,
            r.accesses@ =~= Seq::new(16, |i: int| (0u64, 0u64)),
            0 < cpu_hz ==> r.wf(),
    {
        Rtc { rcnr: 0, rtar: 0, rtsr: 0, rttr: 0x7FFF, frac: 0, cpu_hz, accesses: [(0, 0); 16] }
    }

    /// Start the clock at a given count of seconds since the machine's epoch.
    ///
    /// A real one is kept going by a backup cell, so it knows the time when it
    /// is switched on. This one starts at zero unless it is told.
    pub fn set_count(&mut self, seconds: u32)
        ensures
            *final(self) == (Rtc { rcnr: seconds, frac: 0, ..*old(self) }),
    {
        self.rcnr = seconds;
        self.frac = 0;
    }

    pub fn tick(&mut self, cycles: u32, intc: &mut Intc)
        requires
            old(self).cpu_hz > 0,
            old(self).frac + cycles <= u64::MAX,
        ensures
            *final(self) == old(self).ticked(cycles),
            *final(intc) == (if old(self).frac + cycles < old(self).cpu_hz {
                *old(intc)
            } else {
                final(self).drive(*old(intc))
            }),
            final(self).frac < final(self).cpu_hz,
            final(self).cpu_hz == old(self).cpu_hz,
    {
        let total: u64 = self.frac + cycles as u64;
        if total < self.cpu_hz {
            self.frac = total;
            return ;
        }
        let seconds: u64 = total / self.cpu_hz;
        proof {
            vstd::arithmetic::div_mod::lemma_fundamental_div_mod(
                total as int,
                self.cpu_hz as int,
            );
            vstd::arithmetic::mul::lemma_mul_is_commutative(seconds as int, self.cpu_hz as int);
            vstd::arithmetic::div_mod::lemma_mod_bound(total as int, self.cpu_hz as int);
            crate::bits::lemma_low_word(seconds);
        }
        self.frac = total - seconds * self.cpu_hz;
        let before: u32 = self.rcnr;
        self.rcnr = self.rcnr.wrapping_add(seconds as u32);
        self.rtsr = self.rtsr | RTSR_HZ;
        if before < self.rtar && self.rcnr >= self.rtar {
            self.rtsr = self.rtsr | RTSR_AL;
        }
        self.update_irq(intc);
    }

    fn update_irq(&self, intc: &mut Intc)
        ensures
            *final(intc) == self.drive(*old(intc)),
    {
        intc.set(IRQ_RTC_HZ, self.rtsr & RTSR_HZE != 0 && self.rtsr & RTSR_HZ != 0);
        intc.set(IRQ_RTC_ALARM, self.rtsr & RTSR_ALE != 0 && self.rtsr & RTSR_AL != 0);
    }

    pub fn read(&mut self, offset: u32) -> (r: u32)
        ensures
            r == old(self).read_spec(offset),
            *final(self) == old(self).counted(offset, false),
    {
        let i: usize = (offset / 4) as usize;
        if i < 16 {
            let a: (u64, u64) = self.accesses[i];
            self.accesses[i] = (a.0.wrapping_add(1), a.1);
        }
        match offset {
            0x00 => self.rcnr,
            0x04 => self.rtar,
            0x08 => self.rtsr,
            0x0C => self.rttr,
            _ => 0,
        }
    }

    pub fn write(&mut self, offset: u32, val: u32, intc: &mut Intc)
        ensures
            *final(self) == old(self).written(offset, val),
            *final(intc) == final(self).drive(*old(intc)),
    {
        let i: usize = (offset / 4) as usize;
        if i < 16 {
            let a: (u64, u64) = self.accesses[i];
            self.accesses[i] = (a.0, a.1.wrapping_add(1));
        }
        match offset {
            0x00 => self.rcnr = val,
            0x04 => {
                self.rtar = val;
                self.rtsr = self.rtsr & !RTSR_AL;
            },
            // The enable bits are read/write; the status bits below them are
            // write-one-to-clear.
            0x08 => {
                let enables: u32 = val & (RTSR_ALE | RTSR_HZE);
                let clears: u32 = val & (RTSR_AL | RTSR_HZ);
                self.rtsr = ((self.rtsr & !(RTSR_ALE | RTSR_HZE)) & !clears) | enables;
            },
            0x0C => self.rttr = val,
            _ => {},
        }
        self.update_irq(intc);
    }
}

/// Static memory controller. The values only matter to EBOOT's own reporting,
/// so this is a register file with plausible reset values.
pub struct MemoryController {
    pub regs: [u32; 128],
}

pub const MEMC_BASE: u32 = 0x4800_0000;

impl Default for MemoryController {
    fn default() -> (r: Self)
        ensures
            r.regs@ =~= MemoryController::as_configured(),
    {
        let mut regs: [u32; 128] = [0u32; 128];
        regs[0] = 0x0300_0AC9;  // MDCNFG: two banks of SDRAM enabled
        regs[1] = 0x0003_00A3;  // MDREFR
        regs[2] = 0x7FF0_7FF0;  // MSC0, covering nCS0/nCS1
        regs[3] = 0x7FF0_7FF0;  // MSC1, covering nCS2/nCS3
        regs[4] = 0x7FF0_7FF0;  // MSC2, covering nCS4/nCS5
        MemoryController { regs }
    }
}

impl MemoryController {
    /// The registers as the boot ROM leaves them.
    pub open spec fn as_configured() -> Seq<u32> {
        Seq::new(128, |i: int| 0u32).update(0, 0x0300_0AC9).update(1, 0x0003_00A3).update(
            2,
            0x7FF0_7FF0,
        ).update(3, 0x7FF0_7FF0).update(4, 0x7FF0_7FF0)
    }

    pub open spec fn read_spec(self, offset: u32) -> u32 {
        if offset / 4 < 128 {
            self.regs[(offset / 4) as int]
        } else {
            0
        }
    }

    pub open spec fn written(self, offset: u32, val: u32) -> MemoryController {
        if offset / 4 < 128 {
            MemoryController {
                regs: vstd::array::spec_array_update(self.regs, (offset / 4) as int, val),
            }
        } else {
            self
        }
    }

    pub fn read(&self, offset: u32) -> (r: u32)
        ensures
            r == self.read_spec(offset),
    {
        if offset / 4 < 128 {
            self.regs[(offset / 4) as usize]
        } else {
            0
        }
    }

    pub fn write(&mut self, offset: u32, val: u32)
        ensures
            *final(self) == old(self).written(offset, val),
    {
        if offset / 4 < 128 {
            self.regs[(offset / 4) as usize] = val;
        }
    }
}

impl Rtc {
    /// The clock after a run of ticks.
    pub open spec fn after_ticks(self, run: Seq<u32>) -> Rtc
        decreases run.len(),
    {
        if run.len() == 0 {
            self
        } else {
            self.after_ticks(run.drop_last()).ticked(run.last())
        }
    }
}

/// All the cycles of a run of ticks.
pub open spec fn cycles_in(run: Seq<u32>) -> int
    decreases run.len(),
{
    if run.len() == 0 {
        0
    } else {
        cycles_in(run.drop_last()) + run.last()
    }
}

/// Counting whole seconds in two goes is counting them in one.
pub(super) proof fn lemma_whole_seconds(from: int, more: int, hz: int)
    requires
        hz > 0,
    ensures
        from / hz + (from % hz + more) / hz == (from + more) / hz,
        (from % hz + more) % hz == (from + more) % hz,
{
    vstd::arithmetic::div_mod::lemma_fundamental_div_mod(from, hz);
    vstd::arithmetic::div_mod::lemma_hoist_over_denominator(from % hz + more, from / hz, hz as nat);
    vstd::arithmetic::mul::lemma_mul_is_commutative(from / hz, hz);
    vstd::arithmetic::div_mod::lemma_add_mod_noop(from % hz, more, hz);
    vstd::arithmetic::div_mod::lemma_add_mod_noop(from, more, hz);
    vstd::arithmetic::div_mod::lemma_mod_twice(from, hz);
}

/// Time does not go backwards.
pub(super) proof fn lemma_cycles_in(run: Seq<u32>)
    ensures
        cycles_in(run) >= 0,
    decreases run.len(),
{
    if run.len() > 0 {
        lemma_cycles_in(run.drop_last());
    }
}

/// Over any run of ticks the count goes up by the seconds that have passed in
/// all, with nothing lost between one tick and the next; nothing but the count,
/// the fraction and the status moves. Where the alarm was set for a time to
/// come and the count does not run over, it is seen exactly once the time has
/// come; where it was set for a time gone by, it is not.
pub proof fn law_the_clock_keeps_time(r: Rtc, run: Seq<u32>)
    requires
        r.wf(),
    ensures
        ({
            let e = r.after_ticks(run);
            let seconds = (r.frac + cycles_in(run)) / (r.cpu_hz as int);
            &&& e.wf()
            &&& e.rcnr == (r.rcnr + seconds) % 0x1_0000_0000
            &&& e.frac == (r.frac + cycles_in(run)) % (r.cpu_hz as int)
            &&& e == (Rtc { rcnr: e.rcnr, frac: e.frac, rtsr: e.rtsr, ..r })
            &&& seconds >= 0
            &&& r.rcnr + seconds < 0x1_0000_0000 ==> {
                let rang = r.rcnr < r.rtar <= r.rcnr + seconds;
                &&& (e.rtsr & RTSR_AL != 0) == (r.rtsr & RTSR_AL != 0 || rang)
                &&& (e.rtsr & RTSR_HZ != 0) == (r.rtsr & RTSR_HZ != 0 || seconds > 0)
                &&& e.rtsr & RTSR_ALE == r.rtsr & RTSR_ALE
                &&& e.rtsr & RTSR_HZE == r.rtsr & RTSR_HZE
            }
        }),
    decreases run.len(),
{
    let hz = r.cpu_hz as int;
    lemma_cycles_in(run);
    vstd::arithmetic::div_mod::lemma_div_pos_is_pos(r.frac + cycles_in(run), hz);
    if run.len() == 0 {
        vstd::arithmetic::div_mod::lemma_small_mod(r.frac as nat, hz as nat);
        vstd::arithmetic::div_mod::lemma_basic_div(r.frac as int, hz);
    } else {
        let front = run.drop_last();
        let c = run.last() as int;
        law_the_clock_keeps_time(r, front);
        let m = r.after_ticks(front);
        let from = r.frac + cycles_in(front);
        lemma_cycles_in(front);
        lemma_whole_seconds(from, c, hz);
        vstd::arithmetic::div_mod::lemma_mod_bound(from, hz);
        vstd::arithmetic::div_mod::lemma_mod_bound(from + c, hz);
        vstd::arithmetic::div_mod::lemma_div_pos_is_pos(from, hz);
        vstd::arithmetic::div_mod::lemma_div_pos_is_pos(m.frac + c, hz);
        if m.frac + c < hz {
            vstd::arithmetic::div_mod::lemma_basic_div(m.frac + c, hz);
            vstd::arithmetic::div_mod::lemma_small_mod((m.frac + c) as nat, hz as nat);
        } else {
            vstd::arithmetic::div_mod::lemma_div_non_zero(m.frac + c, hz);
        }
        lemma_status_bits(m.rtsr, 0);
        lemma_status_bits(m.rtsr | RTSR_HZ, 0);
    }
}

/// What ticks and writes do to the bits of the clock's status, and what
/// asking for the oscillator does to its register.
proof fn lemma_status_bits(s: u32, val: u32)
    ensures
        (s | RTSR_HZ) & RTSR_HZ != 0,
        (s | RTSR_HZ) & RTSR_AL == s & RTSR_AL,
        (s | RTSR_HZ) & RTSR_ALE == s & RTSR_ALE,
        (s | RTSR_HZ) & RTSR_HZE == s & RTSR_HZE,
        (s | RTSR_AL) & RTSR_AL != 0,
        (s | RTSR_AL) & RTSR_HZ == s & RTSR_HZ,
        (s | RTSR_AL) & RTSR_ALE == s & RTSR_ALE,
        (s | RTSR_AL) & RTSR_HZE == s & RTSR_HZE,
        (s & !RTSR_AL) & RTSR_AL == 0,
        (s & !RTSR_AL) & RTSR_HZ == s & RTSR_HZ,
        ({
            let w = ((s & !(RTSR_ALE | RTSR_HZE)) & !(val & (RTSR_AL | RTSR_HZ))) | (val & (RTSR_ALE
                | RTSR_HZE));
            &&& w & RTSR_ALE == val & RTSR_ALE
            &&& w & RTSR_HZE == val & RTSR_HZE
            &&& (w & RTSR_AL != 0) == (s & RTSR_AL != 0 && val & RTSR_AL == 0)
            &&& (w & RTSR_HZ != 0) == (s & RTSR_HZ != 0 && val & RTSR_HZ == 0)
        }),
        val & 0x2 != 0 ==> (val | ((val & 0x2) >> 1)) & 1 == 1,
        (val | ((val & 0x2) >> 1)) & 0xFFFF_FFFE == val & 0xFFFF_FFFE,
{
    assert((s | RTSR_HZ) & RTSR_HZ != 0 && (s | RTSR_HZ) & RTSR_AL == s & RTSR_AL && (s | RTSR_HZ)
        & RTSR_ALE == s & RTSR_ALE && (s | RTSR_HZ) & RTSR_HZE == s & RTSR_HZE && (s | RTSR_AL)
        & RTSR_AL != 0 && (s | RTSR_AL) & RTSR_HZ == s & RTSR_HZ && (s | RTSR_AL) & RTSR_ALE == s
        & RTSR_ALE && (s | RTSR_AL) & RTSR_HZE == s & RTSR_HZE && (s & !RTSR_AL) & RTSR_AL == 0 && (
    s & !RTSR_AL) & RTSR_HZ == s & RTSR_HZ && {
        let w = ((s & !(RTSR_ALE | RTSR_HZE)) & !(val & (RTSR_AL | RTSR_HZ))) | (val & (RTSR_ALE
            | RTSR_HZE));
        w & RTSR_ALE == val & RTSR_ALE && w & RTSR_HZE == val & RTSR_HZE && (w & RTSR_AL != 0) == (s
            & RTSR_AL != 0 && val & RTSR_AL == 0) && (w & RTSR_HZ != 0) == (s & RTSR_HZ != 0 && val
            & RTSR_HZ == 0)
    } && (val & 0x2 != 0 ==> (val | ((val & 0x2) >> 1)) & 1 == 1) && (val | ((val & 0x2) >> 1))
        & 0xFFFF_FFFE == val & 0xFFFF_FFFE) by (bit_vector);
}

/// Writing the clock's status sets its enables as written and clears the
/// events that ones are written to, and no others; a new alarm time silences
/// the alarm that was and leaves the tick alone. What is set is what is read.
pub proof fn law_clock_registers_hold_what_they_are_given(r: Rtc, val: u32)
    ensures
        ({
            let w = r.written(0x08, val).rtsr;
            &&& w & RTSR_ALE == val & RTSR_ALE
            &&& w & RTSR_HZE == val & RTSR_HZE
            &&& (w & RTSR_AL != 0) == (r.rtsr & RTSR_AL != 0 && val & RTSR_AL == 0)
            &&& (w & RTSR_HZ != 0) == (r.rtsr & RTSR_HZ != 0 && val & RTSR_HZ == 0)
        }),
        r.written(0x00, val).read_spec(0x00) == val,
        r.written(0x00, val).rtar == r.rtar,
        r.written(0x00, val).frac == r.frac,
        r.written(0x04, val).read_spec(0x04) == val,
        r.written(0x04, val).rtsr & RTSR_AL == 0,
        r.written(0x04, val).rtsr & RTSR_HZ == r.rtsr & RTSR_HZ,
        r.written(0x04, val).rcnr == r.rcnr,
        r.written(0x0C, val).read_spec(0x0C) == val,
{
    lemma_status_bits(r.rtsr, val);
}

/// The two lines of the clock follow its status, each where it is enabled.
pub proof fn law_clock_lines_follow_the_status(r: Rtc, intc: Intc, other: u32)
    ensures
        r.drive(intc).pending_spec(30) == (r.rtsr & 0x8 != 0 && r.rtsr & 0x2 != 0),
        r.drive(intc).pending_spec(31) == (r.rtsr & 0x4 != 0 && r.rtsr & 0x1 != 0),
        other != 30 && other != 31 ==> r.drive(intc).pending_spec(other) == intc.pending_spec(
            other,
        ),
{
    let hz = r.rtsr & RTSR_HZE != 0 && r.rtsr & RTSR_HZ != 0;
    let al = r.rtsr & RTSR_ALE != 0 && r.rtsr & RTSR_AL != 0;
    let i1 = intc.driven(IRQ_RTC_HZ, hz);
    super::intc::law_sources_are_independent(intc, IRQ_RTC_HZ, hz, other);
    super::intc::law_sources_are_independent(i1, IRQ_RTC_ALARM, al, other);
    super::intc::law_sources_are_independent(i1, IRQ_RTC_ALARM, al, 30);
}

/// A plain register keeps what is written to it and leaves its neighbours
/// alone: all those of the memory controller, and those of the power manager
/// but for the reset status, which forgets the causes that ones are written to.
pub proof fn law_plain_registers_read_back(m: MemoryController, p: Pmu, a: u32, b: u32, val: u32)
    requires
        a % 4 == 0,
        b % 4 == 0,
        b != a,
    ensures
        a < 0x200 ==> m.written(a, val).read_spec(a) == val,
        m.written(a, val).read_spec(b) == m.read_spec(b),
        a < 0x100 && a != 0x30 ==> p.written(a, val).read_spec(a) == val,
        p.written(a, val).read_spec(b) == p.read_spec(b),
        p.written(0x30, val).read_spec(0x30) == p.rcsr & !val,
{
}

/// The clock manager reports the speed it was last set to, and keeps the
/// clock enables and the rest of the oscillator's register as written.
pub proof fn law_the_clock_manager_takes_its_settings(c: ClockManager, val: u32)
    ensures
        c.written(0x00, val).read_spec(0x00) == val,
        c.written(0x00, val).read_spec(0x0C) == val,
        c.written(0x00, val).cken == c.cken,
        c.written(0x04, val).read_spec(0x04) == val,
        c.written(0x04, val).cccr == c.cccr,
        c.written(0x08, val).read_spec(0x08) & 0xFFFF_FFFE == val & 0xFFFF_FFFE,
        c.written(0x0C, val) == c,
{
    lemma_status_bits(0, val);
}

/// How often each clock register has been read and written is counted, apart
/// from the others.
pub proof fn law_clock_accesses_are_counted(r: Rtc, offset: u32, write: bool, i: int)
    requires
        0 <= i < 16,
        r.accesses[i].0 < u64::MAX,
        r.accesses[i].1 < u64::MAX,
    ensures
        ({
            let c = r.counted(offset, write);
            let own = i == offset / 4;
            &&& c.accesses[i].0 == r.accesses[i].0 + (if own && !write {
                1int
            } else {
                0
            })
            &&& c.accesses[i].1 == r.accesses[i].1 + (if own && write {
                1int
            } else {
                0
            })
            &&& c.rcnr == r.rcnr && c.rtar == r.rtar && c.rtsr == r.rtsr
        }),
{
}

} // verus!
