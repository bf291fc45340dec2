//! PXA27x OS timers, at physical 0x40A00000.
//!
//! OSCR counts at 3.25 MHz. Windows CE's OAL uses match register 0 for the
//! system tick and reads OSCR for its high-resolution counter, so this is the
//! one peripheral whose rate has to be right or the guest's sense of time
//! drifts.

use super::intc::{Intc, IRQ_OST0};
use vstd::prelude::*;

verus! {

pub const BASE: u32 = 0x40A0_0000;

/// 3.25 MHz, which is the PXA27x rate and **not** the PXA25x's 3.6864 MHz:
/// 308 ns a tick, from the 13 MHz oscillator divided by four. The machine's
/// own firmware agrees: `sdmmc.dll`'s `StallExecution` multiplies its
/// argument by **3250** before spinning on OSCR, which is only a millisecond
/// at 3.25 MHz.
pub const OST_HZ: u64 = 3_250_000;

/// The fastest clock whose accumulator cannot overflow, whatever slice of
/// cycles it is fed.
pub const MAX_CPU_HZ: u64 = 18_432_785_430_000_801_616;

pub struct Ost {
    pub osmr: [u32; 4],
    pub oscr: u32,
    /// Match status; the guest clears bits by writing 1.
    pub ossr: u32,
    pub oier: u32,
    pub ower: u32,
    /// Fractional cycle accumulator, in CPU cycles scaled by OST_HZ.
    pub frac: u64,
    pub cpu_hz: u64,
}

/// The counter reaches `target` on its way from `old` to `new`, counting
/// modulo 2^32.
pub open spec fn crossed_spec(old: u32, new: u32, target: u32) -> bool {
    0 < (target - old) % 0x1_0000_0000 <= (new - old) % 0x1_0000_0000
}

impl Ost {
    /// The accumulator holds less than one tick of a running clock.
    pub open spec fn wf(self) -> bool {
        0 < self.cpu_hz <= MAX_CPU_HZ && self.frac < self.cpu_hz
    }

    /// What the accumulator reaches after `cycles` more.
    pub open spec fn accumulated(self, cycles: u32) -> int {
        self.frac + cycles * OST_HZ
    }

    /// Match status once the counter has moved on to `new`, looking at the
    /// first `n` match registers.
    pub open spec fn matched(self, new: u32, n: int) -> u32
        decreases n,
    {
        if n <= 0 {
            self.ossr
        } else if crossed_spec(self.oscr, new, self.osmr[n - 1]) {
            self.matched(new, n - 1) | (1u32 << ((n - 1) as u32))
        } else {
            self.matched(new, n - 1)
        }
    }

    /// The timer after `cycles` CPU cycles.
    pub open spec fn ticked(self, cycles: u32) -> Ost {
        let ticks = self.accumulated(cycles) / (self.cpu_hz as int);
        let new = ((self.oscr + ticks) % 0x1_0000_0000) as u32;
        Ost {
            frac: (self.accumulated(cycles) % (self.cpu_hz as int)) as u64,
            oscr: new,
            ossr: if ticks == 0 {
                self.ossr
            } else {
                self.matched(new, 4)
            },
            ..self
        }
    }

    pub open spec fn ch_active(self, ch: u32) -> bool {
        self.oier & (1u32 << ch) != 0 && self.ossr & (1u32 << ch) != 0
    }

    /// The interrupt lines of the first `n` channels: enabled and matched.
    pub open spec fn drive_upto(self, intc: Intc, n: int) -> Intc
        decreases n,
    {
        if n <= 0 {
            intc
        } else {
            self.drive_upto(intc, n - 1).driven(
                (IRQ_OST0 + (n - 1)) as u32,
                self.ch_active((n - 1) as u32),
            )
        }
    }

    pub open spec fn drive(self, intc: Intc) -> Intc {
        self.drive_upto(intc, 4)
    }

    pub open spec fn read_spec(self, offset: u32) -> u32 {
        if offset <= 0x0C {
            self.osmr[(offset / 4) as int]
        } else if offset == 0x10 {
            self.oscr
        } else if offset == 0x14 {
            self.ossr
        } else if offset == 0x18 {
            self.ower
        } else if offset == 0x1C {
            self.oier
        } else {
            0
        }
    }

    pub open spec fn written(self, offset: u32, val: u32) -> Ost {
        if offset <= 0x0C {
            Ost {
                osmr: vstd::array::spec_array_update(self.osmr, (offset / 4) as int, val),
                ..self
            }
        } else if offset == 0x10 {
            Ost { oscr: val, frac: 0, ..self }
        } else if offset == 0x14 {
            Ost { ossr: self.ossr & !val, ..self }
        } else if offset == 0x18 {
            Ost { ower: val, ..self }
        } else if offset == 0x1C {
            Ost { oier: val, ..self }
        } else {
            self
        }
    }

    pub fn new(cpu_hz: u64) -> (r: Self)
        ensures
            r.osmr@ =~= seq![0u32, 0, 0, 0],
            r.oscr == 0,
            r.ossr == 0,
            r.oier == 0,
            r.ower == 0,
            r.frac == 0,
            r.cpu_hz == cpu_hz,
            0 < cpu_hz <= MAX_CPU_HZ ==> r.wf(),
    {
        Ost { osmr: [0; 4], oscr: 0, ossr: 0, oier: 0, ower: 0, frac: 0, cpu_hz }
    }

    pub fn tick(&mut self, cycles: u32, intc: &mut Intc)
        requires
            old(self).cpu_hz > 0,
            old(self).accumulated(cycles) <= u64::MAX,
        ensures
            *final(self) == old(self).ticked(cycles),
            *final(intc) == (if old(self).accumulated(cycles) / (old(self).cpu_hz as int) == 0 {
                *old(intc)
            } else {
                final(self).drive(*old(intc))
            }),
            final(self).frac < final(self).cpu_hz,
            final(self).cpu_hz == old(self).cpu_hz,
    {
        let total: u64 = self.frac + cycles as u64 * OST_HZ;
        let ticks: u64 = total / self.cpu_hz;
        proof {
            vstd::arithmetic::div_mod::lemma_fundamental_div_mod(
                total as int,
                self.cpu_hz as int,
            );
            vstd::arithmetic::mul::lemma_mul_is_commutative(ticks as int, self.cpu_hz as int);
            vstd::arithmetic::div_mod::lemma_mod_bound(total as int, self.cpu_hz as int);
        }
        if ticks == 0 {
            self.frac = total;
            return ;
        }
        self.frac = total - ticks * self.cpu_hz;

        let ghost before = *old(self);
        let old_count: u32 = self.oscr;
        let new: u32 = old_count.wrapping_add(ticks as u32);
        proof {
            crate::bits::lemma_low_word(ticks);
        }
        assert(new == (old_count + ticks) % 0x1_0000_0000);
        self.oscr = new;

        let mut ch: usize = 0;
        while ch < 4
            invariant
                ch <= 4,
                before.osmr == self.osmr,
                before.oscr == old_count,
                self.ossr == before.matched(new, ch as int),
                *self == (Ost { ossr: self.ossr, frac: self.frac, oscr: new, ..before }),
                self.frac == before.accumulated(cycles) % (before.cpu_hz as int),
            decreases 4 - ch,
        {
            if crossed(old_count, new, self.osmr[ch]) {
                self.ossr = self.ossr | (1u32 << (ch as u32));
            }
            ch = ch + 1;
        }
        self.update_irq(intc);
    }

    fn update_irq(&self, intc: &mut Intc)
        ensures
            *final(intc) == self.drive(*old(intc)),
    {
        let ghost start = *intc;
        let mut ch: u32 = 0;
        while ch < 4
            invariant
                ch <= 4,
                *intc == self.drive_upto(start, ch as int),
            decreases 4 - ch,
        {
            let active = self.oier & (1u32 << ch) != 0 && self.ossr & (1u32 << ch) != 0;
            intc.set(IRQ_OST0 + ch, active);
            ch = ch + 1;
        }
    }

    pub fn read(&self, offset: u32) -> (r: u32)
        ensures
            r == self.read_spec(offset),
    {
        match offset {
            0x10 => self.oscr,
            0x14 => self.ossr,
            0x18 => self.ower,
            0x1C => self.oier,
            _ => if offset <= 0x0C {
                self.osmr[(offset / 4) as usize]
            } else {
                0
            },
        }
    }

    pub fn write(&mut self, offset: u32, val: u32, intc: &mut Intc)
        ensures
            *final(self) == old(self).written(offset, val),
            *final(intc) == final(self).drive(*old(intc)),
    {
        match offset {
            0x10 => {
                self.oscr = val;
                self.frac = 0;
            },
            // Write-one-to-clear.
            0x14 => self.ossr = self.ossr & !val,
            0x18 => self.ower = val,
            0x1C => self.oier = val,
            _ => if offset <= 0x0C {
                self.osmr[(offset / 4) as usize] = val;
            },
        }
        self.update_irq(intc);
    }
}

/// Did the counter pass `target` while going from `old` to `new`?
/// Handles the 32-bit wrap.
pub fn crossed(old: u32, new: u32, target: u32) -> (r: bool)
    ensures
        r == crossed_spec(old, new, target),
{
    if old <= new {
        target > old && target <= new
    } else {
        target > old || target <= new
    }
}

/// No time is lost or invented: the ticks counted and the fraction kept add
/// up to exactly the cycles fed in, at the timer's rate.
pub proof fn law_time_is_conserved(t: Ost, cycles: u32)
    requires
        t.wf(),
    ensures
        t.ticked(cycles).wf(),
        exists|ticks: int|
            #![trigger ticks * t.cpu_hz]
            0 <= ticks && t.ticked(cycles).oscr == (t.oscr + ticks) % 0x1_0000_0000 && ticks
                * t.cpu_hz + t.ticked(cycles).frac == t.frac + cycles * OST_HZ,
{
    let hz = t.cpu_hz as int;
    let total = t.accumulated(cycles);
    let ticks = total / hz;
    vstd::arithmetic::div_mod::lemma_fundamental_div_mod(total, hz);
    vstd::arithmetic::div_mod::lemma_mod_bound(total, hz);
    vstd::arithmetic::div_mod::lemma_div_pos_is_pos(total, hz);
    vstd::arithmetic::mul::lemma_mul_is_commutative(ticks, hz);
    assert(ticks * t.cpu_hz + t.ticked(cycles).frac == total);
}

impl Ost {
    /// How far the counter gets in `cycles`.
    pub open spec fn steps(self, cycles: u32) -> int {
        self.accumulated(cycles) / (self.cpu_hz as int)
    }

    /// The timer after a run of ticks.
    pub open spec fn after_ticks(self, run: Seq<u32>) -> Ost
        decreases run.len(),
    {
        if run.len() == 0 {
            self
        } else {
            self.after_ticks(run.drop_last()).ticked(run.last())
        }
    }
}

/// All the cycles of a run of ticks.
pub open spec fn cycles_in(run: Seq<u32>) -> int
    decreases run.len(),
{
    if run.len() == 0 {
        0
    } else {
        cycles_in(run.drop_last()) + run.last()
    }
}

impl Ost {
    /// How far the counter has got once all the cycles of a run are fed in, at
    /// the timer's rate.
    pub open spec fn steps_in(self, run: Seq<u32>) -> int {
        (self.frac + cycles_in(run) * OST_HZ) / (self.cpu_hz as int)
    }

    /// How many steps it is to a match register: a whole turn of the counter
    /// where it stands there now.
    pub open spec fn steps_to(self, ch: int) -> int {
        let d = (self.osmr[ch] - self.oscr) % 0x1_0000_0000;
        if d == 0 {
            0x1_0000_0000
        } else {
            d
        }
    }

    /// No tick of a run takes the counter all the way round.
    pub open spec fn within_turns(self, run: Seq<u32>) -> bool
        decreases run.len(),
    {
        run.len() == 0 || (self.within_turns(run.drop_last()) && self.after_ticks(
            run.drop_last(),
        ).steps(run.last()) < 0x1_0000_0000)
    }
}

/// Over any run of ticks, however long, the counter goes by the time that has
/// passed in all, with nothing lost between one tick and the next. A match
/// register that the counter comes to on the way is seen, and no other, so long
/// as no single tick takes the counter all the way round.
pub proof fn law_a_run_keeps_time(t: Ost, run: Seq<u32>, ch: int)
    requires
        t.wf(),
        0 <= ch < 4,
    ensures
        ({
            let e = t.after_ticks(run);
            &&& e.wf()
            &&& e.oscr == (t.oscr + t.steps_in(run)) % 0x1_0000_0000
            &&& e.frac == (t.frac + cycles_in(run) * OST_HZ) % (t.cpu_hz as int)
            &&& e == (Ost { oscr: e.oscr, frac: e.frac, ossr: e.ossr, ..t })
            &&& t.within_turns(run) ==> (e.ossr & (1u32 << (ch as u32)) != 0) == (t.ossr & (1u32 << (
            ch as u32)) != 0 || t.steps_to(ch) <= t.steps_in(run))
        }),
    decreases run.len(),
{
    lemma_run_time(t, run);
    if run.len() == 0 {
        assert(t.steps_in(run) == 0) by {
            vstd::arithmetic::div_mod::lemma_basic_div(t.frac as int, t.cpu_hz as int);
        }
    } else if t.within_turns(run) {
        let front = run.drop_last();
        let b = run.last();
        law_a_run_keeps_time(t, front, ch);
        lemma_run_time(t, front);
        lemma_next_tick(t, run);
        let m = t.after_ticks(front);
        let e = m.ticked(b);
        lemma_bit_after(m, b, ch);
        lemma_met(t.oscr, m.oscr, e.oscr, t.osmr[ch], t.steps_in(front), m.steps(b));
    }
}

/// The counter and the fraction after a run.
proof fn lemma_run_time(t: Ost, run: Seq<u32>)
    requires
        t.wf(),
    ensures
        ({
            let e = t.after_ticks(run);
            &&& e.wf()
            &&& e.oscr == (t.oscr + t.steps_in(run)) % 0x1_0000_0000
            &&& e.frac == (t.frac + cycles_in(run) * OST_HZ) % (t.cpu_hz as int)
            &&& e == (Ost { oscr: e.oscr, frac: e.frac, ossr: e.ossr, ..t })
            &&& t.steps_in(run) >= 0
        }),
    decreases run.len(),
{
    let hz = t.cpu_hz as int;
    if run.len() == 0 {
        vstd::arithmetic::div_mod::lemma_small_mod(t.frac as nat, t.cpu_hz as nat);
        vstd::arithmetic::div_mod::lemma_basic_div(t.frac as int, hz);
    } else {
        let front = run.drop_last();
        lemma_run_time(t, front);
        lemma_next_tick(t, run);
        let m = t.after_ticks(front);
        let y = m.accumulated(run.last());
        vstd::arithmetic::div_mod::lemma_mod_bound(y, hz);
        let d1 = t.steps_in(front);
        let d2 = m.steps(run.last());
        assert(m.ticked(run.last()).oscr == (m.oscr + d2) % 0x1_0000_0000);
        assert(((t.oscr + d1) % 0x1_0000_0000 + d2) % 0x1_0000_0000 == (t.oscr + d1 + d2)
            % 0x1_0000_0000);
    }
}

/// One more tick goes on from where the run before it stopped.
proof fn lemma_next_tick(t: Ost, run: Seq<u32>)
    requires
        t.wf(),
        run.len() > 0,
        t.after_ticks(run.drop_last()).cpu_hz == t.cpu_hz,
        t.after_ticks(run.drop_last()).frac == (t.frac + cycles_in(run.drop_last()) * OST_HZ) % (
        t.cpu_hz as int),
    ensures
        ({
            let m = t.after_ticks(run.drop_last());
            &&& t.steps_in(run) == t.steps_in(run.drop_last()) + m.steps(run.last())
            &&& m.steps(run.last()) >= 0
            &&& t.steps_in(run.drop_last()) >= 0
            &&& m.accumulated(run.last()) % (t.cpu_hz as int) == (t.frac + cycles_in(run) * OST_HZ)
                % (t.cpu_hz as int)
        }),
{
    let hz = t.cpu_hz as int;
    let front = run.drop_last();
    let b = run.last();
    let m = t.after_ticks(front);
    let x = t.frac + cycles_in(front) * OST_HZ;
    let y = m.accumulated(b);
    let z = t.frac + cycles_in(run) * OST_HZ;
    lemma_cycles(front);
    vstd::arithmetic::div_mod::lemma_fundamental_div_mod(x, hz);
    vstd::arithmetic::div_mod::lemma_div_pos_is_pos(x, hz);
    vstd::arithmetic::div_mod::lemma_fundamental_div_mod(y, hz);
    vstd::arithmetic::div_mod::lemma_mod_bound(y, hz);
    vstd::arithmetic::div_mod::lemma_div_pos_is_pos(y, hz);
    let d1 = x / hz;
    let d2 = y / hz;
    assert(z == (d1 + d2) * hz + y % hz) by (nonlinear_arith)
        requires
            z == x + b * OST_HZ,
            y == x % hz + b * OST_HZ,
            x == hz * d1 + x % hz,
            y == hz * d2 + y % hz,
    ;
    vstd::arithmetic::div_mod::lemma_fundamental_div_mod_converse(z, hz, d1 + d2, y % hz);
}

/// What a tick does to one channel's bit.
proof fn lemma_bit_after(m: Ost, b: u32, ch: int)
    requires
        m.wf(),
        0 <= ch < 4,
        0 <= m.steps(b) < 0x1_0000_0000,
    ensures
        (m.ticked(b).ossr & (1u32 << (ch as u32)) != 0) == (m.ossr & (1u32 << (ch as u32)) != 0
            || crossed_spec(m.oscr, m.ticked(b).oscr, m.osmr[ch])),
{
    let new = m.ticked(b).oscr;
    lemma_matched(m, new);
    lemma_one_bit(
        m.ossr,
        crossed_spec(m.oscr, new, m.osmr[0]),
        crossed_spec(m.oscr, new, m.osmr[1]),
        crossed_spec(m.oscr, new, m.osmr[2]),
        crossed_spec(m.oscr, new, m.osmr[3]),
    );
    if m.steps(b) == 0 {
        assert(new == m.oscr);
    }
}

/// A place met on the whole way is met on the first part of it, or passed on
/// the second.
proof fn lemma_met(old: u32, mid: u32, new: u32, target: u32, d1: int, d2: int)
    requires
        0 <= d1,
        0 <= d2 < 0x1_0000_0000,
        mid == (old + d1) % 0x1_0000_0000,
        new == (mid + d2) % 0x1_0000_0000,
    ensures
        ({
            let d = (target - old) % 0x1_0000_0000;
            let a = if d == 0 {
                0x1_0000_0000
            } else {
                d
            };
            (a <= d1 + d2) == (a <= d1 || crossed_spec(mid, new, target))
        }),
{
}

/// A channel's bit is set if it was, or if the channel was reached.
proof fn lemma_one_bit(s: u32, c0: bool, c1: bool, c2: bool, c3: bool)
    ensures
        ({
            let w = (((s | (if c0 {
                1u32 << 0u32
            } else {
                0
            })) | (if c1 {
                1u32 << 1u32
            } else {
                0
            })) | (if c2 {
                1u32 << 2u32
            } else {
                0
            })) | (if c3 {
                1u32 << 3u32
            } else {
                0
            });
            &&& (w & (1u32 << 0u32) != 0) == (s & (1u32 << 0u32) != 0 || c0)
            &&& (w & (1u32 << 1u32) != 0) == (s & (1u32 << 1u32) != 0 || c1)
            &&& (w & (1u32 << 2u32) != 0) == (s & (1u32 << 2u32) != 0 || c2)
            &&& (w & (1u32 << 3u32) != 0) == (s & (1u32 << 3u32) != 0 || c3)
        }),
{
    assert({
        let r0 = if c0 {
            1u32 << 0u32
        } else {
            0u32
        };
        let r1 = if c1 {
            1u32 << 1u32
        } else {
            0u32
        };
        let r2 = if c2 {
            1u32 << 2u32
        } else {
            0u32
        };
        let r3 = if c3 {
            1u32 << 3u32
        } else {
            0u32
        };
        let w = (((s | r0) | r1) | r2) | r3;
        ((w & (1u32 << 0u32) != 0) == (s & (1u32 << 0u32) != 0 || c0)) && ((w & (1u32 << 1u32) != 0)
            == (s & (1u32 << 1u32) != 0 || c1)) && ((w & (1u32 << 2u32) != 0) == (s & (1u32 << 2u32)
            != 0 || c2)) && ((w & (1u32 << 3u32) != 0) == (s & (1u32 << 3u32) != 0 || c3))
    }) by (bit_vector);
}

/// How time is cut up makes no difference: a run of ticks leaves the timer as
/// one tick of all their cycles does, so long as the counter does not go all
/// the way round in it.
pub proof fn law_ticks_add_up(t: Ost, run: Seq<u32>)
    requires
        t.wf(),
        cycles_in(run) <= u32::MAX,
        t.steps(cycles_in(run) as u32) < 0x1_0000_0000,
    ensures
        t.after_ticks(run) == t.ticked(cycles_in(run) as u32),
    decreases run.len(),
{
    if run.len() == 0 {
        lemma_no_time(t);
    } else {
        let front = run.drop_last();
        lemma_cycles(front);
        let a = cycles_in(front) as u32;
        let total = cycles_in(run) as u32;
        vstd::arithmetic::div_mod::lemma_div_is_ordered(
            t.accumulated(a),
            t.accumulated(total),
            t.cpu_hz as int,
        );
        law_ticks_add_up(t, front);
        lemma_two_ticks(t, a, run.last());
    }
}

proof fn lemma_cycles(run: Seq<u32>)
    ensures
        cycles_in(run) >= 0,
    decreases run.len(),
{
    if run.len() > 0 {
        lemma_cycles(run.drop_last());
    }
}

/// No time changes nothing.
proof fn lemma_no_time(t: Ost)
    requires
        t.wf(),
    ensures
        t.ticked(0) == t,
{
    vstd::arithmetic::div_mod::lemma_small_mod(t.frac as nat, t.cpu_hz as nat);
    vstd::arithmetic::div_mod::lemma_basic_div(t.frac as int, t.cpu_hz as int);
}

/// Which channels the counter reaches on its way to `new`, as bits.
spec fn reached(t: Ost, new: u32, n: int) -> u32 {
    if crossed_spec(t.oscr, new, t.osmr[n]) {
        1u32 << (n as u32)
    } else {
        0
    }
}

proof fn lemma_two_ticks(t: Ost, a: u32, b: u32)
    requires
        t.wf(),
        a + b <= u32::MAX,
        t.steps((a + b) as u32) < 0x1_0000_0000,
    ensures
        t.ticked(a).ticked(b) == t.ticked((a + b) as u32),
{
    let hz = t.cpu_hz as int;
    let m = t.ticked(a);
    let x = t.accumulated(a);
    let y = m.accumulated(b);
    let z = t.accumulated((a + b) as u32);
    vstd::arithmetic::div_mod::lemma_fundamental_div_mod(x, hz);
    vstd::arithmetic::div_mod::lemma_mod_bound(x, hz);
    vstd::arithmetic::div_mod::lemma_div_pos_is_pos(x, hz);
    vstd::arithmetic::div_mod::lemma_div_pos_is_pos(y, hz);
    let d1 = x / hz;
    assert(z == d1 * hz + y) by (nonlinear_arith)
        requires
            z == x + b * OST_HZ,
            y == x % hz + b * OST_HZ,
            x == hz * d1 + x % hz,
    ;
    vstd::arithmetic::div_mod::lemma_fundamental_div_mod(y, hz);
    vstd::arithmetic::div_mod::lemma_mod_bound(y, hz);
    let d2 = y / hz;
    assert(z == (d1 + d2) * hz + y % hz) by (nonlinear_arith)
        requires
            z == d1 * hz + y,
            y == hz * d2 + y % hz,
    ;
    vstd::arithmetic::div_mod::lemma_fundamental_div_mod_converse(z, hz, d1 + d2, y % hz);
    let new = t.ticked((a + b) as u32).oscr;
    assert(m.oscr == (t.oscr + d1) % 0x1_0000_0000);
    assert(m.ticked(b).oscr == new);
    assert forall|n: int| 0 <= n < 4 implies crossed_spec(t.oscr, new, t.osmr[n]) == (crossed_spec(
        t.oscr,
        m.oscr,
        t.osmr[n],
    ) || crossed_spec(m.oscr, new, t.osmr[n])) by {
        lemma_crossed_on_the_way(t.oscr, m.oscr, new, t.osmr[n], d1, d2);
    }
    lemma_matched(t, m.oscr);
    lemma_matched(m, new);
    lemma_matched(t, new);
    lemma_bits_gather(
        t.ossr,
        reached(t, m.oscr, 0),
        reached(t, m.oscr, 1),
        reached(t, m.oscr, 2),
        reached(t, m.oscr, 3),
        reached(m, new, 0),
        reached(m, new, 1),
        reached(m, new, 2),
        reached(m, new, 3),
    );
    if d1 == 0 {
        assert(m.oscr == t.oscr);
    }
    if d2 == 0 {
        assert(new == m.oscr);
    }
}

/// A place passed on the whole way is passed on one of its two parts.
proof fn lemma_crossed_on_the_way(old: u32, mid: u32, new: u32, target: u32, d1: int, d2: int)
    requires
        0 <= d1,
        0 <= d2,
        d1 + d2 < 0x1_0000_0000,
        mid == (old + d1) % 0x1_0000_0000,
        new == (old + d1 + d2) % 0x1_0000_0000,
    ensures
        crossed_spec(old, new, target) == (crossed_spec(old, mid, target) || crossed_spec(
            mid,
            new,
            target,
        )),
{
    lemma_met(old, old, mid, target, 0, d1);
    lemma_met(old, old, new, target, 0, d1 + d2);
    lemma_met(old, mid, new, target, d1, d2);
}

/// The match status is what it was with the channels reached.
proof fn lemma_matched(t: Ost, new: u32)
    ensures
        t.matched(new, 4) == (((t.ossr | reached(t, new, 0)) | reached(t, new, 1)) | reached(
            t,
            new,
            2,
        )) | reached(t, new, 3),
        new == t.oscr ==> t.matched(new, 4) == t.ossr,
{
    reveal_with_fuel(Ost::matched, 5);
    lemma_bits_gather(t.ossr, 0, 0, 0, 0, 0, 0, 0, 0);
    lemma_bits_gather(t.matched(new, 1), 0, 0, 0, 0, 0, 0, 0, 0);
    lemma_bits_gather(t.matched(new, 2), 0, 0, 0, 0, 0, 0, 0, 0);
    lemma_bits_gather(t.matched(new, 3), 0, 0, 0, 0, 0, 0, 0, 0);
}

/// Bits gathered in two rounds are the bits gathered in one.
proof fn lemma_bits_gather(
    s: u32,
    a0: u32,
    a1: u32,
    a2: u32,
    a3: u32,
    b0: u32,
    b1: u32,
    b2: u32,
    b3: u32,
)
    ensures
        s | 0 == s,
        (((((((s | a0) | a1) | a2) | a3) | b0) | b1) | b2) | b3 == (((s | (a0 | b0)) | (a1 | b1)) | (
        a2 | b2)) | (a3 | b3),
        a0 | a0 == a0 && a1 | a1 == a1 && a2 | a2 == a2 && a3 | a3 == a3,
        a0 | 0 == a0 && a1 | 0 == a1 && a2 | 0 == a2 && a3 | 0 == a3,
        0 | b0 == b0 && 0 | b1 == b1 && 0 | b2 == b2 && 0 | b3 == b3,
{
    assert((s | 0 == s) && ((((((((s | a0) | a1) | a2) | a3) | b0) | b1) | b2) | b3 == (((s | (a0
        | b0)) | (a1 | b1)) | (a2 | b2)) | (a3 | b3)) && (a0 | a0 == a0 && a1 | a1 == a1 && a2 | a2
        == a2 && a3 | a3 == a3) && (a0 | 0 == a0 && a1 | 0 == a1 && a2 | 0 == a2 && a3 | 0 == a3)
        && (0 | b0 == b0 && 0 | b1 == b1 && 0 | b2 == b2 && 0 | b3 == b3)) by (bit_vector);
}

/// Writing one to a match bit clears it and no other.
pub proof fn law_match_status_is_write_one_to_clear(t: Ost, ch: u32, other: u32)
    requires
        ch < 32,
        other < 32,
    ensures
        t.written(0x14, 1u32 << ch).ossr & (1u32 << ch) == 0,
        other != ch ==> t.written(0x14, 1u32 << ch).ossr & (1u32 << other) == t.ossr & (1u32
            << other),
{
    crate::bits::lemma_bit(t.ossr, ch, other);
}

/// The registers hold what they are given: each match register on its own, the
/// counter, and the enables; setting the counter forgets the fraction of a
/// step.
pub proof fn law_registers_read_back(t: Ost, ch: u32, other: u32, val: u32)
    requires
        ch < 4,
        other < 4,
        other != ch,
    ensures
        t.written((4 * ch) as u32, val).read_spec((4 * ch) as u32) == val,
        t.written((4 * ch) as u32, val).read_spec((4 * other) as u32) == t.read_spec(
            (4 * other) as u32,
        ),
        t.written((4 * ch) as u32, val).oscr == t.oscr,
        t.written((4 * ch) as u32, val).osmr[ch as int] == val,
        t.written(0x10, val).read_spec(0x10) == val,
        t.written(0x10, val).frac == 0,
        t.written(0x18, val).read_spec(0x18) == val,
        t.written(0x1C, val).read_spec(0x1C) == val,
        t.written(0x1C, val).ossr == t.ossr,
{
}

/// The line of each of the four channels is asserted exactly where its match
/// is enabled and has been seen.
pub proof fn law_lines_follow_enabled_matches(t: Ost, intc: Intc, ch: u32, other: u32)
    requires
        ch < 4,
        !(26 <= other < 30),
    ensures
        t.drive(intc).pending_spec((26 + ch) as u32) == (crate::bits::bit_of(t.oier, ch)
            && crate::bits::bit_of(t.ossr, ch)),
        t.drive(intc).pending_spec(other) == intc.pending_spec(other),
{
    reveal_with_fuel(Ost::drive_upto, 5);
    let i0 = t.drive_upto(intc, 0);
    let i1 = t.drive_upto(intc, 1);
    let i2 = t.drive_upto(intc, 2);
    let i3 = t.drive_upto(intc, 3);
    let i4 = t.drive_upto(intc, 4);
    assert(i1 == i0.driven(26, t.ch_active(0)));
    assert(i2 == i1.driven(27, t.ch_active(1)));
    assert(i3 == i2.driven(28, t.ch_active(2)));
    assert(i4 == i3.driven(29, t.ch_active(3)));
    let s = (26 + ch) as u32;
    super::intc::law_sources_are_independent(i0, 26, t.ch_active(0), s);
    super::intc::law_sources_are_independent(i1, 27, t.ch_active(1), s);
    super::intc::law_sources_are_independent(i2, 28, t.ch_active(2), s);
    super::intc::law_sources_are_independent(i3, 29, t.ch_active(3), s);
    super::intc::law_sources_are_independent(i0, 26, t.ch_active(0), other);
    super::intc::law_sources_are_independent(i1, 27, t.ch_active(1), other);
    super::intc::law_sources_are_independent(i2, 28, t.ch_active(2), other);
    super::intc::law_sources_are_independent(i3, 29, t.ch_active(3), other);
}

} // verus!
