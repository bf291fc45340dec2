//! PXA27x AC97 controller, at physical 0x40500000.
//!
//! This is the audio path, and on this machine audio is the entire user
//! interface: KeySoft's speech is software-synthesised PCM pushed through
//! here. EBOOT also uses it long before that, to make its startup beep, and
//! it will not proceed past codec initialisation until the link reports the
//! primary codec ready.

use super::intc::{Intc, IRQ_AC97};
use vstd::prelude::*;

verus! {

pub const BASE: u32 = 0x4050_0000;

// Global control register.
pub const GCR_GIE: u32 = 0x1;
pub const GCR_COLD_RST: u32 = 0x2;
pub const GCR_WARM_RST: u32 = 0x4;
pub const GCR_ACLINK_OFF: u32 = 0x8;
pub const GCR_SDONE_IE: u32 = 0x4_0000;
pub const GCR_CDONE_IE: u32 = 0x8_0000;

// Global status register.
pub const GSR_ACOFFD: u32 = 0x8;
/// Primary codec ready.
pub const GSR_PCR: u32 = 0x100;
pub const GSR_SDONE: u32 = 0x4_0000;
pub const GSR_CDONE: u32 = 0x8_0000;

/// Codec register file within the controller's window.
///
/// The PXA spaces the codec's registers two bytes apart in its own address
/// map, so AC'97 register N appears at `0x200 + N * 2`. Register numbers are
/// themselves even byte offsets (0x00, 0x02, ... 0x7E), which makes the whole
/// 64-register file exactly the 256-byte window. The giveaway in a trace is a
/// write of 0xAC44, which is 44100 and can only be the PCM DAC rate at
/// register 0x2C: it appears at controller offset 0x58.
pub const PRIMARY_CODEC: u32 = 0x0200;
pub const CODEC_WINDOW: u32 = 0x0100;

// Standard AC'97 codec register numbers with meaningful answers.
pub const CODEC_RESET: u32 = 0x00;
pub const CODEC_PC_BEEP: u32 = 0x0A;
pub const CODEC_POWERDOWN: u32 = 0x26;
pub const CODEC_EXT_AUDIO_ID: u32 = 0x28;
/// Extended audio control; bit 0 enables variable-rate audio.
pub const CODEC_EXT_AUDIO_CTRL: u32 = 0x2A;
/// PCM front DAC rate, in Hz.
pub const CODEC_PCM_DAC_RATE: u32 = 0x2C;
pub const CODEC_VENDOR_ID1: u32 = 0x7C;
pub const CODEC_VENDOR_ID2: u32 = 0x7E;

/// Variable-rate audio enable, in the extended audio control register.
pub const EXT_CTRL_VRA: u16 = 0x1;

/// The AC-link itself always runs at 48 kHz.
pub const LINK_RATE: u32 = 48_000;
/// Frames of slack allowed, so a burst of DMA is not chopped into single
/// samples but playback still cannot run away.
pub const MAX_CREDIT: u64 = 4096;
/// How many control-register writes are kept for bring-up.
pub const GCR_LOG_LIMIT: usize = 64;
/// How many codec-register writes are kept for bring-up.
pub const CODEC_LOG_LIMIT: usize = 96;

/// Controller offset to AC'97 register number.
pub fn codec_reg(offset: u32) -> (r: u32)
    requires
        offset >= PRIMARY_CODEC,
    ensures
        r == (offset - PRIMARY_CODEC) / 2,
{
    (offset - PRIMARY_CODEC) / 2
}

/// AC'97 register number to an index in the 64-entry file.
pub fn codec_index(reg: u32) -> (r: usize)
    ensures
        r == reg / 2,
{
    (reg / 2) as usize
}

pub struct Ac97 {
    pub gcr: u32,
    pub gsr: u32,
    pub car: u32,
    pub pocr: u32,
    pub picr: u32,
    pub mccr: u32,
    pub posr: u32,
    pub pisr: u32,
    pub mcsr: u32,
    /// Primary codec register file, 64 sixteen-bit registers.
    pub codec_regs: [u16; 64],
    /// PCM samples the guest has written, waiting to be played.
    pub pcm_out: Vec<u32>,
    /// Set once the guest has taken the link out of cold reset.
    pub link_up: bool,
    /// Stereo frames the codec can still accept. Refilled at the sample
    /// rate, so DMA into the FIFO is paced the way flow control paces it on
    /// hardware instead of running as fast as the emulator loops.
    pub credit: u64,
    pub frac: u64,
    /// Bounded log of control-register writes, for bring-up.
    pub gcr_log: Vec<(u32, u32)>,
    /// Codec register writes, as (register, value).
    pub codec_log: Vec<(u32, u16)>,
}

/// What an [`Ac97`] holds.
#[verifier::ext_equal]
pub struct Ac97State {
    pub gcr: u32,
    pub gsr: u32,
    pub car: u32,
    pub pocr: u32,
    pub picr: u32,
    pub mccr: u32,
    pub posr: u32,
    pub pisr: u32,
    pub mcsr: u32,
    pub codec_regs: Seq<u16>,
    pub pcm_out: Seq<u32>,
    pub link_up: bool,
    pub credit: u64,
    pub frac: u64,
    pub gcr_log: Seq<(u32, u32)>,
    pub codec_log: Seq<(u32, u16)>,
}

impl View for Ac97 {
    type V = Ac97State;

    open spec fn view(&self) -> Ac97State {
        Ac97State {
            gcr: self.gcr,
            gsr: self.gsr,
            car: self.car,
            pocr: self.pocr,
            picr: self.picr,
            mccr: self.mccr,
            posr: self.posr,
            pisr: self.pisr,
            mcsr: self.mcsr,
            codec_regs: self.codec_regs@,
            pcm_out: self.pcm_out@,
            link_up: self.link_up,
            credit: self.credit,
            frac: self.frac,
            gcr_log: self.gcr_log@,
            codec_log: self.codec_log@,
        }
    }
}

impl Ac97State {
    /// The controller at power-on: a codec with no special capabilities that
    /// supports variable-rate PCM, every analogue section ready, beep muted.
    pub open spec fn at_reset() -> Ac97State {
        Ac97State {
            gcr: 0,
            gsr: 0,
            car: 0,
            pocr: 0,
            picr: 0,
            mccr: 0,
            posr: 0,
            pisr: 0,
            mcsr: 0,
            codec_regs: Seq::new(64, |i: int| 0u16).update(0, 0x0400).update(
                0x13,
                0x000F,
            ).update(0x14, 0x0001).update(0x05, 0x8000),
            pcm_out: Seq::empty(),
            link_up: false,
            credit: 0,
            frac: 0,
            gcr_log: Seq::empty(),
            codec_log: Seq::empty(),
        }
    }

    /// Credit never exceeds the slack the codec has.
    pub open spec fn wf(self) -> bool {
        self.codec_regs.len() == 64 && self.credit <= MAX_CREDIT
    }

    pub open spec fn pcm_rate_spec(self) -> u32 {
        let rate = self.codec_regs[0x16] as u32;
        if self.codec_regs[0x15] & EXT_CTRL_VRA != 0 && 4000 <= rate <= 48_000 {
            rate
        } else {
            LINK_RATE
        }
    }

    pub open spec fn accumulated(self, cycles: u32) -> int {
        self.frac + cycles * self.pcm_rate_spec()
    }

    /// The codec after `cycles` of a CPU running at `cpu_hz`: whole frames
    /// become credit, up to the slack, and the rest is carried.
    pub open spec fn ticked(self, cycles: u32, cpu_hz: u64) -> Ac97State {
        let total = self.accumulated(cycles);
        let frames = total / (cpu_hz as int);
        Ac97State {
            frac: (total % (cpu_hz as int)) as u64,
            credit: if self.credit + frames > MAX_CREDIT {
                if frames > 0 {
                    MAX_CREDIT
                } else {
                    self.credit
                }
            } else {
                (self.credit + frames) as u64
            },
            ..self
        }
    }

    /// How many of `want` frames the codec has room for.
    pub open spec fn granted(self, want: u32) -> u32 {
        if want <= self.credit {
            want
        } else {
            self.credit as u32
        }
    }

    pub open spec fn drive(self, intc: Intc) -> Intc {
        let done = (self.gcr & GCR_CDONE_IE != 0 && self.gsr & GSR_CDONE != 0) || (self.gcr
            & GCR_SDONE_IE != 0 && self.gsr & GSR_SDONE != 0);
        intc.driven(IRQ_AC97, done && self.gcr & GCR_GIE != 0)
    }

    /// The AC-link after the control register was written: link-off takes it
    /// down, a reset request brings it up with the codec ready.
    pub open spec fn gcr_applied(self) -> Ac97State {
        if self.gcr & GCR_ACLINK_OFF != 0 {
            Ac97State { link_up: false, gsr: (self.gsr & !GSR_PCR) | GSR_ACOFFD, ..self }
        } else if self.gcr & (GCR_COLD_RST | GCR_WARM_RST) != 0 {
            Ac97State { link_up: true, gsr: (self.gsr | GSR_PCR) & !GSR_ACOFFD, ..self }
        } else {
            self
        }
    }

    pub open spec fn in_codec(offset: u32) -> bool {
        PRIMARY_CODEC <= offset < PRIMARY_CODEC + CODEC_WINDOW
    }

    pub open spec fn codec_read(self, reg: u32) -> u32 {
        if reg == CODEC_VENDOR_ID1 {
            0x4144
        } else if reg == CODEC_VENDOR_ID2 {
            0x5300
        } else if reg / 2 < 64 {
            self.codec_regs[(reg / 2) as int] as u32
        } else {
            0
        }
    }

    /// The low four bits of the powerdown register are read-only status.
    pub open spec fn codec_written(self, reg: u32, val: u16) -> Ac97State {
        if reg / 2 < 64 {
            Ac97State {
                codec_regs: self.codec_regs.update(
                    (reg / 2) as int,
                    if reg == CODEC_POWERDOWN {
                        (val & 0xFFF0) | 0x000F
                    } else {
                        val
                    },
                ),
                ..self
            }
        } else {
            self
        }
    }

    pub open spec fn read_spec(self, offset: u32) -> u32 {
        if offset == 0x00 {
            self.pocr
        } else if offset == 0x04 {
            self.picr
        } else if offset == 0x08 {
            self.mccr
        } else if offset == 0x0C {
            self.gcr
        } else if offset == 0x10 {
            self.posr
        } else if offset == 0x14 {
            self.pisr
        } else if offset == 0x18 {
            self.mcsr
        } else if offset == 0x1C {
            self.gsr
        } else if offset == 0x20 {
            self.car & !1u32
        } else if Self::in_codec(offset) {
            self.codec_read(((offset - PRIMARY_CODEC) / 2) as u32)
        } else {
            0
        }
    }

    /// Reading a codec register reports that the status came back.
    pub open spec fn after_read(self, offset: u32) -> Ac97State {
        if Self::in_codec(offset) {
            Ac97State { gsr: self.gsr | GSR_SDONE, ..self }
        } else {
            self
        }
    }

    pub open spec fn written(self, offset: u32, val: u32) -> Ac97State {
        if offset == 0x00 {
            Ac97State { pocr: val, ..self }
        } else if offset == 0x04 {
            Ac97State { picr: val, ..self }
        } else if offset == 0x08 {
            Ac97State { mccr: val, ..self }
        } else if offset == 0x0C {
            (Ac97State {
                gcr: val,
                gcr_log: super::logged(self.gcr_log, (val, self.gsr), GCR_LOG_LIMIT as int),
                ..self
            }).gcr_applied()
        } else if offset == 0x10 {
            Ac97State { posr: val, ..self }
        } else if offset == 0x14 {
            Ac97State { pisr: val, ..self }
        } else if offset == 0x18 {
            Ac97State { mcsr: val, ..self }
        } else if offset == 0x1C {
            Ac97State { gsr: self.gsr & !(val & !GSR_PCR), ..self }
        } else if offset == 0x20 {
            Ac97State { car: val, ..self }
        } else if offset == 0x40 {
            Ac97State { pcm_out: self.pcm_out.push(val), ..self }
        } else if Self::in_codec(offset) {
            let reg = ((offset - PRIMARY_CODEC) / 2) as u32;
            let s = (Ac97State {
                codec_log: super::logged(self.codec_log, (reg, val as u16), CODEC_LOG_LIMIT as int),
                ..self
            }).codec_written(reg, val as u16);
            Ac97State { gsr: s.gsr | GSR_CDONE, ..s }
        } else {
            self
        }
    }
}

impl Default for Ac97 {
    fn default() -> (r: Self)
        ensures
            r@ == Ac97State::at_reset(),
    {
        let mut codec_regs: [u16; 64] = [0u16; 64];
        // Reset register: reports a codec with no special capabilities.
        codec_regs[codec_index(CODEC_RESET)] = 0x0400;
        // Powerdown status: ADC, DAC, analogue and reference all ready. The
        // low four bits are read-only status, and drivers spin until all are
        // set.
        codec_regs[codec_index(CODEC_POWERDOWN)] = 0x000F;
        // Extended audio: variable-rate PCM supported.
        codec_regs[codec_index(CODEC_EXT_AUDIO_ID)] = 0x0001;
        // Beep is muted at reset, like real silicon.
        codec_regs[codec_index(CODEC_PC_BEEP)] = 0x8000;

        Ac97 {
            gcr: 0,
            gsr: 0,
            car: 0,
            pocr: 0,
            picr: 0,
            mccr: 0,
            posr: 0,
            pisr: 0,
            mcsr: 0,
            codec_regs,
            pcm_out: Vec::new(),
            link_up: false,
            credit: 0,
            frac: 0,
            gcr_log: Vec::new(),
            codec_log: Vec::new(),
        }
    }
}

impl Ac97 {
    /// The rate PCM is actually delivered at.
    ///
    /// With variable-rate audio enabled the codec resamples internally and
    /// the data rate is whatever the driver put in the DAC rate register,
    /// 44100 on this machine. Treating it as the 48 kHz link rate plays
    /// everything about nine percent fast.
    pub fn pcm_rate(&self) -> (r: u32)
        ensures
            r == self@.pcm_rate_spec(),
            4000 <= r <= 48_000,
    {
        let ctrl: u16 = self.codec_regs[codec_index(CODEC_EXT_AUDIO_CTRL)];
        let rate: u32 = self.codec_regs[codec_index(CODEC_PCM_DAC_RATE)] as u32;
        if ctrl & EXT_CTRL_VRA != 0 && 4000 <= rate && rate <= 48_000 {
            rate
        } else {
            LINK_RATE
        }
    }

    /// Advance the codec's appetite for samples.
    pub fn tick(&mut self, cycles: u32, cpu_hz: u64)
        requires
            cpu_hz > 0,
            old(self)@.accumulated(cycles) <= u64::MAX,
            old(self)@.credit + old(self)@.accumulated(cycles) / (cpu_hz as int) <= u64::MAX,
        ensures
            final(self)@ == old(self)@.ticked(cycles, cpu_hz),
            final(self)@.frac < cpu_hz,
    {
        let rate: u32 = self.pcm_rate();
        assert(cycles * rate <= 0xFFFF_FFFF * 48_000) by (nonlinear_arith)
            requires
                cycles <= 0xFFFF_FFFF,
                rate <= 48_000,
        ;
        let total: u64 = self.frac + cycles as u64 * rate as u64;
        let frames: u64 = total / cpu_hz;
        proof {
            vstd::arithmetic::div_mod::lemma_fundamental_div_mod(total as int, cpu_hz as int);
            vstd::arithmetic::mul::lemma_mul_is_commutative(frames as int, cpu_hz as int);
            vstd::arithmetic::div_mod::lemma_mod_bound(total as int, cpu_hz as int);
        }
        if frames > 0 {
            self.frac = total - frames * cpu_hz;
            let filled: u64 = self.credit + frames;
            self.credit = if filled < MAX_CREDIT {
                filled
            } else {
                MAX_CREDIT
            };
        } else {
            self.frac = total;
        }
    }

    /// Claim up to `want` frames of the codec's capacity.
    pub fn take_credit(&mut self, want: u32) -> (r: u32)
        ensures
            r == old(self)@.granted(want),
            final(self)@ == (Ac97State { credit: (old(self)@.credit - r) as u64, ..old(self)@ }),
            r <= want,
    {
        let got: u64 = if (want as u64) < self.credit {
            want as u64
        } else {
            self.credit
        };
        self.credit = self.credit - got;
        got as u32
    }

    fn update_irq(&self, intc: &mut Intc)
        ensures
            *final(intc) == self@.drive(*old(intc)),
    {
        let mut active = false;
        if self.gcr & GCR_CDONE_IE != 0 && self.gsr & GSR_CDONE != 0 {
            active = true;
        }
        if self.gcr & GCR_SDONE_IE != 0 && self.gsr & GSR_SDONE != 0 {
            active = true;
        }
        intc.set(IRQ_AC97, active && self.gcr & GCR_GIE != 0);
    }

    /// Bring the AC-link up or take it down in response to a GCR write.
    fn apply_gcr(&mut self)
        ensures
            final(self)@ == old(self)@.gcr_applied(),
    {
        let reset_requested = self.gcr & (GCR_COLD_RST | GCR_WARM_RST) != 0;
        let link_off = self.gcr & GCR_ACLINK_OFF != 0;

        if link_off {
            self.link_up = false;
            self.gsr = self.gsr & !GSR_PCR;
            self.gsr = self.gsr | GSR_ACOFFD;
        } else if reset_requested {
            // A real codec takes a few frames to come up. Nothing here can
            // observe the delay, and firmware only ever polls for the ready
            // bit, so report it immediately.
            self.link_up = true;
            self.gsr = self.gsr | GSR_PCR;
            self.gsr = self.gsr & !GSR_ACOFFD;
        }
    }

    pub fn read(&mut self, offset: u32, intc: &mut Intc) -> (r: u32)
        ensures
            r == old(self)@.read_spec(offset),
            final(self)@ == old(self)@.after_read(offset),
            *final(intc) == final(self)@.drive(*old(intc)),
    {
        let v: u32 = match offset {
            0x00 => self.pocr,
            0x04 => self.picr,
            0x08 => self.mccr,
            0x0C => self.gcr,
            0x10 => self.posr,
            0x14 => self.pisr,
            0x18 => self.mcsr,
            0x1C => self.gsr,
            // Codec access in progress: never, we answer instantly.
            0x20 => self.car & !1u32,
            // PCM data in, at 0x40, reads as zero: nothing is recording.
            _ => if PRIMARY_CODEC <= offset && offset < PRIMARY_CODEC + CODEC_WINDOW {
                let val: u32 = self.read_codec(codec_reg(offset));
                self.gsr = self.gsr | GSR_SDONE;
                val
            } else {
                0
            },
        };
        self.update_irq(intc);
        v
    }

    pub fn write(&mut self, offset: u32, val: u32, intc: &mut Intc)
        ensures
            final(self)@ == old(self)@.written(offset, val),
            *final(intc) == final(self)@.drive(*old(intc)),
    {
        match offset {
            0x00 => self.pocr = val,
            0x04 => self.picr = val,
            0x08 => self.mccr = val,
            0x0C => {
                if self.gcr_log.len() < GCR_LOG_LIMIT {
                    self.gcr_log.push((val, self.gsr));
                }
                self.gcr = val;
                self.apply_gcr();
            },
            0x10 => self.posr = val,
            0x14 => self.pisr = val,
            0x18 => self.mcsr = val,
            // GSR status bits are write-one-to-clear. PCR is a level, not an
            // event, so it survives.
            0x1C => self.gsr = self.gsr & !(val & !GSR_PCR),
            0x20 => self.car = val,
            // PCM out data: one word carries a left and a right sample.
            0x40 => self.pcm_out.push(val),
            _ => if PRIMARY_CODEC <= offset && offset < PRIMARY_CODEC + CODEC_WINDOW {
                let reg: u32 = codec_reg(offset);
                if self.codec_log.len() < CODEC_LOG_LIMIT {
                    self.codec_log.push((reg, val as u16));
                }
                self.write_codec(reg, val as u16);
                self.gsr = self.gsr | GSR_CDONE;
            },
        }
        self.update_irq(intc);
    }

    fn read_codec(&self, reg: u32) -> (r: u32)
        ensures
            r == self@.codec_read(reg),
    {
        match reg {
            // Vendor identification. No driver in this image keys off a
            // specific codec, so report a generic one.
            0x7C => 0x4144,  // "AD"
            0x7E => 0x5300,  // "S"
            _ => if codec_index(reg) < 64 {
                self.codec_regs[codec_index(reg)] as u32
            } else {
                0
            },
        }
    }

    fn write_codec(&mut self, reg: u32, val: u16)
        ensures
            final(self)@ == old(self)@.codec_written(reg, val),
    {
        if codec_index(reg) >= 64 {
            return ;
        }
        // The low four bits of the powerdown register are read-only status.
        self.codec_regs[codec_index(reg)] = if reg == CODEC_POWERDOWN {
            (val & 0xFFF0) | 0x000F
        } else {
            val
        };
    }

    /// Current state of the codec's PC Beep register, which is how EBOOT and
    /// KeySoft make the startup and alert tones.
    pub fn beep_register(&self) -> (r: u16)
        ensures
            r == self@.codec_regs[5],
    {
        self.codec_regs[codec_index(CODEC_PC_BEEP)]
    }

    /// Take the queued PCM samples for playback.
    pub fn drain_pcm(&mut self) -> (r: Vec<u32>)
        ensures
            r@ == old(self)@.pcm_out,
            final(self)@ == (Ac97State { pcm_out: Seq::empty(), ..old(self)@ }),
    {
        let mut taken: Vec<u32> = Vec::new();
        std::mem::swap(&mut taken, &mut self.pcm_out);
        taken
    }
}

/// Playback cannot run away: ticking never leaves the codec with more than
/// [`MAX_CREDIT`] frames of room, and a grant is paid for out of that room.
pub proof fn law_credit_is_bounded(a: Ac97State, cycles: u32, cpu_hz: u64, want: u32)
    requires
        a.wf(),
        cpu_hz > 0,
    ensures
        a.ticked(cycles, cpu_hz).credit <= MAX_CREDIT,
        a.granted(want) <= want,
        a.granted(want) <= a.credit,
{
    assert(0 <= cycles * a.pcm_rate_spec()) by (nonlinear_arith);
    vstd::arithmetic::div_mod::lemma_div_pos_is_pos(a.accumulated(cycles), cpu_hz as int);
}

/// Primary-codec-ready is a level: clearing status bits never loses it.
pub proof fn law_codec_ready_survives_status_clears(a: Ac97State, val: u32)
    ensures
        a.written(0x1C, val).gsr & GSR_PCR == a.gsr & GSR_PCR,
{
    lemma_status(a.gsr, val);
}

/// A codec register reads back what was written to it, except that the
/// identification registers are fixed and the powerdown status bits always
/// report ready.
pub proof fn law_codec_registers_read_back(a: Ac97State, offset: u32, val: u32)
    requires
        a.wf(),
        Ac97State::in_codec(offset),
        (offset - PRIMARY_CODEC) / 2 != CODEC_VENDOR_ID1,
        (offset - PRIMARY_CODEC) / 2 != CODEC_VENDOR_ID2,
        (offset - PRIMARY_CODEC) / 2 != CODEC_POWERDOWN,
    ensures
        a.written(offset, val).read_spec(offset) == (val as u16) as u32,
        forall|other: u32|
            #![trigger a.written(offset, val).read_spec(other)]
            Ac97State::in_codec(other) && (other - PRIMARY_CODEC) / 4 != (offset - PRIMARY_CODEC)
                / 4 ==> a.written(offset, val).read_spec(other) == a.read_spec(other),
{
}

impl Ac97State {
    /// The codec after a run of ticks of a CPU running at `cpu_hz`.
    pub open spec fn after_ticks(self, run: Seq<u32>, cpu_hz: u64) -> Ac97State
        decreases run.len(),
    {
        if run.len() == 0 {
            self
        } else {
            self.after_ticks(run.drop_last(), cpu_hz).ticked(run.last(), cpu_hz)
        }
    }

    /// The codec after samples were written to its data register.
    pub open spec fn after_samples(self, words: Seq<u32>) -> Ac97State
        decreases words.len(),
    {
        if words.len() == 0 {
            self
        } else {
            self.after_samples(words.drop_last()).written(0x40, words.last())
        }
    }
}

/// Over any run of ticks the codec makes room for as many frames as its sample
/// rate has in the time that has passed in all, with nothing lost between one
/// tick and the next, up to the slack it has; nothing else about it moves.
pub proof fn law_room_follows_the_sample_rate(a: Ac97State, run: Seq<u32>, cpu_hz: u64)
    requires
        a.wf(),
        a.frac < cpu_hz,
    ensures
        ({
            let e = a.after_ticks(run, cpu_hz);
            let passed = a.frac + super::power::cycles_in(run) * a.pcm_rate_spec();
            let frames = passed / (cpu_hz as int);
            &&& e.credit == if a.credit + frames > MAX_CREDIT {
                MAX_CREDIT as int
            } else {
                a.credit + frames
            }
            &&& e.frac == passed % (cpu_hz as int)
            &&& e == (Ac97State { credit: e.credit, frac: e.frac, ..a })
        }),
    decreases run.len(),
{
    let hz = cpu_hz as int;
    let rate = a.pcm_rate_spec() as int;
    if run.len() == 0 {
        vstd::arithmetic::div_mod::lemma_small_mod(a.frac as nat, hz as nat);
        vstd::arithmetic::div_mod::lemma_basic_div(a.frac as int, hz);
    } else {
        let front = run.drop_last();
        let c = run.last() as int;
        law_room_follows_the_sample_rate(a, front, cpu_hz);
        let m = a.after_ticks(front, cpu_hz);
        let from = a.frac + super::power::cycles_in(front) * rate;
        super::power::lemma_cycles_in(front);
        assert(super::power::cycles_in(run) * rate == super::power::cycles_in(front) * rate + c
            * rate) by (nonlinear_arith)
            requires
                super::power::cycles_in(run) == super::power::cycles_in(front) + c,
        ;
        assert(super::power::cycles_in(front) * rate >= 0 && c * rate >= 0) by (nonlinear_arith)
            requires
                super::power::cycles_in(front) >= 0,
                c >= 0,
                rate >= 0,
        ;
        super::power::lemma_whole_seconds(from, c * rate, hz);
        vstd::arithmetic::div_mod::lemma_mod_bound(from, hz);
        vstd::arithmetic::div_mod::lemma_mod_bound(from + c * rate, hz);
        vstd::arithmetic::div_mod::lemma_div_pos_is_pos(from, hz);
        vstd::arithmetic::div_mod::lemma_div_pos_is_pos(m.frac + c * rate, hz);
        assert(m.accumulated(run.last()) == m.frac + c * rate);
    }
}

/// Samples wait to be played in the order they were written, and writing them
/// does nothing else.
pub proof fn law_samples_keep_their_order(a: Ac97State, words: Seq<u32>)
    ensures
        a.after_samples(words) == (Ac97State { pcm_out: a.pcm_out + words, ..a }),
    decreases words.len(),
{
    if words.len() == 0 {
        assert(a.pcm_out + words =~= a.pcm_out);
    } else {
        law_samples_keep_their_order(a, words.drop_last());
        assert((a.pcm_out + words.drop_last()).push(words.last()) =~= a.pcm_out + words);
    }
}

/// Samples are wanted at the rate that the driver set, where it has turned
/// variable rates on and the rate is one the codec has; otherwise at the rate
/// of the link.
pub proof fn law_the_rate_is_what_the_driver_set(a: Ac97State, ctrl: u16, rate: u16)
    requires
        a.wf(),
    ensures
        ({
            let s = a.written(0x254, ctrl as u32).written(0x258, rate as u32);
            s.pcm_rate_spec() == if ctrl & 1 != 0 && 4000 <= rate <= 48_000 {
                rate as u32
            } else {
                48_000
            }
        }),
{
}

/// The link comes up ready when the guest asks for a reset of it and goes down
/// when it is told to go off, whatever it was before; the status says which.
pub proof fn law_the_link_follows_its_control(a: Ac97State, val: u32)
    ensures
        a.written(0x0C, val).read_spec(0x0C) == val,
        val & 0x8 != 0 ==> !a.written(0x0C, val).link_up && a.written(0x0C, val).gsr & 0x100 == 0,
        val & 0x8 == 0 && val & 0x6 != 0 ==> a.written(0x0C, val).link_up && a.written(
            0x0C,
            val,
        ).gsr & 0x100 != 0,
        val & 0x8 == 0 && val & 0x6 == 0 ==> a.written(0x0C, val).link_up == a.link_up && a.written(
            0x0C,
            val,
        ).gsr == a.gsr,
{
    lemma_status(a.gsr, val);
}

/// What clearing status and moving the link do to the ready bit.
proof fn lemma_status(g: u32, val: u32)
    ensures
        (g & !(val & !GSR_PCR)) & GSR_PCR == g & GSR_PCR,
        ((g & !GSR_PCR) | GSR_ACOFFD) & 0x100 == 0,
        ((g | GSR_PCR) & !GSR_ACOFFD) & 0x100 != 0,
        GCR_COLD_RST | GCR_WARM_RST == 0x6,
{
    assert((g & !(val & !GSR_PCR)) & GSR_PCR == g & GSR_PCR && ((g & !GSR_PCR) | GSR_ACOFFD) & 0x100
        == 0 && ((g | GSR_PCR) & !GSR_ACOFFD) & 0x100 != 0 && GCR_COLD_RST | GCR_WARM_RST == 0x6)
        by (bit_vector);
}

/// A grant is all that was asked for where there is room for it, and all the
/// room there is where there is not.
pub proof fn law_a_grant_is_as_much_as_there_is(a: Ac97State, want: u32)
    requires
        a.wf(),
    ensures
        a.granted(want) == want || a.granted(want) == a.credit,
        a.granted(want) == want <==> want <= a.credit,
{
}

} // verus!
