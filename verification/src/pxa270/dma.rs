//! PXA27x DMA controller, at physical 0x40000000.
//!
//! Audio playback on this SoC is DMA-driven: `wavedev.dll` builds a chain of
//! descriptors in memory, points a channel at it, sets RUN, and waits for the
//! completion interrupt.
//!
//! The register file lives here; the transfers themselves are performed by
//! the board, because only it can reach both SDRAM and the peripheral being
//! fed. See `gandalf::dma`.

use super::intc::{Intc, IRQ_DMA};
use vstd::prelude::*;

verus! {

pub const BASE: u32 = 0x4000_0000;
pub const CHANNELS: usize = 32;
/// Request sources that can be mapped to a channel.
pub const REQUESTS: usize = 75;

// DCSR
pub const DCSR_RUN: u32 = 0x8000_0000;
pub const DCSR_NODESC: u32 = 0x4000_0000;
pub const DCSR_STOPIRQEN: u32 = 0x2000_0000;
pub const DCSR_EORIRQEN: u32 = 0x1000_0000;
pub const DCSR_EORJMPEN: u32 = 0x0800_0000;
pub const DCSR_EORSTOPEN: u32 = 0x0400_0000;
pub const DCSR_EORINTR: u32 = 0x200;
pub const DCSR_REQPEND: u32 = 0x100;
pub const DCSR_STOPSTATE: u32 = 0x8;
pub const DCSR_ENDINTR: u32 = 0x4;
pub const DCSR_STARTINTR: u32 = 0x2;
pub const DCSR_BUSERR: u32 = 0x1;

/// Bits the guest clears by writing one, which are also the bits that
/// interrupt: EORINTR, ENDINTR, STARTINTR and BUSERR.
pub const DCSR_W1C: u32 = 0x207;
/// Bits the guest owns outright: RUN, NODESC, STOPIRQEN, EORIRQEN, EORJMPEN
/// and EORSTOPEN.
pub const DCSR_CONTROL: u32 = 0xFC00_0000;

// DCMD
pub const DCMD_INCSRCADDR: u32 = 0x8000_0000;
pub const DCMD_INCTRGADDR: u32 = 0x4000_0000;
pub const DCMD_FLOWSRC: u32 = 0x2000_0000;
pub const DCMD_FLOWTRG: u32 = 0x1000_0000;
pub const DCMD_STARTIRQEN: u32 = 0x40_0000;
pub const DCMD_ENDIRQEN: u32 = 0x20_0000;
pub const DCMD_LENGTH: u32 = 0x1FFF;

/// A descriptor's next-address field carries a stop flag in bit 0.
pub const DDADR_STOP: u32 = 1;

#[derive(Debug, Clone, Copy)]
pub struct Channel {
    pub dcsr: u32,
    pub ddadr: u32,
    pub dsadr: u32,
    pub dtadr: u32,
    pub dcmd: u32,
}

impl Default for Channel {
    fn default() -> (r: Self)
        ensures
            r == Channel::idle(),
    {
        Channel { dcsr: 0, ddadr: 0, dsadr: 0, dtadr: 0, dcmd: 0 }
    }
}

impl Channel {
    pub open spec fn idle() -> Channel {
        Channel { dcsr: 0, ddadr: 0, dsadr: 0, dtadr: 0, dcmd: 0 }
    }

    pub open spec fn width_spec(self) -> u32 {
        let code = (self.dcmd >> 14) & 3;
        if code == 1 {
            1
        } else if code == 2 {
            2
        } else {
            4
        }
    }

    pub open spec fn length_spec(self) -> u32 {
        self.dcmd & DCMD_LENGTH
    }

    /// Running and not stopped.
    pub open spec fn runnable(self) -> bool {
        self.dcsr & DCSR_RUN != 0 && self.dcsr & DCSR_STOPSTATE == 0
    }

    pub open spec fn interrupting(self) -> bool {
        self.dcsr & DCSR_W1C != 0
    }

    /// The channel after its control register took `val`: status bits clear
    /// where a one is written, control bits follow the value, and the stop
    /// state is the opposite of RUN.
    pub open spec fn controlled(self, val: u32) -> Channel {
        let taken = ((self.dcsr & !(val & DCSR_W1C)) & !DCSR_CONTROL) | (val & DCSR_CONTROL);
        Channel {
            dcsr: if val & DCSR_RUN != 0 {
                taken & !DCSR_STOPSTATE
            } else {
                taken | DCSR_STOPSTATE
            },
            ..self
        }
    }

    /// The channel after a descriptor field was written, by its offset within
    /// the descriptor.
    pub open spec fn with_field(self, field: u32, val: u32) -> Channel {
        if field == 0 {
            Channel { ddadr: val, ..self }
        } else if field == 4 {
            Channel { dsadr: val, ..self }
        } else if field == 8 {
            Channel { dtadr: val, ..self }
        } else {
            Channel { dcmd: val, ..self }
        }
    }

    pub open spec fn field(self, field: u32) -> u32 {
        if field == 0 {
            self.ddadr
        } else if field == 4 {
            self.dsadr
        } else if field == 8 {
            self.dtadr
        } else {
            self.dcmd
        }
    }

    /// The channel once its descriptor finished, and it was the last one if
    /// `stop`.
    pub open spec fn completed(self, stop: bool) -> Channel {
        let a = if self.dcmd & DCMD_ENDIRQEN != 0 {
            self.dcsr | DCSR_ENDINTR
        } else {
            self.dcsr
        };
        let b = if self.dcmd & DCMD_STARTIRQEN != 0 {
            a | DCSR_STARTINTR
        } else {
            a
        };
        Channel {
            dcsr: if stop {
                (b | DCSR_STOPSTATE) & !DCSR_RUN
            } else {
                b
            },
            ..self
        }
    }

    /// Transfer width in bytes, from DCMD bits 15:14.
    pub fn width(&self) -> (r: u32)
        ensures
            r == self.width_spec(),
    {
        match (self.dcmd >> 14) & 3 {
            1 => 1,
            2 => 2,
            _ => 4,
        }
    }

    pub fn length(&self) -> (r: u32)
        ensures
            r == self.length_spec(),
    {
        self.dcmd & DCMD_LENGTH
    }
}

pub struct Dma {
    pub channels: [Channel; 32],
    /// Request-source to channel map, DRCMR.
    pub drcmr: [u32; 75],
    /// Bytes moved, for diagnostics.
    pub bytes_moved: u64,
    pub descriptors_run: u64,
}

impl Default for Dma {
    fn default() -> (r: Self)
        ensures
            r.channels@ =~= Seq::new(32, |i: int| Channel::idle()),
            r.drcmr@ =~= Seq::new(75, |i: int| 0u32),
            r.bytes_moved == 0,
            r.descriptors_run == 0,
    {
        let idle: Channel = Channel { dcsr: 0, ddadr: 0, dsadr: 0, dtadr: 0, dcmd: 0 };
        let channels: [Channel; 32] = [
            idle, idle, idle, idle, idle, idle, idle, idle,
            idle, idle, idle, idle, idle, idle, idle, idle,
            idle, idle, idle, idle, idle, idle, idle, idle,
            idle, idle, idle, idle, idle, idle, idle, idle,
        ];
        Dma {
            channels,
            drcmr: [0; 75],
            bytes_moved: 0,
            descriptors_run: 0,
        }
    }
}

impl Dma {
    /// One bit per interrupting channel, of the first `n`.
    pub open spec fn dint_upto(self, n: int) -> u32
        decreases n,
    {
        if n <= 0 {
            0
        } else if self.channels[n - 1].interrupting() {
            self.dint_upto(n - 1) | (1u32 << ((n - 1) as u32))
        } else {
            self.dint_upto(n - 1)
        }
    }

    pub open spec fn dint_spec(self) -> u32 {
        self.dint_upto(32)
    }

    pub open spec fn drive(self, intc: Intc) -> Intc {
        intc.driven(IRQ_DMA, self.dint_spec() != 0)
    }

    /// The first runnable channel from `i` on.
    pub open spec fn runnable_from(self, i: int) -> Option<int>
        decreases 32 - i,
    {
        if i >= 32 {
            None
        } else if self.channels[i].runnable() {
            Some(i)
        } else {
            self.runnable_from(i + 1)
        }
    }

    pub open spec fn with_channel(self, ch: int, c: Channel) -> Dma {
        Dma { channels: vstd::array::spec_array_update(self.channels, ch, c), ..self }
    }

    pub open spec fn read_spec(self, offset: u32) -> u32 {
        if offset <= 0x7F {
            self.channels[(offset / 4) as int].dcsr
        } else if offset == 0xF0 {
            self.dint_spec()
        } else if 0x100 <= offset <= 0x1FF {
            self.drcmr[(offset - 0x100) / 4]
        } else if 0x200 <= offset <= 0x3FF {
            self.channels[(offset - 0x200) / 16].field(((offset - 0x200) % 16) as u32)
        } else {
            0
        }
    }

    pub open spec fn written(self, offset: u32, val: u32) -> Dma {
        if offset <= 0x7F {
            let ch = (offset / 4) as int;
            self.with_channel(ch, self.channels[ch].controlled(val))
        } else if 0x100 <= offset <= 0x1FF {
            Dma {
                drcmr: vstd::array::spec_array_update(self.drcmr, (offset - 0x100) / 4, val),
                ..self
            }
        } else if 0x200 <= offset <= 0x3FF {
            let ch = (offset - 0x200) / 16;
            self.with_channel(
                ch,
                self.channels[ch].with_field(((offset - 0x200) % 16) as u32, val),
            )
        } else {
            self
        }
    }

    pub open spec fn completed(self, ch: int, stop: bool) -> Dma {
        Dma {
            descriptors_run: self.descriptors_run.wrapping_add(1),
            ..self.with_channel(ch, self.channels[ch].completed(stop))
        }
    }

    /// DINT: one bit per channel with an interrupt outstanding.
    pub fn dint(&self) -> (r: u32)
        ensures
            r == self.dint_spec(),
    {
        let mut v: u32 = 0;
        let mut i: usize = 0;
        while i < CHANNELS
            invariant
                i <= CHANNELS,
                v == self.dint_upto(i as int),
            decreases CHANNELS - i,
        {
            if self.channels[i].dcsr & DCSR_W1C != 0 {
                v = v | (1u32 << (i as u32));
            }
            i = i + 1;
        }
        v
    }

    pub fn update_irq(&self, intc: &mut Intc)
        ensures
            *final(intc) == self.drive(*old(intc)),
    {
        intc.set(IRQ_DMA, self.dint() != 0);
    }

    /// The lowest-numbered channel that is running and has work to do.
    pub fn next_runnable(&self) -> (r: Option<usize>)
        ensures
            match r {
                Some(i) => i < CHANNELS && self.runnable_from(0) == Some(i as int)
                    && self.channels[i as int].runnable(),
                None => self.runnable_from(0) is None,
            },
    {
        let mut i: usize = 0;
        while i < CHANNELS
            invariant
                i <= CHANNELS,
                self.runnable_from(0) == self.runnable_from(i as int),
            decreases CHANNELS - i,
        {
            let dcsr: u32 = self.channels[i].dcsr;
            if dcsr & DCSR_RUN != 0 && dcsr & DCSR_STOPSTATE == 0 {
                return Some(i);
            }
            i = i + 1;
        }
        None
    }

    pub fn read(&self, offset: u32) -> (r: u32)
        ensures
            r == self.read_spec(offset),
    {
        if offset <= 0x7F {
            self.channels[(offset / 4) as usize].dcsr
        } else if offset == 0xF0 {
            self.dint()
        } else if 0x100 <= offset && offset <= 0x1FF {
            self.drcmr[((offset - 0x100) / 4) as usize]
        } else if 0x200 <= offset && offset <= 0x3FF {
            let c: Channel = self.channels[((offset - 0x200) / 16) as usize];
            match (offset - 0x200) % 16 {
                0 => c.ddadr,
                4 => c.dsadr,
                8 => c.dtadr,
                _ => c.dcmd,
            }
        } else {
            0
        }
    }

    pub fn write(&mut self, offset: u32, val: u32, intc: &mut Intc)
        ensures
            *final(self) == old(self).written(offset, val),
            *final(intc) == final(self).drive(*old(intc)),
    {
        if offset <= 0x7F {
            let ch: usize = (offset / 4) as usize;
            let mut c: Channel = self.channels[ch];
            // Status bits are write-one-to-clear; control bits are taken
            // from the written value.
            let kept: u32 = c.dcsr & !(val & DCSR_W1C);
            c.dcsr = (kept & !DCSR_CONTROL) | (val & DCSR_CONTROL);
            if val & DCSR_RUN != 0 {
                c.dcsr = c.dcsr & !DCSR_STOPSTATE;
            } else {
                c.dcsr = c.dcsr | DCSR_STOPSTATE;
            }
            self.channels[ch] = c;
        } else if 0x100 <= offset && offset <= 0x1FF {
            self.drcmr[((offset - 0x100) / 4) as usize] = val;
        } else if 0x200 <= offset && offset <= 0x3FF {
            let ch: usize = ((offset - 0x200) / 16) as usize;
            let mut c: Channel = self.channels[ch];
            match (offset - 0x200) % 16 {
                0 => c.ddadr = val,
                4 => c.dsadr = val,
                8 => c.dtadr = val,
                _ => c.dcmd = val,
            }
            self.channels[ch] = c;
        }
        self.update_irq(intc);
    }

    /// Record that a descriptor finished, raising whatever it asked for.
    pub fn complete(&mut self, ch: usize, stop: bool, intc: &mut Intc)
        requires
            ch < CHANNELS,
        ensures
            *final(self) == old(self).completed(ch as int, stop),
            *final(intc) == final(self).drive(*old(intc)),
    {
        let mut c: Channel = self.channels[ch];
        if c.dcmd & DCMD_ENDIRQEN != 0 {
            c.dcsr = c.dcsr | DCSR_ENDINTR;
        }
        if c.dcmd & DCMD_STARTIRQEN != 0 {
            c.dcsr = c.dcsr | DCSR_STARTINTR;
        }
        if stop {
            c.dcsr = c.dcsr | DCSR_STOPSTATE;
            c.dcsr = c.dcsr & !DCSR_RUN;
        }
        self.channels[ch] = c;
        self.descriptors_run = self.descriptors_run.wrapping_add(1);
        self.update_irq(intc);
    }
}

proof fn lemma_dint_bit(d: Dma, n: int, ch: u32)
    requires
        0 <= n <= 32,
        ch < 32,
    ensures
        (d.dint_upto(n) & (1u32 << ch) != 0) == (ch < n && d.channels[ch as int].interrupting()),
    decreases n,
{
    if n <= 0 {
        crate::bits::lemma_word(0, ch, 0);
    } else {
        lemma_dint_bit(d, n - 1, ch);
        crate::bits::lemma_bit(d.dint_upto(n - 1), (n - 1) as u32, ch);
    }
}

/// DINT names exactly the channels with an interrupt outstanding.
pub proof fn law_dint_names_the_interrupting_channels(d: Dma, ch: u32)
    requires
        ch < 32,
    ensures
        (d.dint_spec() & (1u32 << ch) != 0) == d.channels[ch as int].interrupting(),
{
    lemma_dint_bit(d, 32, ch);
}

/// A stopping descriptor takes its channel out of the running.
pub proof fn law_a_stopped_channel_is_not_runnable(c: Channel)
    ensures
        !c.completed(true).runnable(),
        c.completed(true).dcsr & DCSR_RUN == 0,
{
    lemma_control(c.completed(false).dcsr, 0, DCSR_ENDINTR);
}

/// Setting RUN makes a channel runnable, and clearing it stops the channel.
pub proof fn law_run_starts_and_stops_a_channel(c: Channel, val: u32)
    ensures
        c.controlled(val).runnable() == (val & DCSR_RUN != 0),
{
    lemma_control(c.dcsr, val, DCSR_ENDINTR);
}

/// The channel that is served is the lowest-numbered one that can run, and none
/// is served only where none can.
pub proof fn law_the_lowest_channel_is_served(d: Dma)
    ensures
        match d.runnable_from(0) {
            Some(i) => 0 <= i < 32 && d.channels[i].runnable() && forall|j: int|
                0 <= j < i ==> !(#[trigger] d.channels[j]).runnable(),
            None => forall|j: int| 0 <= j < 32 ==> !(#[trigger] d.channels[j]).runnable(),
        },
{
    lemma_lowest(d, 0);
}

proof fn lemma_lowest(d: Dma, i: int)
    requires
        0 <= i <= 32,
    ensures
        match d.runnable_from(i) {
            Some(n) => i <= n < 32 && d.channels[n].runnable() && forall|j: int|
                i <= j < n ==> !(#[trigger] d.channels[j]).runnable(),
            None => forall|j: int| i <= j < 32 ==> !(#[trigger] d.channels[j]).runnable(),
        },
    decreases 32 - i,
{
    if i < 32 {
        lemma_lowest(d, i + 1);
    }
}

/// A channel's four descriptor registers, and the request map, hold what is
/// written to them; another channel's, and the same channel's other ones, are
/// not touched.
pub proof fn law_registers_read_back(
    d: Dma,
    ch: int,
    field: int,
    c: int,
    f: int,
    val: u32,
    n: int,
)
    requires
        0 <= ch < 32,
        0 <= field < 4,
        0 <= c < 32,
        0 <= f < 4,
        0 <= n < 64,
    ensures
        ({
            let at = (0x200 + 16 * ch + 4 * field) as u32;
            let other = (0x200 + 16 * c + 4 * f) as u32;
            let w = d.written(at, val);
            &&& w.read_spec(at) == val
            &&& (c, f) != (ch, field) ==> w.read_spec(other) == d.read_spec(other)
            &&& w.channels[c].dcsr == d.channels[c].dcsr
            &&& field == 0 ==> w.channels[ch].ddadr == val
            &&& field == 1 ==> w.channels[ch].dsadr == val
            &&& field == 2 ==> w.channels[ch].dtadr == val
            &&& field == 3 ==> w.channels[ch].dcmd == val
        }),
        d.written((0x100 + 4 * n) as u32, val).read_spec((0x100 + 4 * n) as u32) == val,
{
    let at = (0x200 + 16 * ch + 4 * field) as u32;
    let other = (0x200 + 16 * c + 4 * f) as u32;
    assert((at - 0x200) / 16 == ch && (at - 0x200) % 16 == 4 * field);
    assert((other - 0x200) / 16 == c && (other - 0x200) % 16 == 4 * f);
    let w = d.written(at, val);
    if c != ch {
        assert(w.channels[c] == d.channels[c]);
    }
}

/// Writing a channel's control register clears the events that ones are
/// written to, and no others, and sets the enables as written; no other channel
/// hears of it.
pub proof fn law_control_clears_the_events_it_names(
    d: Dma,
    ch: u32,
    val: u32,
    other: int,
    bit: u32,
)
    requires
        ch < 32,
        0 <= other < 32,
        bit == DCSR_EORINTR || bit == DCSR_ENDINTR || bit == DCSR_STARTINTR || bit == DCSR_BUSERR,
    ensures
        ({
            let w = d.written((4 * ch) as u32, val);
            &&& (w.channels[ch as int].dcsr & bit != 0) == (d.channels[ch as int].dcsr & bit != 0
                && val & bit == 0)
            &&& w.channels[ch as int].dcsr & 0xFC00_0000 == val & 0xFC00_0000
            &&& w.channels[ch as int].dsadr == d.channels[ch as int].dsadr
            &&& w.channels[ch as int].dcmd == d.channels[ch as int].dcmd
            &&& other != ch ==> w.channels[other] == d.channels[other]
        }),
{
    lemma_control(d.channels[ch as int].dcsr, val, bit);
}

/// What a write to a channel's control register does to its bits.
proof fn lemma_control(s: u32, val: u32, bit: u32)
    requires
        bit == DCSR_EORINTR || bit == DCSR_ENDINTR || bit == DCSR_STARTINTR || bit == DCSR_BUSERR,
    ensures
        ({
            let taken = ((s & !(val & DCSR_W1C)) & !DCSR_CONTROL) | (val & DCSR_CONTROL);
            let run = taken & !DCSR_STOPSTATE;
            let stop = taken | DCSR_STOPSTATE;
            &&& val & DCSR_RUN != 0 ==> run & DCSR_RUN != 0 && run & DCSR_STOPSTATE == 0
            &&& stop & DCSR_STOPSTATE != 0
            &&& run & 0xFC00_0000 == val & 0xFC00_0000
            &&& stop & 0xFC00_0000 == val & 0xFC00_0000
            &&& (run & bit != 0) == (s & bit != 0 && val & bit == 0)
            &&& (stop & bit != 0) == (s & bit != 0 && val & bit == 0)
        }),
        ((s | DCSR_STOPSTATE) & !DCSR_RUN) & DCSR_RUN == 0,
{
    assert({
        let taken = ((s & !(val & DCSR_W1C)) & !DCSR_CONTROL) | (val & DCSR_CONTROL);
        let run = taken & !DCSR_STOPSTATE;
        let stop = taken | DCSR_STOPSTATE;
        (val & DCSR_RUN != 0 ==> run & DCSR_RUN != 0 && run & DCSR_STOPSTATE == 0) && stop
            & DCSR_STOPSTATE != 0 && run & 0xFC00_0000 == val & 0xFC00_0000 && stop & 0xFC00_0000
            == val & 0xFC00_0000 && (run & bit != 0) == (s & bit != 0 && val & bit == 0) && (stop
            & bit != 0) == (s & bit != 0 && val & bit == 0) && ((s | DCSR_STOPSTATE) & !DCSR_RUN)
            & DCSR_RUN == 0
    }) by (bit_vector)
        requires
            bit == DCSR_EORINTR || bit == DCSR_ENDINTR || bit == DCSR_STARTINTR || bit
                == DCSR_BUSERR,
    ;
}

/// Finishing a descriptor raises the events that its command asked for and no
/// others, on its own channel and no other.
pub proof fn law_completion_raises_what_was_asked_for(d: Dma, ch: int, stop: bool, other: int)
    requires
        0 <= ch < 32,
        0 <= other < 32,
    ensures
        ({
            let c = d.channels[ch];
            let e = d.completed(ch, stop).channels[ch];
            &&& (e.dcsr & 0x4 != 0) == (c.dcsr & 0x4 != 0 || c.dcmd & 0x20_0000 != 0)
            &&& (e.dcsr & 0x2 != 0) == (c.dcsr & 0x2 != 0 || c.dcmd & 0x40_0000 != 0)
            &&& e.dcsr & 0x201 == c.dcsr & 0x201
            &&& stop ==> e.dcsr & 0x8 != 0
            &&& !stop ==> e.dcsr & DCSR_RUN == c.dcsr & DCSR_RUN
            &&& e.ddadr == c.ddadr
            &&& other != ch ==> d.completed(ch, stop).channels[other] == d.channels[other]
        }),
{
    lemma_events(d.channels[ch].dcsr);
}

proof fn lemma_events(s: u32)
    ensures
        ({
            let e = s | DCSR_ENDINTR;
            let b = s | DCSR_STARTINTR;
            let both = e | DCSR_STARTINTR;
            &&& e & 0x4 != 0 && e & 0x2 == s & 0x2 && e & 0x201 == s & 0x201
            &&& b & 0x2 != 0 && b & 0x4 == s & 0x4 && b & 0x201 == s & 0x201
            &&& both & 0x2 != 0 && both & 0x4 != 0 && both & 0x201 == s & 0x201
            &&& e & DCSR_RUN == s & DCSR_RUN && b & DCSR_RUN == s & DCSR_RUN && both & DCSR_RUN == s
                & DCSR_RUN
            &&& stopping_keeps_events(s) && stopping_keeps_events(e) && stopping_keeps_events(b)
                && stopping_keeps_events(both)
        }),
{
    assert({
        let e = s | DCSR_ENDINTR;
        let b = s | DCSR_STARTINTR;
        let both = e | DCSR_STARTINTR;
        e & 0x4 != 0 && e & 0x2 == s & 0x2 && e & 0x201 == s & 0x201 && b & 0x2 != 0 && b & 0x4 == s
            & 0x4 && b & 0x201 == s & 0x201 && both & 0x2 != 0 && both & 0x4 != 0 && both & 0x201
            == s & 0x201 && e & DCSR_RUN == s & DCSR_RUN && b & DCSR_RUN == s & DCSR_RUN && both
            & DCSR_RUN == s & DCSR_RUN && stopping_keeps_events(s) && stopping_keeps_events(e)
            && stopping_keeps_events(b) && stopping_keeps_events(both)
    }) by (bit_vector);
}

/// Stopping keeps the events and says that the channel has stopped.
spec fn stopping_keeps_events(x: u32) -> bool {
    let t = (x | DCSR_STOPSTATE) & !DCSR_RUN;
    t & 0x4 == x & 0x4 && t & 0x2 == x & 0x2 && t & 0x201 == x & 0x201 && t & 0x8 != 0
}

} // verus!
