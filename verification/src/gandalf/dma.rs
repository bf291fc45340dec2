//! Driving the PXA27x DMA engine.
//!
//! The register file lives in `pxa270::dma`; the transfers happen here,
//! because a descriptor moves data between SDRAM and a peripheral and only
//! the board can reach both.
//!
//! A descriptor is four words in memory: next address, source, target,
//! command. Bit 0 of the next address stops the chain.
//!
//! Real hardware paces a transfer against whichever end has flow control set.
//! For audio that is the AC97 FIFO draining at 48 kHz: an unthrottled chain
//! into the codec produces hours of audio per second of guest time, because
//! the driver keeps a circular chain running over a silence buffer whenever
//! the device is idle. Transfers into the codec are therefore metered against
//! its sample-rate credit, and a descriptor that runs out of credit resumes on
//! a later call rather than completing.

use super::{BoardState, Gandalf};
use crate::pxa270::ac97::Ac97State;
use crate::pxa270::dma::{
    Channel, Dma, DCMD_INCSRCADDR, DCMD_INCTRGADDR, DCMD_LENGTH, DCSR_NODESC, DCSR_RUN,
    DDADR_STOP,
};
use crate::pxa270::SocState;
use vstd::prelude::*;

verus! {

/// Cap on bytes moved per service call, so a runaway descriptor cannot stall
/// the emulator.
pub const MAX_BYTES: u32 = 0x1_0000;

/// The codec's PCM data register, which paces what is written to it.
pub const PCM_DATA: u32 = 0x4050_0040;

/// One end of a transfer after one more unit.
pub open spec fn advanced(at: u32, width: u32, increments: bool) -> u32 {
    if increments {
        at.wrapping_add(width)
    } else {
        at
    }
}

/// One end of a transfer after `n` units.
pub open spec fn end_after(at: u32, width: u32, increments: bool, n: nat) -> u32
    decreases n,
{
    if n == 0 {
        at
    } else {
        end_after(advanced(at, width, increments), width, increments, (n - 1) as nat)
    }
}

impl Channel {
    pub open spec fn inc_src(self) -> bool {
        self.dcmd & DCMD_INCSRCADDR != 0
    }

    pub open spec fn inc_dst(self) -> bool {
        self.dcmd & DCMD_INCTRGADDR != 0
    }

    /// Feeding the codec is paced by the codec.
    pub open spec fn paced(self) -> bool {
        !self.inc_dst() && self.dtadr == PCM_DATA
    }

    /// The bytes that one service call may move.
    pub open spec fn quota(self) -> u32 {
        if self.length_spec() < MAX_BYTES {
            self.length_spec()
        } else {
            MAX_BYTES
        }
    }
}

/// Each of the first `n` units of a transfer lies within memory at both ends.
pub open spec fn units_ok(
    src: u32,
    dst: u32,
    width: u32,
    inc_src: bool,
    inc_dst: bool,
    n: nat,
) -> bool
    decreases n,
{
    n > 0 ==> {
        &&& super::access_ok(src, width as int)
        &&& super::access_ok(dst, width as int)
        &&& units_ok(
            advanced(src, width, inc_src),
            advanced(dst, width, inc_dst),
            width,
            inc_src,
            inc_dst,
            (n - 1) as nat,
        )
    }
}

/// The four words of a descriptor at `at` lie within memory.
pub open spec fn descriptor_ok(at: u32) -> bool {
    &&& at + 12 <= u32::MAX
    &&& super::access_ok(at, 4)
    &&& super::access_ok((at + 4) as u32, 4)
    &&& super::access_ok((at + 8) as u32, 4)
    &&& super::access_ok((at + 12) as u32, 4)
}

impl BoardState {
    /// What reading the four words of a descriptor leaves behind.
    #[verifier::opaque]
    pub open spec fn descriptor_read(self, at: u32) -> BoardState {
        self.after_read32(at).after_read32((at + 4) as u32).after_read32(
            (at + 8) as u32,
        ).after_read32((at + 12) as u32)
    }

    /// The four words of a descriptor.
    #[verifier::opaque]
    pub open spec fn descriptor_at(self, at: u32) -> (u32, u32, u32, u32) {
        let b1 = self.after_read32(at);
        let b2 = b1.after_read32((at + 4) as u32);
        let b3 = b2.after_read32((at + 8) as u32);
        (
            self.read32_spec(at),
            b1.read32_spec((at + 4) as u32),
            b2.read32_spec((at + 8) as u32),
            b3.read32_spec((at + 12) as u32),
        )
    }

    pub open spec fn channel(self, ch: int) -> Channel {
        self.soc.dma.channels[ch]
    }

    pub open spec fn with_dma(self, dma: Dma) -> BoardState {
        BoardState { soc: SocState { dma, ..self.soc }, ..self }
    }

    /// Channel `ch` is out of work and takes its next descriptor from memory.
    pub open spec fn needs_fetch(self, ch: int) -> bool {
        self.channel(ch).dcsr & DCSR_NODESC == 0 && self.channel(ch).length_spec() == 0
    }

    /// The descriptor that channel `ch` points at, fetched into the channel.
    #[verifier::opaque]
    pub open spec fn fetched(self, ch: int) -> BoardState {
        let at = self.channel(ch).ddadr & !0xFu32;
        let (next, src, dst, cmd) = self.descriptor_at(at);
        let b = self.descriptor_read(at);
        b.with_dma(
            b.soc.dma.with_channel(
                ch,
                Channel { ddadr: next, dsadr: src, dtadr: dst, dcmd: cmd, ..b.channel(ch) },
            ),
        )
    }

    /// One unit moved from `src` to `dst`.
    #[verifier::opaque]
    pub open spec fn unit_moved(self, src: u32, dst: u32, width: u32) -> BoardState {
        if width == 1 {
            self.after_narrow_read(src).written8(dst, self.read8_spec(src))
        } else if width == 2 {
            self.after_narrow_read(src).written16(dst, self.read16_spec(src))
        } else {
            self.after_read32(src).written32(dst, self.read32_spec(src))
        }
    }

    /// `n` units moved, one after another.
    pub open spec fn units_moved(
        self,
        src: u32,
        dst: u32,
        width: u32,
        inc_src: bool,
        inc_dst: bool,
        n: nat,
    ) -> BoardState
        decreases n,
    {
        if n == 0 {
            self
        } else {
            self.unit_moved(src, dst, width).units_moved(
                advanced(src, width, inc_src),
                advanced(dst, width, inc_dst),
                width,
                inc_src,
                inc_dst,
                (n - 1) as nat,
            )
        }
    }

    /// The codec's room for a paced transfer, taken out of its credit.
    #[verifier::opaque]
    pub open spec fn credit_taken(self, c: Channel) -> BoardState {
        let frames = self.soc.ac97.granted((c.quota() / c.width_spec()) as u32);
        BoardState {
            soc: SocState {
                ac97: Ac97State {
                    credit: (self.soc.ac97.credit - frames) as u64,
                    ..self.soc.ac97
                },
                ..self.soc
            },
            ..self
        }
    }

    /// How many units a service call moves.
    pub open spec fn units_due(self, c: Channel) -> nat {
        if c.paced() {
            self.soc.ac97.granted((c.quota() / c.width_spec()) as u32) as nat
        } else {
            (c.quota() / c.width_spec()) as nat
        }
    }

    /// The channel's registers and the byte count brought up to date, once
    /// `moved` bytes have gone from and to the ends given.
    #[verifier::opaque]
    pub open spec fn accounted(self, ch: int, src: u32, dst: u32, moved: u32) -> BoardState {
        let c = self.channel(ch);
        let left = if c.length_spec() > moved {
            (c.length_spec() - moved) as u32
        } else {
            0
        };
        self.with_dma(
            Dma {
                bytes_moved: self.soc.dma.bytes_moved.wrapping_add(moved as u64),
                ..self.soc.dma.with_channel(
                    ch,
                    Channel { dsadr: src, dtadr: dst, dcmd: (c.dcmd & !DCMD_LENGTH) | left, ..c },
                )
            },
        )
    }

    /// Channel `ch` has moved what it was due: a descriptor that is only
    /// partly done raises nothing yet, one that is done completes.
    #[verifier::opaque]
    pub open spec fn settled(self, ch: int, no_desc: bool) -> BoardState {
        let c = self.channel(ch);
        if c.length_spec() > 0 {
            self
        } else {
            let d = self.soc.dma.completed(ch, no_desc || c.ddadr & DDADR_STOP != 0);
            BoardState {
                soc: SocState { dma: d, intc: d.drive(self.soc.intc), ..self.soc },
                ..self
            }
        }
    }

    /// The board and channel `ch` ready to move data: its descriptor fetched
    /// if it needed one.
    #[verifier::opaque]
    pub open spec fn prepared(self, ch: int) -> BoardState {
        if self.needs_fetch(ch) {
            self.fetched(ch)
        } else {
            self
        }
    }

    /// The board after one service call, and whether the call got anything
    /// done.
    #[verifier::opaque]
    pub open spec fn serviced(self) -> (BoardState, bool) {
        match self.soc.dma.runnable_from(0) {
            None => (self, false),
            Some(ch) => {
                let no_desc = self.channel(ch).dcsr & DCSR_NODESC != 0;
                let ready = self.prepared(ch);
                let c = ready.channel(ch);
                let n = ready.units_due(c);
                let paid = if c.paced() {
                    ready.credit_taken(c)
                } else {
                    ready
                };
                if c.paced() && n == 0 {
                    (paid, false)
                } else {
                    let w = c.width_spec();
                    let moved = paid.units_moved(
                        c.dsadr,
                        c.dtadr,
                        w,
                        c.inc_src(),
                        c.inc_dst(),
                        n,
                    );
                    let src = end_after(c.dsadr, w, c.inc_src(), n);
                    let dst = end_after(c.dtadr, w, c.inc_dst(), n);
                    let bytes = (n * w) as u32;
                    (moved.accounted(ch, src, dst, bytes).settled(ch, no_desc), true)
                }
            },
        }
    }

    /// The next service call keeps within memory.
    #[verifier::opaque]
    pub open spec fn service_safe(self) -> bool {
        match self.soc.dma.runnable_from(0) {
            None => true,
            Some(ch) => {
                let ready = self.prepared(ch);
                let c = ready.channel(ch);
                units_ok(
                    c.dsadr,
                    c.dtadr,
                    c.width_spec(),
                    c.inc_src(),
                    c.inc_dst(),
                    ready.units_due(c),
                )
            },
        }
    }

    /// The board where the next service call would not keep within memory, and
    /// stops: ready to move data, and the codec's room taken.
    #[verifier::opaque]
    pub open spec fn stopped(self) -> BoardState {
        match self.soc.dma.runnable_from(0) {
            None => self,
            Some(ch) => {
                let ready = self.prepared(ch);
                let c = ready.channel(ch);
                if c.paced() {
                    ready.credit_taken(c)
                } else {
                    ready
                }
            },
        }
    }

    /// The board where the first of `n` service calls that would not keep
    /// within memory stops.
    pub open spec fn dma_stopped(self, n: nat) -> BoardState
        decreases n,
    {
        if n == 0 || !self.service_safe() {
            self.stopped()
        } else {
            self.serviced().0.dma_stopped((n - 1) as nat)
        }
    }

    /// No channel has anything to do.
    pub open spec fn dma_idle(self) -> bool {
        self.soc.dma.runnable_from(0) is None
    }

    /// The board after up to `n` service calls, stopping when there is no
    /// work or a call gets nothing done.
    pub open spec fn dma_run(self, n: nat) -> BoardState
        decreases n,
    {
        if n == 0 || self.soc.dma.runnable_from(0) is None {
            self
        } else if !self.serviced().1 {
            self.serviced().0
        } else {
            self.serviced().0.dma_run((n - 1) as nat)
        }
    }

    /// Each of those service calls keeps within memory.
    pub open spec fn dma_safe(self, n: nat) -> bool
        decreases n,
    {
        n > 0 && self.soc.dma.runnable_from(0) is Some ==> {
            &&& self.service_safe()
            &&& self.serviced().1 ==> self.serviced().0.dma_safe((n - 1) as nat)
        }
    }
}

/// A descriptor pointer, once its low bits are taken off, is to a place where
/// a descriptor fits.
pub proof fn lemma_pointer(p: u32)
    ensures
        descriptor_ok(p & !0xFu32),
{
    let at = p & !0xFu32;
    assert((p & !0xFu32) <= 0xFFFF_FFF0 && (p & !0xFu32) % 4 == 0) by (bit_vector);
    super::lemma_access_ok(at);
    super::lemma_access_ok((at + 4) as u32);
    super::lemma_access_ok((at + 8) as u32);
    super::lemma_access_ok((at + 12) as u32);
}

/// The length field is small.
proof fn lemma_length(dcmd: u32)
    ensures
        dcmd & DCMD_LENGTH <= 0x1FFF,
{
    assert(dcmd & DCMD_LENGTH <= 0x1FFF) by (bit_vector);
}

/// Channels that are all as reset leaves them have nothing to do.
pub(super) proof fn lemma_idle_channels(b: BoardState)
    requires
        b.soc.dma.channels@ =~= Seq::new(32, |i: int| Channel::idle()),
    ensures
        b.dma_idle(),
{
    lemma_none_runnable(b.soc.dma, 0);
}

proof fn lemma_none_runnable(d: Dma, i: int)
    requires
        d.channels@ =~= Seq::new(32, |i: int| Channel::idle()),
        0 <= i,
    ensures
        d.runnable_from(i) is None,
    decreases 32 - i,
{
    if i < 32 {
        assert(d.channels@[i] == Channel::idle());
        crate::bits::lemma_word(0, 31, 0);
        lemma_none_runnable(d, i + 1);
    }
}

/// An engine with nothing to do stays within memory, and changes nothing.
pub proof fn law_idle_engine_is_safe(b: BoardState, n: nat)
    requires
        b.dma_idle(),
    ensures
        b.dma_safe(n),
        b.service_safe(),
        b.dma_run(n) == b,
        b.serviced() == (b, false),
{
    reveal(BoardState::service_safe);
    reveal(BoardState::serviced);
}

impl Gandalf {
    /// Read the four words of a descriptor.
    pub(crate) fn read_descriptor(&mut self, at: u32) -> (r: (u32, u32, u32, u32))
        requires
            old(self)@.wf(),
            descriptor_ok(at),
        ensures
            r == old(self)@.descriptor_at(at),
            final(self)@ == old(self)@.descriptor_read(at),
            final(self)@.wf(),
    {
        proof {
            reveal(BoardState::descriptor_at);
            reveal(BoardState::descriptor_read);
        }
        let a: u32 = self.read32(at);
        let b: u32 = self.read32(at + 4);
        let c: u32 = self.read32(at + 8);
        let d: u32 = self.read32(at + 12);
        (a, b, c, d)
    }

    /// Fetch the descriptor that channel `ch` points at.
    fn fetch_descriptor(&mut self, ch: usize)
        requires
            old(self)@.wf(),
            ch < 32,
        ensures
            final(self)@ == old(self)@.fetched(ch as int),
            final(self)@.wf(),
    {
        let at: u32 = self.soc.dma.channels[ch].ddadr & !0xFu32;
        proof {
            reveal(BoardState::fetched);
            lemma_pointer(self.soc.dma.channels[ch as int].ddadr);
        }
        let (next, src, dst, cmd): (u32, u32, u32, u32) = self.read_descriptor(at);
        let mut c: Channel = self.soc.dma.channels[ch];
        c.ddadr = next;
        c.dsadr = src;
        c.dtadr = dst;
        c.dcmd = cmd;
        self.soc.dma.channels[ch] = c;
    }

    /// Move one unit of `width` bytes.
    fn move_unit(&mut self, src: u32, dst: u32, width: u32)
        requires
            old(self)@.wf(),
            width == 1 || width == 2 || width == 4,
            super::access_ok(src, width as int),
            super::access_ok(dst, width as int),
        ensures
            final(self)@ == old(self)@.unit_moved(src, dst, width),
            final(self)@.wf(),
    {
        proof {
            reveal(BoardState::unit_moved);
        }
        if width == 1 {
            let v: u8 = self.read8(src);
            self.write8(dst, v);
        } else if width == 2 {
            let v: u16 = self.read16(src);
            self.write16(dst, v);
        } else {
            let v: u32 = self.read32(src);
            self.write32(dst, v);
        }
    }

    /// Move `n` units, and say where both ends got to.
    fn move_units(&mut self, c: Channel, n: u32) -> (r: (u32, u32))
        requires
            old(self)@.wf(),
            units_ok(c.dsadr, c.dtadr, c.width_spec(), c.inc_src(), c.inc_dst(), n as nat),
        ensures
            final(self)@ == old(self)@.units_moved(
                c.dsadr,
                c.dtadr,
                c.width_spec(),
                c.inc_src(),
                c.inc_dst(),
                n as nat,
            ),
            r.0 == end_after(c.dsadr, c.width_spec(), c.inc_src(), n as nat),
            r.1 == end_after(c.dtadr, c.width_spec(), c.inc_dst(), n as nat),
            final(self)@.wf(),
    {
        let width: u32 = c.width();
        let inc_src = c.dcmd & DCMD_INCSRCADDR != 0;
        let inc_dst = c.dcmd & DCMD_INCTRGADDR != 0;
        let ghost start = self@;
        let mut src: u32 = c.dsadr;
        let mut dst: u32 = c.dtadr;
        let mut left: u32 = n;
        while left > 0
            invariant
                left <= n,
                self@.wf(),
                width == c.width_spec(),
                width == 1 || width == 2 || width == 4,
                inc_src == c.inc_src(),
                inc_dst == c.inc_dst(),
                units_ok(src, dst, width, inc_src, inc_dst, left as nat),
                self@.units_moved(src, dst, width, inc_src, inc_dst, left as nat)
                    == start.units_moved(
                    c.dsadr,
                    c.dtadr,
                    width,
                    inc_src,
                    inc_dst,
                    n as nat,
                ),
                end_after(src, width, inc_src, left as nat) == end_after(
                    c.dsadr,
                    width,
                    inc_src,
                    n as nat,
                ),
                end_after(dst, width, inc_dst, left as nat) == end_after(
                    c.dtadr,
                    width,
                    inc_dst,
                    n as nat,
                ),
            decreases left,
        {
            self.move_unit(src, dst, width);
            if inc_src {
                src = src.wrapping_add(width);
            }
            if inc_dst {
                dst = dst.wrapping_add(width);
            }
            left = left - 1;
        }
        (src, dst)
    }
}

impl Gandalf {
    /// Only fetch a new descriptor once the current one is exhausted, so a
    /// transfer paced by its destination can resume where it left off.
    fn prepare(&mut self, ch: usize, no_desc: bool)
        requires
            old(self)@.wf(),
            ch < 32,
            no_desc == (old(self)@.channel(ch as int).dcsr & DCSR_NODESC != 0),
        ensures
            final(self)@ == old(self)@.prepared(ch as int),
            final(self)@.wf(),
    {
        proof {
            reveal(BoardState::prepared);
        }
        if !no_desc && self.soc.dma.channels[ch].length() == 0 {
            self.fetch_descriptor(ch);
        }
    }

    /// Take what room the codec has for a paced transfer.
    fn take_credit(&mut self, c: Channel, units: u32) -> (r: u32)
        requires
            old(self)@.wf(),
            units == c.quota() / c.width_spec(),
        ensures
            r == old(self)@.soc.ac97.granted(units),
            r <= units,
            final(self)@ == old(self)@.credit_taken(c),
            final(self)@.wf(),
    {
        proof {
            reveal(BoardState::credit_taken);
        }
        self.soc.ac97.take_credit(units)
    }

    /// Bring the channel and the byte count up to date.
    fn account(&mut self, ch: usize, src: u32, dst: u32, moved: u32)
        requires
            old(self)@.wf(),
            ch < 32,
        ensures
            final(self)@ == old(self)@.accounted(ch as int, src, dst, moved),
            final(self)@.wf(),
    {
        proof {
            reveal(BoardState::accounted);
        }
        self.soc.dma.bytes_moved = self.soc.dma.bytes_moved.wrapping_add(moved as u64);
        let mut c: Channel = self.soc.dma.channels[ch];
        c.dsadr = src;
        c.dtadr = dst;
        let left: u32 = c.length().saturating_sub(moved);
        c.dcmd = (c.dcmd & !DCMD_LENGTH) | left;
        self.soc.dma.channels[ch] = c;
    }

    /// Complete the descriptor if it is done. Without descriptor fetch there
    /// is no chain, so one transfer is the whole job; with it, bit 0 of the
    /// next address ends the chain.
    fn settle(&mut self, ch: usize, no_desc: bool)
        requires
            old(self)@.wf(),
            ch < 32,
        ensures
            final(self)@ == old(self)@.settled(ch as int, no_desc),
            final(self)@.wf(),
    {
        proof {
            reveal(BoardState::settled);
        }
        let c: Channel = self.soc.dma.channels[ch];
        // A descriptor that is only partly done raises nothing yet.
        if c.length() > 0 {
            return ;
        }
        let stop = no_desc || c.ddadr & DDADR_STOP != 0;
        self.soc.dma.complete(ch, stop, &mut self.soc.intc);
    }
}

/// Whether each of the first `n` units of a transfer lies within memory at both
/// ends.
fn units_fit(c: Channel, n: u32) -> (r: bool)
    ensures
        r == units_ok(c.dsadr, c.dtadr, c.width_spec(), c.inc_src(), c.inc_dst(), n as nat),
{
    let width: u32 = c.width();
    let inc_src = c.dcmd & DCMD_INCSRCADDR != 0;
    let inc_dst = c.dcmd & DCMD_INCTRGADDR != 0;
    let mut src: u32 = c.dsadr;
    let mut dst: u32 = c.dtadr;
    let mut left: u32 = n;
    while left > 0
        invariant
            left <= n,
            width == c.width_spec(),
            inc_src == c.inc_src(),
            inc_dst == c.inc_dst(),
            units_ok(src, dst, width, inc_src, inc_dst, left as nat) == units_ok(
                c.dsadr,
                c.dtadr,
                width,
                inc_src,
                inc_dst,
                n as nat,
            ),
        decreases left,
    {
        if !super::access_fits(src, width) || !super::access_fits(dst, width) {
            return false;
        }
        if inc_src {
            src = src.wrapping_add(width);
        }
        if inc_dst {
            dst = dst.wrapping_add(width);
        }
        left = left - 1;
    }
    true
}

/// Run at most one descriptor on one channel. Called from the board's tick.
/// Returns whether anything was done.
pub fn service(board: &mut Gandalf) -> (r: bool)
    requires
        old(board)@.wf(),
        old(board)@.service_safe(),
    ensures
        final(board)@ == old(board)@.serviced().0,
        r == old(board)@.serviced().1,
        final(board)@.wf(),
{
    match try_service(board) {
        Some(done) => done,
        None => false,
    }
}

/// Run at most one descriptor on one channel, of a board of which nothing is
/// known. Returns whether anything was done, or nothing at all where the
/// transfer would run off the end of memory: it is made ready and not begun.
pub fn try_service(board: &mut Gandalf) -> (r: Option<bool>)
    requires
        old(board)@.wf(),
    ensures
        r is Some == old(board)@.service_safe(),
        r matches Some(done) ==> final(board)@ == old(board)@.serviced().0 && done == old(
            board,
        )@.serviced().1,
        r is None ==> final(board)@ == old(board)@.stopped(),
        final(board)@.wf(),
{
    proof {
        reveal(BoardState::serviced);
        reveal(BoardState::stopped);
        reveal(BoardState::service_safe);
    }
    let ch: usize = match board.soc.dma.next_runnable() {
        Some(ch) => ch,
        None => {
            return Some(false);
        },
    };

    let no_desc = board.soc.dma.channels[ch].dcsr & DCSR_NODESC != 0;
    board.prepare(ch, no_desc);
    let c: Channel = board.soc.dma.channels[ch];
    let width: u32 = c.width();
    proof {
        lemma_length(c.dcmd);
    }
    let len: u32 = if c.length() < MAX_BYTES {
        c.length()
    } else {
        MAX_BYTES
    };
    let mut units: u32 = len / width;

    // Feeding the codec is paced by the codec. Without this the chain runs
    // at emulator speed and produces hours of audio per second of guest time.
    if c.dcmd & DCMD_INCTRGADDR == 0 && c.dtadr == PCM_DATA {
        units = board.take_credit(c, units);
        if units == 0 {
            return Some(false);
        }
    }
    if !units_fit(c, units) {
        return None;
    }
    let (src, dst): (u32, u32) = board.move_units(c, units);
    assert(units * width <= 0x1FFF) by (nonlinear_arith)
        requires
            units <= len / width,
            width > 0,
            len <= 0x1FFF,
    ;
    let moved: u32 = units * width;
    board.account(ch, src, dst, moved);
    board.settle(ch, no_desc);
    Some(true)
}

/// One unit moved within SDRAM is its bytes copied, and nothing else.
proof fn lemma_unit_copied(b: BoardState, src: u32, dst: u32, width: u32)
    requires
        b.wf(),
        width == 1 || width == 2 || width == 4,
        super::in_sdram(src),
        super::in_sdram(dst),
        src % width == 0,
        dst % width == 0,
    ensures
        b.unit_moved(src, dst, width) == (BoardState {
            sdram: crate::bytes::overlaid(
                b.sdram,
                super::sdram_at(dst),
                b.sdram.subrange(super::sdram_at(src), super::sdram_at(src) + width),
            ),
            ..b
        }),
{
    reveal(BoardState::unit_moved);
    super::lemma_sdram_reads(b, src);
    let s = super::sdram_at(src);
    let d = super::sdram_at(dst);
    let part = b.sdram.subrange(s, s + width);
    super::lemma_sdram_writes(
        b,
        dst,
        b.sdram[s],
        crate::bytes::word16(b.sdram, s),
        crate::bytes::word32(b.sdram, s),
    );
    if width == 1 {
        assert(b.sdram.update(d, b.sdram[s]) =~= crate::bytes::overlaid(b.sdram, d, part));
    } else if width == 2 {
        crate::bytes::lemma_bytes32_round_trip(b.sdram[s], b.sdram[s + 1], 0, 0);
        assert(part =~= seq![b.sdram[s], b.sdram[s + 1]]);
    } else {
        crate::bytes::lemma_bytes32_round_trip(
            b.sdram[s],
            b.sdram[s + 1],
            b.sdram[s + 2],
            b.sdram[s + 3],
        );
        assert(part =~= seq![b.sdram[s], b.sdram[s + 1], b.sdram[s + 2], b.sdram[s + 3]]);
    }
}

/// A transfer from memory to memory, with both ends going up and neither
/// running into the other, copies the bytes, whatever the width of its units,
/// and does nothing else to the board.
pub proof fn law_memory_to_memory_copies(
    b: BoardState,
    src: u32,
    dst: u32,
    width: u32,
    n: nat,
)
    requires
        b.wf(),
        width == 1 || width == 2 || width == 4,
        src % width == 0,
        dst % width == 0,
        super::SDRAM_BASE <= src,
        super::SDRAM_BASE <= dst,
        src + n * width <= super::SDRAM_BASE + super::SDRAM_SIZE,
        dst + n * width <= super::SDRAM_BASE + super::SDRAM_SIZE,
        src + n * width <= dst || dst + n * width <= src,
    ensures
        units_ok(src, dst, width, true, true, n),
        b.units_moved(src, dst, width, true, true, n) == (BoardState {
            sdram: crate::bytes::overlaid(
                b.sdram,
                super::sdram_at(dst),
                b.sdram.subrange(super::sdram_at(src), super::sdram_at(src) + n * width),
            ),
            ..b
        }),
        end_after(src, width, true, n) == src + n * width,
        end_after(dst, width, true, n) == dst + n * width,
    decreases n,
{
    let s = super::sdram_at(src);
    let d = super::sdram_at(dst);
    if n == 0 {
        assert(0 * width == 0);
        assert(crate::bytes::overlaid(b.sdram, d, b.sdram.subrange(s, s)) =~= b.sdram);
    } else {
        assert(n * width == width + (n - 1) * width) by (nonlinear_arith)
            requires
                n > 0,
        ;
        assert((n - 1) * width >= 0) by (nonlinear_arith)
            requires
                n > 0,
        ;
        super::lemma_access_ok(src);
        super::lemma_access_ok(dst);
        lemma_unit_copied(b, src, dst, width);
        let b1 = b.unit_moved(src, dst, width);
        let src1 = (src + width) as u32;
        let dst1 = (dst + width) as u32;
        assert(src1 % width == 0 && dst1 % width == 0);
        law_memory_to_memory_copies(b1, src1, dst1, width, (n - 1) as nat);
        assert(b1.units_moved(src1, dst1, width, true, true, (n - 1) as nat).sdram
            =~= crate::bytes::overlaid(b.sdram, d, b.sdram.subrange(s, s + n * width)));
    }
}

} // verus!
