//! What the DMA engine does over several service calls, from the descriptor in
//! memory to the samples that the codec gets.

use super::dma::PCM_DATA;
use super::BoardState;
use crate::pxa270::ac97::Ac97State;
use crate::pxa270::dma::{
    Channel, Dma, DCMD_ENDIRQEN, DCMD_LENGTH, DCMD_STARTIRQEN, DCSR_ENDINTR, DCSR_NODESC, DCSR_RUN,
    DCSR_STARTINTR, DCSR_STOPSTATE, DDADR_STOP,
};
use crate::pxa270::SocState;
use vstd::prelude::*;

verus! {

/// `n` words of memory from byte `from` on.
pub open spec fn words_from(memory: Seq<u8>, from: int, n: nat) -> Seq<u32> {
    Seq::new(n, |i: int| crate::bytes::word32(memory, from + 4 * i))
}

/// How many frames there are in all.
pub open spec fn frames_in(credits: Seq<u64>) -> nat
    decreases credits.len(),
{
    if credits.len() == 0 {
        0
    } else {
        frames_in(credits.drop_last()) + credits.last() as nat
    }
}

impl BoardState {
    /// The board at a moment when the codec has room for `frames` frames.
    pub open spec fn with_room(self, frames: u64) -> BoardState {
        BoardState {
            soc: SocState { ac97: Ac97State { credit: frames, ..self.soc.ac97 }, ..self.soc },
            ..self
        }
    }

    /// The board after service calls, the codec having so much room at each.
    pub open spec fn after_services(self, credits: Seq<u64>) -> BoardState
        decreases credits.len(),
    {
        if credits.len() == 0 {
            self
        } else {
            self.after_services(credits.drop_last()).with_room(credits.last()).serviced().0
        }
    }

    /// Channel `ch` is the one to run and feeds the codec from memory, a word
    /// at a time, with `left` bytes to go from address `at`.
    pub open spec fn feeds_codec(self, ch: int, at: u32, left: int) -> bool {
        let c = self.channel(ch);
        &&& self.wf()
        &&& 0 <= ch < 32
        &&& self.soc.dma.runnable_from(0) == Some(ch)
        &&& c.inc_src() && !c.inc_dst()
        &&& c.dtadr == PCM_DATA
        &&& c.width_spec() == 4
        &&& c.dsadr == at
        &&& c.length_spec() == left
        &&& left % 4 == 0
        &&& super::SDRAM_BASE <= at && at % 4 == 0
        &&& at + left <= super::SDRAM_BASE + super::SDRAM_SIZE
    }
}

/// What replacing the length does to a command word, and where the codec's
/// data register lies.
proof fn lemma_command_word(dcmd: u32, left: u32)
    requires
        left <= 0x1FFF,
    ensures
        ({
            let d = (dcmd & !DCMD_LENGTH) | left;
            &&& d & DCMD_LENGTH == left
            &&& d >> 14 & 3 == dcmd >> 14 & 3
            &&& d & 0x8000_0000 == dcmd & 0x8000_0000
            &&& d & 0x4000_0000 == dcmd & 0x4000_0000
            &&& d & DCMD_ENDIRQEN == dcmd & DCMD_ENDIRQEN
            &&& d & DCMD_STARTIRQEN == dcmd & DCMD_STARTIRQEN
        }),
        dcmd & DCMD_LENGTH <= 0x1FFF,
        PCM_DATA & 0xFFF0_0000 == 0x4050_0000,
        PCM_DATA & 0x000F_FFFF == 0x40,
        dcmd & !0xFu32 == dcmd - dcmd % 16,
{
    lemma_bits(dcmd, left, 0);
}

/// The bits of a command word and of a channel's status.
proof fn lemma_bits(dcmd: u32, left: u32, s: u32)
    requires
        left <= 0x1FFF,
    ensures
        ({
            let d = (dcmd & !DCMD_LENGTH) | left;
            &&& d & DCMD_LENGTH == left
            &&& d >> 14 & 3 == dcmd >> 14 & 3
            &&& d & 0x8000_0000 == dcmd & 0x8000_0000
            &&& d & 0x4000_0000 == dcmd & 0x4000_0000
            &&& d & DCMD_ENDIRQEN == dcmd & DCMD_ENDIRQEN
            &&& d & DCMD_STARTIRQEN == dcmd & DCMD_STARTIRQEN
        }),
        dcmd & DCMD_LENGTH <= 0x1FFF,
        PCM_DATA & 0xFFF0_0000 == 0x4050_0000,
        PCM_DATA & 0x000F_FFFF == 0x40,
        dcmd & !0xFu32 == dcmd - dcmd % 16,
        (s | DCSR_ENDINTR) & DCSR_ENDINTR != 0,
        (s | DCSR_STARTINTR) & DCSR_STARTINTR != 0,
        (s | DCSR_STARTINTR) & DCSR_ENDINTR == s & DCSR_ENDINTR,
        (s | DCSR_ENDINTR) & DCSR_RUN == s & DCSR_RUN,
        (s | DCSR_STARTINTR) & DCSR_RUN == s & DCSR_RUN,
        (s | DCSR_ENDINTR) & DCSR_STOPSTATE == s & DCSR_STOPSTATE,
        (s | DCSR_STARTINTR) & DCSR_STOPSTATE == s & DCSR_STOPSTATE,
        ((s | DCSR_STOPSTATE) & !DCSR_RUN) & DCSR_RUN == 0,
        ((s | DCSR_STOPSTATE) & !DCSR_RUN) & DCSR_ENDINTR == s & DCSR_ENDINTR,
        ((s | DCSR_STOPSTATE) & !DCSR_RUN) & DCSR_STARTINTR == s & DCSR_STARTINTR,
        s & DDADR_STOP == s % 2,
{
    assert({
        let d = (dcmd & !DCMD_LENGTH) | left;
        d & DCMD_LENGTH == left && d >> 14 & 3 == dcmd >> 14 & 3 && d & 0x8000_0000 == dcmd
            & 0x8000_0000 && d & 0x4000_0000 == dcmd & 0x4000_0000 && d & DCMD_ENDIRQEN == dcmd
            & DCMD_ENDIRQEN && d & DCMD_STARTIRQEN == dcmd & DCMD_STARTIRQEN && dcmd & DCMD_LENGTH
            <= 0x1FFF && PCM_DATA & 0xFFF0_0000 == 0x4050_0000 && PCM_DATA & 0x000F_FFFF == 0x40
            && dcmd & !0xFu32 == dcmd - dcmd % 16
    } && (s | DCSR_ENDINTR) & DCSR_ENDINTR != 0 && (s | DCSR_STARTINTR) & DCSR_STARTINTR != 0 && (s
        | DCSR_STARTINTR) & DCSR_ENDINTR == s & DCSR_ENDINTR && (s | DCSR_ENDINTR) & DCSR_RUN == s
        & DCSR_RUN && (s | DCSR_STARTINTR) & DCSR_RUN == s & DCSR_RUN && (s | DCSR_ENDINTR)
        & DCSR_STOPSTATE == s & DCSR_STOPSTATE && (s | DCSR_STARTINTR) & DCSR_STOPSTATE == s
        & DCSR_STOPSTATE && ((s | DCSR_STOPSTATE) & !DCSR_RUN) & DCSR_RUN == 0 && ((s
        | DCSR_STOPSTATE) & !DCSR_RUN) & DCSR_ENDINTR == s & DCSR_ENDINTR && ((s | DCSR_STOPSTATE)
        & !DCSR_RUN) & DCSR_STARTINTR == s & DCSR_STARTINTR && s & DDADR_STOP == s % 2)
        by (bit_vector)
        requires
            left <= 0x1FFF,
    ;
}

/// An end that goes up stands that many units further on, and one that does
/// not stands where it was.
proof fn lemma_ends(at: u32, width: u32, n: nat)
    requires
        at + n * width <= u32::MAX,
    ensures
        super::dma::end_after(at, width, true, n) == at + n * width,
        super::dma::end_after(at, width, false, n) == at,
    decreases n,
{
    if n > 0 {
        assert(n * width == width + (n - 1) * width) by (nonlinear_arith)
            requires
                n > 0,
        ;
        assert((n - 1) * width >= 0) by (nonlinear_arith)
            requires
                n > 0,
        ;
        lemma_ends((at + width) as u32, width, (n - 1) as nat);
        lemma_still(at, width, (n - 1) as nat);
    } else {
        assert(0 * width == 0);
    }
}

proof fn lemma_still(at: u32, width: u32, n: nat)
    ensures
        super::dma::end_after(at, width, false, n) == at,
    decreases n,
{
    if n > 0 {
        lemma_still(at, width, (n - 1) as nat);
    }
}

/// One word of memory handed to the codec.
proof fn lemma_word_fed(b: BoardState, src: u32)
    requires
        b.wf(),
        super::in_sdram(src),
        src % 4 == 0,
    ensures
        ({
            let d = b.unit_moved(src, PCM_DATA, 4);
            let a = Ac97State {
                pcm_out: b.soc.ac97.pcm_out.push(
                    crate::bytes::word32(b.sdram, super::sdram_at(src)),
                ),
                ..b.soc.ac97
            };
            d == (BoardState {
                soc: SocState { ac97: a, intc: a.drive(b.soc.intc), ..b.soc },
                ..b
            })
        }),
{
    reveal(BoardState::unit_moved);
    reveal(BoardState::written32);
    super::lemma_sdram_reads(b, src);
    lemma_command_word(0, 0);
}

/// Words of memory handed to the codec, one after another.
proof fn lemma_words_fed(b: BoardState, src: u32, n: nat)
    requires
        b.wf(),
        super::SDRAM_BASE <= src,
        src % 4 == 0,
        src + n * 4 <= super::SDRAM_BASE + super::SDRAM_SIZE,
    ensures
        ({
            let d = b.units_moved(src, PCM_DATA, 4, true, false, n);
            let a = Ac97State {
                pcm_out: b.soc.ac97.pcm_out + words_from(b.sdram, super::sdram_at(src), n),
                ..b.soc.ac97
            };
            d == (BoardState { soc: SocState { ac97: a, intc: d.soc.intc, ..b.soc }, ..b })
        }),
    decreases n,
{
    let d = b.units_moved(src, PCM_DATA, 4, true, false, n);
    let from = super::sdram_at(src);
    if n == 0 {
        assert(b.soc.ac97.pcm_out + words_from(b.sdram, from, 0) =~= b.soc.ac97.pcm_out);
    } else {
        lemma_word_fed(b, src);
        let b1 = b.unit_moved(src, PCM_DATA, 4);
        lemma_words_fed(b1, (src + 4) as u32, (n - 1) as nat);
        assert(b1.soc.ac97.pcm_out + words_from(b.sdram, from + 4, (n - 1) as nat)
            =~= b.soc.ac97.pcm_out + words_from(b.sdram, from, n));
    }
}

/// Which channel runs next depends on nothing but which can run.
proof fn lemma_same_turn(d: Dma, e: Dma, i: int)
    requires
        0 <= i,
        forall|j: int| 0 <= j < 32 ==> #[trigger] d.channels[j].runnable() == e.channels[j].runnable(),
    ensures
        d.runnable_from(i) == e.runnable_from(i),
    decreases 32 - i,
{
    if i < 32 {
        lemma_same_turn(d, e, i + 1);
    }
}

/// One service call while there is room for `g` frames and at least as many
/// are to go.
proof fn lemma_codec_serviced(b: BoardState, ch: int, at: u32, left: int, g: u64)
    requires
        b.feeds_codec(ch, at, left),
        left > 0,
        g * 4 <= left,
        g <= crate::pxa270::ac97::MAX_CREDIT,
    ensures
        ({
            let d = b.with_room(g).serviced().0;
            &&& d.channel(ch).dsadr == at + 4 * g
            &&& d.channel(ch).dtadr == PCM_DATA
            &&& d.channel(ch).length_spec() == left - 4 * g
            &&& d.sdram == b.sdram
            &&& d.soc.ac97.pcm_out == b.soc.ac97.pcm_out + words_from(
                b.sdram,
                super::sdram_at(at),
                g as nat,
            )
            &&& g * 4 < left ==> d.feeds_codec(ch, (at + 4 * g) as u32, left - 4 * g)
        }),
{
    reveal(BoardState::serviced);
    reveal(BoardState::prepared);
    reveal(BoardState::credit_taken);
    let r = b.with_room(g);
    let c = r.channel(ch);
    assert(c == b.channel(ch));
    assert(r.prepared(ch) == r);
    lemma_command_word(c.dcmd, 0);
    assert(c.paced());
    assert(c.quota() == left);
    assert(r.units_due(c) == g);
    let paid = r.credit_taken(c);
    if g == 0 {
        assert(paid == r);
        assert(words_from(b.sdram, super::sdram_at(at), 0) =~= Seq::empty());
        assert(b.soc.ac97.pcm_out + words_from(b.sdram, super::sdram_at(at), 0)
            =~= b.soc.ac97.pcm_out);
    } else {
        assert(paid.wf());
        lemma_words_fed(paid, at, g as nat);
        lemma_ends(at, 4, g as nat);
        lemma_ends(PCM_DATA, 0, g as nat);
        lemma_still(PCM_DATA, 4, g as nat);
        let moved = paid.units_moved(at, PCM_DATA, 4, true, false, g as nat);
        lemma_accounted(moved, ch, (at + 4 * g) as u32, PCM_DATA, (4 * g) as u32);
    }
}

/// The channel once part of its transfer has been accounted for.
proof fn lemma_accounted(m: BoardState, ch: int, src: u32, dst: u32, bytes: u32)
    requires
        0 <= ch < 32,
        bytes <= m.channel(ch).length_spec(),
    ensures
        ({
            let no_desc = m.channel(ch).dcsr & DCSR_NODESC != 0;
            let d = m.accounted(ch, src, dst, bytes).settled(ch, no_desc);
            let c = m.channel(ch);
            let left = (c.length_spec() - bytes) as u32;
            &&& d.channel(ch).dsadr == src
            &&& d.channel(ch).dtadr == dst
            &&& d.channel(ch).ddadr == c.ddadr
            &&& d.channel(ch).length_spec() == left
            &&& d.channel(ch).width_spec() == c.width_spec()
            &&& d.channel(ch).inc_src() == c.inc_src()
            &&& d.channel(ch).inc_dst() == c.inc_dst()
            &&& d.sdram == m.sdram
            &&& d.soc.ac97 == m.soc.ac97
            &&& left > 0 ==> d.soc.dma.runnable_from(0) == m.soc.dma.runnable_from(0)
            &&& left == 0 ==> {
                let stop = no_desc || c.ddadr % 2 == 1;
                &&& d.channel(ch).runnable() == (c.runnable() && !stop)
                &&& c.dcmd & DCMD_ENDIRQEN != 0 ==> d.channel(ch).dcsr & DCSR_ENDINTR != 0
                &&& c.dcmd & DCMD_STARTIRQEN != 0 ==> d.channel(ch).dcsr & DCSR_STARTINTR != 0
            }
            &&& m.wf() ==> d.wf()
        }),
{
    reveal(BoardState::accounted);
    reveal(BoardState::settled);
    let c = m.channel(ch);
    let left = (c.length_spec() - bytes) as u32;
    lemma_command_word(c.dcmd, 0);
    lemma_command_word(c.dcmd, left);
    let a = m.accounted(ch, src, dst, bytes);
    assert(a.channel(ch) == (Channel {
        dsadr: src,
        dtadr: dst,
        dcmd: (c.dcmd & !DCMD_LENGTH) | left,
        ..c
    }));
    if left > 0 {
        assert forall|j: int| 0 <= j < 32 implies #[trigger] a.soc.dma.channels[j].runnable()
            == m.soc.dma.channels[j].runnable() by {
            if j != ch {
                assert(a.soc.dma.channels[j] == m.soc.dma.channels[j]);
            }
        }
        lemma_same_turn(a.soc.dma, m.soc.dma, 0);
    } else {
        lemma_status_bits(c.dcsr);
        lemma_status_bits(c.dcsr | DCSR_ENDINTR);
        lemma_status_bits(a.channel(ch).completed(false).dcsr);
        lemma_status_bits(c.ddadr);
    }
}

/// What finishing a descriptor does to the bits of a channel's status.
proof fn lemma_status_bits(s: u32)
    ensures
        (s | DCSR_ENDINTR) & DCSR_ENDINTR != 0,
        (s | DCSR_STARTINTR) & DCSR_STARTINTR != 0,
        (s | DCSR_STARTINTR) & DCSR_ENDINTR == s & DCSR_ENDINTR,
        (s | DCSR_ENDINTR) & DCSR_RUN == s & DCSR_RUN,
        (s | DCSR_STARTINTR) & DCSR_RUN == s & DCSR_RUN,
        (s | DCSR_ENDINTR) & DCSR_STOPSTATE == s & DCSR_STOPSTATE,
        (s | DCSR_STARTINTR) & DCSR_STOPSTATE == s & DCSR_STOPSTATE,
        ((s | DCSR_STOPSTATE) & !DCSR_RUN) & DCSR_RUN == 0,
        ((s | DCSR_STOPSTATE) & !DCSR_RUN) & DCSR_ENDINTR == s & DCSR_ENDINTR,
        ((s | DCSR_STOPSTATE) & !DCSR_RUN) & DCSR_STARTINTR == s & DCSR_STARTINTR,
        s & DDADR_STOP == s % 2,
{
    lemma_bits(0, 0, s);
}

/// A transfer into the codec goes on where it stopped: after service calls
/// that found room for `n` frames between them, as many as they may be, the
/// source stands `n` words further on, that much less is to go, and the codec
/// has been given the first `n` words of the buffer, in order and once each.
/// The memory is as it was.
pub proof fn law_a_paced_transfer_goes_on_where_it_stopped(
    b: BoardState,
    ch: int,
    at: u32,
    left: int,
    credits: Seq<u64>,
)
    requires
        b.feeds_codec(ch, at, left),
        left > 0,
        forall|i: int|
            0 <= i < credits.len() ==> #[trigger] credits[i] <= crate::pxa270::ac97::MAX_CREDIT,
        frames_in(credits) * 4 <= left,
        credits.len() > 0 ==> frames_in(credits.drop_last()) * 4 < left,
    ensures
        ({
            let d = b.after_services(credits);
            let n = frames_in(credits);
            &&& d.channel(ch).dsadr == at + 4 * n
            &&& d.channel(ch).dtadr == PCM_DATA
            &&& d.channel(ch).length_spec() == left - 4 * n
            &&& d.soc.ac97.pcm_out == b.soc.ac97.pcm_out + words_from(
                b.sdram,
                super::sdram_at(at),
                n,
            )
            &&& d.sdram == b.sdram
            &&& 4 * n < left ==> d.feeds_codec(ch, (at + 4 * n) as u32, left - 4 * n)
        }),
    decreases credits.len(),
{
    let from = super::sdram_at(at);
    if credits.len() == 0 {
        assert(b.soc.ac97.pcm_out + words_from(b.sdram, from, 0) =~= b.soc.ac97.pcm_out);
    } else {
        let first = credits.drop_last();
        let m = frames_in(first);
        if first.len() > 0 {
            lemma_fewer_frames(first);
        }
        law_a_paced_transfer_goes_on_where_it_stopped(b, ch, at, left, first);
        let mid = b.after_services(first);
        let g = credits.last();
        lemma_codec_serviced(mid, ch, (at + 4 * m) as u32, left - 4 * m, g);
        assert(words_from(b.sdram, from, m) + words_from(b.sdram, from + 4 * m, g as nat)
            =~= words_from(b.sdram, from, m + g as nat));
        assert(b.soc.ac97.pcm_out + words_from(b.sdram, from, m) + words_from(
            b.sdram,
            from + 4 * m,
            g as nat,
        ) =~= b.soc.ac97.pcm_out + (words_from(b.sdram, from, m) + words_from(
            b.sdram,
            from + 4 * m,
            g as nat,
        )));
    }
}

proof fn lemma_fewer_frames(credits: Seq<u64>)
    requires
        credits.len() > 0,
    ensures
        frames_in(credits.drop_last()) <= frames_in(credits),
{
}

/// Several paced calls and one call that finds as much room move the same
/// words in the same order, and leave the channel at the same place.
pub proof fn law_pieces_of_a_transfer_add_up(
    b: BoardState,
    ch: int,
    at: u32,
    left: int,
    credits: Seq<u64>,
    whole: u64,
)
    requires
        b.feeds_codec(ch, at, left),
        left > 0,
        forall|i: int|
            0 <= i < credits.len() ==> #[trigger] credits[i] <= crate::pxa270::ac97::MAX_CREDIT,
        whole <= crate::pxa270::ac97::MAX_CREDIT,
        frames_in(credits) == whole,
        whole * 4 <= left,
        credits.len() > 0 ==> frames_in(credits.drop_last()) * 4 < left,
    ensures
        ({
            let d = b.after_services(credits);
            let e = b.after_services(seq![whole]);
            &&& d.soc.ac97.pcm_out == e.soc.ac97.pcm_out
            &&& d.channel(ch).dsadr == e.channel(ch).dsadr
            &&& d.channel(ch).dtadr == e.channel(ch).dtadr
            &&& d.channel(ch).length_spec() == e.channel(ch).length_spec()
        }),
{
    law_a_paced_transfer_goes_on_where_it_stopped(b, ch, at, left, credits);
    assert(seq![whole].drop_last() =~= Seq::<u64>::empty());
    assert(frames_in(seq![whole].drop_last()) == 0);
    assert(frames_in(seq![whole]) == whole);
    law_a_paced_transfer_goes_on_where_it_stopped(b, ch, at, left, seq![whole]);
}

/// A descriptor in memory is four words: where the next one is, where the data
/// comes from, where it goes, and the command.
pub proof fn law_a_descriptor_is_four_words(b: BoardState, ch: int, at: u32)
    requires
        b.wf(),
        0 <= ch < 32,
        b.channel(ch).ddadr - b.channel(ch).ddadr % 16 == at,
        super::in_sdram(at),
        b.channel(ch).dcsr & DCSR_NODESC == 0,
        b.channel(ch).length_spec() == 0,
    ensures
        ({
            let d = b.prepared(ch);
            let from = super::sdram_at(at);
            &&& d.channel(ch).ddadr == crate::bytes::word32(b.sdram, from)
            &&& d.channel(ch).dsadr == crate::bytes::word32(b.sdram, from + 4)
            &&& d.channel(ch).dtadr == crate::bytes::word32(b.sdram, from + 8)
            &&& d.channel(ch).dcmd == crate::bytes::word32(b.sdram, from + 12)
            &&& d.channel(ch).dcsr == b.channel(ch).dcsr
            &&& d == b.with_dma(b.soc.dma.with_channel(ch, d.channel(ch)))
        }),
{
    reveal(BoardState::prepared);
    reveal(BoardState::fetched);
    reveal(BoardState::descriptor_at);
    reveal(BoardState::descriptor_read);
    lemma_command_word(b.channel(ch).ddadr, 0);
    super::lemma_sdram_reads(b, at);
    super::lemma_sdram_reads(b, (at + 4) as u32);
    super::lemma_sdram_reads(b, (at + 8) as u32);
    super::lemma_sdram_reads(b, (at + 12) as u32);
}

/// A channel that is out of work takes its next descriptor from memory and
/// carries it out in one service call, where the descriptor copies memory: the
/// bytes are copied, both addresses stand behind them, nothing is left to go,
/// and the channel runs on to the next descriptor unless bit 0 of its address
/// says to stop. Interrupts that the command asks for are raised.
pub proof fn law_a_copying_descriptor_is_carried_out(
    b: BoardState,
    ch: int,
    at: u32,
    next: u32,
    src: u32,
    dst: u32,
    cmd: u32,
    width: u32,
    n: nat,
)
    requires
        b.wf(),
        0 <= ch < 32,
        b.soc.dma.runnable_from(0) == Some(ch),
        b.channel(ch).runnable(),
        b.channel(ch).ddadr - b.channel(ch).ddadr % 16 == at,
        super::in_sdram(at),
        b.channel(ch).dcsr & DCSR_NODESC == 0,
        b.channel(ch).length_spec() == 0,
        next == crate::bytes::word32(b.sdram, super::sdram_at(at)),
        src == crate::bytes::word32(b.sdram, super::sdram_at(at) + 4),
        dst == crate::bytes::word32(b.sdram, super::sdram_at(at) + 8),
        cmd == crate::bytes::word32(b.sdram, super::sdram_at(at) + 12),
        cmd & 0x8000_0000 != 0,
        cmd & 0x4000_0000 != 0,
        width == if cmd >> 14 & 3 == 1 {
            1
        } else if cmd >> 14 & 3 == 2 {
            2
        } else {
            4u32
        },
        cmd & 0x1FFF == n * width,
        src % width == 0,
        dst % width == 0,
        super::SDRAM_BASE <= src,
        super::SDRAM_BASE <= dst,
        src + n * width <= super::SDRAM_BASE + super::SDRAM_SIZE,
        dst + n * width <= super::SDRAM_BASE + super::SDRAM_SIZE,
        src + n * width <= dst || dst + n * width <= src,
    ensures
        ({
            let (d, done) = b.serviced();
            let c = d.channel(ch);
            &&& b.service_safe()
            &&& done
            &&& d.sdram == crate::bytes::overlaid(
                b.sdram,
                super::sdram_at(dst),
                b.sdram.subrange(super::sdram_at(src), super::sdram_at(src) + n * width),
            )
            &&& c.ddadr == next
            &&& c.dsadr == src + n * width
            &&& c.dtadr == dst + n * width
            &&& c.length_spec() == 0
            &&& c.runnable() == (next % 2 == 0)
            &&& cmd & DCMD_ENDIRQEN != 0 ==> c.dcsr & DCSR_ENDINTR != 0
            &&& cmd & DCMD_STARTIRQEN != 0 ==> c.dcsr & DCSR_STARTINTR != 0
        }),
{
    reveal(BoardState::serviced);
    reveal(BoardState::service_safe);
    law_a_descriptor_is_four_words(b, ch, at);
    let ready = b.prepared(ch);
    let c = ready.channel(ch);
    lemma_command_word(cmd, 0);
    assert(!c.paced());
    assert(c.width_spec() == width);
    assert(c.quota() == n * width);
    assert(n * width / width as int == n) by (nonlinear_arith)
        requires
            width > 0,
    ;
    assert(ready.units_due(c) == n);
    super::dma::law_memory_to_memory_copies(ready, src, dst, width, n);
    let moved = ready.units_moved(src, dst, width, true, true, n);
    lemma_accounted(
        moved,
        ch,
        (src + n * width) as u32,
        (dst + n * width) as u32,
        (n * width) as u32,
    );
}

} // verus!
