//! The braille display, as a shift register on the CPLD.
//!
//! Not braille output. This exists because the machine will not finish
//! starting without a display that answers, and answering is a handful of
//! lines.
//!
//! The OAL bit-bangs the display through CPLD register index 0, byte offset
//! `0x400`, one bit at a time:
//!
//! ```text
//! for bit in 0..8 {
//!     if byte & mask[bit] { set(DATA) } else { clear(DATA) }
//!     set(CLOCK); clear(CLOCK);
//! }
//! ```
//!
//! and detects the display by **measuring how long the chain is**:
//!
//! ```text
//! clear DATA, CLOCK and STROBE
//! shift out 32 zero bytes            ; flush the chain
//! count = 0
//! while count < 33 {
//!     if gpio(103) { break }         ; a one has reached the far end
//!     shift out 0xff
//!     count += 1
//!     Sleep(1)
//! }
//! cells = 0
//! if count == 24 { cells = 18 }      ; an 18-cell display
//! if count == 32 { cells = 32 }      ; a 32-cell display
//! ```
//!
//! So a display is a chain of shift-register stages with its far end wired
//! to GPIO 103, and its length is what identifies the model.

use vstd::prelude::*;

verus! {

// Bits of CPLD register 0 the OAL drives.
pub const DATA: u16 = 0x10;
pub const CLOCK: u16 = 0x20;
pub const STROBE: u16 = 0x40;
pub const ENABLE: u16 = 0x80;

/// GPIO the far end of the chain is wired to.
pub const END_OF_CHAIN_GPIO: u32 = 103;

/// Chain length, in bytes, of the larger of the two displays this ROM knows.
///
/// Cell count is not the model. BT and QT name the **keyboard**, Braille
/// Terminal against QWERTY, and each comes in an 18-cell and a 32-cell
/// version. The chain length gives the display half only; a VoiceNote is a
/// machine with no chain at all.
pub const CHAIN_BYTES_32_CELL: usize = 32;
/// Chain length, in bytes, of the smaller display.
pub const CHAIN_BYTES_18_CELL: usize = 24;

pub struct BrailleDisplay {
    /// Whether a display is attached at all. With none, the chain never
    /// returns anything and KeySoft reports it is not operating, which is
    /// what a bare VoiceNote does.
    pub present: bool,
    /// One entry per stage, oldest first. `stages[0]` is the stage nearest
    /// the far end, so it is what GPIO 103 reads.
    pub stages: Vec<bool>,
    /// Previous value written, to find the clock edges.
    pub last: u16,
    /// Bits clocked in since reset, for diagnostics.
    pub bits_shifted: u64,
}

/// What a [`BrailleDisplay`] holds.
#[verifier::ext_equal]
pub struct BrailleState {
    pub present: bool,
    pub stages: Seq<bool>,
    pub last: u16,
    pub bits_shifted: u64,
}

impl View for BrailleDisplay {
    type V = BrailleState;

    open spec fn view(&self) -> BrailleState {
        BrailleState {
            present: self.present,
            stages: self.stages@,
            last: self.last,
            bits_shifted: self.bits_shifted,
        }
    }
}

impl BrailleState {
    pub open spec fn fresh(bytes: nat) -> BrailleState {
        BrailleState {
            present: true,
            stages: Seq::new(bytes * 8, |i: int| false),
            last: 0,
            bits_shifted: 0,
        }
    }

    /// Whether writing `value` clocks a bit into the chain.
    pub open spec fn shifts(self, value: u16) -> bool {
        value & CLOCK != 0 && self.last & CLOCK == 0 && self.present && self.stages.len() > 0
    }

    pub open spec fn written(self, value: u16) -> BrailleState {
        if self.shifts(value) {
            BrailleState {
                last: value,
                stages: self.stages.drop_first().push(value & DATA != 0),
                bits_shifted: self.bits_shifted.wrapping_add(1),
                ..self
            }
        } else {
            BrailleState { last: value, ..self }
        }
    }

    pub open spec fn end_spec(self) -> bool {
        self.present && self.stages.len() > 0 && self.stages[0]
    }

    /// The chain after the bits of `bits` were clocked in, first one first.
    pub open spec fn clocked(stages: Seq<bool>, bits: Seq<bool>) -> Seq<bool>
        decreases bits.len(),
    {
        if bits.len() == 0 {
            stages
        } else {
            Self::clocked(stages, bits.drop_last()).drop_first().push(bits.last())
        }
    }
}

impl Default for BrailleDisplay {
    fn default() -> (r: Self)
        ensures
            r@ == BrailleState::fresh(CHAIN_BYTES_32_CELL as nat),
    {
        BrailleDisplay::with_chain(CHAIN_BYTES_32_CELL)
    }
}

impl BrailleDisplay {
    pub fn with_chain(bytes: usize) -> (r: Self)
        requires
            bytes * 8 <= usize::MAX,
        ensures
            r@ == BrailleState::fresh(bytes as nat),
    {
        let stages: Vec<bool> = vec![false; bytes * 8];
        assert(stages@ =~= Seq::new((bytes * 8) as nat, |i: int| false));
        BrailleDisplay { present: true, stages, last: 0, bits_shifted: 0 }
    }

    /// A write to CPLD register 0. Shifts on the rising edge of the clock.
    pub fn write(&mut self, value: u16)
        ensures
            final(self)@ == old(self)@.written(value),
    {
        let rising = value & CLOCK != 0 && self.last & CLOCK == 0;
        self.last = value;
        if !rising || !self.present || self.stages.is_empty() {
            return ;
        }
        let ghost before = self.stages@;
        self.stages.remove(0);
        assert(self.stages@ =~= before.drop_first());
        self.stages.push(value & DATA != 0);
        self.bits_shifted = self.bits_shifted.wrapping_add(1);
    }

    /// What GPIO 103 reads: the stage at the far end of the chain.
    ///
    /// Combinational, not latched. That is what makes the OAL's count come
    /// out right: it checks the line *before* shifting each byte, so a
    /// latched output would leave the chain looking one byte longer than it
    /// is.
    pub fn end_of_chain(&self) -> (r: bool)
        ensures
            r == self@.end_spec(),
    {
        self.present && self.stages.len() > 0 && self.stages[0]
    }

    /// Cell count this chain length reports, by the OAL's own table.
    pub fn cells(&self) -> (r: u16)
        ensures
            r == (if self@.stages.len() / 8 == 24 {
                18int
            } else if self@.stages.len() / 8 == 32 {
                32
            } else {
                0
            }),
    {
        let bytes: usize = self.stages.len() / 8;
        if bytes == CHAIN_BYTES_18_CELL {
            18
        } else if bytes == CHAIN_BYTES_32_CELL {
            32
        } else {
            0
        }
    }
}

/// Clocking bits in pushes the oldest ones out: the chain then holds the last
/// of the old stages and the new bits, as many as it has stages.
pub proof fn law_the_chain_is_a_queue(stages: Seq<bool>, bits: Seq<bool>)
    requires
        stages.len() > 0,
    ensures
        BrailleState::clocked(stages, bits) == (stages + bits).skip(bits.len() as int),
    decreases bits.len(),
{
    if bits.len() > 0 {
        law_the_chain_is_a_queue(stages, bits.drop_last());
        let shorter = (stages + bits.drop_last()).skip(bits.len() as int - 1);
        assert(shorter.drop_first().push(bits.last()) =~= (stages + bits).skip(bits.len() as int));
    } else {
        assert((stages + bits).skip(0) =~= stages);
    }
}

impl BrailleState {
    /// The display after a run of register writes.
    pub open spec fn after_writes(self, values: Seq<u16>) -> BrailleState
        decreases values.len(),
    {
        if values.len() == 0 {
            self
        } else {
            self.after_writes(values.drop_last()).written(values.last())
        }
    }
}

/// What was written last, `before` if nothing was.
pub open spec fn last_written(before: u16, values: Seq<u16>) -> u16 {
    if values.len() == 0 {
        before
    } else {
        values.last()
    }
}

/// Those of a run of values, written behind `before`, with which the clock
/// rises.
pub open spec fn rising(before: u16, values: Seq<u16>) -> Seq<u16>
    decreases values.len(),
{
    if values.len() == 0 {
        Seq::empty()
    } else {
        let earlier = rising(before, values.drop_last());
        if values.last() & CLOCK != 0 && last_written(before, values.drop_last()) & CLOCK == 0 {
            earlier.push(values.last())
        } else {
            earlier
        }
    }
}

/// The data bits of those values.
pub open spec fn data_bits(values: Seq<u16>) -> Seq<bool> {
    values.map_values(|v: u16| v & DATA != 0)
}

/// Whatever is written to a flushed chain, the far end shows the data bit of
/// as many rising edges ago as the chain has stages, and low before there were
/// that many. Every edge counts as a bit shifted.
pub proof fn law_the_end_shows_an_earlier_edge(bytes: nat, values: Seq<u16>)
    requires
        bytes > 0,
        rising(0, values).len() <= u64::MAX,
    ensures
        ({
            let after = BrailleState::fresh(bytes).after_writes(values);
            let edges = rising(0, values);
            let k = edges.len();
            &&& after.bits_shifted == k
            &&& after.end_spec() == (k >= 8 * bytes && edges[k - 8 * bytes] & DATA != 0)
        }),
{
    let d = BrailleState::fresh(bytes);
    let edges = rising(0, values);
    lemma_edges_shift(d, values);
    law_the_chain_is_a_queue(d.stages, data_bits(edges));
    let all = d.stages + data_bits(edges);
    assert(all.skip(edges.len() as int)[0] == all[edges.len() as int]);
}

/// Without a display nothing is shifted, and the line stays low.
pub proof fn law_no_display_no_bits(d: BrailleState, values: Seq<u16>)
    requires
        !d.present,
    ensures
        !d.after_writes(values).present,
        !d.after_writes(values).end_spec(),
        d.after_writes(values).bits_shifted == d.bits_shifted,
    decreases values.len(),
{
    if values.len() > 0 {
        law_no_display_no_bits(d, values.drop_last());
    }
}

/// A run of writes clocks in the data bits of its rising edges.
proof fn lemma_edges_shift(d: BrailleState, values: Seq<u16>)
    requires
        d.present,
        d.stages.len() > 0,
        d.bits_shifted == 0,
        rising(d.last, values).len() <= u64::MAX,
    ensures
        ({
            let after = d.after_writes(values);
            let edges = rising(d.last, values);
            &&& after.present
            &&& after.last == last_written(d.last, values)
            &&& after.stages == BrailleState::clocked(d.stages, data_bits(edges))
            &&& after.stages.len() == d.stages.len()
            &&& after.bits_shifted == edges.len()
        }),
    decreases values.len(),
{
    let edges = rising(d.last, values);
    if values.len() == 0 {
        assert(data_bits(edges) =~= Seq::<bool>::empty());
    } else {
        let earlier = rising(d.last, values.drop_last());
        lemma_edges_shift(d, values.drop_last());
        if edges.len() > earlier.len() {
            assert(data_bits(edges).drop_last() =~= data_bits(earlier));
            assert(data_bits(edges).last() == (values.last() & DATA != 0));
        }
    }
}

/// A flushed chain is measured exactly: ones clocked into it reach the far
/// end with the last of its stages and not before.
pub proof fn law_ones_measure_the_chain(length: nat, n: nat)
    requires
        length > 0,
    ensures
        ({
            let flushed = Seq::new(length, |i: int| false);
            let ones = Seq::new(n, |i: int| true);
            BrailleState::clocked(flushed, ones)[0] == (n >= length)
        }),
{
    let flushed = Seq::new(length, |i: int| false);
    let ones = Seq::new(n, |i: int| true);
    law_the_chain_is_a_queue(flushed, ones);
    assert((flushed + ones).skip(n as int)[0] == (flushed + ones)[n as int]);
}

/// Driving the data line and pulsing the clock, starting from a low clock,
/// clocks in exactly one bit and leaves the clock low again.
pub proof fn law_a_clock_pulse_shifts_one_bit(d: BrailleState, bit: bool)
    requires
        d.present,
        d.stages.len() > 0,
        d.last & CLOCK == 0,
    ensures
        ({
            let data = if bit {
                DATA
            } else {
                0u16
            };
            let after = d.written(data).written(data | CLOCK).written(data);
            &&& after.stages == d.stages.drop_first().push(bit)
            &&& after.last & CLOCK == 0
        }),
{
    assert(DATA & CLOCK == 0 && 0u16 & CLOCK == 0 && (DATA | CLOCK) & CLOCK != 0 && (0u16 | CLOCK)
        & CLOCK != 0 && (DATA | CLOCK) & DATA != 0 && (0u16 | CLOCK) & DATA == 0) by (bit_vector);
}

} // verus!
