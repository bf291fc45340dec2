//! An SD card in the slot, enough of one for Windows CE to mount it.
//!
//! The ROM already carries a complete block driver for a card (`sdmmc.dll`
//! behind prefix `DSK`, with `fatfs.dll` as its file system), so a card in the
//! slot gets partitioned, formatted and mounted by stock code.
//!
//! # What a host has to do to get a card talking
//!
//! The card starts idle and answers almost nothing. The sequence, from the
//! SD Physical Layer description:
//!
//! ```text
//! CMD0                  go idle
//! CMD8   (SD 2.0+)      does the card understand this voltage?
//! CMD55 + ACMD41        start initialisation; repeat until the card says ready
//! CMD2                  send CID, and move to identification
//! CMD3                  take a relative address
//! CMD9                  send CSD, which is where the capacity is
//! CMD7                  select this card
//! CMD16                 set the block length
//! CMD17 / CMD24         read / write one block
//! ```
//!
//! Responses are byte strings here rather than integers, because that is what
//! the controller shifts out and what the host reassembles: the first byte is
//! the command index, the last is a CRC, and the payload is in between.

use crate::bytes::push32_be;
use std::collections::{BTreeSet, VecDeque};
use vstd::prelude::*;

verus! {

broadcast use vstd::std_specs::btree::group_btree_axioms;

/// Bytes in a block. Every SD card uses this regardless of capacity.
pub const BLOCK: usize = 512;

/// The "not busy" flag a host spins on through `ACMD41`.
pub const OCR_READY: u32 = 0x8000_0000;
/// The card's operating conditions: 3.2-3.4 V.
pub const OCR_VOLTAGE_WINDOW: u32 = 0x00FF_8000;

/// Card states, from the protocol's state diagram. Only the ones this model
/// can actually be in.
#[derive(Debug, Clone, Copy, PartialEq, Eq, Structural)]
pub enum State {
    Idle,
    Ready,
    Identification,
    Standby,
    Transfer,
    SendingData,
    ReceivingData,
}

/// What the card is doing with the data lines, if anything.
#[derive(Debug, Clone, Copy, PartialEq, Eq, Structural)]
pub enum Transfer {
    Quiet,
    Reading,
    Writing,
}

pub struct SdCard {
    /// Contents, `BLOCK` bytes per block.
    pub data: Vec<u8>,
    pub state: State,
    /// Relative card address, handed out by `CMD3`.
    pub rca: u16,
    /// Set once `CMD55` has been seen, so the next command is an `ACMD`.
    pub app_cmd: bool,
    /// How many times `ACMD41` has been asked. A real card takes a moment to
    /// power up and a host that never sees "busy" is a host whose retry loop
    /// is never exercised.
    pub init_polls: u32,
    /// Block length set by `CMD16`. Always `BLOCK` in practice.
    pub block_len: usize,
    /// Byte offset of the transfer in progress.
    pub position: usize,
    pub transfer: Transfer,
    /// Set for `CMD18`/`CMD25`, which run until `CMD12` stops them. A
    /// single-block transfer ends by itself.
    pub multi_block: bool,
    /// Bytes a register command puts on the data lines. `ACMD51` and
    /// `ACMD13` answer with a short response *and* a small block of data,
    /// and a host that asked for data waits for it however good the
    /// response was.
    pub data_out: VecDeque<u8>,
    /// Set when anything has been written, so an untouched card is not saved
    /// over an image that already exists.
    pub dirty: bool,
    /// Blocks written since the last flush.
    ///
    /// The image is the user's data, and writing it only when the emulator
    /// exits tidily means any other ending loses everything since the card
    /// was loaded. So the card remembers which blocks moved and the runner
    /// writes just those, which is small enough to do every few seconds.
    pub dirty_blocks: BTreeSet<usize>,
}

/// What an [`SdCard`] holds.
#[verifier::ext_equal]
pub struct SdState {
    pub data: Seq<u8>,
    pub state: State,
    pub rca: u16,
    pub app_cmd: bool,
    pub init_polls: u32,
    pub block_len: usize,
    pub position: usize,
    pub transfer: Transfer,
    pub multi_block: bool,
    pub data_out: Seq<u8>,
    pub dirty: bool,
    pub dirty_blocks: Set<usize>,
}

impl View for SdCard {
    type V = SdState;

    open spec fn view(&self) -> SdState {
        SdState {
            data: self.data@,
            state: self.state,
            rca: self.rca,
            app_cmd: self.app_cmd,
            init_polls: self.init_polls,
            block_len: self.block_len,
            position: self.position,
            transfer: self.transfer,
            multi_block: self.multi_block,
            data_out: self.data_out@,
            dirty: self.dirty,
            dirty_blocks: self.dirty_blocks@,
        }
    }
}

impl State {
    /// The number of this state in the status word.
    pub open spec fn code(self) -> u32 {
        match self {
            State::Idle => 0,
            State::Ready => 1,
            State::Identification => 2,
            State::Standby => 3,
            State::Transfer => 4,
            State::SendingData => 5,
            State::ReceivingData => 6,
        }
    }
}

/// A 48-bit response: index, four bytes of payload, CRC.
pub open spec fn short_response(index: u8, payload: u32) -> Seq<u8> {
    seq![index & 0x3F] + crate::bytes::be32(payload) + seq![0x01u8]
}

/// A 136-bit response, which carries a whole register. A long response has no
/// index to send back.
pub open spec fn long_response(reg: Seq<u8>) -> Seq<u8> {
    seq![0x3Fu8] + reg
}

/// The operating conditions, with no index and no real CRC.
pub open spec fn ocr_response(ready: bool) -> Seq<u8> {
    let ocr = if ready {
        OCR_VOLTAGE_WINDOW | OCR_READY
    } else {
        OCR_VOLTAGE_WINDOW | 0
    };
    seq![0x3Fu8] + crate::bytes::be32(ocr) + seq![0xFFu8]
}

/// Who made this card.
pub open spec fn cid_spec() -> Seq<u8> {
    seq![
        0x00u8,
        0x56,
        0x4E,
        0x56,
        0x49,
        0x42,
        0x45,
        0x6E,
        0x10,
        0x00,
        0x00,
        0x00,
        0x01,
        0x00,
        0x12,
        0x01,
    ]
}

/// The card-specific data of a card whose capacity field is `c_size`.
pub open spec fn csd_spec(c_size: u32) -> Seq<u8> {
    seq![
        0x00u8,
        0x26,
        0x00,
        0x32,
        0x5B,
        0x59,
        ((c_size >> 10) & 0x03) as u8,
        ((c_size >> 2) & 0xFF) as u8,
        (((c_size & 0x03) as u8) << 6) | 0x2D,
        0xB7,
        0xFF,
        0x80,
        0x0A,
        0x40,
        0x00,
        0x01,
    ]
}

/// Which bus widths and which version.
pub open spec fn scr_spec() -> Seq<u8> {
    seq![0x02u8, 0x05, 0, 0, 0, 0, 0, 0]
}

impl SdState {
    /// A blank card of `blocks` blocks.
    pub open spec fn blank(blocks: int) -> SdState {
        SdState {
            data: Seq::new((blocks * 512) as nat, |i: int| 0u8),
            state: State::Idle,
            rca: 0,
            app_cmd: false,
            init_polls: 0,
            block_len: BLOCK,
            position: 0,
            transfer: Transfer::Quiet,
            multi_block: false,
            data_out: Seq::empty(),
            dirty: false,
            dirty_blocks: Set::empty(),
        }
    }

    /// Only blocks of the card are ever waiting to be written out.
    pub open spec fn wf(self) -> bool {
        forall|b: usize| #[trigger]
            self.dirty_blocks.contains(b) ==> b * 512 < self.data.len()
    }

    /// The 32-bit card status that every `R1` response carries: bit 8 is
    /// READY_FOR_DATA, and the state sits in bits 12:9.
    pub open spec fn status_spec(self) -> u32 {
        (self.state.code() << 9) | 0x100
    }

    /// The capacity field: the number of 256 KB units, less one.
    pub open spec fn c_size(self) -> u32 {
        let units = self.data.len() as int / 0x40000;
        (if units > 0 {
            units - 1
        } else {
            0
        }) as u32
    }

    pub open spec fn after_finish(self) -> SdState {
        if self.multi_block {
            self
        } else {
            SdState {
                transfer: Transfer::Quiet,
                state: if self.state == State::SendingData || self.state == State::ReceivingData {
                    State::Transfer
                } else {
                    self.state
                },
                ..self
            }
        }
    }

    /// One more poll of the power-up state: the second one finds it ready.
    pub open spec fn polled(self) -> SdState {
        let polls = self.init_polls.wrapping_add(1);
        SdState {
            init_polls: polls,
            state: if polls >= 2 {
                State::Ready
            } else {
                self.state
            },
            ..self
        }
    }

    pub open spec fn answering(self, index: u8) -> (SdState, Option<Seq<u8>>) {
        (self, Some(short_response(index, self.status_spec())))
    }

    /// The card after a plain command, and its answer.
    pub open spec fn plain_command(self, cmd: u8, arg: u32) -> (SdState, Option<Seq<u8>>) {
        if cmd == 0 {
            // GO_IDLE_STATE: no response, and everything but the contents
            // resets.
            (
                SdState {
                    data: self.data,
                    dirty: self.dirty,
                    dirty_blocks: self.dirty_blocks,
                    ..SdState::blank(0)
                },
                None,
            )
        } else if cmd == 1 {
            // SEND_OP_COND.
            (self.polled(), Some(ocr_response(self.polled().init_polls >= 2)))
        } else if cmd == 2 {
            // ALL_SEND_CID.
            (SdState { state: State::Identification, ..self }, Some(long_response(cid_spec())))
        } else if cmd == 3 {
            // SEND_RELATIVE_ADDR, or SET_RELATIVE_ADDR when the host names one.
            let assigned = (arg >> 16) as u16;
            let s = SdState {
                state: State::Standby,
                rca: if assigned != 0 {
                    assigned
                } else {
                    1
                },
                ..self
            };
            (
                s,
                Some(
                    short_response(
                        3,
                        if assigned != 0 {
                            s.status_spec()
                        } else {
                            ((1u16 as u32) << 16) | (s.status_spec() & 0xFFFF)
                        },
                    ),
                ),
            )
        } else if cmd == 7 {
            // SELECT/DESELECT_CARD.
            (SdState {
                state: if (arg >> 16) as u16 == self.rca {
                    State::Transfer
                } else {
                    State::Standby
                },
                ..self
            }).answering(7)
        } else if cmd == 8 {
            // SEND_IF_COND echoes the check pattern.
            (self, Some(short_response(8, arg & 0xFFF)))
        } else if cmd == 9 {
            (self, Some(long_response(csd_spec(self.c_size()))))
        } else if cmd == 10 {
            (self, Some(long_response(cid_spec())))
        } else if cmd == 12 {
            // STOP_TRANSMISSION.
            (SdState {
                transfer: Transfer::Quiet,
                multi_block: false,
                state: State::Transfer,
                ..self
            }).answering(12)
        } else if cmd == 16 {
            // SET_BLOCKLEN.
            (SdState { block_len: arg as usize, ..self }).answering(16)
        } else if cmd == 17 || cmd == 18 {
            // READ_SINGLE_BLOCK / READ_MULTIPLE_BLOCK, byte-addressed.
            (SdState {
                position: arg as usize,
                transfer: Transfer::Reading,
                multi_block: cmd == 18,
                state: State::SendingData,
                ..self
            }).answering(cmd)
        } else if cmd == 24 || cmd == 25 {
            // WRITE_BLOCK / WRITE_MULTIPLE_BLOCK, byte-addressed too.
            (SdState {
                position: arg as usize,
                transfer: Transfer::Writing,
                multi_block: cmd == 25,
                state: State::ReceivingData,
                ..self
            }).answering(cmd)
        } else if cmd == 55 {
            // APP_CMD: the next command is an ACMD.
            (
                SdState { app_cmd: true, ..self },
                Some(short_response(55, self.status_spec() | 0x20)),
            )
        } else {
            self.answering(cmd)
        }
    }

    /// The card after an application command, and its answer.
    pub open spec fn application_command(self, cmd: u8) -> (SdState, Option<Seq<u8>>) {
        if cmd == 41 {
            (self.polled(), Some(ocr_response(self.polled().init_polls >= 2)))
        } else if cmd == 13 {
            (SdState {
                data_out: self.data_out + Seq::new(64, |i: int| 0u8),
                transfer: Transfer::Reading,
                ..self
            }).answering(13)
        } else if cmd == 51 {
            (SdState {
                data_out: self.data_out + scr_spec(),
                transfer: Transfer::Reading,
                ..self
            }).answering(51)
        } else {
            self.answering(cmd)
        }
    }

    /// The card after any command, and its answer. `CMD55` turns the command
    /// after it, and only that one, into an application command.
    pub open spec fn commanded(self, cmd: u8, arg: u32) -> (SdState, Option<Seq<u8>>) {
        let s = SdState { app_cmd: false, ..self };
        if self.app_cmd {
            s.application_command(cmd)
        } else {
            s.plain_command(cmd, arg)
        }
    }

    pub open spec fn has_data_spec(self) -> bool {
        self.data_out.len() > 0 || self.transfer == Transfer::Reading
    }

    pub open spec fn next_byte(self) -> u8 {
        if self.data_out.len() > 0 {
            self.data_out[0]
        } else if self.transfer != Transfer::Reading {
            0xFF
        } else if self.position < self.data.len() {
            self.data[self.position as int]
        } else {
            0
        }
    }

    pub open spec fn after_read(self) -> SdState {
        if self.data_out.len() > 0 {
            SdState { data_out: self.data_out.subrange(1, self.data_out.len() as int), ..self }
        } else if self.transfer != Transfer::Reading {
            self
        } else {
            SdState { position: self.position.wrapping_add(1), ..self }
        }
    }

    pub open spec fn after_write(self, b: u8) -> SdState {
        if self.transfer != Transfer::Writing {
            self
        } else if self.position < self.data.len() {
            SdState {
                data: self.data.update(self.position as int, b),
                dirty: true,
                dirty_blocks: self.dirty_blocks.insert((self.position / BLOCK) as usize),
                position: self.position.wrapping_add(1),
                ..self
            }
        } else {
            SdState { position: self.position.wrapping_add(1), ..self }
        }
    }
}

/// Block `b` lies in the run `(first, count)`.
pub open spec fn in_run(run: (usize, usize), b: int) -> bool {
    run.0 <= b < run.0 + run.1
}

/// `runs` are exactly the blocks of `set`: in ascending order, none empty, and
/// no two that could have been one.
pub open spec fn are_runs_of(runs: Seq<(usize, usize)>, set: Set<usize>) -> bool {
    &&& forall|i: int| 0 <= i < runs.len() ==> (#[trigger] runs[i]).1 >= 1
    &&& forall|i: int, j: int|
        #![trigger runs[i], runs[j]]
        0 <= i < j < runs.len() ==> runs[i].0 + runs[i].1 < runs[j].0
    &&& forall|b: usize|
        #![trigger set.contains(b)]
        set.contains(b) <==> exists|i: int|
            0 <= i < runs.len() && in_run(#[trigger] runs[i], b as int)
}

/// What an ascending sequence of numbers is.
proof fn lemma_ascending(s: Seq<&usize>)
    requires
        vstd::std_specs::btree::increasing_seq(s),
    ensures
        forall|i: int, j: int| #![trigger s[i], s[j]] 0 <= i < j < s.len() ==> *s[i] < *s[j],
{
    broadcast use vstd::laws_cmp::group_laws_cmp;

    assert(vstd::laws_cmp::obeys_cmp::<usize>());
    assert(vstd::laws_cmp::obeys_cmp::<&usize>());
    assert forall|i: int, j: int| #![trigger s[i], s[j]] 0 <= i < j < s.len() implies *s[i]
        < *s[j] by {
        assert(vstd::std_specs::cmp::OrdSpec::cmp_spec(&s[i], &s[j]) is Less);
    }
}

/// The blocks of `set` in ascending order.
fn sorted_blocks(set: &BTreeSet<usize>) -> (r: Vec<usize>)
    ensures
        r@.to_set() == set@,
        forall|i: int, j: int| #![trigger r@[i], r@[j]] 0 <= i < j < r.len() ==> r[i] < r[j],
{
    let mut out: Vec<usize> = Vec::new();
    let ghost all = vstd::std_specs::iter::IteratorSpec::remaining(
        &vstd::std_specs::btree::spec_btree_keys_iter(set),
    );
    for b in it: set.iter()
        invariant
            it.seq() == all,
            out@ =~= all.unref().take(it.index() as int),
    {
        out.push(*b);
    }
    proof {
        assert(out@ =~= all.unref());
        lemma_ascending(all);
        assert forall|i: int, j: int| #![trigger out@[i], out@[j]] 0 <= i < j < out.len() implies
            out[i] < out[j] by {
            assert(*all[i] == out@[i]);
            assert(*all[j] == out@[j]);
        }
    }
    out
}

impl SdCard {
    /// A blank card of `capacity` bytes, rounded down to whole blocks.
    pub fn new(capacity: usize) -> (r: Self)
        ensures
            r@ == SdState::blank(capacity as int / 512),
    {
        let blocks: usize = capacity / BLOCK;
        SdCard {
            // A fresh card reads as zeroes, not as erased flash: the wear and
            // the erase block are the controller's business, not the host's.
            data: crate::bytes::filled(blocks * BLOCK, 0),
            state: State::Idle,
            multi_block: false,
            rca: 0,
            app_cmd: false,
            init_polls: 0,
            block_len: BLOCK,
            position: 0,
            transfer: Transfer::Quiet,
            data_out: VecDeque::new(),
            dirty: false,
            dirty_blocks: BTreeSet::new(),
        }
    }

    /// A card holding `raw`, less any part of a block at its end.
    pub fn from_image(raw: Vec<u8>) -> (r: Self)
        ensures
            r@ == (SdState {
                data: raw@.take(raw.len() as int / 512 * 512),
                ..SdState::blank(raw.len() as int / 512)
            }),
    {
        let mut c = SdCard::new(raw.len());
        let n: usize = raw.len() / BLOCK * BLOCK;
        c.data = crate::bytes::copy_range(raw.as_slice(), 0, n);
        c
    }

    pub fn blocks(&self) -> (r: usize)
        ensures
            r == self@.data.len() / 512,
    {
        self.data.len() / BLOCK
    }

    /// The controller has moved the last byte of a transfer.
    ///
    /// A single-block transfer ends here, and the card goes back to `tran` on
    /// its own: `CMD24` takes it to `rcv` for the data and `prg` while it
    /// writes, and it is in `tran` again by the time the host asks. A
    /// multi-block one stays where it is until `CMD12` stops it.
    ///
    /// The driver finishes a write and then polls `CMD13` until the card says
    /// `tran`, so a state stuck at `rcv` hangs the machine.
    pub fn transfer_finished(&mut self)
        ensures
            final(self)@ == old(self)@.after_finish(),
    {
        if self.multi_block {
            return ;
        }
        self.transfer = Transfer::Quiet;
        if self.state == State::SendingData || self.state == State::ReceivingData {
            self.state = State::Transfer;
        }
    }

    /// The 32-bit card status that every `R1` response carries.
    pub fn status(&self) -> (r: u32)
        ensures
            r == self@.status_spec(),
    {
        let state: u32 = match self.state {
            State::Idle => 0,
            State::Ready => 1,
            State::Identification => 2,
            State::Standby => 3,
            State::Transfer => 4,
            State::SendingData => 5,
            State::ReceivingData => 6,
        };
        // Bit 8 is READY_FOR_DATA, and the state sits in bits 12:9.
        (state << 9) | 0x100
    }

    /// The card identification register: who made this card.
    fn cid(&self) -> (r: [u8; 16])
        ensures
            r@ == cid_spec(),
    {
        let r: [u8; 16] = [
            // Manufacturer, then "VN" and the product name "VIBEn".
            0x00,
            0x56,
            0x4E,
            0x56,
            0x49,
            0x42,
            0x45,
            0x6E,
            // Revision 1.0 and the serial number.
            0x10,
            0x00,
            0x00,
            0x00,
            0x01,
            0x00,
            // Manufacturing date, then CRC7 + end bit, which nothing checks.
            0x12,
            0x01,
        ];
        r
    }

    /// The card specific data register, **version 1**, where the capacity
    /// lives.
    ///
    /// Version 1 states the size the long way round:
    ///
    /// ```text
    /// capacity = (C_SIZE + 1) * 2^(C_SIZE_MULT + 2) * 2^READ_BL_LEN
    /// ```
    ///
    /// With `READ_BL_LEN` 9 and `C_SIZE_MULT` 7 that is `(C_SIZE + 1) * 256 KB`,
    /// which reaches 1 GB, further than this machine ever had.
    pub fn csd(&self) -> (r: [u8; 16])
        ensures
            r@ == csd_spec(self@.c_size()),
    {
        let units: u64 = self.data.len() as u64 / 0x40000;
        let c_size: u32 = (if units > 0 {
            units - 1
        } else {
            0
        }) as u32;
        let r: [u8; 16] = [
            0x00,  // CSD version 1.0
            0x26,  // TAAC
            0x00,  // NSAC
            0x32,  // TRAN_SPEED, 25 MHz
            0x5B,  // CCC, high bits
            0x59,  // CCC, low bits, and READ_BL_LEN
            ((c_size >> 10) & 0x03) as u8,
            ((c_size >> 2) & 0xFF) as u8,
            // C_SIZE's bottom two bits, then the read current limits.
            (((c_size & 0x03) as u8) << 6) | 0x2D,
            0xB7,  // Write current limits, then C_SIZE_MULT's top two bits.
            0xFF,  // C_SIZE_MULT's bottom bit, erase-block-enable, sector size.
            0x80,  // the sector size's last bit, and no write-protect groups
            0x0A,  // R2W_FACTOR, and WRITE_BL_LEN's top bits
            0x40,  // WRITE_BL_LEN's bottom bits
            0x00,
            0x01,  // CRC7 and the end bit, which nothing here checks
        ];
        r
    }

    /// The blocks written since this was last asked, as runs of consecutive
    /// blocks: `(first block, how many)`.
    ///
    /// Runs rather than blocks because a file being written touches a stretch
    /// of the card at once, and one seek and one write for a stretch is worth
    /// having over five hundred of each.
    pub fn take_dirty_runs(&mut self) -> (runs: Vec<(usize, usize)>)
        requires
            old(self)@.wf(),
        ensures
            are_runs_of(runs@, old(self)@.dirty_blocks),
            final(self)@ == (SdState { dirty_blocks: Set::empty(), ..old(self)@ }),
    {
        let mut taken: BTreeSet<usize> = BTreeSet::new();
        std::mem::swap(&mut taken, &mut self.dirty_blocks);
        let blocks: Vec<usize> = sorted_blocks(&taken);
        assert forall|i: int| 0 <= i < blocks.len() implies #[trigger] blocks[i] < usize::MAX by {
            assert(blocks@.to_set().contains(blocks@[i]));
            assert(old(self)@.dirty_blocks.contains(blocks@[i]));
            assert(old(self)@.data.len() == old(self).data.len());
        }
        let mut runs: Vec<(usize, usize)> = Vec::new();
        let mut k: usize = 0;
        assert(blocks@.take(0).to_set() =~= Set::<usize>::empty());
        while k < blocks.len()
            invariant
                k <= blocks.len(),
                forall|i: int, j: int|
                    #![trigger blocks@[i], blocks@[j]]
                    0 <= i < j < blocks.len() ==> blocks[i] < blocks[j],
                forall|i: int| 0 <= i < blocks.len() ==> #[trigger] blocks[i] < usize::MAX,
                are_runs_of(runs@, blocks@.take(k as int).to_set()),
                k > 0 ==> runs.len() > 0 && runs@.last().0 + runs@.last().1 == blocks[k - 1] + 1,
                k == 0 ==> runs.len() == 0,
            decreases blocks.len() - k,
        {
            let block: usize = blocks[k];
            let ghost before = runs@;
            let ghost set = blocks@.take(k as int).to_set();
            let ghost grown = blocks@.take(k as int + 1).to_set();
            proof {
                assert forall|b: usize| grown.contains(b) <==> set.contains(b) || b == block by {
                    let s = blocks@.take(k as int);
                    let t = blocks@.take(k as int + 1);
                    assert(t =~= s.push(block));
                    if set.contains(b) {
                        let i = choose|i: int| 0 <= i < s.len() && s[i] == b;
                        assert(t[i] == b);
                    }
                    if b == block {
                        assert(t[k as int] == b);
                    }
                    if grown.contains(b) {
                        let i = choose|i: int| 0 <= i < t.len() && t[i] == b;
                        if i < k {
                            assert(s[i] == b);
                        }
                    }
                }
            }
            let n: usize = runs.len();
            if n > 0 && runs[n - 1].0 + runs[n - 1].1 == block {
                let (start, len): (usize, usize) = runs[n - 1];
                runs[n - 1] = (start, len + 1);
                proof {
                    assert forall|b: usize| #![trigger grown.contains(b)]
                        grown.contains(b) <==> exists|i: int|
                            0 <= i < runs.len() && in_run(#[trigger] runs@[i], b as int) by {
                        if set.contains(b) {
                            let i = choose|i: int|
                                0 <= i < before.len() && in_run(#[trigger] before[i], b as int);
                            assert(in_run(runs@[i], b as int));
                        }
                        if b == block {
                            assert(in_run(runs@[n - 1], b as int));
                        }
                        if exists|i: int|
                            0 <= i < runs.len() && in_run(#[trigger] runs@[i], b as int) {
                            let i = choose|i: int|
                                0 <= i < runs.len() && in_run(#[trigger] runs@[i], b as int);
                            if b != block {
                                assert(in_run(before[i], b as int));
                            }
                        }
                    }
                }
            } else {
                runs.push((block, 1));
                proof {
                    assert forall|b: usize| #![trigger grown.contains(b)]
                        grown.contains(b) <==> exists|i: int|
                            0 <= i < runs.len() && in_run(#[trigger] runs@[i], b as int) by {
                        if set.contains(b) {
                            let i = choose|i: int|
                                0 <= i < before.len() && in_run(#[trigger] before[i], b as int);
                            assert(in_run(runs@[i], b as int));
                        }
                        if b == block {
                            assert(in_run(runs@[n as int], b as int));
                        }
                        if exists|i: int|
                            0 <= i < runs.len() && in_run(#[trigger] runs@[i], b as int) {
                            let i = choose|i: int|
                                0 <= i < runs.len() && in_run(#[trigger] runs@[i], b as int);
                            if b != block {
                                assert(in_run(before[i], b as int));
                            }
                        }
                    }
                }
            }
            k = k + 1;
        }
        assert(blocks@.take(blocks.len() as int) =~= blocks@);
        runs
    }

    /// Whether anything is waiting to be written out.
    pub fn has_unflushed(&self) -> (r: bool)
        ensures
            r == !self@.dirty_blocks.is_empty(),
    {
        !self.dirty_blocks.is_empty()
    }

    /// The bytes of a run of blocks, for writing to the image. What lies past
    /// the end of the card is left out.
    pub fn block_bytes(&self, block: usize, count: usize) -> (r: &[u8])
        requires
            block * 512 + count * 512 <= usize::MAX,
        ensures
            ({
                let len = self@.data.len() as int;
                let from = if block * 512 < len {
                    block * 512
                } else {
                    len
                };
                let to = if block * 512 + count * 512 < len {
                    block * 512 + count * 512
                } else {
                    len
                };
                r@ == self@.data.subrange(from, to)
            }),
    {
        let from: usize = block * BLOCK;
        let asked: usize = from + count * BLOCK;
        let len: usize = self.data.len();
        let to: usize = if asked < len {
            asked
        } else {
            len
        };
        let start: usize = if from < len {
            from
        } else {
            len
        };
        vstd::slice::slice_subrange(self.data.as_slice(), start, to)
    }

    pub fn block_size(&self) -> (r: usize)
        ensures
            r == BLOCK,
    {
        BLOCK
    }

    /// The capacity the CSD describes, by the arithmetic a host does.
    pub fn csd_capacity(&self) -> (r: u64)
        ensures
            r == ((self@.c_size() & 0xFFF) + 1) * 0x40000,
    {
        let r: [u8; 16] = self.csd();
        let ghost c = self@.c_size();
        let read_bl_len: u32 = (r[5] & 0x0F) as u32;
        let c_size: u32 = (((r[6] & 0x03) as u32) << 10) | ((r[7] as u32) << 2) | ((r[8] >> 6)
            as u32);
        let c_size_mult: u32 = (((r[9] & 0x03) as u32) << 1) | ((r[10] >> 7) as u32);
        proof {
            let r6 = ((c >> 10) & 0x03) as u8;
            let r7 = ((c >> 2) & 0xFF) as u8;
            let r8 = (((c & 0x03) as u8) << 6) | 0x2D;
            assert((((r6 & 0x03) as u32) << 10) | ((r7 as u32) << 2) | ((r8 >> 6) as u32) == c
                & 0xFFF) by (bit_vector)
                requires
                    r6 == ((c >> 10) & 0x03) as u8,
                    r7 == ((c >> 2) & 0xFF) as u8,
                    r8 == (((c & 0x03) as u8) << 6) | 0x2D,
            ;
            assert(c & 0xFFF <= 0xFFF && (0x59u8 & 0x0F) as u32 == 9 && (((0xB7u8 & 0x03) as u32)
                << 1) | ((0xFFu8 >> 7) as u32) == 7 && (1u64 << 9u32) == 512 && 1u64 << 9u32
                == 512) by (bit_vector);
            assert(c_size_mult + 2 == 9 && read_bl_len == 9);
        }
        (c_size as u64 + 1) * (1u64 << (c_size_mult + 2)) * (1u64 << read_bl_len)
    }

    /// Build a 48-bit response: index, four bytes of payload, CRC.
    fn r1(&self, index: u8, payload: u32) -> (r: Vec<u8>)
        ensures
            r@ == short_response(index, payload),
    {
        let mut v: Vec<u8> = Vec::new();
        v.push(index & 0x3F);
        push32_be(&mut v, payload);
        v.push(0x01);
        v
    }

    /// Build a 136-bit response, which carries a whole register.
    fn r2(&self, reg: [u8; 16]) -> (r: Vec<u8>)
        ensures
            r@ == long_response(reg@),
    {
        let mut v: Vec<u8> = Vec::new();
        v.push(0x3F);
        crate::bytes::push_all(&mut v, reg.as_slice());
        v
    }

    /// Report busy the first time, so the host's wait loop runs the way it
    /// would against a real card, then come up ready.
    fn poll(&mut self) -> (r: Vec<u8>)
        ensures
            final(self)@ == old(self)@.polled(),
            r@ == ocr_response(old(self)@.polled().init_polls >= 2),
    {
        self.init_polls = self.init_polls.wrapping_add(1);
        let ready = self.init_polls >= 2;
        if ready {
            self.state = State::Ready;
        }
        let ocr: u32 = OCR_VOLTAGE_WINDOW | (if ready {
            OCR_READY
        } else {
            0
        });
        let mut v: Vec<u8> = Vec::new();
        v.push(0x3F);
        push32_be(&mut v, ocr);
        v.push(0xFF);
        v
    }

    /// Run one command, returning the response the controller should shift
    /// out, or `None` if the card stays silent.
    pub fn command(&mut self, cmd: u8, arg: u32) -> (r: Option<Vec<u8>>)
        ensures
            final(self)@ == old(self)@.commanded(cmd, arg).0,
            match r {
                Some(v) => old(self)@.commanded(cmd, arg).1 == Some(v@),
                None => old(self)@.commanded(cmd, arg).1 is None,
            },
    {
        let app = self.app_cmd;
        self.app_cmd = false;
        if app {
            return Some(self.app_command(cmd));
        }
        match cmd {
            0 => {
                // GO_IDLE_STATE. No response, and everything resets.
                self.state = State::Idle;
                self.rca = 0;
                self.init_polls = 0;
                self.block_len = BLOCK;
                self.position = 0;
                self.transfer = Transfer::Quiet;
                self.multi_block = false;
                self.data_out.clear();
                None
            },
            2 => {
                // ALL_SEND_CID.
                self.state = State::Identification;
                Some(self.r2(self.cid()))
            },
            1 => {
                // SEND_OP_COND, the MMC form of ACMD41. Same busy-then-ready
                // dance, and the same OCR.
                Some(self.poll())
            },
            3 => {
                // Two protocols share this number and they run opposite ways
                // round. SD's SEND_RELATIVE_ADDR has the card choose an
                // address and hand it back in an R6; MMC's SET_RELATIVE_ADDR
                // has the host name one in the argument and expects a plain
                // status back. The argument tells them apart: a host that is
                // assigning an address has put it there.
                self.state = State::Standby;
                let assigned: u16 = (arg >> 16) as u16;
                if assigned != 0 {
                    self.rca = assigned;
                    Some(self.r1(3, self.status()))
                } else {
                    self.rca = 0x0001;
                    let payload: u32 = ((self.rca as u32) << 16) | (self.status() & 0xFFFF);
                    Some(self.r1(3, payload))
                }
            },
            7 => {
                // SELECT/DESELECT_CARD.
                self.state = if (arg >> 16) as u16 == self.rca {
                    State::Transfer
                } else {
                    State::Standby
                };
                Some(self.r1(7, self.status()))
            },
            8 => {
                // SEND_IF_COND. Echo the check pattern back to say this card
                // understands version 2 and the supplied voltage.
                Some(self.r1(8, arg & 0xFFF))
            },
            9 => Some(self.r2(self.csd())),  // SEND_CSD
            10 => Some(self.r2(self.cid())),  // SEND_CID
            12 => {
                // STOP_TRANSMISSION.
                self.transfer = Transfer::Quiet;
                self.multi_block = false;
                self.state = State::Transfer;
                Some(self.r1(12, self.status()))
            },
            16 => {
                // SET_BLOCKLEN.
                self.block_len = arg as usize;
                Some(self.r1(16, self.status()))
            },
            17 | 18 => {
                // READ_SINGLE_BLOCK / READ_MULTIPLE_BLOCK. Without the high
                // capacity bit in the OCR the argument is a byte offset.
                self.position = arg as usize;
                self.transfer = Transfer::Reading;
                self.multi_block = cmd == 18;
                self.state = State::SendingData;
                Some(self.r1(cmd, self.status()))
            },
            24 | 25 => {
                // WRITE_BLOCK / WRITE_MULTIPLE_BLOCK, byte-addressed too.
                self.position = arg as usize;
                self.transfer = Transfer::Writing;
                self.multi_block = cmd == 25;
                self.state = State::ReceivingData;
                Some(self.r1(cmd, self.status()))
            },
            55 => {
                // APP_CMD: the next command is an ACMD.
                self.app_cmd = true;
                Some(self.r1(55, self.status() | 0x20))
            },
            // SWITCH_FUNC is accepted and ignored, SEND_STATUS is nothing but
            // the status, and anything else is answered the same way.
            _ => Some(self.r1(cmd, self.status())),
        }
    }

    fn app_command(&mut self, cmd: u8) -> (r: Vec<u8>)
        ensures
            final(self)@ == old(self)@.application_command(cmd).0,
            old(self)@.application_command(cmd).1 == Some(r@),
    {
        match cmd {
            // SD_SEND_OP_COND.
            41 => self.poll(),
            13 => {
                // SD_STATUS: 64 bytes over the data lines. Zeroes describe a
                // card with nothing unusual about it, which this is.
                let zeroes: Vec<u8> = crate::bytes::filled(64, 0);
                self.queue(zeroes.as_slice());
                self.transfer = Transfer::Reading;
                self.r1(13, self.status())
            },
            51 => {
                // SEND_SCR: eight bytes over the data lines.
                let scr: [u8; 8] = Self::scr();
                self.queue(scr.as_slice());
                self.transfer = Transfer::Reading;
                self.r1(51, self.status())
            },
            // SET_BUS_WIDTH among them.
            other => self.r1(other, self.status()),
        }
    }

    /// Put `bytes` behind whatever is waiting on the data lines.
    fn queue(&mut self, bytes: &[u8])
        ensures
            final(self)@ == (SdState { data_out: old(self)@.data_out + bytes@, ..old(self)@ }),
    {
        let ghost start = self@;
        let mut i: usize = 0;
        while i < bytes.len()
            invariant
                i <= bytes.len(),
                self@ =~= (SdState {
                    data_out: start.data_out + bytes@.take(i as int),
                    ..start
                }),
            decreases bytes.len() - i,
        {
            self.data_out.push_back(bytes[i]);
            assert(bytes@.take(i as int + 1) =~= bytes@.take(i as int).push(bytes[i as int]));
            i = i + 1;
        }
        assert(bytes@.take(bytes.len() as int) =~= bytes@);
    }

    /// The SD configuration register: which bus widths and spec version.
    fn scr() -> (r: [u8; 8])
        ensures
            r@ == scr_spec(),
    {
        // Version 2.00, and both one- and four-bit buses supported.
        let r: [u8; 8] = [0x02, 0x05, 0, 0, 0, 0, 0, 0];
        r
    }

    /// Whether the card has data waiting on the lines. The host polls the
    /// controller's receive-FIFO bit before each read, and a FIFO that never
    /// says it has anything is one the host stops reading from.
    pub fn has_data(&self) -> (r: bool)
        ensures
            r == self@.has_data_spec(),
    {
        self.data_out.len() > 0 || self.transfer == Transfer::Reading
    }

    /// Next byte the card puts on the data lines.
    pub fn read_byte(&mut self) -> (r: u8)
        ensures
            r == old(self)@.next_byte(),
            final(self)@ == old(self)@.after_read(),
    {
        if let Some(b) = self.data_out.pop_front() {
            return b;
        }
        if self.transfer != Transfer::Reading {
            return 0xFF;
        }
        let b: u8 = if self.position < self.data.len() {
            self.data[self.position]
        } else {
            0
        };
        self.position = self.position.wrapping_add(1);
        b
    }

    /// A byte the host has clocked in.
    pub fn write_byte(&mut self, b: u8)
        ensures
            final(self)@ == old(self)@.after_write(b),
    {
        if self.transfer != Transfer::Writing {
            return ;
        }
        if self.position < self.data.len() {
            self.data[self.position] = b;
            self.dirty = true;
            self.dirty_blocks.insert(self.position / BLOCK);
        }
        self.position = self.position.wrapping_add(1);
    }
}

/// No operation leaves a block waiting that is not on the card.
pub proof fn law_dirty_blocks_are_on_the_card(c: SdState, cmd: u8, arg: u32, b: u8)
    requires
        c.wf(),
    ensures
        c.commanded(cmd, arg).0.wf(),
        c.after_read().wf(),
        c.after_write(b).wf(),
        c.after_finish().wf(),
{
}

/// The capacity a host reads out of the CSD is the capacity the card has, for
/// every card of whole 256 KB units up to the 1 GB that the format describes.
pub proof fn law_csd_reports_the_real_capacity(c: SdState)
    requires
        c.data.len() % 0x40000 == 0,
        0 < c.data.len() <= 0x4000_0000,
    ensures
        ((c.c_size() & 0xFFF) + 1) * 0x40000 == c.data.len(),
{
    let size = c.c_size();
    assert(size <= 0xFFF);
    lemma_fields(size, 0, 0, 0);
}

/// How a card's numbers sit in its registers and answers.
proof fn lemma_fields(size: u32, code: u32, status: u32, arg: u32)
    requires
        size <= 0xFFF,
        code < 16,
    ensures
        size & 0xFFF == size,
        (code << 9) | 0x100 == code * 512 + 0x100,
        (arg >> 16) as u16 == arg >> 16,
        ((((1u16 as u32) << 16) | (status & 0xFFFF)) >> 24) as u8 == 0,
        ((((1u16 as u32) << 16) | (status & 0xFFFF)) >> 16) as u8 == 1,
        ((OCR_VOLTAGE_WINDOW | OCR_READY) >> 24) as u8 >= 0x80,
        (((OCR_VOLTAGE_WINDOW | 0) >> 24) as u8) < 0x80,
{
    assert(size & 0xFFF == size && (code << 9) | 0x100 == code * 512 + 0x100 && (arg >> 16) as u16
        == arg >> 16 && ((((1u16 as u32) << 16) | (status & 0xFFFF)) >> 24) as u8 == 0 && ((((
    1u16 as u32) << 16) | (status & 0xFFFF)) >> 16) as u8 == 1 && ((OCR_VOLTAGE_WINDOW | OCR_READY)
        >> 24) as u8 >= 0x80 && (((OCR_VOLTAGE_WINDOW | 0) >> 24) as u8) < 0x80) by (bit_vector)
        requires
            size <= 0xFFF,
            code < 16,
    ;
}

/// A byte written to the card is the byte that a later read command hands
/// back from that place, and its block is waiting to be written out.
pub proof fn law_a_byte_written_reads_back(c: SdState, write: u8, read: u8, at: u32, b: u8)
    requires
        !c.app_cmd,
        write == 24 || write == 25,
        read == 17 || read == 18,
        at < c.data.len(),
        c.data_out.len() == 0,
    ensures
        ({
            let written = c.commanded(write, at).0.after_write(b);
            &&& written.commanded(read, at).0.next_byte() == b
            &&& written.data == c.data.update(at as int, b)
            &&& written.dirty
            &&& written.dirty_blocks.contains((at as usize / BLOCK) as usize)
        }),
{
}

/// After a single-block transfer the card finds its own way back to the
/// transfer state; a multi-block one stays until `CMD12` ends it.
pub proof fn law_transfers_end(c: SdState, cmd: u8, arg: u32)
    requires
        !c.app_cmd,
        cmd == 17 || cmd == 18 || cmd == 24 || cmd == 25,
    ensures
        ({
            let started = c.commanded(cmd, arg).0;
            let multi = cmd == 18 || cmd == 25;
            &&& !multi ==> started.after_finish().state == State::Transfer
            &&& multi ==> started.after_finish() == started
            &&& started.after_finish().commanded(12, 0).0.state == State::Transfer
        }),
{
}

impl SdState {
    /// The card after `n` bytes have been taken off the data lines.
    pub open spec fn after_reads(self, n: nat) -> SdState
        decreases n,
    {
        if n == 0 {
            self
        } else {
            self.after_reads((n - 1) as nat).after_read()
        }
    }

    /// The bytes that `n` reads give.
    pub open spec fn bytes_read(self, n: nat) -> Seq<u8> {
        Seq::new(n, |k: int| self.after_reads(k as nat).next_byte())
    }

    /// The card after bytes have been clocked in, one after another.
    pub open spec fn after_bytes(self, bytes: Seq<u8>) -> SdState
        decreases bytes.len(),
    {
        if bytes.len() == 0 {
            self
        } else {
            self.after_bytes(bytes.drop_last()).after_write(bytes.last())
        }
    }
}

/// A card being read is the card with its position moved on.
pub(super) proof fn lemma_reads(c: SdState, n: nat)
    requires
        c.data_out.len() == 0,
        c.transfer == Transfer::Reading,
        c.position + n <= usize::MAX,
    ensures
        c.after_reads(n) == (SdState { position: (c.position + n) as usize, ..c }),
    decreases n,
{
    if n > 0 {
        lemma_reads(c, (n - 1) as nat);
    }
}

/// A read gives the card's contents from the place the command named, one byte
/// after another: with nothing queued, the `k`-th byte after CMD17 or CMD18 at
/// `at` is the byte at `at + k`, and past the end of the card it is zero. No
/// block boundary interrupts it, and the contents stay as they were.
pub proof fn law_a_read_gives_the_contents_in_order(c: SdState, cmd: u8, at: u32, k: nat)
    requires
        !c.app_cmd,
        c.data_out.len() == 0,
        cmd == 17 || cmd == 18,
        at + k <= usize::MAX,
    ensures
        ({
            let reading = c.commanded(cmd, at).0;
            &&& reading.after_reads(k).next_byte() == if at + k < c.data.len() {
                c.data[at + k]
            } else {
                0
            }
            &&& reading.after_reads(k).data == c.data
            &&& at + k <= c.data.len() ==> reading.bytes_read(k) =~= c.data.subrange(
                at as int,
                at + k,
            )
        }),
{
    let reading = c.commanded(cmd, at).0;
    lemma_reads(reading, k);
    if at + k <= c.data.len() {
        assert forall|j: int| 0 <= j < k implies #[trigger] reading.bytes_read(k)[j] == c.data[at
            + j] by {
            lemma_reads(reading, j as nat);
        }
    }
}

/// Whole blocks after CMD18 are the card's blocks, as many as are taken.
pub proof fn law_blocks_are_read_one_after_another(c: SdState, at: u32, n: nat)
    requires
        !c.app_cmd,
        c.data_out.len() == 0,
        at + n * 512 <= c.data.len() <= usize::MAX,
    ensures
        c.commanded(18, at).0.bytes_read(n * 512) =~= c.data.subrange(at as int, at + n * 512),
{
    law_a_read_gives_the_contents_in_order(c, 18, at, n * 512);
}

/// A card being written has the bytes from its position on.
pub(super) proof fn lemma_bytes(c: SdState, bytes: Seq<u8>)
    requires
        c.transfer == Transfer::Writing,
        c.position + bytes.len() <= c.data.len() <= usize::MAX,
    ensures
        ({
            let d = c.after_bytes(bytes);
            &&& d.transfer == Transfer::Writing
            &&& d.position == c.position + bytes.len()
            &&& d.data =~= crate::bytes::overlaid(c.data, c.position as int, bytes)
            &&& bytes.len() > 0 ==> d.dirty
            &&& forall|b: usize|
                #![trigger d.dirty_blocks.contains(b)]
                d.dirty_blocks.contains(b) <==> c.dirty_blocks.contains(b) || (bytes.len() > 0
                    && c.position / 512 <= b <= (c.position + bytes.len() - 1) / 512)
        }),
    decreases bytes.len(),
{
    if bytes.len() > 0 {
        lemma_bytes(c, bytes.drop_last());
    }
}

/// A write puts its bytes on the card from the place the command named, one
/// after another, and changes no other byte; the blocks that wait to be
/// written out are those that waited before and those that the bytes fall in.
pub proof fn law_a_write_lands_in_order(c: SdState, cmd: u8, at: u32, bytes: Seq<u8>)
    requires
        !c.app_cmd,
        cmd == 24 || cmd == 25,
        at + bytes.len() <= c.data.len() <= usize::MAX,
    ensures
        ({
            let d = c.commanded(cmd, at).0.after_bytes(bytes);
            &&& d.data.len() == c.data.len()
            &&& forall|i: int|
                #![trigger d.data[i]]
                0 <= i < c.data.len() ==> d.data[i] == if at <= i < at + bytes.len() {
                    bytes[i - at]
                } else {
                    c.data[i]
                }
            &&& forall|b: usize|
                #![trigger d.dirty_blocks.contains(b)]
                d.dirty_blocks.contains(b) <==> c.dirty_blocks.contains(b) || (bytes.len() > 0 && at
                    / 512 <= b <= (at + bytes.len() - 1) / 512)
        }),
{
    lemma_bytes(c.commanded(cmd, at).0, bytes);
}

proof fn lemma_queued(c: SdState, n: nat)
    requires
        n <= c.data_out.len(),
    ensures
        c.after_reads(n) == (SdState { data_out: c.data_out.skip(n as int), ..c }),
    decreases n,
{
    if n > 0 {
        lemma_queued(c, (n - 1) as nat);
        let was = c.data_out.skip(n - 1);
        assert(was.subrange(1, was.len() as int) =~= c.data_out.skip(n as int));
    } else {
        assert(c.data_out.skip(0) =~= c.data_out);
    }
}

/// What a register command puts on the data lines is read before anything
/// else, first queued first, and moves nothing but itself.
pub proof fn law_queued_bytes_come_first(c: SdState)
    ensures
        c.bytes_read(c.data_out.len()) =~= c.data_out,
        c.after_reads(c.data_out.len()) == (SdState { data_out: Seq::empty(), ..c }),
{
    assert forall|k: int| 0 <= k < c.data_out.len() implies #[trigger] c.bytes_read(
        c.data_out.len(),
    )[k] == c.data_out[k] by {
        lemma_queued(c, k as nat);
    }
    lemma_queued(c, c.data_out.len());
    assert(c.data_out.skip(c.data_out.len() as int) =~= Seq::<u8>::empty());
}

/// A card that was told to do nothing gives nothing and takes nothing: its
/// lines read all ones, and no byte that is clocked in changes it. Neither
/// does a card that is being read take bytes, nor does stopping a transfer
/// touch the contents.
pub proof fn law_only_a_transfer_moves_bytes(c: SdState, b: u8, arg: u32)
    requires
        !c.app_cmd,
    ensures
        ({
            let stopped = c.commanded(12, arg).0;
            &&& stopped.after_write(b) == stopped
            &&& stopped.data_out.len() == 0 ==> stopped.next_byte() == 0xFF && stopped.after_read()
                == stopped
            &&& stopped.data == c.data
            &&& c.commanded(17, arg).0.after_write(b) == c.commanded(17, arg).0
            &&& c.commanded(18, arg).0.after_write(b) == c.commanded(18, arg).0
            &&& c.commanded(0, arg).0.data == c.data
            &&& c.commanded(0, arg).0.dirty_blocks == c.dirty_blocks
            &&& c.commanded(0, arg).1 is None
        }),
{
}

/// CMD55 makes an application command of the next command, and of no other:
/// after any command but itself the card is back to plain ones, unless it has
/// just been told otherwise.
pub proof fn law_an_application_prefix_lasts_one_command(c: SdState, cmd: u8, arg: u32)
    ensures
        c.commanded(cmd, arg).0.app_cmd == (!c.app_cmd && cmd == 55),
{
}

/// The address that the card answers CMD3 with, or that the host gave it
/// there, is the one that selects it: CMD7 with any other deselects it.
pub proof fn law_the_address_given_selects_the_card(c: SdState, arg: u32, sel: u32)
    requires
        !c.app_cmd,
    ensures
        ({
            let (named, answer) = c.commanded(3, arg);
            let address = if arg >> 16 != 0 {
                arg >> 16
            } else {
                (answer->0[1] * 256 + answer->0[2]) as u32
            };
            &&& answer is Some
            &&& named.state == State::Standby
            &&& named.commanded(7, sel).0.state == if sel >> 16 == address {
                State::Transfer
            } else {
                State::Standby
            }
        }),
{
    let (named, answer) = c.commanded(3, arg);
    lemma_fields(0, 0, named.status_spec(), arg);
    lemma_fields(0, 0, 0, sel);
}

/// The status word names the state in bits 12:9, by the number the state has,
/// and says that the card is ready for data.
pub proof fn law_the_status_names_the_state(c: SdState)
    ensures
        (c.status_spec() / 512) % 16 == c.state.code(),
        c.status_spec() % 512 == 0x100,
{
    lemma_fields(0, c.state.code(), 0, 0);
}

impl SdState {
    /// The card after it has been asked `n` times whether it is up, as a host
    /// does that asks an MMC.
    pub open spec fn asked(self, n: nat, arg: u32) -> SdState
        decreases n,
    {
        if n == 0 {
            self
        } else {
            self.asked((n - 1) as nat, arg).commanded(1, arg).0
        }
    }

    /// The same, as a host does that asks an SD card.
    pub open spec fn asked_sd(self, n: nat, arg: u32) -> SdState
        decreases n,
    {
        if n == 0 {
            self
        } else {
            self.asked_sd((n - 1) as nat, arg).commanded(55, arg).0.commanded(41, arg).0
        }
    }
}

proof fn lemma_asked(c: SdState, n: nat, arg: u32)
    requires
        !c.app_cmd,
        c.init_polls + n <= u32::MAX,
    ensures
        c.asked(n, arg).init_polls == c.init_polls + n,
        c.asked_sd(n, arg).init_polls == c.init_polls + n,
        !c.asked(n, arg).app_cmd,
        !c.asked_sd(n, arg).app_cmd,
    decreases n,
{
    if n > 0 {
        lemma_asked(c, (n - 1) as nat, arg);
    }
}

/// A card that was just reset says it is busy the first time it is asked, and
/// ready every time after that, whichever way it is asked.
pub proof fn law_a_card_is_ready_when_asked_again(c: SdState, zero: u32, n: nat, arg: u32)
    requires
        !c.app_cmd,
        n < u32::MAX,
    ensures
        ({
            let reset = c.commanded(0, zero).0;
            let mmc = reset.asked(n, arg).commanded(1, arg).1->0;
            let sd = reset.asked_sd(n, arg).commanded(55, arg).0.commanded(41, arg).1->0;
            &&& mmc.len() == 6 && sd.len() == 6
            &&& (mmc[1] >= 0x80) == (n >= 1)
            &&& (sd[1] >= 0x80) == (n >= 1)
            &&& n >= 1 ==> reset.asked(n, arg).commanded(1, arg).0.state == State::Ready
        }),
{
    lemma_asked(c.commanded(0, zero).0, n, arg);
    lemma_fields(0, 0, 0, 0);
}

} // verus!
