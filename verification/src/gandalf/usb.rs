//! Walking OHCI's descriptor lists, and the device on the other end.
//!
//! The register file lives in `pxa270::ohci`; the transfers happen here,
//! because a transfer moves data between SDRAM and a device and only the board
//! can reach both. The same split as `dma.rs`, for the same reason.
//!
//! # What the controller is asked to do
//!
//! The driver builds two linked structures in memory and points the controller
//! at them:
//!
//! - an **endpoint descriptor** (ED) per endpoint, four words: who to talk to,
//!   a head pointer and a tail pointer, and the next ED. Head equal to tail
//!   means nothing to do.
//! - **transfer descriptors** (TD) chained from the head, four words each:
//!   which kind of packet, where the buffer is, where it ends, and the next TD.
//!
//! Running a TD means moving its buffer to or from the device, writing the
//! result back into the TD, unlinking it from the ED, and pushing it onto the
//! done queue. When the queue is handed over -- through `HccaDoneHead`, with
//! the writeback interrupt -- the driver knows its transfers finished.
//!
//! # The two details that corrupt data rather than failing
//!
//! **A buffer may straddle a page.** OHCI allows the current buffer pointer
//! and the buffer end to sit in different 4 KB pages, and then the transfer is
//! not the range between them: it is the rest of the first page followed by
//! the start of the last one. Treating it as contiguous reads whatever
//! happens to lie in between, which is somebody else's memory, and the
//! transfer still reports success.
//!
//! **The done queue is a stack.** A TD is pushed by pointing it at the current
//! head, so the queue comes out in reverse order of completion. Drivers know
//! this; one built the other way round quietly reverses the driver's idea of
//! which transfer finished.

use super::{BoardState, Gandalf};
use crate::bytes::{copy_range, push_all};
use crate::pxa270::ohci::{OhciState, INT_WRITEBACK_DONE};
use crate::pxa270::SocState;
use vstd::prelude::*;

verus! {

/// Offsets into the HCCA, the 256-byte block the driver shares with the
/// controller.
pub const HCCA_FRAME_NUMBER: u32 = 0x80;
pub const HCCA_DONE_HEAD: u32 = 0x84;

/// `HcControl` bits.
pub const CONTROL_LIST_ENABLE: u32 = 0x10;
pub const BULK_LIST_ENABLE: u32 = 0x20;
/// The controller is running, rather than reset, suspended or resuming.
pub const FUNCTIONAL_STATE_OPERATIONAL: u32 = 0x80;

/// `HcCommandStatus` doorbells: the driver rings one after adding a TD.
pub const CONTROL_LIST_FILLED: u32 = 0x2;
pub const BULK_LIST_FILLED: u32 = 0x4;

/// TD direction, in `dword0` bits 19:20.
pub const PID_SETUP: u32 = 0;
pub const PID_OUT: u32 = 1;
pub const PID_IN: u32 = 2;

/// Condition codes, `dword0` bits 28:31.
pub const CC_NO_ERROR: u32 = 0;
pub const CC_STALL: u32 = 4;

/// How many transfer descriptors to run in one service call.
///
/// A cap rather than "until the lists are empty": a driver that leaves a TD
/// pointing at itself would otherwise stall the emulator entirely, and this
/// runs inside the board's tick.
pub const MAX_TDS: u32 = 64;

/// How many endpoint descriptors to look at in one list. A circular list is
/// legal and normal.
pub const MAX_EDS: u32 = 64;

/// What a device does when spoken to. Implemented by whatever is plugged in.
///
/// The spec functions say, over what the device holds, what each exchange
/// answers and leaves behind; the methods are held to them.
pub trait Device: View {
    /// What a control transfer leaves behind, and what it answers.
    spec fn controlled(s: Self::V, setup: Seq<u8>, data: Seq<u8>) -> (Self::V, Option<Seq<u8>>);

    /// What a bulk read leaves behind, and what it gives.
    spec fn taken(s: Self::V, endpoint: u8, len: int) -> (Self::V, Seq<u8>);

    /// What a bulk write leaves behind.
    spec fn given(s: Self::V, endpoint: u8, data: Seq<u8>) -> Self::V;

    /// A control transfer: the eight setup bytes, and any data the host sent.
    /// Returns the data to give back, or `None` to stall.
    fn control(&mut self, setup: &[u8; 8], data_out: &[u8]) -> (r: Option<Vec<u8>>)
        ensures
            final(self)@ == Self::controlled(old(self)@, setup@, data_out@).0,
            match r {
                Some(d) => Self::controlled(old(self)@, setup@, data_out@).1 == Some(d@),
                None => Self::controlled(old(self)@, setup@, data_out@).1 is None,
            },
    ;

    /// The host wants up to `len` bytes from a bulk endpoint.
    fn bulk_in(&mut self, endpoint: u8, len: usize) -> (r: Vec<u8>)
        ensures
            final(self)@ == Self::taken(old(self)@, endpoint, len as int).0,
            r@ == Self::taken(old(self)@, endpoint, len as int).1,
    ;

    /// The host is sending bytes to a bulk endpoint.
    fn bulk_out(&mut self, endpoint: u8, data: &[u8])
        ensures
            final(self)@ == Self::given(old(self)@, endpoint, data@),
    ;

    /// The address the device has been told to answer to. Zero until the host
    /// assigns one, which it does with a control transfer to address zero.
    fn address(&self) -> u8;

    /// How many commands the device has been given over its bulk endpoints.
    ///
    /// Enumeration proves the controller works. This proves the *class*
    /// driver bound and is using it, which is a different question and the
    /// one that decides whether a volume ever appears.
    fn commands(&self) -> (r: u64)
        default_ensures
            r == 0,
    {
        0
    }
}

/// A root port: what is plugged into it, and where a control transfer with it
/// has got to.
pub struct Port<D: Device> {
    pub usb: Option<D>,
    /// The setup packet of the control transfer in progress.
    pub setup: Option<[u8; 8]>,
    /// What is left to hand over of the device's answer.
    pub reply: Option<Vec<u8>>,
    /// What the host has sent so far.
    pub data_out: Vec<u8>,
}

/// What a [`Port`] holds.
#[verifier::ext_equal]
#[verifier::reject_recursive_types(V)]
pub struct PortState<V> {
    pub usb: Option<V>,
    pub setup: Option<Seq<u8>>,
    pub reply: Option<Seq<u8>>,
    pub data_out: Seq<u8>,
}

impl<D: Device> View for Port<D> {
    type V = PortState<D::V>;

    open spec fn view(&self) -> PortState<D::V> {
        PortState {
            usb: match self.usb {
                Some(d) => Some(d@),
                None => None,
            },
            setup: match self.setup {
                Some(s) => Some(s@),
                None => None,
            },
            reply: match self.reply {
                Some(r) => Some(r@),
                None => None,
            },
            data_out: self.data_out@,
        }
    }
}

impl<D: Device> Port<D> {
    /// A port with that plugged into it, and nothing said yet.
    pub fn new(usb: Option<D>) -> (r: Self)
        ensures
            r.usb == usb,
            r@.setup is None,
            r@.reply is None,
            r@.data_out == Seq::<u8>::empty(),
    {
        Port { usb, setup: None, reply: None, data_out: Vec::new() }
    }
}

/// An endpoint descriptor, as read out of memory.
#[derive(Clone, Copy, Debug, PartialEq, Eq, Structural)]
pub struct Ed {
    pub at: u32,
    pub control: u32,
    pub tail: u32,
    /// The whole word, low bits and all: bit 0 is halted, bit 1 is the
    /// toggle carry, and they have to be written back with the pointer.
    pub head_word: u32,
    pub next: u32,
}

/// The pieces of a transfer descriptor that matter here.
#[derive(Clone, Copy, Debug, PartialEq, Eq, Structural)]
pub struct Td {
    pub at: u32,
    pub dword0: u32,
    pub buffer: u32,
    pub next: u32,
    pub end: u32,
}

/// The addresses from one to another, both included.
pub open spec fn span(from: u32, to: u32) -> Seq<u32> {
    Seq::new(
        (if from <= to {
            to - from + 1
        } else {
            0
        }) as nat,
        |i: int| (from + i) as u32,
    )
}

/// Where the two shared words of the HCCA are lies within memory.
pub open spec fn hcca_ok(hcca: u32) -> bool {
    &&& hcca + HCCA_DONE_HEAD <= u32::MAX
    &&& super::access_ok((hcca + HCCA_FRAME_NUMBER) as u32, 4)
    &&& super::access_ok((hcca + HCCA_DONE_HEAD) as u32, 4)
}

/// There is no HCCA, or it lies within memory.
pub open spec fn hcca_usable(hcca: u32) -> bool {
    hcca == 0 || hcca_ok(hcca)
}

/// A list is empty, or its first descriptor lies within memory.
pub open spec fn list_usable(head: u32) -> bool {
    head == 0 || super::dma::descriptor_ok(head)
}

fn has_usable_hcca(hcca: u32) -> (r: bool)
    ensures
        r == hcca_usable(hcca),
{
    hcca == 0 || (hcca <= u32::MAX - HCCA_DONE_HEAD && super::access_fits(
        hcca + HCCA_FRAME_NUMBER,
        4,
    ) && super::access_fits(hcca + HCCA_DONE_HEAD, 4))
}

fn is_usable_list(head: u32) -> (r: bool)
    ensures
        r == list_usable(head),
{
    head == 0 || (head <= u32::MAX - 12 && super::access_fits(head, 4) && super::access_fits(
        head + 4,
        4,
    ) && super::access_fits(head + 8, 4) && super::access_fits(head + 12, 4))
}

impl Ed {
    pub open spec fn head_spec(self) -> u32 {
        self.head_word & !0xFu32
    }

    pub open spec fn halted_spec(self) -> bool {
        self.head_word & 1 != 0
    }

    pub open spec fn skipped_spec(self) -> bool {
        self.control & 0x4000 != 0
    }

    pub open spec fn endpoint_spec(self) -> u8 {
        ((self.control >> 7) & 0xF) as u8
    }

    /// There is something queued, and it may run.
    pub open spec fn ready(self) -> bool {
        !self.halted_spec() && self.head_spec() != self.tail
    }

    pub fn head(&self) -> (r: u32)
        ensures
            r == self.head_spec(),
    {
        self.head_word & !0xFu32
    }

    pub fn halted(&self) -> (r: bool)
        ensures
            r == self.halted_spec(),
    {
        self.head_word & 1 != 0
    }

    pub fn skipped(&self) -> (r: bool)
        ensures
            r == self.skipped_spec(),
    {
        self.control & 0x4000 != 0
    }

    pub fn address(&self) -> (r: u8)
        ensures
            r == (self.control & 0x7F) as u8,
    {
        (self.control & 0x7F) as u8
    }

    pub fn endpoint(&self) -> (r: u8)
        ensures
            r == self.endpoint_spec(),
    {
        ((self.control >> 7) & 0xF) as u8
    }
}

/// The last byte of a page is not below the first.
proof fn lemma_page(at: u32)
    ensures
        at <= (at & !0xFFFu32) | 0xFFF,
        (at & !0xFFFu32) <= at,
        ((at & !0xFFFu32) | 0xFFF) - (at & !0xFFFu32) == 0xFFF,
{
    assert(at <= (at & !0xFFFu32) | 0xFFF && (at & !0xFFFu32) <= at && ((at & !0xFFFu32) | 0xFFF)
        - (at & !0xFFFu32) == 0xFFF) by (bit_vector);
}

fn push_span(out: &mut Vec<u32>, from: u32, to: u32)
    ensures
        final(out)@ == old(out)@ + span(from, to),
{
    let ghost before = out@;
    if from > to {
        assert(out@ =~= before + span(from, to));
        return ;
    }
    let mut at: u32 = from;
    assert(out@ =~= before + span(from, to).take(0));
    while at < to
        invariant
            from <= at <= to,
            out@ =~= before + span(from, to).take(at - from),
        decreases to - at,
    {
        out.push(at);
        at = at + 1;
    }
    out.push(at);
    assert(out@ =~= before + span(from, to));
}

impl Td {
    pub open spec fn pid_spec(self) -> u32 {
        (self.dword0 >> 19) & 3
    }

    /// The page rule: within one page the buffer is one run; otherwise it is
    /// the rest of the first page, and the start of the last one.
    pub open spec fn addresses_spec(self) -> Seq<u32> {
        if self.buffer == 0 {
            Seq::empty()
        } else if self.buffer & !0xFFFu32 == self.end & !0xFFFu32 {
            span(self.buffer, self.end)
        } else {
            span(self.buffer, (self.buffer & !0xFFFu32) | 0xFFF) + span(
                self.end & !0xFFFu32,
                self.end,
            )
        }
    }

    /// Where the eight bytes of a setup packet are.
    pub open spec fn setup_addresses(self) -> Seq<u32> {
        Seq::new(8, |i: int| self.buffer.wrapping_add(i as u32))
    }

    pub fn pid(&self) -> (r: u32)
        ensures
            r == self.pid_spec(),
    {
        (self.dword0 >> 19) & 3
    }

    /// Every byte of the buffer, in order, as physical addresses.
    ///
    /// This is where the page rule lives. An empty buffer -- a status stage,
    /// or a zero-length packet -- has no current buffer pointer at all.
    pub fn addresses(&self) -> (r: Vec<u32>)
        ensures
            r@ == self.addresses_spec(),
    {
        let mut out: Vec<u32> = Vec::new();
        if self.buffer == 0 {
            return out;
        }
        if self.buffer & !0xFFFu32 == self.end & !0xFFFu32 {
            push_span(&mut out, self.buffer, self.end);
            assert(out@ =~= self.addresses_spec());
        } else {
            push_span(&mut out, self.buffer, (self.buffer & !0xFFFu32) | 0xFFF);
            push_span(&mut out, self.end & !0xFFFu32, self.end);
            assert(out@ =~= self.addresses_spec());
        }
        out
    }
}

// ------------------------------------------------------------ the memory side
impl BoardState {
    pub open spec fn with_ohci(self, ohci: OhciState) -> BoardState {
        BoardState { soc: SocState { ohci, ..self.soc }, ..self }
    }

    /// What reading bytes at those addresses, in order, leaves behind.
    pub open spec fn bytes_read(self, at: Seq<u32>) -> BoardState
        decreases at.len(),
    {
        if at.len() == 0 {
            self
        } else {
            self.bytes_read(at.drop_last()).after_narrow_read(at.last())
        }
    }

    /// The bytes that reading those addresses, in order, gives.
    pub open spec fn bytes_seen(self, at: Seq<u32>) -> Seq<u8>
        decreases at.len(),
    {
        if at.len() == 0 {
            Seq::empty()
        } else {
            self.bytes_seen(at.drop_last()).push(
                self.bytes_read(at.drop_last()).read8_spec(at.last()),
            )
        }
    }

    /// Bytes written to those addresses, in order.
    pub open spec fn bytes_written(self, at: Seq<u32>, data: Seq<u8>) -> BoardState
        decreases at.len(),
    {
        if at.len() == 0 {
            self
        } else {
            self.bytes_written(at.drop_last(), data).written8(at.last(), data[at.len() - 1])
        }
    }

    /// Data handed to a buffer, as far as either goes.
    pub open spec fn handed(self, at: Seq<u32>, data: Seq<u8>) -> BoardState {
        let n = if at.len() < data.len() {
            at.len()
        } else {
            data.len()
        };
        self.bytes_written(at.take(n as int), data)
    }

    /// The endpoint descriptor at an address.
    pub open spec fn ed_at(self, at: u32) -> Ed {
        let (control, tail, head_word, next) = self.descriptor_at(at);
        Ed { at, control, tail: tail & !0xFu32, head_word, next: next & !0xFu32 }
    }

    /// The transfer descriptor at an address.
    pub open spec fn td_at(self, at: u32) -> Td {
        let (dword0, buffer, next, end) = self.descriptor_at(at);
        Td { at, dword0, buffer, next: next & !0xFu32, end }
    }

    /// A transfer's result written back, the transfer pushed onto the done
    /// queue, and unlinked from its endpoint.
    #[verifier::opaque]
    pub open spec fn retired(self, ed: Ed, td: Td, stalled: bool) -> BoardState {
        let cc = if stalled {
            CC_STALL
        } else {
            CC_NO_ERROR
        };
        let halt = if stalled {
            1u32
        } else {
            0
        };
        let b = self.written32(td.at, (td.dword0 & 0x0FFF_FFFF) | (cc << 28)).written32(
            (td.at + 4) as u32,
            0,
        );
        let c = b.written32((td.at + 8) as u32, b.soc.ohci.done_head);
        c.with_ohci(OhciState { done_head: td.at, ..c.soc.ohci }).written32(
            (ed.at + 8) as u32,
            td.next | (ed.head_word & 2) | halt,
        )
    }

    /// The frame counter moved on, in the register and in the HCCA.
    #[verifier::opaque]
    pub open spec fn framed(self) -> BoardState {
        let n = self.soc.ohci.fm_number.wrapping_add(1);
        let b = self.with_ohci(OhciState { fm_number: n, ..self.soc.ohci });
        let hcca = b.soc.ohci.hcca;
        if hcca == 0 {
            b
        } else {
            let at = (hcca + HCCA_FRAME_NUMBER) as u32;
            b.after_read32(at).written32(
                at,
                (b.read32_spec(at) & 0xFFFF_0000) | ((n as u16) as u32),
            )
        }
    }

    /// The doorbells acknowledged.
    #[verifier::opaque]
    pub open spec fn answered(self) -> BoardState {
        self.with_ohci(
            OhciState {
                command_status: self.soc.ohci.command_status & !(CONTROL_LIST_FILLED
                    | BULK_LIST_FILLED),
                ..self.soc.ohci
            },
        )
    }

    /// The done queue given to the driver, with the interrupt that says so.
    #[verifier::opaque]
    pub open spec fn handed_over(self) -> BoardState {
        let done = self.soc.ohci.done_head;
        if done == 0 {
            self
        } else {
            let hcca = self.soc.ohci.hcca;
            let b = if hcca == 0 {
                self
            } else {
                self.written32((hcca + HCCA_DONE_HEAD) as u32, done)
            };
            let h = (OhciState { done_head: 0, ..b.soc.ohci }).raised(INT_WRITEBACK_DONE);
            BoardState {
                soc: SocState { ohci: h, intc: h.drive(b.soc.intc), ..b.soc },
                ..b
            }
        }
    }
}

impl Gandalf {
    /// Read bytes, in order.
    fn read_bytes(&mut self, at: &Vec<u32>) -> (r: Vec<u8>)
        requires
            old(self)@.wf(),
        ensures
            final(self)@ == old(self)@.bytes_read(at@),
            r@ == old(self)@.bytes_seen(at@),
            r@.len() == at@.len(),
            final(self)@.wf(),
    {
        let mut out: Vec<u8> = Vec::new();
        let mut i: usize = 0;
        while i < at.len()
            invariant
                i <= at.len(),
                self@.wf(),
                self@ == old(self)@.bytes_read(at@.take(i as int)),
                out@ == old(self)@.bytes_seen(at@.take(i as int)),
                out@.len() == i,
            decreases at.len() - i,
        {
            assert(at@.take(i as int + 1).drop_last() =~= at@.take(i as int));
            let byte: u8 = self.read8(at[i]);
            out.push(byte);
            i = i + 1;
        }
        assert(at@.take(at@.len() as int) =~= at@);
        out
    }

    /// Hand data to a buffer, as far as either goes.
    fn hand(&mut self, at: &Vec<u32>, data: &Vec<u8>)
        requires
            old(self)@.wf(),
        ensures
            final(self)@ == old(self)@.handed(at@, data@),
            final(self)@.wf(),
    {
        let n: usize = if at.len() < data.len() {
            at.len()
        } else {
            data.len()
        };
        let mut i: usize = 0;
        while i < n
            invariant
                i <= n <= at.len(),
                n <= data.len(),
                self@.wf(),
                self@ == old(self)@.bytes_written(at@.take(i as int), data@),
            decreases n - i,
        {
            assert(at@.take(i as int + 1).drop_last() =~= at@.take(i as int));
            self.write8(at[i], data[i]);
            i = i + 1;
        }
    }

    fn read_ed(&mut self, at: u32) -> (r: Ed)
        requires
            old(self)@.wf(),
            super::dma::descriptor_ok(at),
        ensures
            r == old(self)@.ed_at(at),
            final(self)@ == old(self)@.descriptor_read(at),
            final(self)@.wf(),
    {
        let (control, tail, head_word, next): (u32, u32, u32, u32) = self.read_descriptor(at);
        Ed { at, control, tail: tail & !0xFu32, head_word, next: next & !0xFu32 }
    }

    fn read_td(&mut self, at: u32) -> (r: Td)
        requires
            old(self)@.wf(),
            super::dma::descriptor_ok(at),
        ensures
            r == old(self)@.td_at(at),
            final(self)@ == old(self)@.descriptor_read(at),
            final(self)@.wf(),
    {
        let (dword0, buffer, next, end): (u32, u32, u32, u32) = self.read_descriptor(at);
        Td { at, dword0, buffer, next: next & !0xFu32, end }
    }

    /// Write a transfer's result back, unlink it, and push it onto the done
    /// queue.
    fn retire(&mut self, ed: &Ed, td: &Td, stalled: bool)
        requires
            old(self)@.wf(),
            super::dma::descriptor_ok(ed.at),
            super::dma::descriptor_ok(td.at),
        ensures
            final(self)@ == old(self)@.retired(*ed, *td, stalled),
            final(self)@.wf(),
    {
        proof {
            reveal(BoardState::retired);
        }
        let cc: u32 = if stalled {
            CC_STALL
        } else {
            CC_NO_ERROR
        };
        let dword0: u32 = (td.dword0 & 0x0FFF_FFFF) | (cc << 28);
        self.write32(td.at, dword0);
        // A completed transfer reports no bytes left over.
        self.write32(td.at + 4, 0);

        // The done queue is a stack: point this at the current head and become
        // the head. Reversing it reverses the driver's idea of what finished.
        let done: u32 = self.soc.ohci.done_head;
        self.write32(td.at + 8, done);
        self.soc.ohci.done_head = td.at;

        // Unlink: the endpoint's head becomes the next transfer, keeping the
        // toggle carry, and taking the halt if this one stalled.
        let carry: u32 = ed.head_word & 2;
        let halt: u32 = if stalled {
            1
        } else {
            0
        };
        self.write32(ed.at + 8, td.next | carry | halt);
    }

    /// The frame counter is what a driver watches to know the controller is
    /// alive at all, and it is shared through the HCCA as well as the
    /// register.
    fn count_frame(&mut self)
        requires
            old(self)@.wf(),
            old(self)@.soc.ohci.hcca == 0 || hcca_ok(old(self)@.soc.ohci.hcca),
        ensures
            final(self)@ == old(self)@.framed(),
            final(self)@.wf(),
    {
        proof {
            reveal(BoardState::framed);
        }
        self.soc.ohci.fm_number = self.soc.ohci.fm_number.wrapping_add(1);
        let hcca: u32 = self.soc.ohci.hcca;
        if hcca != 0 {
            let frame: u16 = self.soc.ohci.fm_number as u16;
            let word: u32 = self.read32(hcca + HCCA_FRAME_NUMBER);
            self.write32(hcca + HCCA_FRAME_NUMBER, (word & 0xFFFF_0000) | frame as u32);
        }
    }

    /// The doorbells are acknowledged whether or not there was anything
    /// behind them: they mean "look again", and this has looked.
    fn answer_doorbells(&mut self)
        requires
            old(self)@.wf(),
        ensures
            final(self)@ == old(self)@.answered(),
            final(self)@.wf(),
    {
        proof {
            reveal(BoardState::answered);
        }
        self.soc.ohci.command_status = self.soc.ohci.command_status & !(CONTROL_LIST_FILLED
            | BULK_LIST_FILLED);
    }

    /// Give the driver the done queue, and tell it there is one.
    fn hand_over_done_queue(&mut self)
        requires
            old(self)@.wf(),
            old(self)@.soc.ohci.hcca == 0 || hcca_ok(old(self)@.soc.ohci.hcca),
        ensures
            final(self)@ == old(self)@.handed_over(),
            final(self)@.wf(),
    {
        proof {
            reveal(BoardState::handed_over);
        }
        let done: u32 = self.soc.ohci.done_head;
        if done == 0 {
            return ;
        }
        let hcca: u32 = self.soc.ohci.hcca;
        if hcca != 0 {
            self.write32(hcca + HCCA_DONE_HEAD, done);
        }
        self.soc.ohci.done_head = 0;
        self.soc.ohci.raise_from_board(INT_WRITEBACK_DONE, &mut self.soc.intc);
    }
}

// ------------------------------------------------------------ the device side
impl<D: Device> Port<D> {
    /// What the device is told, and what it answers, once a setup packet has
    /// arrived. A host-to-device transfer has its data still to come, so the
    /// device is not asked until the status stage.
    pub open spec fn setup_answered(s: PortState<D::V>) -> PortState<D::V> {
        match s.setup {
            None => s,
            Some(setup) => {
                let t = PortState { data_out: Seq::empty(), ..s };
                if setup[0] & 0x80 == 0 && crate::bytes::word16(setup, 6) > 0 {
                    t
                } else {
                    match t.usb {
                        Some(d) => {
                            let (after, reply) = D::controlled(d, setup, Seq::empty());
                            PortState { usb: Some(after), reply, ..t }
                        },
                        None => t,
                    }
                }
            },
        }
    }

    /// The status stage: a host-to-device transfer is delivered here, once
    /// all of its data has arrived.
    pub open spec fn control_finished(s: PortState<D::V>) -> PortState<D::V> {
        match s.setup {
            None => s,
            Some(setup) => PortState {
                usb: if setup[0] & 0x80 == 0 && s.data_out.len() > 0 {
                    match s.usb {
                        Some(d) => Some(D::controlled(d, setup, s.data_out).0),
                        None => None,
                    }
                } else {
                    s.usb
                },
                setup: None,
                reply: None,
                data_out: Seq::empty(),
            },
        }
    }

    /// What a transfer towards the host gives, `None` for a stall, and what
    /// that leaves behind.
    pub open spec fn data_in(s: PortState<D::V>, endpoint: u8, want: int) -> (
        PortState<D::V>,
        Option<Seq<u8>>,
    ) {
        if endpoint == 0 {
            match s.reply {
                None => (s, None),
                Some(r) => {
                    let n = if want < r.len() {
                        want
                    } else {
                        r.len() as int
                    };
                    (PortState { reply: Some(r.skip(n)), ..s }, Some(r.take(n)))
                },
            }
        } else {
            match s.usb {
                Some(d) => {
                    let (after, data) = D::taken(d, endpoint, want);
                    (PortState { usb: Some(after), ..s }, Some(data))
                },
                None => (s, Some(Seq::empty())),
            }
        }
    }

    /// What a transfer from the host does. On the control endpoint it is
    /// either data, or, with none, the status stage.
    pub open spec fn data_given(s: PortState<D::V>, endpoint: u8, data: Seq<u8>) -> PortState<
        D::V,
    > {
        if endpoint == 0 {
            if data.len() == 0 {
                Self::control_finished(s)
            } else {
                PortState { data_out: s.data_out + data, ..s }
            }
        } else {
            match s.usb {
                Some(d) => PortState { usb: Some(D::given(d, endpoint, data)), ..s },
                None => s,
            }
        }
    }

    /// Ask the device about the setup packet just received.
    fn answer_setup(&mut self)
        ensures
            final(self)@ == Self::setup_answered(old(self)@),
    {
        let setup: [u8; 8] = match self.setup {
            Some(s) => s,
            None => {
                return ;
            },
        };
        self.data_out = Vec::new();
        let length: u16 = (setup[6] as u16) | ((setup[7] as u16) << 8);
        if setup[0] & 0x80 == 0 && length > 0 {
            return ;
        }
        let nothing: [u8; 0] = [];
        assert(nothing@ =~= Seq::<u8>::empty());
        match &mut self.usb {
            Some(dev) => {
                self.reply = dev.control(&setup, nothing.as_slice());
            },
            None => {},
        }
    }

    /// The status stage.
    fn finish_control(&mut self)
        ensures
            final(self)@ == Self::control_finished(old(self)@),
    {
        let setup: [u8; 8] = match self.setup {
            Some(s) => s,
            None => {
                return ;
            },
        };
        self.setup = None;
        if setup[0] & 0x80 == 0 && self.data_out.len() > 0 {
            match &mut self.usb {
                Some(dev) => {
                    let _ = dev.control(&setup, self.data_out.as_slice());
                },
                None => {},
            }
        }
        self.reply = None;
        self.data_out = Vec::new();
    }

    /// What to give the host. On the control endpoint this is the data stage:
    /// the device answered when the setup packet arrived, and this hands it
    /// over, a packet at a time if the driver asked for it that way.
    fn give(&mut self, endpoint: u8, want: usize) -> (r: Option<Vec<u8>>)
        ensures
            final(self)@ == Self::data_in(old(self)@, endpoint, want as int).0,
            match r {
                Some(d) => Self::data_in(old(self)@, endpoint, want as int).1 == Some(d@),
                None => Self::data_in(old(self)@, endpoint, want as int).1 is None,
            },
    {
        if endpoint == 0 {
            match &self.reply {
                None => None,
                Some(reply) => {
                    let n: usize = if want < reply.len() {
                        want
                    } else {
                        reply.len()
                    };
                    let out: Vec<u8> = copy_range(reply.as_slice(), 0, n);
                    let rest: Vec<u8> = copy_range(reply.as_slice(), n, reply.len());
                    assert(out@ =~= reply@.take(n as int));
                    assert(rest@ =~= reply@.skip(n as int));
                    self.reply = Some(rest);
                    Some(out)
                },
            }
        } else {
            match &mut self.usb {
                Some(dev) => Some(dev.bulk_in(endpoint, want)),
                None => Some(Vec::new()),
            }
        }
    }

    /// Take what the host sent.
    fn accept(&mut self, endpoint: u8, data: &Vec<u8>)
        ensures
            final(self)@ == Self::data_given(old(self)@, endpoint, data@),
    {
        if endpoint == 0 {
            if data.len() == 0 {
                self.finish_control();
            } else {
                push_all(&mut self.data_out, data.as_slice());
            }
        } else {
            match &mut self.usb {
                Some(dev) => {
                    dev.bulk_out(endpoint, data.as_slice());
                },
                None => {},
            }
        }
    }
}

// ---------------------------------------------------------------- the two ends
/// The board, and what is plugged into it.
#[verifier::ext_equal]
#[verifier::reject_recursive_types(V)]
pub struct UsbState<V> {
    pub board: BoardState,
    pub port: PortState<V>,
}

impl<D: Device> Port<D> {
    /// A transfer's data moved, and whether it stalled.
    #[verifier::opaque]
    pub open spec fn transferred(s: UsbState<D::V>, endpoint: u8, td: Td) -> (
        UsbState<D::V>,
        bool,
    ) {
        let at = td.addresses_spec();
        if td.pid_spec() == PID_SETUP {
            let setup = s.board.bytes_seen(td.setup_addresses());
            (
                UsbState {
                    board: s.board.bytes_read(td.setup_addresses()),
                    port: Self::setup_answered(
                        PortState { setup: Some(setup), reply: None, ..s.port },
                    ),
                },
                false,
            )
        } else if td.pid_spec() == PID_IN {
            let (port, data) = Self::data_in(s.port, endpoint, at.len() as int);
            (
                UsbState {
                    board: match data {
                        Some(d) => s.board.handed(at, d),
                        None => s.board,
                    },
                    // A control transfer's status stage in the other direction
                    // also ends it.
                    port: if endpoint == 0 && at.len() == 0 {
                        Self::control_finished(port)
                    } else {
                        port
                    },
                },
                data is None,
            )
        } else if td.pid_spec() == PID_OUT {
            (
                UsbState {
                    board: s.board.bytes_read(at),
                    port: Self::data_given(s.port, endpoint, s.board.bytes_seen(at)),
                },
                false,
            )
        } else {
            (s, false)
        }
    }

    /// The transfer at the head of an endpoint run, and retired.
    #[verifier::opaque]
    pub open spec fn td_run(s: UsbState<D::V>, ed: Ed) -> UsbState<D::V> {
        let td = s.board.td_at(ed.head_spec());
        let read = UsbState { board: s.board.descriptor_read(ed.head_spec()), ..s };
        let (moved, stalled) = Self::transferred(read, ed.endpoint_spec(), td);
        UsbState { board: moved.board.retired(ed, td, stalled), ..moved }
    }

    /// What is queued on an endpoint run, up to a budget: the state, and how
    /// many ran.
    pub open spec fn drained(s: UsbState<D::V>, at: u32, budget: nat) -> (UsbState<D::V>, nat)
        decreases budget,
    {
        if budget == 0 {
            (s, 0)
        } else {
            let ed = s.board.ed_at(at);
            let read = UsbState { board: s.board.descriptor_read(at), ..s };
            if ed.ready() {
                let (after, n) = Self::drained(Self::td_run(read, ed), at, (budget - 1) as nat);
                (after, n + 1)
            } else {
                (read, 0)
            }
        }
    }

    /// A list of endpoint descriptors walked, running what is queued on each:
    /// the state, and how many transfers ran.
    pub open spec fn walked(s: UsbState<D::V>, at: u32, budget: nat, steps: nat) -> (
        UsbState<D::V>,
        nat,
    )
        decreases steps,
    {
        if at == 0 || budget == 0 || steps == 0 {
            (s, 0)
        } else {
            let ed = s.board.ed_at(at);
            let read = UsbState { board: s.board.descriptor_read(at), ..s };
            if ed.skipped_spec() || !ed.ready() {
                Self::walked(read, ed.next, budget, (steps - 1) as nat)
            } else {
                let (ran, n) = Self::drained(read, at, budget);
                let (after, m) = Self::walked(
                    ran,
                    ed.next,
                    (budget - n) as nat,
                    (steps - 1) as nat,
                );
                (after, n + m)
            }
        }
    }

    /// The controller has a device, and is running.
    pub open spec fn operational(s: UsbState<D::V>) -> bool {
        s.port.usb is Some && s.board.soc.ohci.control & 0xC0 == FUNCTIONAL_STATE_OPERATIONAL
    }

    /// After the frame counter, the control list, if it is enabled.
    #[verifier::opaque]
    pub open spec fn controls_run(s: UsbState<D::V>) -> (UsbState<D::V>, nat) {
        let t = UsbState { board: s.board.framed(), ..s };
        if s.board.soc.ohci.control & CONTROL_LIST_ENABLE != 0 {
            Self::walked(t, t.board.soc.ohci.control_head_ed, MAX_TDS as nat, MAX_EDS as nat)
        } else {
            (t, 0)
        }
    }

    /// After that, the bulk list, if it is enabled, with what is left of the
    /// budget.
    #[verifier::opaque]
    pub open spec fn lists_run(s: UsbState<D::V>) -> (UsbState<D::V>, nat) {
        let (t, n) = Self::controls_run(s);
        if s.board.soc.ohci.control & BULK_LIST_ENABLE != 0 {
            let (u, m) = Self::walked(
                t,
                t.board.soc.ohci.bulk_head_ed,
                (MAX_TDS - n) as nat,
                MAX_EDS as nat,
            );
            (u, n + m)
        } else {
            (t, n)
        }
    }

    /// The state after a service call, and whether the call got anything done.
    #[verifier::opaque]
    pub open spec fn serviced(s: UsbState<D::V>) -> (UsbState<D::V>, bool) {
        if !Self::operational(s) {
            (s, false)
        } else {
            let (t, n) = Self::lists_run(s);
            let b = t.board.answered();
            (
                UsbState {
                    board: if n > 0 {
                        b.handed_over()
                    } else {
                        b
                    },
                    ..t
                },
                n > 0,
            )
        }
    }

    /// The state where a service call comes to a register that points off the
    /// end of memory, and stops.
    #[verifier::opaque]
    pub open spec fn stopped(s: UsbState<D::V>) -> UsbState<D::V> {
        let control = s.board.soc.ohci.control;
        let c = Self::controls_run(s).0;
        if !hcca_usable(s.board.soc.ohci.hcca) {
            s
        } else if !Self::controls_usable(s) {
            UsbState { board: s.board.framed(), ..s }
        } else if control & BULK_LIST_ENABLE != 0 && !list_usable(c.board.soc.ohci.bulk_head_ed) {
            c
        } else {
            Self::lists_run(s).0
        }
    }

    /// The control list lies within memory, if it is enabled.
    pub open spec fn controls_usable(s: UsbState<D::V>) -> bool {
        s.board.soc.ohci.control & CONTROL_LIST_ENABLE != 0 ==> list_usable(
            s.board.framed().soc.ohci.control_head_ed,
        )
    }

    /// The registers that a service call goes by point into memory, where it
    /// comes to use them: the HCCA, and the first descriptor of each list that
    /// is enabled.
    #[verifier::opaque]
    pub open spec fn service_safe(s: UsbState<D::V>) -> bool {
        Self::operational(s) ==> {
            let control = s.board.soc.ohci.control;
            let c = Self::controls_run(s).0.board.soc.ohci;
            let (l, n) = Self::lists_run(s);
            &&& hcca_usable(s.board.soc.ohci.hcca)
            &&& Self::controls_usable(s)
            &&& control & BULK_LIST_ENABLE != 0 ==> list_usable(c.bulk_head_ed)
            &&& n > 0 ==> hcca_usable(l.board.soc.ohci.hcca)
        }
    }
}

/// How many transfers run is within the budget.
proof fn lemma_drained<D: Device>(s: UsbState<D::V>, at: u32, budget: nat)
    ensures
        Port::<D>::drained(s, at, budget).1 <= budget,
    decreases budget,
{
    if budget > 0 {
        let ed = s.board.ed_at(at);
        let read = UsbState { board: s.board.descriptor_read(at), ..s };
        lemma_drained::<D>(Port::<D>::td_run(read, ed), at, (budget - 1) as nat);
    }
}

/// Eight addresses, those of a setup packet.
fn setup_bytes<D: Device>(board: &mut Gandalf, td: &Td) -> (r: [u8; 8])
    requires
        old(board)@.wf(),
    ensures
        final(board)@ == old(board)@.bytes_read(td.setup_addresses()),
        r@ == old(board)@.bytes_seen(td.setup_addresses()),
        final(board)@.wf(),
{
    let mut at: Vec<u32> = Vec::new();
    let mut i: u32 = 0;
    while i < 8
        invariant
            i <= 8,
            at@ =~= td.setup_addresses().take(i as int),
        decreases 8 - i,
    {
        at.push(td.buffer.wrapping_add(i));
        i = i + 1;
    }
    assert(at@ =~= td.setup_addresses());
    let b: Vec<u8> = board.read_bytes(&at);
    let setup: [u8; 8] = [b[0], b[1], b[2], b[3], b[4], b[5], b[6], b[7]];
    assert(setup@ =~= b@);
    setup
}

/// Move a transfer's data, and say whether it stalled.
fn transfer<D: Device>(board: &mut Gandalf, port: &mut Port<D>, endpoint: u8, td: &Td) -> (r: bool)
    requires
        old(board)@.wf(),
    ensures
        ({
            let (after, stalled) = Port::<D>::transferred(
                UsbState { board: old(board)@, port: old(port)@ },
                endpoint,
                *td,
            );
            &&& final(board)@ == after.board
            &&& final(port)@ == after.port
            &&& r == stalled
        }),
        final(board)@.wf(),
{
    proof {
        reveal(Port::transferred);
    }
    let at: Vec<u32> = td.addresses();
    match td.pid() {
        PID_SETUP => {
            // Eight bytes, and they are the only thing that says what the
            // rest of the transfer means, so they are remembered until the
            // data and status stages have been through. The packet is
            // answered as soon as it arrives, so the data stage has something
            // to hand over.
            port.setup = Some(setup_bytes::<D>(board, td));
            port.reply = None;
            port.answer_setup();
            false
        },
        PID_IN => {
            let stalled = match port.give(endpoint, at.len()) {
                Some(data) => {
                    board.hand(&at, &data);
                    false
                },
                None => true,
            };
            if endpoint == 0 && at.len() == 0 {
                port.finish_control();
            }
            stalled
        },
        PID_OUT => {
            let data: Vec<u8> = board.read_bytes(&at);
            port.accept(endpoint, &data);
            false
        },
        _ => false,
    }
}

/// Run the transfer at the head of an endpoint, and retire it.
fn run_td<D: Device>(board: &mut Gandalf, port: &mut Port<D>, ed: &Ed)
    requires
        old(board)@.wf(),
        super::dma::descriptor_ok(ed.at),
    ensures
        ({
            let after = Port::<D>::td_run(
                UsbState { board: old(board)@, port: old(port)@ },
                *ed,
            );
            &&& final(board)@ == after.board
            &&& final(port)@ == after.port
        }),
        final(board)@.wf(),
{
    proof {
        reveal(Port::td_run);
        super::dma::lemma_pointer(ed.head_word);
    }
    let td: Td = board.read_td(ed.head());
    let stalled = transfer(board, port, ed.endpoint(), &td);
    board.retire(ed, &td, stalled);
}

/// Run what is queued on one endpoint, up to a budget.
fn drain<D: Device>(board: &mut Gandalf, port: &mut Port<D>, at: u32, budget: u32) -> (r: u32)
    requires
        old(board)@.wf(),
        super::dma::descriptor_ok(at),
    ensures
        ({
            let (after, n) = Port::<D>::drained(
                UsbState { board: old(board)@, port: old(port)@ },
                at,
                budget as nat,
            );
            &&& final(board)@ == after.board
            &&& final(port)@ == after.port
            &&& r == n
        }),
        r <= budget,
        final(board)@.wf(),
{
    let ghost start = UsbState { board: board@, port: port@ };
    let mut ran: u32 = 0;
    while ran < budget
        invariant
            ran <= budget,
            board@.wf(),
            super::dma::descriptor_ok(at),
            start == (UsbState { board: old(board)@, port: old(port)@ }),
            Port::<D>::drained(start, at, budget as nat).0 == Port::<D>::drained(
                UsbState { board: board@, port: port@ },
                at,
                (budget - ran) as nat,
            ).0,
            Port::<D>::drained(start, at, budget as nat).1 == ran + Port::<D>::drained(
                UsbState { board: board@, port: port@ },
                at,
                (budget - ran) as nat,
            ).1,
        decreases budget - ran,
    {
        let ed: Ed = board.read_ed(at);
        if ed.halted() || ed.head() == ed.tail {
            return ran;
        }
        run_td(board, port, &ed);
        ran = ran + 1;
    }
    ran
}

/// Walk one list of endpoint descriptors, running what is queued on each.
fn run_list<D: Device>(board: &mut Gandalf, port: &mut Port<D>, head: u32, budget: u32) -> (r: u32)
    requires
        old(board)@.wf(),
        head == 0 || super::dma::descriptor_ok(head),
    ensures
        ({
            let (after, n) = Port::<D>::walked(
                UsbState { board: old(board)@, port: old(port)@ },
                head,
                budget as nat,
                MAX_EDS as nat,
            );
            &&& final(board)@ == after.board
            &&& final(port)@ == after.port
            &&& r == n
        }),
        r <= budget,
        final(board)@.wf(),
{
    let ghost start = UsbState { board: board@, port: port@ };
    let ghost total = Port::<D>::walked(start, head, budget as nat, MAX_EDS as nat);
    let mut at: u32 = head;
    let mut ran: u32 = 0;
    let mut guard: u32 = 0;
    while at != 0 && ran < budget && guard < MAX_EDS
        invariant
            ran <= budget,
            guard <= MAX_EDS,
            board@.wf(),
            at == 0 || super::dma::descriptor_ok(at),
            total.0 == Port::<D>::walked(
                UsbState { board: board@, port: port@ },
                at,
                (budget - ran) as nat,
                (MAX_EDS - guard) as nat,
            ).0,
            total.1 == ran + Port::<D>::walked(
                UsbState { board: board@, port: port@ },
                at,
                (budget - ran) as nat,
                (MAX_EDS - guard) as nat,
            ).1,
        decreases MAX_EDS - guard,
    {
        guard = guard + 1;
        let ghost here = UsbState { board: board@, port: port@ };
        let ed: Ed = board.read_ed(at);
        proof {
            super::dma::lemma_pointer(here.board.descriptor_at(at).3);
            lemma_drained::<D>(
                UsbState { board: board@, port: port@ },
                at,
                (budget - ran) as nat,
            );
        }
        let ed_at: u32 = at;
        at = ed.next;
        // Head equal to tail is an endpoint with nothing queued, which is
        // most of them most of the time.
        if !(ed.skipped() || ed.halted() || ed.head() == ed.tail) {
            let n: u32 = drain(board, port, ed_at, budget - ran);
            ran = ran + n;
        }
    }
    ran
}

/// Run some of the controller's work. Called from the board's tick.
///
/// Returns whether anything was done, so the caller can stop asking.
pub fn service<D: Device>(board: &mut Gandalf, port: &mut Port<D>) -> (r: bool)
    requires
        old(board)@.wf(),
        Port::<D>::service_safe(UsbState { board: old(board)@, port: old(port)@ }),
    ensures
        ({
            let (after, done) = Port::<D>::serviced(
                UsbState { board: old(board)@, port: old(port)@ },
            );
            &&& final(board)@ == after.board
            &&& final(port)@ == after.port
            &&& r == done
        }),
        final(board)@.wf(),
{
    match try_service(board, port) {
        Some(done) => done,
        None => false,
    }
}

/// Start a frame and run the control list, if it is enabled. Says how many
/// transfers ran, or that the list runs off the end of memory.
fn run_controls<D: Device>(board: &mut Gandalf, port: &mut Port<D>) -> (r: Option<u32>)
    requires
        old(board)@.wf(),
        hcca_usable(old(board)@.soc.ohci.hcca),
    ensures
        ({
            let start = UsbState { board: old(board)@, port: old(port)@ };
            let end = UsbState { board: final(board)@, port: final(port)@ };
            &&& r is Some == Port::<D>::controls_usable(start)
            &&& r matches Some(n) ==> Port::<D>::controls_run(start) == (end, n as nat) && n
                <= MAX_TDS
            &&& r is None ==> end == (UsbState { board: old(board)@.framed(), port: old(port)@ })
        }),
        final(board)@.wf(),
{
    proof {
        reveal(Port::controls_run);
    }
    let control: u32 = board.soc.ohci.control;
    board.count_frame();
    if control & CONTROL_LIST_ENABLE == 0 {
        return Some(0);
    }
    let head: u32 = board.soc.ohci.control_head_ed;
    if !is_usable_list(head) {
        return None;
    }
    Some(run_list(board, port, head, MAX_TDS))
}

/// Run the bulk list within what is left of the budget, if it is enabled. Says
/// how many transfers ran, or that the list runs off the end of memory.
fn run_bulk<D: Device>(
    board: &mut Gandalf,
    port: &mut Port<D>,
    enabled: bool,
    budget: u32,
) -> (r: Option<u32>)
    requires
        old(board)@.wf(),
    ensures
        ({
            let start = UsbState { board: old(board)@, port: old(port)@ };
            let end = UsbState { board: final(board)@, port: final(port)@ };
            let head = start.board.soc.ohci.bulk_head_ed;
            &&& r is Some == (enabled ==> list_usable(head))
            &&& r matches Some(n) ==> n <= budget && (end, n as nat) == (if enabled {
                Port::<D>::walked(start, head, budget as nat, MAX_EDS as nat)
            } else {
                (start, 0)
            })
            &&& r is None ==> end == start
        }),
        final(board)@.wf(),
{
    if !enabled {
        return Some(0);
    }
    let head: u32 = board.soc.ohci.bulk_head_ed;
    if !is_usable_list(head) {
        return None;
    }
    Some(run_list(board, port, head, budget))
}

/// Acknowledge the doorbells, and hand over what is done.
fn finish(board: &mut Gandalf, ran: bool)
    requires
        old(board)@.wf(),
        ran ==> hcca_usable(old(board)@.soc.ohci.hcca),
    ensures
        final(board)@ == (if ran {
            old(board)@.answered().handed_over()
        } else {
            old(board)@.answered()
        }),
        final(board)@.wf(),
{
    let ghost before = board@.soc.ohci.hcca;
    board.answer_doorbells();
    assert(board@.soc.ohci.hcca == before) by {
        reveal(BoardState::answered);
    }
    if ran {
        board.hand_over_done_queue();
    }
}

/// Run some of the controller's work, on a board of which nothing is known.
/// Returns whether anything was done, or nothing at all where the controller
/// has been pointed at a place that runs off the end of memory: what comes
/// from there on is not done.
pub fn try_service<D: Device>(board: &mut Gandalf, port: &mut Port<D>) -> (r: Option<bool>)
    requires
        old(board)@.wf(),
    ensures
        r is Some == Port::<D>::service_safe(UsbState { board: old(board)@, port: old(port)@ }),
        r matches Some(done) ==> ({
            let (after, did) = Port::<D>::serviced(
                UsbState { board: old(board)@, port: old(port)@ },
            );
            &&& final(board)@ == after.board
            &&& final(port)@ == after.port
            &&& done == did
        }),
        r is None ==> ({
            let at = Port::<D>::stopped(UsbState { board: old(board)@, port: old(port)@ });
            final(board)@ == at.board && final(port)@ == at.port
        }),
        final(board)@.wf(),
{
    proof {
        reveal(Port::serviced);
        reveal(Port::lists_run);
        reveal(Port::service_safe);
        reveal(Port::stopped);
    }
    let ghost start = UsbState { board: board@, port: port@ };
    if port.usb.is_none() {
        return Some(false);
    }
    let control: u32 = board.soc.ohci.control;
    if control & 0xC0 != FUNCTIONAL_STATE_OPERATIONAL {
        return Some(false);
    }
    if !has_usable_hcca(board.soc.ohci.hcca) {
        return None;
    }
    let first: u32 = match run_controls(board, port) {
        Some(n) => n,
        None => {
            return None;
        },
    };
    let second: u32 = match run_bulk(
        board,
        port,
        control & BULK_LIST_ENABLE != 0,
        MAX_TDS - first,
    ) {
        Some(n) => n,
        None => {
            return None;
        },
    };
    let ran: u32 = first + second;
    assert(Port::<D>::lists_run(start) == (UsbState { board: board@, port: port@ }, ran as nat));
    if ran > 0 && !has_usable_hcca(board.soc.ohci.hcca) {
        return None;
    }
    finish(board, ran > 0);
    Some(ran > 0)
}

// --------------------------------------------------------------------- laws
/// A buffer touches no memory but its first page and its last, each from
/// where it starts or to where it ends; within one page it is one run.
pub proof fn law_buffer_stays_in_its_pages(td: Td, i: int)
    requires
        0 <= i < td.addresses_spec().len(),
    ensures
        td.buffer <= td.addresses_spec()[i] <= (td.buffer & !0xFFFu32) | 0xFFF || (td.end
            & !0xFFFu32) <= td.addresses_spec()[i] <= td.end,
        td.buffer & !0xFFFu32 == td.end & !0xFFFu32 ==> td.addresses_spec()[i] == td.buffer + i,
        td.addresses_spec().len() <= 0x2000,
{
    lemma_page(td.buffer);
    lemma_page(td.end);
}

/// The done queue is a stack: a transfer that is retired becomes its head, and
/// points at the one that was. Its endpoint goes on to the next transfer, and
/// is halted if the transfer stalled.
pub proof fn law_done_queue_is_a_stack(b: BoardState, ed: Ed, td: Td, stalled: bool)
    requires
        b.wf(),
        super::in_sdram(td.at),
        super::in_sdram(ed.at),
        td.at % 16 == 0,
        ed.at % 16 == 0,
        td.at != ed.at,
    ensures
        ({
            let after = b.retired(ed, td, stalled);
            &&& after.soc.ohci.done_head == td.at
            &&& after.read32_spec((td.at + 8) as u32) == b.soc.ohci.done_head
            &&& after.read32_spec((ed.at + 8) as u32) == td.next | (ed.head_word & 2) | (
            if stalled {
                1u32
            } else {
                0
            })
        }),
{
    reveal(BoardState::retired);
    let cc = if stalled {
        CC_STALL
    } else {
        CC_NO_ERROR
    };
    let halt = if stalled {
        1u32
    } else {
        0
    };
    let link = td.next | (ed.head_word & 2) | halt;
    let w0 = (td.dword0 & 0x0FFF_FFFF) | (cc << 28);
    let b1 = b.written32(td.at, w0);
    super::law_sdram_reads_back(b, td.at, 0, 0, w0);
    let b2 = b1.written32((td.at + 4) as u32, 0);
    super::law_sdram_reads_back(b1, (td.at + 4) as u32, 0, 0, 0);
    let done = b2.soc.ohci.done_head;
    let b3 = b2.written32((td.at + 8) as u32, done);
    super::law_sdram_reads_back(b2, (td.at + 8) as u32, 0, 0, done);
    let b4 = b3.with_ohci(OhciState { done_head: td.at, ..b3.soc.ohci });
    super::law_sdram_reads_back(b4, (ed.at + 8) as u32, 0, 0, link);
    let b5 = b4.written32((ed.at + 8) as u32, link);
    super::lemma_sdram_reads(b3, (td.at + 8) as u32);
    super::lemma_sdram_reads(b4, (td.at + 8) as u32);
    super::lemma_sdram_reads(b5, (td.at + 8) as u32);
    super::lemma_sdram_reads(b5, (ed.at + 8) as u32);
}

/// With nothing plugged in, or the controller not running, nothing happens.
pub proof fn law_idle_controller_does_nothing<D: Device>(s: UsbState<D::V>)
    requires
        s.port.usb is None || s.board.soc.ohci.control & 0xC0 != FUNCTIONAL_STATE_OPERATIONAL,
    ensures
        Port::<D>::serviced(s) == (s, false),
        Port::<D>::service_safe(s),
{
    reveal(Port::serviced);
    reveal(Port::service_safe);
}

/// A service call runs no more than its share of transfers, however the lists
/// are linked.
pub proof fn law_service_is_bounded<D: Device>(
    s: UsbState<D::V>,
    at: u32,
    budget: nat,
    steps: nat,
)
    ensures
        Port::<D>::walked(s, at, budget, steps).1 <= budget,
    decreases steps,
{
    if at != 0 && budget > 0 && steps > 0 {
        let ed = s.board.ed_at(at);
        let read = UsbState { board: s.board.descriptor_read(at), ..s };
        lemma_drained::<D>(read, at, budget);
        let (ran, n) = Port::<D>::drained(read, at, budget);
        law_service_is_bounded::<D>(read, ed.next, budget, (steps - 1) as nat);
        law_service_is_bounded::<D>(ran, ed.next, (budget - n) as nat, (steps - 1) as nat);
    }
}

} // verus!
