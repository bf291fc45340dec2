//! What the USB host does with memory and with the device, transfer by
//! transfer.

use super::usb::{Device, Ed, Port, PortState, Td, UsbState, CC_NO_ERROR, CC_STALL};
use super::BoardState;
use crate::pxa270::ohci::{OhciState, INT_WRITEBACK_DONE};
use vstd::prelude::*;

verus! {

/// What the fields of descriptors are, as numbers.
proof fn lemma_fields(w: u32, v: u32, n: u16)
    ensures
        w & !0xFFFu32 == w - w % 0x1000,
        (w & !0xFFFu32) | 0xFFF == w - w % 0x1000 + 0xFFF,
        w & !0xFu32 == w - w % 16,
        (w & 1 != 0) == (w % 2 == 1),
        (w & 0x4000 != 0) == ((w / 0x4000) % 2 == 1),
        ((w >> 7) & 0xF) as u8 == (w / 0x80) % 16,
        (w >> 19) & 3 == (w / 0x8_0000) % 4,
        ((w & 0x0FFF_FFFF) | (CC_STALL << 28)) == w % 0x1000_0000 + 0x4000_0000,
        ((w & 0x0FFF_FFFF) | (CC_NO_ERROR << 28)) == w % 0x1000_0000,
        ((w & 0xFFFF_0000) | (n as u32)) == w - w % 0x1_0000 + n,
        (v as u16) == v % 0x1_0000,
        (w | INT_WRITEBACK_DONE) & INT_WRITEBACK_DONE != 0,
{
    assert(w & !0xFFFu32 == w - w % 0x1000 && (w & !0xFFFu32) | 0xFFF == w - w % 0x1000 + 0xFFF && w
        & !0xFu32 == w - w % 16 && (w & 1 != 0) == (w % 2 == 1) && (w & 0x4000 != 0) == ((w
        / 0x4000) % 2 == 1) && ((w >> 7) & 0xF) as u8 == (w / 0x80) % 16 && (w >> 19) & 3 == (w
        / 0x8_0000) % 4 && ((w & 0x0FFF_FFFF) | (CC_STALL << 28)) == w % 0x1000_0000 + 0x4000_0000
        && ((w & 0x0FFF_FFFF) | (CC_NO_ERROR << 28)) == w % 0x1000_0000 && ((w & 0xFFFF_0000) | (
    n as u32)) == w - w % 0x1_0000 + n && (v as u16) == v % 0x1_0000 && (w | INT_WRITEBACK_DONE)
        & INT_WRITEBACK_DONE != 0) by (bit_vector);
}

/// A buffer is the bytes from its start to its end where both are in one page
/// of memory; otherwise it runs to the end of its first page and goes on from
/// the start of the page that its end is in. A buffer that starts nowhere is
/// empty.
pub proof fn law_a_buffer_goes_on_in_its_last_page(td: Td, i: int)
    requires
        td.buffer != 0,
        td.buffer / 0x1000 == td.end / 0x1000 ==> td.buffer <= td.end,
    ensures
        ({
            let at = td.addresses_spec();
            let first = 0x1000 - td.buffer % 0x1000;
            if td.buffer / 0x1000 == td.end / 0x1000 {
                &&& at.len() == td.end - td.buffer + 1
                &&& 0 <= i < at.len() ==> at[i] == td.buffer + i
            } else {
                &&& at.len() == first + td.end % 0x1000 + 1
                &&& 0 <= i < first ==> at[i] == td.buffer + i
                &&& first <= i < at.len() ==> at[i] == td.end - td.end % 0x1000 + (i - first)
            }
        }),
        (Td { buffer: 0, ..td }).addresses_spec().len() == 0,
{
    lemma_fields(td.buffer, 0, 0);
    lemma_fields(td.end, 0, 0);
}

/// The addresses are all in memory, and no two of them are the same.
pub open spec fn apart_in_memory(at: Seq<u32>) -> bool {
    &&& forall|i: int| 0 <= i < at.len() ==> super::in_sdram(#[trigger] at[i])
    &&& forall|i: int, j: int|
        #![trigger at[i], at[j]]
        0 <= i < j < at.len() ==> at[i] != at[j]
}

/// Bytes read from memory are the bytes there, in the order of the addresses,
/// and reading them leaves nothing behind.
pub proof fn law_a_buffer_is_read_in_order(b: BoardState, at: Seq<u32>)
    requires
        forall|i: int| 0 <= i < at.len() ==> super::in_sdram(#[trigger] at[i]),
    ensures
        b.bytes_read(at) == b,
        b.bytes_seen(at) =~= Seq::new(at.len(), |i: int| b.sdram[super::sdram_at(at[i])]),
    decreases at.len(),
{
    if at.len() > 0 {
        let front = at.drop_last();
        assert forall|i: int| 0 <= i < front.len() implies super::in_sdram(#[trigger] front[i]) by {
            assert(front[i] == at[i]);
        }
        law_a_buffer_is_read_in_order(b, front);
        assert(super::in_sdram(at[at.len() - 1]));
        super::lemma_sdram_reads(b, at.last());
    }
}

/// Bytes written to memory are there afterwards, each at its address, and no
/// other byte of memory changes, nor anything else about the board.
pub proof fn law_a_buffer_is_filled_in_order(b: BoardState, at: Seq<u32>, data: Seq<u8>)
    requires
        b.wf(),
        apart_in_memory(at),
        at.len() <= data.len(),
    ensures
        ({
            let d = b.bytes_written(at, data);
            &&& d == (BoardState { sdram: d.sdram, ..b })
            &&& d.sdram.len() == b.sdram.len()
            &&& forall|i: int|
                0 <= i < at.len() ==> d.sdram[super::sdram_at(#[trigger] at[i])] == data[i]
            &&& forall|k: int|
                0 <= k < b.sdram.len() && (forall|i: int|
                    0 <= i < at.len() ==> super::sdram_at(#[trigger] at[i]) != k)
                    ==> #[trigger] d.sdram[k] == b.sdram[k]
        }),
    decreases at.len(),
{
    if at.len() > 0 {
        let front = at.drop_last();
        let last = at.last();
        let n = at.len() - 1;
        assert(at[n] == last);
        assert forall|i: int| 0 <= i < front.len() implies super::in_sdram(#[trigger] front[i]) by {
            assert(front[i] == at[i]);
        }
        assert forall|i: int, j: int|
            #![trigger front[i], front[j]]
            0 <= i < j < front.len() implies front[i] != front[j] by {
            assert(at[i] != at[j]);
        }
        law_a_buffer_is_filled_in_order(b, front, data);
        let m = b.bytes_written(front, data);
        let d = b.bytes_written(at, data);
        super::lemma_sdram_writes(m, last, data[n], 0, 0);
        assert(d == m.written8(last, data[n]));
        assert forall|i: int| 0 <= i < at.len() implies d.sdram[super::sdram_at(#[trigger] at[i])]
            == data[i] by {
            if i < n {
                assert(front[i] == at[i]);
                assert(at[i] != at[n]);
            }
        }
        assert forall|k: int|
            0 <= k < b.sdram.len() && (forall|i: int|
                0 <= i < at.len() ==> super::sdram_at(
                    #[trigger] at[i],
                ) != k) implies #[trigger] d.sdram[k] == b.sdram[k] by {
            assert(super::sdram_at(at[n]) != k);
            assert forall|i: int| 0 <= i < front.len() implies super::sdram_at(#[trigger] front[i])
                != k by {
                assert(super::sdram_at(at[i]) != k);
            }
        }
    }
}

/// A transfer from the host takes the bytes of its buffer in order and gives
/// them to the device; one to the host puts what the device gives into its
/// buffer in order, as far as either goes, and nothing else in memory changes.
pub proof fn law_a_bulk_transfer_moves_its_buffer<D: Device>(
    s: UsbState<D::V>,
    endpoint: u8,
    td: Td,
)
    requires
        s.board.wf(),
        s.port.usb is Some,
        endpoint != 0,
        apart_in_memory(td.addresses_spec()),
    ensures
        ({
            let at = td.addresses_spec();
            let pid = (td.dword0 / 0x8_0000) % 4;
            let (after, stalled) = Port::<D>::transferred(s, endpoint, td);
            let there = Seq::new(at.len(), |i: int| s.board.sdram[super::sdram_at(at[i])]);
            let (device, data) = D::taken(s.port.usb->0, endpoint, at.len() as int);
            &&& pid == 1 ==> {
                &&& !stalled
                &&& after.board == s.board
                &&& after.port.usb == Some(D::given(s.port.usb->0, endpoint, there))
            }
            &&& pid == 2 ==> {
                &&& !stalled
                &&& after.port.usb == Some(device)
                &&& forall|i: int|
                    0 <= i < at.len() && i < data.len() ==> after.board.sdram[super::sdram_at(
                        #[trigger] at[i],
                    )] == data[i]
                &&& forall|k: int|
                    0 <= k < s.board.sdram.len() && (forall|i: int|
                        0 <= i < at.len() && i < data.len() ==> super::sdram_at(#[trigger] at[i])
                            != k) ==> #[trigger] after.board.sdram[k] == s.board.sdram[k]
                &&& after.board == (BoardState { sdram: after.board.sdram, ..s.board })
            }
        }),
{
    reveal(Port::transferred);
    lemma_fields(td.dword0, 0, 0);
    let at = td.addresses_spec();
    law_a_buffer_is_read_in_order(s.board, at);
    let (device, data) = D::taken(s.port.usb->0, endpoint, at.len() as int);
    let n = if at.len() < data.len() {
        at.len() as int
    } else {
        data.len() as int
    };
    let part = at.take(n);
    assert forall|i: int| 0 <= i < part.len() implies super::in_sdram(#[trigger] part[i]) by {
        assert(part[i] == at[i]);
    }
    assert forall|i: int, j: int|
        #![trigger part[i], part[j]]
        0 <= i < j < part.len() implies part[i] != part[j] by {
        assert(at[i] != at[j]);
    }
    law_a_buffer_is_filled_in_order(s.board, part, data);
    let d = s.board.bytes_written(part, data);
    assert(d == s.board.handed(at, data));
    assert forall|i: int| 0 <= i < at.len() && i < data.len() implies d.sdram[super::sdram_at(
        #[trigger] at[i],
    )] == data[i] by {
        assert(part[i] == at[i]);
    }
    assert forall|k: int|
        0 <= k < s.board.sdram.len() && (forall|i: int|
            0 <= i < at.len() && i < data.len() ==> super::sdram_at(
                #[trigger] at[i],
            ) != k) implies #[trigger] d.sdram[k] == s.board.sdram[k] by {
        assert forall|i: int| 0 <= i < part.len() implies super::sdram_at(#[trigger] part[i])
            != k by {
            assert(super::sdram_at(at[i]) != k);
        }
    }
}

/// A setup packet is the eight bytes at the start of its buffer, and starts a
/// control transfer afresh: a device that has all it needs is asked at once,
/// and one that is to be sent data is asked when the data are there.
pub proof fn law_a_setup_packet_is_eight_bytes<D: Device>(s: UsbState<D::V>, endpoint: u8, td: Td)
    requires
        s.board.wf(),
        s.port.usb is Some,
        (td.dword0 / 0x8_0000) % 4 == 0,
        super::in_sdram(td.buffer),
        super::SDRAM_BASE + super::SDRAM_SIZE - td.buffer >= 8,
    ensures
        ({
            let (after, stalled) = Port::<D>::transferred(s, endpoint, td);
            let setup = s.board.sdram.subrange(
                super::sdram_at(td.buffer),
                super::sdram_at(td.buffer) + 8,
            );
            let to_come = setup[0] & 0x80 == 0 && setup[6] + 0x100 * setup[7] > 0;
            let (device, reply) = D::controlled(s.port.usb->0, setup, Seq::empty());
            &&& !stalled
            &&& after.board == s.board
            &&& after.port.setup == Some(setup)
            &&& after.port.data_out.len() == 0
            &&& to_come ==> after.port.usb == s.port.usb && after.port.reply is None
            &&& !to_come ==> after.port.usb == Some(device) && after.port.reply == reply
        }),
{
    reveal(Port::transferred);
    lemma_fields(td.dword0, 0, 0);
    let at = td.setup_addresses();
    assert forall|i: int| 0 <= i < at.len() implies super::in_sdram(#[trigger] at[i]) && at[i]
        == td.buffer + i by {}
    law_a_buffer_is_read_in_order(s.board, at);
    let from = super::sdram_at(td.buffer);
    let setup = s.board.sdram.subrange(from, from + 8);
    assert(s.board.bytes_seen(at) =~= setup);
    crate::bytes::law_the_first_byte_is_lowest(setup[6], setup[7], 0, 0, 0, 0);
}

impl<D: Device> Port<D> {
    /// A port after the host has sent data on its control endpoint.
    pub open spec fn after_data(s: PortState<D::V>, pieces: Seq<Seq<u8>>) -> PortState<D::V>
        decreases pieces.len(),
    {
        if pieces.len() == 0 {
            s
        } else {
            Self::data_given(Self::after_data(s, pieces.drop_last()), 0, pieces.last())
        }
    }
}

proof fn lemma_pieces<D: Device>(s: PortState<D::V>, pieces: Seq<Seq<u8>>)
    requires
        forall|k: int| 0 <= k < pieces.len() ==> (#[trigger] pieces[k]).len() > 0,
    ensures
        Port::<D>::after_data(s, pieces) == (PortState {
            data_out: s.data_out + super::usbdisk::joined(pieces),
            ..s
        }),
    decreases pieces.len(),
{
    if pieces.len() == 0 {
        assert(s.data_out + super::usbdisk::joined(pieces) =~= s.data_out);
    } else {
        let front = pieces.drop_last();
        assert(pieces[pieces.len() - 1].len() > 0);
        assert forall|k: int| 0 <= k < front.len() implies (#[trigger] front[k]).len() > 0 by {
            assert(front[k] == pieces[k]);
        }
        lemma_pieces::<D>(s, front);
        assert(s.data_out + super::usbdisk::joined(front) + pieces.last() =~= s.data_out
            + super::usbdisk::joined(pieces));
    }
}

/// What the host sends in a control transfer reaches the device once, whole and
/// in order, when the host ends the transfer; then the port is ready for the
/// next one.
pub proof fn law_control_data_is_delivered_whole<D: Device>(
    s: PortState<D::V>,
    setup: Seq<u8>,
    pieces: Seq<Seq<u8>>,
)
    requires
        s.setup == Some(setup),
        s.usb is Some,
        s.data_out.len() == 0,
        setup[0] & 0x80 == 0,
        pieces.len() > 0,
        forall|k: int| 0 <= k < pieces.len() ==> (#[trigger] pieces[k]).len() > 0,
    ensures
        ({
            let sent = Port::<D>::after_data(s, pieces);
            let ended = Port::<D>::data_given(sent, 0, Seq::empty());
            &&& sent.usb == s.usb
            &&& ended.usb == Some(
                D::controlled(s.usb->0, setup, super::usbdisk::joined(pieces)).0,
            )
            &&& ended.setup is None
            &&& ended.data_out.len() == 0
        }),
{
    lemma_pieces::<D>(s, pieces);
    assert(s.data_out + super::usbdisk::joined(pieces) =~= super::usbdisk::joined(pieces));
    assert(pieces[pieces.len() - 1].len() > 0);
}

/// The device's answer to a control transfer is handed over in order, in
/// whatever pieces the host takes it, and each byte once; with no answer the
/// transfer stalls.
pub proof fn law_a_control_answer_is_handed_over_in_order<D: Device>(
    s: PortState<D::V>,
    a: int,
    b: int,
)
    requires
        0 <= a,
        0 <= b,
    ensures
        s.reply is None ==> Port::<D>::data_in(s, 0, a).1 is None,
        s.reply is Some ==> {
            let r = s.reply->0;
            let (t, first) = Port::<D>::data_in(s, 0, a);
            let (u, second) = Port::<D>::data_in(t, 0, b);
            let n = if a + b < r.len() {
                a + b
            } else {
                r.len() as int
            };
            &&& first is Some && second is Some
            &&& first->0 + second->0 == r.take(n)
            &&& u.reply == Some(r.skip(n))
            &&& u.usb == s.usb
        },
{
    if s.reply is Some {
        let r = s.reply->0;
        let (t, first) = Port::<D>::data_in(s, 0, a);
        let (u, second) = Port::<D>::data_in(t, 0, b);
        let n = if a + b < r.len() {
            a + b
        } else {
            r.len() as int
        };
        assert(first->0 + second->0 =~= r.take(n));
        assert(u.reply->0 =~= r.skip(n));
    }
}

/// What the words of a descriptor in memory mean: where an endpoint's queue
/// starts and ends, whether it is halted or to be passed over, which endpoint
/// it is, and where the next one is; what a transfer is, where its buffer
/// starts and ends, and where the next transfer is.
pub proof fn law_descriptors_mean_what_they_say(b: BoardState, at: u32)
    requires
        b.wf(),
        super::in_sdram(at),
        at % 16 == 0,
    ensures
        ({
            let from = super::sdram_at(at);
            let w0 = crate::bytes::word32(b.sdram, from);
            let w1 = crate::bytes::word32(b.sdram, from + 4);
            let w2 = crate::bytes::word32(b.sdram, from + 8);
            let w3 = crate::bytes::word32(b.sdram, from + 12);
            let ed = b.ed_at(at);
            let td = b.td_at(at);
            &&& b.descriptor_read(at) == b
            &&& ed.endpoint_spec() == (w0 / 0x80) % 16
            &&& ed.skipped_spec() == ((w0 / 0x4000) % 2 == 1)
            &&& ed.tail == w1 - w1 % 16
            &&& ed.head_spec() == w2 - w2 % 16
            &&& ed.halted_spec() == (w2 % 2 == 1)
            &&& ed.next == w3 - w3 % 16
            &&& td.dword0 == w0 && td.pid_spec() == (w0 / 0x8_0000) % 4
            &&& td.buffer == w1
            &&& td.next == w2 - w2 % 16
            &&& td.end == w3
            &&& ed.at == at && td.at == at
        }),
{
    reveal(BoardState::descriptor_at);
    reveal(BoardState::descriptor_read);
    super::lemma_sdram_reads(b, at);
    super::lemma_sdram_reads(b, (at + 4) as u32);
    super::lemma_sdram_reads(b, (at + 8) as u32);
    super::lemma_sdram_reads(b, (at + 12) as u32);
    let from = super::sdram_at(at);
    lemma_fields(crate::bytes::word32(b.sdram, from), 0, 0);
    lemma_fields(crate::bytes::word32(b.sdram, from + 4), 0, 0);
    lemma_fields(crate::bytes::word32(b.sdram, from + 8), 0, 0);
    lemma_fields(crate::bytes::word32(b.sdram, from + 12), 0, 0);
}

/// The flags of a head stand in the low bits of a pointer.
proof fn lemma_head(w: u32, v: u32)
    requires
        w % 16 == 0,
    ensures
        (w | (v & 2) | 1) == w + (v / 2) % 2 * 2 + 1,
        (w | (v & 2) | 0) == w + (v / 2) % 2 * 2,
{
    assert((w | (v & 2) | 1) == w + (v / 2) % 2 * 2 + 1 && (w | (v & 2) | 0) == w + (v / 2) % 2
        * 2) by (bit_vector)
        requires
            w % 16 == 0,
    ;
}

/// A word written to memory is the word read there, and no other byte changes.
proof fn lemma_word_put(m: Seq<u8>, at: int, w: u32)
    requires
        0 <= at,
        at + 4 <= m.len(),
    ensures
        ({
            let out = crate::bytes::overlaid(m, at, crate::bytes::le32(w));
            &&& out.len() == m.len()
            &&& crate::bytes::word32(out, at) == w
            &&& forall|i: int|
                0 <= i < m.len() && !(at <= i < at + 4) ==> #[trigger] out[i] == m[i]
        }),
{
    crate::bytes::lemma_word32_round_trip(w);
}

/// Words written to four places that are apart all read back, and no other byte
/// changes.
proof fn lemma_four_words(m: Seq<u8>, t: int, e: int, w: Seq<u32>, k: int)
    requires
        w.len() == 4,
        0 <= t && t + 16 <= m.len(),
        0 <= e && e + 16 <= m.len(),
        t + 16 <= e || e + 16 <= t,
        0 <= k < m.len(),
    ensures
        ({
            let m1 = crate::bytes::overlaid(m, t, crate::bytes::le32(w[0]));
            let m2 = crate::bytes::overlaid(m1, t + 4, crate::bytes::le32(w[1]));
            let m3 = crate::bytes::overlaid(m2, t + 8, crate::bytes::le32(w[2]));
            let m4 = crate::bytes::overlaid(m3, e + 8, crate::bytes::le32(w[3]));
            &&& crate::bytes::word32(m4, t) == w[0]
            &&& crate::bytes::word32(m4, t + 4) == w[1]
            &&& crate::bytes::word32(m4, t + 8) == w[2]
            &&& crate::bytes::word32(m4, e + 8) == w[3]
            &&& !(t <= k < t + 12) && !(e + 8 <= k < e + 12) ==> m4[k] == m[k]
        }),
{
    let m1 = crate::bytes::overlaid(m, t, crate::bytes::le32(w[0]));
    let m2 = crate::bytes::overlaid(m1, t + 4, crate::bytes::le32(w[1]));
    let m3 = crate::bytes::overlaid(m2, t + 8, crate::bytes::le32(w[2]));
    lemma_word_put(m, t, w[0]);
    lemma_word_put(m1, t + 4, w[1]);
    lemma_word_put(m2, t + 8, w[2]);
    lemma_word_put(m3, e + 8, w[3]);
}

/// The four words that are written when a transfer is done.
proof fn lemma_retired(b: BoardState, ed: Ed, td: Td, stalled: bool, w: Seq<u32>)
    requires
        b.wf(),
        super::in_sdram(td.at),
        super::in_sdram(ed.at),
        td.at % 16 == 0,
        ed.at % 16 == 0,
        w == seq![
            (td.dword0 & 0x0FFF_FFFF) | (if stalled {
                CC_STALL
            } else {
                CC_NO_ERROR
            } << 28),
            0,
            b.soc.ohci.done_head,
            td.next | (ed.head_word & 2) | if stalled {
                1u32
            } else {
                0
            },
        ],
    ensures
        ({
            let t = super::sdram_at(td.at);
            let e = super::sdram_at(ed.at);
            let m1 = crate::bytes::overlaid(b.sdram, t, crate::bytes::le32(w[0]));
            let m2 = crate::bytes::overlaid(m1, t + 4, crate::bytes::le32(w[1]));
            let m3 = crate::bytes::overlaid(m2, t + 8, crate::bytes::le32(w[2]));
            let m4 = crate::bytes::overlaid(m3, e + 8, crate::bytes::le32(w[3]));
            &&& b.retired(ed, td, stalled).sdram == m4
            &&& b.retired(ed, td, stalled).soc.ohci.done_head == td.at
        }),
{
    reveal(BoardState::retired);
    let b1 = b.written32(td.at, w[0]);
    super::lemma_sdram_writes(b, td.at, 0, 0, w[0]);
    let b2 = b1.written32((td.at + 4) as u32, 0);
    super::lemma_sdram_writes(b1, (td.at + 4) as u32, 0, 0, 0);
    let b3 = b2.written32((td.at + 8) as u32, w[2]);
    super::lemma_sdram_writes(b2, (td.at + 8) as u32, 0, 0, w[2]);
    let b4 = b3.with_ohci(OhciState { done_head: td.at, ..b3.soc.ohci });
    super::lemma_sdram_writes(b4, (ed.at + 8) as u32, 0, 0, w[3]);
}

/// A transfer that is done says how it went in the top four bits of its first
/// word, the rest of which stays, and that no bytes of it are left. It is put in
/// front of the queue of those that are done, and its endpoint goes on with the
/// next, or halts if the device stalled; its toggle stays. No other byte of the
/// memory changes.
#[verifier::rlimit(40)]
pub proof fn law_a_done_transfer_says_how_it_went(
    b: BoardState,
    ed: Ed,
    td: Td,
    stalled: bool,
    k: int,
)
    requires
        b.wf(),
        super::in_sdram(td.at),
        super::in_sdram(ed.at),
        td.at % 16 == 0,
        ed.at % 16 == 0,
        td.at != ed.at,
        td.next % 16 == 0,
        0 <= k < super::SDRAM_SIZE,
    ensures
        ({
            let after = b.retired(ed, td, stalled);
            let t = super::sdram_at(td.at);
            let e = super::sdram_at(ed.at);
            &&& crate::bytes::word32(after.sdram, t) == td.dword0 % 0x1000_0000 + if stalled {
                0x4000_0000int
            } else {
                0
            }
            &&& crate::bytes::word32(after.sdram, t + 4) == 0
            &&& crate::bytes::word32(after.sdram, t + 8) == b.soc.ohci.done_head
            &&& after.soc.ohci.done_head == td.at
            &&& crate::bytes::word32(after.sdram, e + 8) == td.next + (ed.head_word / 2) % 2 * 2
                + if stalled {
                1int
            } else {
                0
            }
            &&& !(t <= k < t + 12) && !(e + 8 <= k < e + 12) ==> after.sdram[k] == b.sdram[k]
        }),
{
    lemma_fields(td.dword0, 0, 0);
    lemma_head(td.next, ed.head_word);
    let w = seq![
        (td.dword0 & 0x0FFF_FFFF) | (if stalled {
            CC_STALL
        } else {
            CC_NO_ERROR
        } << 28),
        0,
        b.soc.ohci.done_head,
        td.next | (ed.head_word & 2) | if stalled {
            1u32
        } else {
            0
        },
    ];
    lemma_retired(b, ed, td, stalled, w);
    lemma_four_words(b.sdram, super::sdram_at(td.at), super::sdram_at(ed.at), w, k);
}

/// Each service counts a frame, in the register and in the half word that is
/// shared through memory, whose other half stays.
#[verifier::rlimit(40)]
pub proof fn law_frames_are_counted_in_memory_too(b: BoardState)
    requires
        b.wf(),
        b.soc.ohci.hcca == 0 || (super::in_sdram(b.soc.ohci.hcca) && b.soc.ohci.hcca % 0x100 == 0),
    ensures
        ({
            let d = b.framed();
            let at = super::sdram_at(b.soc.ohci.hcca) + 0x80;
            let was = crate::bytes::word32(b.sdram, at);
            let n = (b.soc.ohci.fm_number + 1) % 0x1_0000_0000;
            &&& d.soc.ohci.fm_number == n
            &&& b.soc.ohci.hcca != 0 ==> crate::bytes::word32(d.sdram, at) == was - was % 0x1_0000
                + n % 0x1_0000
            &&& b.soc.ohci.hcca == 0 ==> d.sdram == b.sdram
            &&& d.soc.ohci.done_head == b.soc.ohci.done_head
        }),
{
    reveal(BoardState::framed);
    let n = b.soc.ohci.fm_number.wrapping_add(1);
    let hcca = b.soc.ohci.hcca;
    let c = b.with_ohci(OhciState { fm_number: n, ..b.soc.ohci });
    if hcca != 0 {
        let at = (hcca + 0x80) as u32;
        super::lemma_sdram_reads(c, at);
        let was = c.read32_spec(at);
        lemma_fields(was, n, n as u16);
        let word = (was & 0xFFFF_0000) | ((n as u16) as u32);
        super::lemma_sdram_writes(c, at, 0, 0, word);
        lemma_word_put(c.sdram, super::sdram_at(at), word);
    }
}

/// The queue of transfers that are done is handed to the driver through memory,
/// with the interrupt that says so, and starts anew; with nothing done nothing
/// is handed over.
pub proof fn law_the_done_queue_is_handed_over(b: BoardState)
    requires
        b.wf(),
        b.soc.ohci.hcca == 0 || (super::in_sdram(b.soc.ohci.hcca) && b.soc.ohci.hcca % 0x100 == 0),
    ensures
        ({
            let d = b.handed_over();
            let at = super::sdram_at(b.soc.ohci.hcca) + 0x84;
            &&& b.soc.ohci.done_head == 0 ==> d == b
            &&& b.soc.ohci.done_head != 0 ==> {
                &&& d.soc.ohci.done_head == 0
                &&& d.soc.ohci.interrupt_status & 0x2 != 0
                &&& b.soc.ohci.hcca != 0 ==> crate::bytes::word32(d.sdram, at)
                    == b.soc.ohci.done_head
            }
        }),
{
    reveal(BoardState::handed_over);
    let done = b.soc.ohci.done_head;
    let hcca = b.soc.ohci.hcca;
    lemma_fields(b.soc.ohci.interrupt_status, 0, 0);
    if done != 0 && hcca != 0 {
        super::lemma_sdram_writes(b, (hcca + 0x84) as u32, 0, 0, done);
        crate::bytes::lemma_word32_round_trip(done);
    }
}

/// Draining an endpoint runs its transfers from the head of its queue on until
/// none is left or the budget is spent: where budget is left over, the
/// endpoint has nothing more to run.
pub proof fn law_an_endpoint_is_drained<D: Device>(s: UsbState<D::V>, at: u32, budget: nat)
    ensures
        ({
            let (after, n) = Port::<D>::drained(s, at, budget);
            &&& n <= budget
            &&& n < budget ==> exists|t: UsbState<D::V>|
                after == (UsbState { board: #[trigger] t.board.descriptor_read(at), ..t })
                    && !t.board.ed_at(at).ready()
        }),
    decreases budget,
{
    if budget > 0 {
        let ed = s.board.ed_at(at);
        let read = UsbState { board: s.board.descriptor_read(at), ..s };
        if ed.ready() {
            law_an_endpoint_is_drained::<D>(Port::<D>::td_run(read, ed), at, (budget - 1) as nat);
        } else {
            assert(!s.board.ed_at(at).ready());
        }
    }
}

} // verus!
