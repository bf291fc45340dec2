//! The PCMCIA/CompactFlash socket, and a CompactFlash card to put in it.
//!
//! This is how files get on and off the machine. The firmware already has the
//! whole stack -- `pcmcia.dll` is loaded and its `DllMain` runs on every boot,
//! `atadisk.dll` and `mspart.dll` sit in ROM waiting, and the storage manager
//! has a `CompactFlash` profile that mounts a card as `\CompactFlash`. There
//! is nothing to add to the guest: a card has to appear, and CE does the rest.
//!
//! # Where the windows are
//!
//! | window | socket 0 | socket 1 |
//! |---|---|---|
//! | common memory | `0x2000_0000` | `0x3000_0000` |
//! | attribute memory | `0x2800_0000` | `0x3800_0000` |
//! | I/O | `0x2C00_0000` | `0x3C00_0000` |
//!
//! So each socket owns 256 MB, split into three spaces by bits 27:26. Only
//! socket 0 is wired here; socket 1 reads as an empty slot.
//!
//! # Attribute memory is every other byte
//!
//! PCMCIA attribute space puts its data on the low half of the bus, so byte
//! *n* of the CIS lives at attribute offset *2n* and the odd addresses read
//! back as zero. Getting this wrong does not fail loudly -- card services
//! reads a tuple chain that looks like garbage and simply decides there is no
//! card worth having.
//!
//! # How a card is recognised
//!
//! Card services falls through to the detect list, where `DetectATADisk`
//! probes the ATA task file. That is why this card does not have to
//! impersonate any particular product: it has to carry a well-formed CIS
//! saying "fixed disk", and answer `IDENTIFY DEVICE`.

use crate::bytes::{copy_range, filled, push16, push_all, push_zeroes, put_all};
use crate::pxa270::{note_access, AccessStat};
use std::collections::BTreeMap;
use vstd::prelude::*;

verus! {

broadcast use vstd::std_specs::btree::group_btree_axioms;

/// The three address spaces a PC Card presents, selected by bits 27:26 of the
/// address within the socket's 256 MB region.
#[derive(Clone, Copy, PartialEq, Eq, Debug, Structural)]
pub enum Space {
    /// Where the data lives, once the card is configured.
    Common,
    /// The CIS and the configuration registers.
    Attribute,
    /// The ATA task file.
    Io,
}

/// Card space: both sockets, all three windows.
pub const BASE: u32 = 0x2000_0000;
pub const END: u32 = 0x3FFF_FFFF;

/// Sectors are 512 bytes and nothing here changes that.
pub const SECTOR: usize = 512;

/// Where the card's configuration registers sit in attribute space, in card
/// bytes. Named in `CISTPL_CONFIG` so the driver can find them.
pub const CONFIG_BASE: u16 = 0x0200;

// BSY (0x80) is deliberately absent: nothing here takes any time, so the card
// is never busy. A driver that waits for BSY to clear finds it already clear.
pub const STATUS_DRDY: u8 = 0x40;
pub const STATUS_DRQ: u8 = 0x08;
pub const STATUS_ERR: u8 = 0x01;

/// What is read where nothing drives the bus.
pub const FLOATING: u32 = 0xFFFF_FFFF;

/// Which space an offset within a socket's region is in.
pub open spec fn space_of(within: u32) -> Space {
    let top = within >> 26;
    if top == 0 || top == 1 {
        Space::Common
    } else if top == 2 {
        Space::Attribute
    } else {
        Space::Io
    }
}

/// A physical address as socket, space and offset within that space.
pub open spec fn decoded(pa: u32) -> Option<(u8, Space, u32)> {
    if BASE <= pa <= END {
        let within = pa & 0x0FFF_FFFF;
        Some(
            (
                if pa < 0x3000_0000 {
                    0u8
                } else {
                    1u8
                },
                space_of(within),
                within & 0x03FF_FFFF,
            ),
        )
    } else {
        None
    }
}

impl Space {
    /// Where a space starts in its socket's region, as the log has it.
    pub open spec fn start(self) -> u32 {
        match self {
            Space::Common => 0x0000_0000,
            Space::Attribute => 0x0800_0000,
            Space::Io => 0x0C00_0000,
        }
    }
}

/// The log's name for an offset in a space: each space has its own, and the
/// sockets share them.
pub open spec fn place_of(space: Space, off: u32) -> u32 {
    space.start() | off
}

fn place(space: Space, off: u32) -> (r: u32)
    ensures
        r == place_of(space, off),
{
    let start: u32 = match space {
        Space::Common => 0x0000_0000,
        Space::Attribute => 0x0800_0000,
        Space::Io => 0x0C00_0000,
    };
    start | off
}

/// Split a physical address into socket, space and offset within that space.
pub fn decode(pa: u32) -> (r: Option<(u8, Space, u32)>)
    ensures
        r == decoded(pa),
{
    if pa < BASE || pa > END {
        return None;
    }
    let socket: u8 = if pa < 0x3000_0000 {
        0
    } else {
        1
    };
    let within: u32 = pa & 0x0FFF_FFFF;
    let top: u32 = within >> 26;
    let space = if top == 0 || top == 1 {
        Space::Common
    } else if top == 2 {
        Space::Attribute
    } else {
        Space::Io
    };
    Some((socket, space, within & 0x03FF_FFFF))
}

/// The socket, with or without a card in it.
pub struct Socket {
    pub card: Option<Card>,
    /// Every access, by space and offset, for finding out what the driver
    /// wanted when it did not get it.
    pub log: BTreeMap<u32, AccessStat>,
    /// Set when a card is inserted or removed and not yet reported to the
    /// guest, so the runner can decide how to signal it.
    pub changed: bool,
}

/// A CompactFlash card: a CIS to be recognised by, configuration registers to
/// be turned on through, and an ATA task file to be read and written.
pub struct Card {
    pub cis: Vec<u8>,
    /// Configuration Option Register: the driver writes here to choose a
    /// configuration and to reset the card.
    pub cor: u8,
    /// The disk itself.
    pub data: Vec<u8>,
    pub ata: Ata,
}

/// What the card is in the middle of doing.
#[derive(Clone, Copy, PartialEq, Eq, Debug, Structural)]
pub enum Phase {
    Idle,
    /// Handing sectors to the host.
    Reading,
    /// Taking sectors from it.
    Writing,
}

/// The ATA task file.
pub struct Ata {
    pub sectors: u32,
    pub features: u8,
    pub count: u8,
    pub lba: [u8; 4],
    pub status: u8,
    pub error: u8,
    /// The sector being handed over a halfword at a time.
    pub buffer: Vec<u8>,
    pub at: usize,
    pub phase: Phase,
    /// Sectors still to go in a multi-sector command.
    pub remaining: u8,
}

/// What an [`Ata`] holds.
#[verifier::ext_equal]
pub struct AtaState {
    pub sectors: u32,
    pub features: u8,
    pub count: u8,
    pub lba: Seq<u8>,
    pub status: u8,
    pub error: u8,
    pub buffer: Seq<u8>,
    pub at: usize,
    pub phase: Phase,
    pub remaining: u8,
}

impl View for Ata {
    type V = AtaState;

    open spec fn view(&self) -> AtaState {
        AtaState {
            sectors: self.sectors,
            features: self.features,
            count: self.count,
            lba: self.lba@,
            status: self.status,
            error: self.error,
            buffer: self.buffer@,
            at: self.at,
            phase: self.phase,
            remaining: self.remaining,
        }
    }
}

/// What a [`Card`] holds.
#[verifier::ext_equal]
pub struct CardState {
    pub cis: Seq<u8>,
    pub cor: u8,
    pub data: Seq<u8>,
    pub ata: AtaState,
}

impl View for Card {
    type V = CardState;

    open spec fn view(&self) -> CardState {
        CardState { cis: self.cis@, cor: self.cor, data: self.data@, ata: self.ata@ }
    }
}

/// What a [`Socket`] holds.
#[verifier::ext_equal]
pub struct SocketState {
    pub card: Option<CardState>,
    pub log: Map<u32, AccessStat>,
    pub changed: bool,
}

impl View for Socket {
    type V = SocketState;

    open spec fn view(&self) -> SocketState {
        SocketState {
            card: match self.card {
                Some(c) => Some(c@),
                None => None,
            },
            log: self.log@,
            changed: self.changed,
        }
    }
}

// -------------------------------------------------------------- the strings
/// `Fractal Microsystems`.
pub const MAKER: [u8; 20] = [
    0x46, 0x72, 0x61, 0x63, 0x74, 0x61, 0x6C, 0x20, 0x4D, 0x69, 0x63, 0x72, 0x6F, 0x73, 0x79, 0x73,
    0x74, 0x65, 0x6D, 0x73,
];

/// `VBNote Storage Card`.
pub const PRODUCT: [u8; 19] = [
    0x56, 0x42, 0x4E, 0x6F, 0x74, 0x65, 0x20, 0x53, 0x74, 0x6F, 0x72, 0x61, 0x67, 0x65, 0x20, 0x43,
    0x61, 0x72, 0x64,
];

/// `VBNOTE0000000000001`.
pub const SERIAL: [u8; 19] = [
    0x56, 0x42, 0x4E, 0x4F, 0x54, 0x45, 0x30, 0x30, 0x30, 0x30, 0x30, 0x30, 0x30, 0x30, 0x30, 0x30,
    0x30, 0x30, 0x31,
];

/// `1.0`.
pub const FIRMWARE: [u8; 3] = [0x31, 0x2E, 0x30];

/// A tuple: its code, how long it is, and what is in it.
pub open spec fn tuple(code: u8, body: Seq<u8>) -> Seq<u8> {
    seq![code, body.len() as u8] + body
}

/// Major 4, minor 1, four terminated strings, two of them empty, and the end.
pub open spec fn versions() -> Seq<u8> {
    seq![0x04u8, 0x01] + MAKER@ + seq![0u8] + PRODUCT@ + seq![0u8, 0, 0, 0xFF]
}

/// Configuration 1, the default: an I/O interface, 5 volts, 16 contiguous
/// ports decoded on 4 address lines, and a level-mode interrupt.
pub open spec fn configuration() -> Seq<u8> {
    seq![0xC1u8, 0x41, 0x99, 0x01, 0x55, 0x64, 0xF0, 0xFF, 0xFF]
}

/// The tuple chain: no common-memory device, the versions, a fixed disk, the
/// ATA interface and its features, where the configuration registers are, the
/// one configuration, no link, and the end.
pub open spec fn cis_spec() -> Seq<u8> {
    tuple(0x01, seq![0x00u8, 0xFF]) + tuple(0x15, versions()) + tuple(0x21, seq![0x04u8, 0x01])
        + tuple(0x22, seq![0x01u8, 0x01]) + tuple(0x22, seq![0x02u8, 0x0C, 0x0F]) + tuple(
        0x1A,
        seq![0x01u8, 0x01, 0x00, 0x02, 0x01],
    ) + tuple(0x1B, configuration()) + tuple(0x14, Seq::empty()) + seq![0xFFu8]
}

fn push_tuple(c: &mut Vec<u8>, code: u8, body: &[u8])
    ensures
        final(c)@ == old(c)@ + tuple(code, body@),
{
    let ghost before = c@;
    c.push(code);
    c.push(body.len() as u8);
    push_all(c, body);
    assert(c@ =~= before + tuple(code, body@));
}

/// The card's CIS: the tuple chain card services walks to find out what this
/// is. Deliberately plain -- a fixed-disk function with one I/O
/// configuration -- because being unremarkable is what routes it to
/// `DetectATADisk` rather than to some product-specific driver.
pub fn cis() -> (r: Vec<u8>)
    ensures
        r@ == cis_spec(),
{
    let mut v: Vec<u8> = Vec::new();
    v.push(0x04);
    v.push(0x01);
    push_all(&mut v, MAKER.as_slice());
    v.push(0);
    push_all(&mut v, PRODUCT.as_slice());
    v.push(0);
    v.push(0);
    v.push(0);
    v.push(0xFF);
    assert(v@ =~= versions());

    let mut c: Vec<u8> = Vec::new();
    // CISTPL_DEVICE: no common-memory device.
    let device: [u8; 2] = [0x00, 0xFF];
    push_tuple(&mut c, 0x01, device.as_slice());
    // CISTPL_VERS_1.
    push_tuple(&mut c, 0x15, v.as_slice());
    // CISTPL_FUNCID: function 4 is a fixed disk; 0x01 means it may be
    // initialised at POST.
    let function: [u8; 2] = [0x04, 0x01];
    push_tuple(&mut c, 0x21, function.as_slice());
    // CISTPL_FUNCE: disk-function extensions. First the interface (ATA),
    // then the basic disk features.
    let interface: [u8; 2] = [0x01, 0x01];
    push_tuple(&mut c, 0x22, interface.as_slice());
    let features: [u8; 3] = [0x02, 0x0C, 0x0F];
    push_tuple(&mut c, 0x22, features.as_slice());
    // CISTPL_CONFIG: one byte of register address, one of mask, then the
    // base address of the configuration registers in card bytes, then the
    // register presence mask (COR only).
    let config: [u8; 5] = [0x01, 0x01, 0x00, 0x02, 0x01];
    push_tuple(&mut c, 0x1A, config.as_slice());
    // CISTPL_CFTABLE_ENTRY.
    let entry: [u8; 9] = [0xC1, 0x41, 0x99, 0x01, 0x55, 0x64, 0xF0, 0xFF, 0xFF];
    push_tuple(&mut c, 0x1B, entry.as_slice());
    // CISTPL_NO_LINK, then the end of the chain.
    let nothing: [u8; 0] = [];
    push_tuple(&mut c, 0x14, nothing.as_slice());
    c.push(0xFF);
    assert(device@ =~= seq![0x00u8, 0xFF]);
    assert(function@ =~= seq![0x04u8, 0x01]);
    assert(interface@ =~= seq![0x01u8, 0x01]);
    assert(features@ =~= seq![0x02u8, 0x0C, 0x0F]);
    assert(config@ =~= seq![0x01u8, 0x01, 0x00, 0x02, 0x01]);
    assert(entry@ =~= configuration());
    assert(nothing@ =~= Seq::<u8>::empty());
    assert(c@ =~= cis_spec());
    c
}

/// ATA strings are byte-swapped within each word and padded with spaces.
pub open spec fn swapped(text: Seq<u8>, words: nat) -> Seq<u8> {
    Seq::new(
        2 * words,
        |k: int|
            {
                let j = if k % 2 == 0 {
                    k + 1
                } else {
                    k - 1
                };
                if j < text.len() {
                    text[j]
                } else {
                    0x20
                }
            },
    )
}

fn push_string(out: &mut Vec<u8>, text: &[u8], words: usize)
    requires
        words <= 256,
    ensures
        final(out)@ == old(out)@ + swapped(text@, words as nat),
{
    let ghost before = out@;
    let mut i: usize = 0;
    while i < words
        invariant
            i <= words,
            words <= 256,
            out@ =~= before + swapped(text@, i as nat),
        decreases words - i,
    {
        let high: u8 = if 2 * i < text.len() {
            text[2 * i]
        } else {
            0x20
        };
        let low: u8 = if 2 * i + 1 < text.len() {
            text[2 * i + 1]
        } else {
            0x20
        };
        out.push(low);
        out.push(high);
        i = i + 1;
    }
}

/// How many sectors a card says it has: at least one.
pub open spec fn counted(sectors: u32) -> u32 {
    if sectors == 0 {
        1
    } else {
        sectors
    }
}

/// A number of cylinders, at 16 heads of 63 sectors, that is in range.
pub open spec fn cylinders(sectors: u32) -> u16 {
    let c = counted(sectors) / 1008;
    if c < 1 {
        1
    } else if c > 65535 {
        65535
    } else {
        c as u16
    }
}

/// The 256-word answer to IDENTIFY DEVICE: a fixed disk that does LBA and no
/// DMA, its geometry, its names, and its size.
pub open spec fn identity(sectors: u32) -> Seq<u8> {
    let c = crate::bytes::le16(cylinders(sectors));
    let low = crate::bytes::le16((counted(sectors) & 0xFFFF) as u16);
    let high = crate::bytes::le16((counted(sectors) >> 16) as u16);
    crate::bytes::le16(0x044A) + c + crate::bytes::zeroes(2) + crate::bytes::le16(16)
        + crate::bytes::zeroes(4) + crate::bytes::le16(63) + crate::bytes::zeroes(6) + swapped(
        SERIAL@,
        10,
    ) + crate::bytes::le16(3) + crate::bytes::le16(8) + crate::bytes::le16(4) + swapped(
        FIRMWARE@,
        4,
    ) + swapped(PRODUCT@, 20) + crate::bytes::le16(0x8010) + crate::bytes::zeroes(2)
        + crate::bytes::le16(0x0200) + crate::bytes::zeroes(2) + crate::bytes::le16(0x0200)
        + crate::bytes::zeroes(2) + crate::bytes::le16(3) + c + crate::bytes::le16(16)
        + crate::bytes::le16(63) + low + high + crate::bytes::zeroes(2) + low + high
        + crate::bytes::zeroes(388)
}

fn identify(sectors: u32) -> (r: Vec<u8>)
    ensures
        r@ == identity(sectors),
        r@.len() == 512,
{
    // A card with nothing on it still has to say something.
    let sectors: u32 = if sectors == 0 {
        1
    } else {
        sectors
    };
    // A geometry that multiplies out to the right size. CE only uses it
    // when the driver is in CHS mode, which it is not, but it must be
    // consistent or the driver rejects the card.
    let exact: u32 = sectors / 1008;
    let cyls: u16 = if exact < 1 {
        1
    } else if exact > 65535 {
        65535
    } else {
        exact as u16
    };
    let low: u16 = (sectors & 0xFFFF) as u16;
    let high: u16 = (sectors >> 16) as u16;
    let mut w: Vec<u8> = Vec::new();
    // Fixed disk, not removable in the ATA sense: a CF card that says it
    // is removable invites the storage manager to treat it as a floppy.
    push16(&mut w, 0x044A);
    push16(&mut w, cyls);
    push_zeroes(&mut w, 2);
    push16(&mut w, 16);
    push_zeroes(&mut w, 4);
    push16(&mut w, 63);
    push_zeroes(&mut w, 6);
    push_string(&mut w, SERIAL.as_slice(), 10);
    push16(&mut w, 3);
    push16(&mut w, 8);
    push16(&mut w, 4);
    push_string(&mut w, FIRMWARE.as_slice(), 4);
    push_string(&mut w, PRODUCT.as_slice(), 20);
    // Up to 16 sectors per READ/WRITE MULTIPLE.
    push16(&mut w, 0x8010);
    push_zeroes(&mut w, 2);
    // LBA supported, DMA not.
    push16(&mut w, 0x0200);
    push_zeroes(&mut w, 2);
    push16(&mut w, 0x0200);
    push_zeroes(&mut w, 2);
    push16(&mut w, 3);
    push16(&mut w, cyls);
    push16(&mut w, 16);
    push16(&mut w, 63);
    push16(&mut w, low);
    push16(&mut w, high);
    push_zeroes(&mut w, 2);
    push16(&mut w, low);
    push16(&mut w, high);
    push_zeroes(&mut w, 388);
    w
}

// ---------------------------------------------------------- the task file
/// Byte `i` of a buffer; behind its end there is nothing.
pub open spec fn byte_at(buffer: Seq<u8>, i: int) -> u8 {
    if i < buffer.len() {
        buffer[i]
    } else {
        0
    }
}

/// `n` bytes of a buffer from `at` on, the first of them lowest.
pub open spec fn gathered(buffer: Seq<u8>, at: int, n: int) -> u32
    decreases n,
{
    if n <= 0 {
        0
    } else {
        gathered(buffer, at, n - 1) | ((byte_at(buffer, at + n - 1) as u32) << ((8 * (n
            - 1)) as u32))
    }
}

/// The buffer with up to `n` bytes of `val` put at `at`, as far as it goes.
pub open spec fn scattered(buffer: Seq<u8>, at: int, val: u32, n: int) -> Seq<u8>
    decreases n,
{
    if n <= 0 {
        buffer
    } else {
        let b = scattered(buffer, at, val, n - 1);
        if at + n - 1 < b.len() {
            b.update(at + n - 1, (val >> ((8 * (n - 1)) as u32)) as u8)
        } else {
            b
        }
    }
}

/// How many bytes an access of a width moves.
pub open spec fn width_of(width: u32) -> int {
    if width == 0 {
        1
    } else {
        width as int
    }
}

/// A sector of a disk.
pub open spec fn sector_of(disk: Seq<u8>, lba: int) -> Seq<u8> {
    disk.subrange(lba * 512, lba * 512 + 512)
}

/// A sector of a disk replaced; one that is not there is dropped.
pub open spec fn with_sector(disk: Seq<u8>, lba: int, data: Seq<u8>) -> Seq<u8> {
    if lba * 512 + 512 <= disk.len() {
        crate::bytes::overlaid(disk, lba * 512, data)
    } else {
        disk
    }
}

impl AtaState {
    /// A transfer is of one sector at a time, and not past its end.
    pub open spec fn wf(self) -> bool {
        &&& self.lba.len() == 4
        &&& self.phase != Phase::Idle ==> self.buffer.len() == 512 && self.at < 512
    }

    pub open spec fn fresh(sectors: u32) -> AtaState {
        AtaState {
            sectors,
            features: 0,
            count: 1,
            lba: seq![0u8, 0, 0, 0],
            status: STATUS_DRDY,
            error: 0,
            buffer: Seq::empty(),
            at: 0,
            phase: Phase::Idle,
            remaining: 0,
        }
    }

    /// Back to the power-on state.
    pub open spec fn reset_spec(self) -> AtaState {
        AtaState::fresh(self.sectors)
    }

    /// The sector the LBA registers currently point at.
    pub open spec fn lba_spec(self) -> u32 {
        (self.lba[0] as u32) | ((self.lba[1] as u32) << 8) | ((self.lba[2] as u32) << 16) | (((
        self.lba[3] & 0x0F) as u32) << 24)
    }

    pub open spec fn with_lba(self, lba: u32) -> AtaState {
        AtaState {
            lba: seq![
                lba as u8,
                (lba >> 8) as u8,
                (lba >> 16) as u8,
                (self.lba[3] & 0xF0) | ((lba >> 24) as u8 & 0x0F),
            ],
            ..self
        }
    }

    pub open spec fn failed(self) -> AtaState {
        AtaState {
            status: STATUS_DRDY | STATUS_ERR,
            // ABRT.
            error: 0x04,
            phase: Phase::Idle,
            ..self
        }
    }

    pub open spec fn reading(self, sectors: u8) -> AtaState {
        AtaState {
            at: 0,
            remaining: sectors,
            phase: Phase::Reading,
            status: STATUS_DRDY | STATUS_DRQ,
            ..self
        }
    }

    /// The sector that the LBA registers point at is on the disk.
    pub open spec fn loadable(self, disk: Seq<u8>) -> bool {
        self.lba_spec() * 512 + 512 <= disk.len()
    }

    /// The buffer filled from the sector the LBA registers point at.
    pub open spec fn loaded(self, disk: Seq<u8>) -> AtaState {
        if self.loadable(disk) {
            AtaState { buffer: sector_of(disk, self.lba_spec() as int), ..self }
        } else {
            self.failed()
        }
    }

    pub open spec fn read_spec(self, off: u32, width: u32) -> u32 {
        let reg = off & 0x0F;
        if reg == 0 {
            if self.phase == Phase::Reading {
                gathered(self.buffer, self.at as int, width_of(width))
            } else {
                0
            }
        } else if reg == 1 || reg == 0x0D {
            self.error as u32
        } else if reg == 2 {
            self.count as u32
        } else if reg == 3 {
            self.lba[0] as u32
        } else if reg == 4 {
            self.lba[1] as u32
        } else if reg == 5 {
            self.lba[2] as u32
        } else if reg == 6 {
            self.lba[3] as u32
        } else if reg == 7 || reg == 0x0E {
            self.status as u32
        } else if reg == 0x0F {
            0x01
        } else {
            0
        }
    }

    /// What taking data leaves behind: at the end of a sector, on to the next.
    pub open spec fn after_read(self, off: u32, width: u32, disk: Seq<u8>) -> AtaState {
        if off & 0x0F != 0 || self.phase != Phase::Reading {
            self
        } else {
            let at = self.at + width_of(width);
            if at < self.buffer.len() {
                AtaState { at: at as usize, ..self }
            } else {
                let left = if self.remaining == 0 {
                    0u8
                } else {
                    (self.remaining - 1) as u8
                };
                if left == 0 {
                    AtaState {
                        at: at as usize,
                        remaining: 0,
                        phase: Phase::Idle,
                        status: STATUS_DRDY,
                        ..self
                    }
                } else {
                    let next = AtaState { at: 0, remaining: left, ..self }.with_lba(
                        (self.lba_spec() + 1) as u32,
                    );
                    if next.loadable(disk) {
                        AtaState { status: STATUS_DRDY | STATUS_DRQ, ..next.loaded(disk) }
                    } else {
                        next.failed()
                    }
                }
            }
        }
    }

    /// What a command does. A count of zero moves one sector.
    pub open spec fn commanded(self, cmd: u8, disk: Seq<u8>) -> AtaState {
        let s = AtaState { error: 0, status: STATUS_DRDY, ..self };
        if cmd == 0xEC || cmd == 0xA1 {
            AtaState { buffer: identity(self.sectors), ..s }.reading(1)
        } else if cmd == 0x20 || cmd == 0x21 {
            if s.loadable(disk) {
                s.loaded(disk).reading(self.count)
            } else {
                s.failed()
            }
        } else if cmd == 0x30 || cmd == 0x31 {
            if self.lba_spec() >= self.sectors {
                s.failed()
            } else {
                AtaState {
                    remaining: self.count,
                    buffer: crate::bytes::zeroes(512),
                    at: 0,
                    phase: Phase::Writing,
                    status: STATUS_DRDY | STATUS_DRQ,
                    ..s
                }
            }
        } else if cmd == 0xEF || cmd == 0x91 || cmd == 0xE5 || cmd == 0xE1 || cmd == 0xE3 || cmd
            == 0x00 {
            s
        } else if cmd == 0x90 {
            // EXECUTE DEVICE DIAGNOSTIC: 0x01 means "passed".
            AtaState { error: 0x01, ..s }
        } else {
            s.failed()
        }
    }

    /// What data put into the register does to the task file and the disk: a
    /// full sector is written out.
    pub open spec fn put(self, val: u32, width: u32, disk: Seq<u8>) -> (AtaState, Seq<u8>) {
        if self.phase != Phase::Writing {
            (self, disk)
        } else {
            let buffer = scattered(self.buffer, self.at as int, val, width_of(width));
            let reach = self.at + width_of(width);
            let at = if reach < buffer.len() {
                reach
            } else {
                buffer.len() as int
            };
            let s = AtaState { buffer, at: at as usize, ..self };
            if at < buffer.len() {
                (s, disk)
            } else {
                let written = with_sector(disk, self.lba_spec() as int, buffer);
                let left = if self.remaining == 0 {
                    0u8
                } else {
                    (self.remaining - 1) as u8
                };
                if left == 0 {
                    (
                        AtaState {
                            remaining: 0,
                            phase: Phase::Idle,
                            status: STATUS_DRDY,
                            ..s
                        },
                        written,
                    )
                } else {
                    (
                        AtaState {
                            at: 0,
                            remaining: left,
                            status: STATUS_DRDY | STATUS_DRQ,
                            ..s
                        }.with_lba((self.lba_spec() + 1) as u32),
                        written,
                    )
                }
            }
        }
    }

    /// What a write to a register does to the task file and the disk.
    pub open spec fn written(self, off: u32, val: u32, width: u32, disk: Seq<u8>) -> (
        AtaState,
        Seq<u8>,
    ) {
        let reg = off & 0x0F;
        if reg == 0 {
            self.put(val, width, disk)
        } else if reg == 1 {
            (AtaState { features: val as u8, ..self }, disk)
        } else if reg == 2 {
            (AtaState { count: val as u8, ..self }, disk)
        } else if reg == 3 {
            (AtaState { lba: self.lba.update(0, val as u8), ..self }, disk)
        } else if reg == 4 {
            (AtaState { lba: self.lba.update(1, val as u8), ..self }, disk)
        } else if reg == 5 {
            (AtaState { lba: self.lba.update(2, val as u8), ..self }, disk)
        } else if reg == 6 {
            (AtaState { lba: self.lba.update(3, val as u8), ..self }, disk)
        } else if reg == 7 {
            (self.commanded(val as u8, disk), disk)
        } else if reg == 0x0E && (val as u8) & 0x04 != 0 {
            // Device control: bit 2 is SRST.
            (self.reset_spec(), disk)
        } else {
            (self, disk)
        }
    }
}

/// A sector number is of 28 bits.
proof fn lemma_lba(a: u8, b: u8, c: u8, d: u8)
    ensures
        ((a as u32) | ((b as u32) << 8) | ((c as u32) << 16) | (((d & 0x0F) as u32) << 24))
            <= 0x0FFF_FFFF,
{
    lemma_registers(a, b, c, d, 0, 0);
}

/// How the task file's registers hold a sector number, and how the bytes of a
/// unit make a number.
proof fn lemma_registers(a: u8, b: u8, c: u8, d: u8, lba: u32, off: u32)
    requires
        lba <= 0x0FFF_FFFF,
    ensures
        ((a as u32) | ((b as u32) << 8) | ((c as u32) << 16) | (((d & 0x0F) as u32) << 24))
            <= 0x0FFF_FFFF,
        ((lba as u8) as u32) | (((lba >> 8) as u8 as u32) << 8) | (((lba >> 16) as u8 as u32) << 16)
            | (((((d & 0xF0) | ((lba >> 24) as u8 & 0x0F)) & 0x0F) as u32) << 24) == lba,
        ((d as u32 & 0xF0) | (lba >> 24)) as u8 == (d & 0xF0) | ((lba >> 24) as u8 & 0x0F),
        (0 | ((a as u32) << 0u32)) == a,
        ((0 | ((a as u32) << 0u32)) | ((b as u32) << 8u32)) == a + 0x100 * b,
        ((((0 | ((a as u32) << 0u32)) | ((b as u32) << 8u32)) | ((c as u32) << 16u32)) | ((d as u32)
            << 24u32)) == a + 0x100 * b + 0x1_0000 * c + 0x100_0000 * d,
        off & 1 == off % 2,
        off & 0x0F == off % 16,
        0x04u8 & 0x04 != 0,
        0x80u8 & 0x80 != 0,
{
    assert(((a as u32) | ((b as u32) << 8) | ((c as u32) << 16) | (((d & 0x0F) as u32) << 24))
        <= 0x0FFF_FFFF && ((lba as u8) as u32) | (((lba >> 8) as u8 as u32) << 8) | (((lba >> 16)
        as u8 as u32) << 16) | (((((d & 0xF0) | ((lba >> 24) as u8 & 0x0F)) & 0x0F) as u32) << 24)
        == lba && ((d as u32 & 0xF0) | (lba >> 24)) as u8 == (d & 0xF0) | ((lba >> 24) as u8 & 0x0F)
        && (0 | ((a as u32) << 0u32)) == a && ((0 | ((a as u32) << 0u32)) | ((b as u32) << 8u32))
        == a + 0x100 * b && ((((0 | ((a as u32) << 0u32)) | ((b as u32) << 8u32)) | ((c as u32)
        << 16u32)) | ((d as u32) << 24u32)) == a + 0x100 * b + 0x1_0000 * c + 0x100_0000 * d && off
        & 1 == off % 2 && off & 0x0F == off % 16 && 0x04u8 & 0x04 != 0 && 0x80u8 & 0x80 != 0)
        by (bit_vector)
        requires
            lba <= 0x0FFF_FFFF,
    ;
}

impl Ata {
    pub fn new(sectors: u32) -> (r: Ata)
        ensures
            r@ == AtaState::fresh(sectors),
            r@.wf(),
    {
        Ata {
            sectors,
            features: 0,
            count: 1,
            lba: [0; 4],
            status: STATUS_DRDY,
            error: 0,
            buffer: Vec::new(),
            at: 0,
            phase: Phase::Idle,
            remaining: 0,
        }
    }

    fn reset(&mut self)
        requires
            old(self)@.wf(),
        ensures
            final(self)@ == old(self)@.reset_spec(),
            final(self)@.wf(),
    {
        self.features = 0;
        self.count = 1;
        self.lba = [0; 4];
        self.status = STATUS_DRDY;
        self.error = 0;
        self.buffer = Vec::new();
        self.at = 0;
        self.phase = Phase::Idle;
        self.remaining = 0;
        assert(self@.lba =~= seq![0u8, 0, 0, 0]);
    }

    /// The sector the LBA registers currently point at.
    fn lba(&self) -> (r: u32)
        ensures
            r == self@.lba_spec(),
            r <= 0x0FFF_FFFF,
    {
        proof {
            lemma_lba(self.lba@[0], self.lba@[1], self.lba@[2], self.lba@[3]);
        }
        (self.lba[0] as u32) | ((self.lba[1] as u32) << 8) | ((self.lba[2] as u32) << 16) | (((
        self.lba[3] & 0x0F) as u32) << 24)
    }

    fn set_lba(&mut self, lba: u32)
        ensures
            final(self)@ == old(self)@.with_lba(lba),
    {
        let device: u8 = (self.lba[3] & 0xF0) | ((lba >> 24) as u8 & 0x0F);
        self.lba = [lba as u8, (lba >> 8) as u8, (lba >> 16) as u8, device];
        assert(self@.lba =~= old(self)@.with_lba(lba).lba);
    }

    fn read(&mut self, off: u32, width: u32, disk: &Vec<u8>) -> (r: u32)
        requires
            old(self)@.wf(),
            width <= 4,
        ensures
            r == old(self)@.read_spec(off, width),
            final(self)@ == old(self)@.after_read(off, width, disk@),
            final(self)@.wf(),
    {
        match off & 0x0F {
            0 => self.take_data(off, width, disk),
            1 | 0x0D => self.error as u32,
            2 => self.count as u32,
            3 => self.lba[0] as u32,
            4 => self.lba[1] as u32,
            5 => self.lba[2] as u32,
            6 => self.lba[3] as u32,
            7 | 0x0E => self.status as u32,
            0x0F => 0x01,
            _ => 0,
        }
    }

    fn write(&mut self, off: u32, val: u32, width: u32, disk: &mut Vec<u8>)
        requires
            old(self)@.wf(),
            width <= 4,
        ensures
            final(self)@ == old(self)@.written(off, val, width, old(disk)@).0,
            final(disk)@ == old(self)@.written(off, val, width, old(disk)@).1,
            final(disk)@.len() == old(disk)@.len(),
            final(self)@.wf(),
    {
        match off & 0x0F {
            0 => {
                self.put_data(val, width, disk);
            },
            1 => {
                self.features = val as u8;
            },
            2 => {
                self.count = val as u8;
            },
            3 => {
                self.lba[0] = val as u8;
            },
            4 => {
                self.lba[1] = val as u8;
            },
            5 => {
                self.lba[2] = val as u8;
            },
            6 => {
                self.lba[3] = val as u8;
            },
            7 => {
                self.command(val as u8, disk);
            },
            // Device control: bit 2 is SRST.
            0x0E => {
                if (val as u8) & 0x04 != 0 {
                    self.reset();
                }
            },
            _ => {},
        }
    }

    fn command(&mut self, cmd: u8, disk: &Vec<u8>)
        requires
            old(self)@.wf(),
        ensures
            final(self)@ == old(self)@.commanded(cmd, disk@),
            final(self)@.wf(),
    {
        self.error = 0;
        self.status = STATUS_DRDY;
        match cmd {
            // IDENTIFY DEVICE, and the CF-specific IDENTIFY that some drivers
            // try first.
            0xEC | 0xA1 => {
                self.buffer = identify(self.sectors);
                self.begin_read(1);
            },
            // READ SECTOR(S), with and without retry.
            0x20 | 0x21 => {
                if self.load(disk) {
                    self.begin_read(self.count);
                }
            },
            // WRITE SECTOR(S).
            0x30 | 0x31 => {
                if self.lba() >= self.sectors {
                    self.fail();
                    return ;
                }
                self.remaining = self.count;
                self.buffer = filled(SECTOR, 0);
                self.at = 0;
                self.phase = Phase::Writing;
                self.status = STATUS_DRDY | STATUS_DRQ;
            },
            // SET FEATURES, INITIALIZE DEVICE PARAMETERS, CHECK POWER MODE,
            // and the two idle commands: nothing to do, but they must not be
            // reported as failures.
            0xEF | 0x91 | 0xE5 | 0xE1 | 0xE3 | 0x00 => {},
            // EXECUTE DEVICE DIAGNOSTIC: 0x01 means "passed".
            0x90 => {
                self.error = 0x01;
            },
            _ => {
                self.fail();
            },
        }
    }

    fn fail(&mut self)
        requires
            old(self)@.lba.len() == 4,
        ensures
            final(self)@ == old(self)@.failed(),
            final(self)@.wf(),
    {
        self.status = STATUS_DRDY | STATUS_ERR;
        // ABRT.
        self.error = 0x04;
        self.phase = Phase::Idle;
    }

    fn begin_read(&mut self, sectors: u8)
        requires
            old(self)@.lba.len() == 4,
            old(self)@.buffer.len() == 512,
        ensures
            final(self)@ == old(self)@.reading(sectors),
            final(self)@.wf(),
    {
        self.at = 0;
        self.remaining = sectors;
        self.phase = Phase::Reading;
        self.status = STATUS_DRDY | STATUS_DRQ;
    }

    /// Fill the buffer from the sector the LBA registers point at.
    fn load(&mut self, disk: &Vec<u8>) -> (r: bool)
        requires
            old(self)@.wf(),
        ensures
            r == old(self)@.loadable(disk@),
            final(self)@ == old(self)@.loaded(disk@),
            r ==> final(self)@.buffer.len() == 512,
            final(self)@.wf(),
    {
        let at: u64 = self.lba() as u64 * 512;
        if at + 512 > disk.len() as u64 {
            self.fail();
            return false;
        }
        self.buffer = copy_range(disk.as_slice(), at as usize, at as usize + 512);
        true
    }

    fn take_data(&mut self, off: u32, width: u32, disk: &Vec<u8>) -> (r: u32)
        requires
            old(self)@.wf(),
            width <= 4,
            off & 0x0F == 0,
        ensures
            r == old(self)@.read_spec(off, width),
            final(self)@ == old(self)@.after_read(off, width, disk@),
            final(self)@.wf(),
    {
        match self.phase {
            Phase::Reading => {},
            _ => {
                return 0;
            },
        }
        let n: usize = if width == 0 {
            1
        } else {
            width as usize
        };
        let mut out: u32 = 0;
        let mut i: usize = 0;
        while i < n
            invariant
                i <= n <= 4,
                self@ == old(self)@,
                self.at < 512,
                out == gathered(self@.buffer, self.at as int, i as int),
            decreases n - i,
        {
            let byte: u8 = if self.at + i < self.buffer.len() {
                self.buffer[self.at + i]
            } else {
                0
            };
            out = out | ((byte as u32) << ((8 * i) as u32));
            i = i + 1;
        }
        self.at = self.at + n;
        if self.at >= self.buffer.len() {
            self.remaining = self.remaining.saturating_sub(1);
            if self.remaining == 0 {
                self.phase = Phase::Idle;
                self.status = STATUS_DRDY;
            } else {
                // On to the next sector.
                let next: u32 = self.lba() + 1;
                self.set_lba(next);
                self.at = 0;
                if !self.load(disk) {
                    return out;
                }
                self.status = STATUS_DRDY | STATUS_DRQ;
            }
        }
        out
    }

    fn put_data(&mut self, val: u32, width: u32, disk: &mut Vec<u8>)
        requires
            old(self)@.wf(),
            width <= 4,
        ensures
            final(self)@ == old(self)@.put(val, width, old(disk)@).0,
            final(disk)@ == old(self)@.put(val, width, old(disk)@).1,
            final(disk)@.len() == old(disk)@.len(),
            final(self)@.wf(),
    {
        match self.phase {
            Phase::Writing => {},
            _ => {
                return ;
            },
        }
        let n: usize = if width == 0 {
            1
        } else {
            width as usize
        };
        let at: usize = self.at;
        let mut i: usize = 0;
        while i < n
            invariant
                i <= n <= 4,
                at < 512,
                at == old(self)@.at,
                self.buffer@.len() == 512,
                self@ == (AtaState {
                    buffer: scattered(old(self)@.buffer, at as int, val, i as int),
                    at: (if at + i < 512 {
                        at + i
                    } else {
                        512
                    }) as usize,
                    ..old(self)@
                }),
            decreases n - i,
        {
            if self.at < self.buffer.len() {
                let here: usize = self.at;
                self.buffer.set(here, (val >> ((8 * i) as u32)) as u8);
                self.at = self.at + 1;
            }
            i = i + 1;
        }
        if self.at >= self.buffer.len() {
            let lba: u32 = self.lba();
            let start: u64 = lba as u64 * 512;
            if start + 512 <= disk.len() as u64 {
                put_all(disk, start as usize, self.buffer.as_slice());
            }
            self.remaining = self.remaining.saturating_sub(1);
            if self.remaining == 0 {
                self.phase = Phase::Idle;
                self.status = STATUS_DRDY;
            } else {
                self.set_lba(lba + 1);
                self.at = 0;
                self.status = STATUS_DRDY | STATUS_DRQ;
            }
        }
    }
}

// --------------------------------------------------------------- the card
impl CardState {
    pub open spec fn wf(self) -> bool {
        self.ata.wf()
    }

    /// A card with that on it.
    pub open spec fn holding(data: Seq<u8>) -> CardState {
        CardState {
            cis: cis_spec(),
            cor: 0,
            data,
            ata: AtaState::fresh((data.len() / 512) as u32),
        }
    }

    /// Byte `n` of the card lives at offset `2n`, and the odd bytes are not
    /// driven.
    pub open spec fn read_spec(self, space: Space, off: u32, width: u32) -> u32 {
        match space {
            Space::Attribute => {
                let n = (off / 2) as u16;
                if off & 1 != 0 {
                    0
                } else if n == CONFIG_BASE {
                    self.cor as u32
                } else if n < self.cis.len() {
                    self.cis[n as int] as u32
                } else {
                    0xFF
                }
            },
            Space::Io => self.ata.read_spec(off, width),
            Space::Common => FLOATING,
        }
    }

    pub open spec fn after_read(self, space: Space, off: u32, width: u32) -> CardState {
        match space {
            Space::Io => CardState { ata: self.ata.after_read(off, width, self.data), ..self },
            _ => self,
        }
    }

    pub open spec fn written(self, space: Space, off: u32, val: u32, width: u32) -> CardState {
        match space {
            Space::Attribute => if off & 1 == 0 && (off / 2) as u16 == CONFIG_BASE {
                CardState {
                    cor: val as u8,
                    ata: if (val as u8) & 0x80 != 0 {
                        self.ata.reset_spec()
                    } else {
                        self.ata
                    },
                    ..self
                }
            } else {
                self
            },
            Space::Io => {
                let (ata, data) = self.ata.written(off, val, width, self.data);
                CardState { ata, data, ..self }
            },
            Space::Common => self,
        }
    }
}

impl Card {
    /// A card of `sectors` 512-byte sectors, all zero.
    pub fn blank(sectors: u32) -> (r: Card)
        requires
            sectors * 512 <= usize::MAX,
        ensures
            r@ == CardState::holding(crate::bytes::zeroes((sectors * 512) as nat)),
            r@.wf(),
    {
        Card::with_data(filled(sectors as usize * SECTOR, 0))
    }

    pub fn with_data(data: Vec<u8>) -> (r: Card)
        ensures
            r@ == CardState::holding(data@),
            r@.wf(),
    {
        let sectors: u32 = (data.len() / SECTOR) as u32;
        Card { cis: cis(), cor: 0, data, ata: Ata::new(sectors) }
    }

    pub fn sectors(&self) -> (r: u32)
        ensures
            r == (self@.data.len() / 512) as u32,
    {
        (self.data.len() / SECTOR) as u32
    }

    pub fn read(&mut self, space: Space, off: u32, width: u32) -> (r: u32)
        requires
            old(self)@.wf(),
            width <= 4,
        ensures
            r == old(self)@.read_spec(space, off, width),
            final(self)@ == old(self)@.after_read(space, off, width),
            final(self)@.wf(),
    {
        match space {
            Space::Attribute => {
                if off & 1 != 0 {
                    return 0;
                }
                let n: u16 = (off / 2) as u16;
                if n == CONFIG_BASE {
                    return self.cor as u32;
                }
                if (n as usize) < self.cis.len() {
                    self.cis[n as usize] as u32
                } else {
                    0xFF
                }
            },
            Space::Io => self.ata.read(off, width, &self.data),
            // Common memory is not used in the I/O configuration a CF card
            // is driven in here.
            Space::Common => FLOATING,
        }
    }

    pub fn write(&mut self, space: Space, off: u32, val: u32, width: u32)
        requires
            old(self)@.wf(),
            width <= 4,
        ensures
            final(self)@ == old(self)@.written(space, off, val, width),
            final(self)@.data.len() == old(self)@.data.len(),
            final(self)@.wf(),
    {
        match space {
            Space::Attribute => {
                if off & 1 != 0 {
                    return ;
                }
                if (off / 2) as u16 == CONFIG_BASE {
                    self.cor = val as u8;
                    // Bit 7 is SRESET: it puts the ATA side back to its
                    // power-on state without disturbing the disk.
                    if self.cor & 0x80 != 0 {
                        self.ata.reset();
                    }
                }
            },
            Space::Io => {
                self.ata.write(off, val, width, &mut self.data);
            },
            Space::Common => {},
        }
    }
}

// ------------------------------------------------------------- the socket
impl SocketState {
    pub open spec fn wf(self) -> bool {
        self.card is Some ==> self.card->0.wf()
    }

    pub open spec fn empty() -> SocketState {
        SocketState { card: None, log: Map::empty(), changed: false }
    }

    pub open spec fn logged(
        self,
        space: Space,
        off: u32,
        pc: u32,
        write: bool,
        val: u32,
    ) -> SocketState {
        SocketState {
            log: crate::pxa270::noted(self.log, place_of(space, off), pc, write, val),
            ..self
        }
    }

    /// What an access reads: an empty socket floats high, and so does the one
    /// that is not wired.
    pub open spec fn read_spec(self, pa: u32, width: u32) -> u32 {
        match decoded(pa) {
            Some((socket, space, off)) => if socket == 0 && self.card is Some {
                self.card->0.read_spec(space, off, width)
            } else {
                FLOATING
            },
            None => FLOATING,
        }
    }

    pub open spec fn after_read(self, pa: u32, width: u32, pc: u32) -> SocketState {
        match decoded(pa) {
            Some((socket, space, off)) => {
                let s = self.logged(space, off, pc, false, 0);
                if socket == 0 && s.card is Some {
                    SocketState { card: Some(s.card->0.after_read(space, off, width)), ..s }
                } else {
                    s
                }
            },
            None => self,
        }
    }

    pub open spec fn written(self, pa: u32, val: u32, width: u32, pc: u32) -> SocketState {
        match decoded(pa) {
            Some((socket, space, off)) => {
                let s = self.logged(space, off, pc, true, val);
                if socket == 0 && s.card is Some {
                    SocketState { card: Some(s.card->0.written(space, off, val, width)), ..s }
                } else {
                    s
                }
            },
            None => self,
        }
    }
}

impl Default for Socket {
    fn default() -> (r: Self)
        ensures
            r@ == SocketState::empty(),
    {
        Socket { card: None, log: BTreeMap::new(), changed: false }
    }
}

impl Socket {
    pub fn new() -> (r: Self)
        ensures
            r@ == SocketState::empty(),
            r@.wf(),
    {
        Socket::default()
    }

    /// Put a card in. Returns what was there before.
    pub fn insert(&mut self, card: Card) -> (r: Option<Card>)
        ensures
            r == old(self).card,
            final(self)@ == (SocketState {
                card: Some(card@),
                changed: true,
                ..old(self)@
            }),
    {
        self.changed = true;
        let mut was: Option<Card> = Some(card);
        std::mem::swap(&mut was, &mut self.card);
        was
    }

    pub fn eject(&mut self) -> (r: Option<Card>)
        ensures
            r == old(self).card,
            final(self)@ == (SocketState { card: None, changed: true, ..old(self)@ }),
    {
        self.changed = true;
        let mut was: Option<Card> = None;
        std::mem::swap(&mut was, &mut self.card);
        was
    }

    pub fn occupied(&self) -> (r: bool)
        ensures
            r == self@.card is Some,
    {
        self.card.is_some()
    }

    pub fn read(&mut self, pa: u32, width: u32, pc: u32) -> (r: u32)
        requires
            old(self)@.wf(),
            width <= 4,
        ensures
            r == old(self)@.read_spec(pa, width),
            final(self)@ == old(self)@.after_read(pa, width, pc),
            final(self)@.wf(),
    {
        let (socket, space, off): (u8, Space, u32) = match decode(pa) {
            Some(d) => d,
            None => {
                return FLOATING;
            },
        };
        note_access(&mut self.log, place(space, off), pc, false, 0);
        if socket != 0 {
            return FLOATING;
        }
        match &mut self.card {
            Some(card) => card.read(space, off, width),
            // An empty socket floats high, which is what tells card services
            // there is nothing there.
            None => FLOATING,
        }
    }

    pub fn write(&mut self, pa: u32, val: u32, width: u32, pc: u32)
        requires
            old(self)@.wf(),
            width <= 4,
        ensures
            final(self)@ == old(self)@.written(pa, val, width, pc),
            final(self)@.wf(),
    {
        let (socket, space, off): (u8, Space, u32) = match decode(pa) {
            Some(d) => d,
            None => {
                return ;
            },
        };
        note_access(&mut self.log, place(space, off), pc, true, val);
        if socket != 0 {
            return ;
        }
        match &mut self.card {
            Some(card) => {
                card.write(space, off, val, width);
            },
            None => {},
        }
    }
}

/// A sector that was written reads back as what was put there, and the others
/// are left alone.
pub proof fn law_sector_reads_back(disk: Seq<u8>, lba: int, data: Seq<u8>, other: int)
    requires
        0 <= lba,
        data.len() == 512,
        lba * 512 + 512 <= disk.len(),
        0 <= other,
        other != lba,
        other * 512 + 512 <= disk.len(),
    ensures
        sector_of(with_sector(disk, lba, data), lba) == data,
        sector_of(with_sector(disk, lba, data), other) == sector_of(disk, other),
        with_sector(disk, lba, data).len() == disk.len(),
{
    assert(sector_of(with_sector(disk, lba, data), lba) =~= data);
    assert(sector_of(with_sector(disk, lba, data), other) =~= sector_of(disk, other));
}

/// The bytes that units of a width carry, each its low byte first.
pub open spec fn carried(units: Seq<u32>, width: int) -> Seq<u8> {
    Seq::new(512, |j: int| (units[j / width] >> ((8 * (j % width)) as u32)) as u8)
}

impl CardState {
    /// Units written one after another to the data register.
    pub open spec fn fed(self, off: u32, units: Seq<u32>, width: u32) -> CardState
        decreases units.len(),
    {
        if units.len() == 0 {
            self
        } else {
            self.fed(off, units.drop_last(), width).written(Space::Io, off, units.last(), width)
        }
    }

    /// The card after `n` reads of the data register.
    pub open spec fn drawn(self, off: u32, width: u32, n: nat) -> CardState
        decreases n,
    {
        if n == 0 {
            self
        } else {
            self.drawn(off, width, (n - 1) as nat).after_read(Space::Io, off, width)
        }
    }
}

proof fn lemma_scattered(buffer: Seq<u8>, at: int, val: u32, n: int)
    requires
        0 <= at,
        0 <= n,
        at + n <= buffer.len(),
    ensures
        scattered(buffer, at, val, n) =~= Seq::new(
            buffer.len(),
            |j: int|
                if at <= j < at + n {
                    (val >> ((8 * (j - at)) as u32)) as u8
                } else {
                    buffer[j]
                },
        ),
    decreases n,
{
    if n > 0 {
        lemma_scattered(buffer, at, val, n - 1);
    }
}

/// How far a transfer of one sector has got after some units of it.
proof fn lemma_fed(c: CardState, off: u32, units: Seq<u32>, width: u32, k: int)
    requires
        c.wf(),
        off & 0x0F == 0,
        width == 1 || width == 2 || width == 4,
        units.len() * width == 512,
        c.ata.phase == Phase::Writing,
        c.ata.at == 0,
        0 <= k < units.len(),
    ensures
        ({
            let f = c.fed(off, units.take(k), width);
            &&& f == (CardState {
                ata: AtaState { buffer: f.ata.buffer, at: (k * width) as usize, ..c.ata },
                ..c
            })
            &&& f.ata.buffer.len() == 512
            &&& forall|j: int|
                0 <= j < k * width ==> #[trigger] f.ata.buffer[j] == carried(
                    units,
                    width as int,
                )[j]
        }),
    decreases k,
{
    let f = c.fed(off, units.take(k), width);
    if k == 0 {
        assert(units.take(0) =~= Seq::empty());
        assert(0 * width == 0);
    } else {
        lemma_fed(c, off, units, width, k - 1);
        assert(units.take(k).drop_last() =~= units.take(k - 1));
        let g = c.fed(off, units.take(k - 1), width);
        let w = width as int;
        assert(k * w == (k - 1) * w + w && k * w + w <= 512) by (nonlinear_arith)
            requires
                k < units.len(),
                units.len() * w == 512,
                w > 0,
        ;
        lemma_scattered(g.ata.buffer, (k - 1) * w, units[k - 1], w);
        assert forall|j: int| 0 <= j < k * width implies #[trigger] f.ata.buffer[j] == carried(
            units,
            w,
        )[j] by {
            lemma_unit_of(j, k - 1, w);
        }
    }
}

/// Which unit a byte is in, and where.
proof fn lemma_unit_of(j: int, k: int, w: int)
    requires
        w == 1 || w == 2 || w == 4,
    ensures
        k * w <= j < k * w + w ==> j / w == k && j % w == j - k * w,
{
    assert(k * 1 == k && k * 2 == k + k && k * 4 == k + k + k + k);
}

/// A sector sent to the card a unit at a time is what the disk then holds
/// there, and what a read of it hands over; the rest of the disk is as it was.
pub proof fn law_sector_sent_is_kept(c: CardState, off: u32, units: Seq<u32>, width: u32)
    requires
        c.wf(),
        off & 0x0F == 0,
        width == 1 || width == 2 || width == 4,
        units.len() * width == 512,
        c.ata.phase == Phase::Writing,
        c.ata.at == 0,
        c.ata.remaining <= 1,
        c.ata.loadable(c.data),
    ensures
        ({
            let after = c.fed(off, units, width);
            &&& after.data == with_sector(
                c.data,
                c.ata.lba_spec() as int,
                carried(units, width as int),
            )
            &&& after.ata.phase == Phase::Idle
            &&& after.ata.status == STATUS_DRDY
            &&& after.ata.lba == c.ata.lba
            &&& sector_of(after.data, c.ata.lba_spec() as int) == carried(units, width as int)
        }),
{
    let n = units.len() as int;
    let w = width as int;
    assert(n > 0) by (nonlinear_arith)
        requires
            n * w == 512,
            n >= 0,
    ;
    assert(n * w == (n - 1) * w + w) by (nonlinear_arith);
    lemma_fed(c, off, units, width, n - 1);
    assert(units.drop_last() =~= units.take(n - 1));
    let g = c.fed(off, units.take(n - 1), width);
    lemma_scattered(g.ata.buffer, (n - 1) * w, units[n - 1], w);
    let all = scattered(g.ata.buffer, (n - 1) * w, units[n - 1], w);
    assert(all =~= carried(units, w)) by {
        assert forall|j: int| 0 <= j < 512 implies all[j] == #[trigger] carried(units, w)[j] by {
            lemma_unit_of(j, n - 1, w);
        }
    }
    let after = c.fed(off, units, width);
    assert(after.data == with_sector(c.data, c.ata.lba_spec() as int, all));
    assert(sector_of(after.data, c.ata.lba_spec() as int) =~= carried(units, w));
}

/// A read of one sector hands over its bytes in order, a unit at a time, and
/// then there is no more.
pub proof fn law_sector_is_handed_over(c: CardState, off: u32, width: u32, k: nat)
    requires
        c.wf(),
        off & 0x0F == 0,
        width == 1 || width == 2 || width == 4,
        c.ata.phase == Phase::Reading,
        c.ata.at == 0,
        c.ata.remaining <= 1,
        k * width <= 512,
    ensures
        ({
            let d = c.drawn(off, width, k);
            &&& k * width < 512 ==> d.read_spec(Space::Io, off, width) == gathered(
                c.ata.buffer,
                k * width,
                width as int,
            ) && d.ata.phase == Phase::Reading
            &&& k * width == 512 ==> d.ata.phase == Phase::Idle
            &&& d.data == c.data
        }),
    decreases k,
{
    lemma_drawn(c, off, width, k);
}

proof fn lemma_drawn(c: CardState, off: u32, width: u32, k: nat)
    requires
        c.wf(),
        off & 0x0F == 0,
        width == 1 || width == 2 || width == 4,
        c.ata.phase == Phase::Reading,
        c.ata.at == 0,
        c.ata.remaining <= 1,
        k * width <= 512,
    ensures
        ({
            let d = c.drawn(off, width, k);
            &&& d.data == c.data
            &&& k * width < 512 ==> d.ata == (AtaState { at: (k * width) as usize, ..c.ata })
            &&& k * width == 512 ==> d.ata.phase == Phase::Idle
        }),
    decreases k,
{
    if k == 0 {
        assert(0 * width == 0);
    } else {
        assert(k * width == (k - 1) * width + width) by (nonlinear_arith)
            requires
                k > 0,
        ;
        lemma_drawn(c, off, width, (k - 1) as nat);
    }
}

/// Resetting the card, either way, puts the task file back and leaves the disk
/// as it was.
pub proof fn law_reset_spares_the_disk(c: CardState)
    ensures
        c.written(Space::Attribute, (CONFIG_BASE * 2) as u32, 0x80, 1) == (CardState {
            cor: 0x80,
            ata: AtaState::fresh(c.ata.sectors),
            ..c
        }),
        c.written(Space::Io, 0x0E, 0x04, 1) == (CardState {
            ata: AtaState::fresh(c.ata.sectors),
            ..c
        }),
{
    lemma_registers(0, 0, 0, 0, 0, 0x0E);
    lemma_registers(0, 0, 0, 0, 0, 0x400);
}

/// The attribute space answers on even addresses only, with the CIS.
pub proof fn law_cis_on_even_addresses(c: CardState, n: u32, width: u32)
    requires
        n < c.cis.len(),
        n < CONFIG_BASE,
    ensures
        c.read_spec(Space::Attribute, (2 * n) as u32, width) == c.cis[n as int],
        c.read_spec(Space::Attribute, (2 * n + 1) as u32, width) == 0,
{
    lemma_registers(0, 0, 0, 0, 0, (2 * n) as u32);
    lemma_registers(0, 0, 0, 0, 0, (2 * n + 1) as u32);
}

/// Byte `j` of what units of a width carry, each its low byte first.
pub open spec fn byte_sent(units: Seq<u32>, width: u32, j: int) -> u8 {
    (units[j / (width as int)] >> ((8 * (j % (width as int))) as u32)) as u8
}

/// How many sectors a count register asks for: zero asks for one.
pub open spec fn asked_for(count: u8) -> int {
    if count == 0 {
        1
    } else {
        count as int
    }
}

impl CardState {
    /// The card once the guest has put a sector count and a sector number in
    /// the task file and a command after them.
    #[verifier::opaque]
    pub open spec fn told(self, count: u8, lba: u32, device: u8, cmd: u8) -> CardState {
        self.written(Space::Io, 2, count as u32, 1).written(Space::Io, 3, lba, 1).written(
            Space::Io,
            4,
            lba >> 8,
            1,
        ).written(Space::Io, 5, lba >> 16, 1).written(
            Space::Io,
            6,
            (device as u32 & 0xF0) | (lba >> 24),
            1,
        ).written(Space::Io, 7, cmd as u32, 1)
    }
}

/// The task file after the registers are filled and the command is given.
proof fn lemma_told(c: CardState, count: u8, lba: u32, device: u8, cmd: u8)
    requires
        c.wf(),
        lba < 0x1000_0000,
    ensures
        exists|s: AtaState|
            {
                &&& s.lba.len() == 4
                &&& s.lba_spec() == lba
                &&& s.count == count
                &&& s.sectors == c.ata.sectors
                &&& c.told(count, lba, device, cmd) == (CardState {
                    ata: #[trigger] s.commanded(cmd, c.data),
                    ..c
                })
            },
{
    reveal(CardState::told);
    lemma_registers(0, 0, 0, device, lba, 2);
    lemma_registers(0, 0, 0, device, lba, 3);
    lemma_registers(0, 0, 0, device, lba, 4);
    lemma_registers(0, 0, 0, device, lba, 5);
    lemma_registers(0, 0, 0, device, lba, 6);
    lemma_registers(0, 0, 0, device, lba, 7);
    let d = ((device as u32 & 0xF0) | (lba >> 24)) as u8;
    let s = AtaState {
        count,
        lba: seq![lba as u8, (lba >> 8) as u8, (lba >> 16) as u8, d],
        ..c.ata
    };
    let written = c.written(Space::Io, 2, count as u32, 1).written(Space::Io, 3, lba, 1).written(
        Space::Io,
        4,
        lba >> 8,
        1,
    ).written(Space::Io, 5, lba >> 16, 1).written(
        Space::Io,
        6,
        (device as u32 & 0xF0) | (lba >> 24),
        1,
    );
    assert(written.ata.lba =~= s.lba);
    assert(written.ata == s);
    assert(written == (CardState { ata: s, ..c }));
    assert(c.told(count, lba, device, cmd) == (CardState {
        ata: s.commanded(cmd, c.data),
        ..c
    }));
}

/// The card once it has been told to write or to read sectors that it has.
proof fn lemma_begun(c: CardState, count: u8, lba: u32, device: u8, cmd: u8)
    requires
        c.wf(),
        lba < 0x1000_0000,
        lba * 512 + 512 <= c.data.len(),
        cmd == 0x20 || cmd == 0x21 || (cmd == 0x30 || cmd == 0x31) && lba < c.ata.sectors,
    ensures
        ({
            let t = c.told(count, lba, device, cmd);
            &&& t.wf()
            &&& t.data == c.data
            &&& t.ata.at == 0
            &&& t.ata.remaining == count
            &&& t.ata.lba_spec() == lba
            &&& cmd == 0x20 || cmd == 0x21 ==> t.ata.phase == Phase::Reading && t.ata.buffer
                == sector_of(c.data, lba as int)
            &&& cmd == 0x30 || cmd == 0x31 ==> t.ata.phase == Phase::Writing
        }),
{
    lemma_told(c, count, lba, device, cmd);
    let t = c.told(count, lba, device, cmd);
    let s = choose|s: AtaState|
        {
            &&& s.lba.len() == 4
            &&& s.lba_spec() == lba
            &&& s.count == count
            &&& s.sectors == c.ata.sectors
            &&& t == (CardState { ata: #[trigger] s.commanded(cmd, c.data), ..c })
        };
    assert(t.ata == s.commanded(cmd, c.data));
    assert(t.ata.lba == s.lba);
}

/// Where `k` units of a width have got in sectors of 512 bytes, and where the
/// unit after them gets.
proof fn lemma_progress(k: int, w: int)
    requires
        w == 1 || w == 2 || w == 4,
        k >= 0,
    ensures
        k * w >= 0,
        (k + 1) * w == k * w + w,
        (k * w) % 512 + w <= 512,
        (k * w) % 512 + w < 512 ==> ((k + 1) * w) / 512 == (k * w) / 512 && ((k + 1) * w) % 512
            == (k * w) % 512 + w,
        (k * w) % 512 + w == 512 ==> ((k + 1) * w) / 512 == (k * w) / 512 + 1 && ((k + 1) * w) % 512
            == 0,
{
    assert(k * 1 == k && k * 2 == k + k && k * 4 == k + k + k + k);
    assert((k + 1) * 1 == k + 1 && (k + 1) * 2 == k + k + 2 && (k + 1) * 4 == k + k + k + k + 4);
}

/// What one unit does to a write that is under way.
proof fn lemma_unit_fed(g: CardState, off: u32, unit: u32, width: u32)
    requires
        g.wf(),
        off & 0x0F == 0,
        width == 1 || width == 2 || width == 4,
        g.ata.phase == Phase::Writing,
        g.ata.at + width <= 512,
        g.ata.lba_spec() < 0x0FFF_FFFF || asked_for(g.ata.remaining) == 1,
    ensures
        ({
            let d = g.written(Space::Io, off, unit, width);
            let at = g.ata.at as int;
            let buffer = Seq::new(
                512,
                |j: int|
                    if at <= j < at + width {
                        (unit >> ((8 * (j - at)) as u32)) as u8
                    } else {
                        g.ata.buffer[j]
                    },
            );
            &&& d.wf()
            &&& at + width < 512 ==> d == (CardState {
                ata: AtaState { buffer, at: (at + width) as usize, ..g.ata },
                ..g
            })
            &&& at + width == 512 ==> {
                &&& d.data == with_sector(g.data, g.ata.lba_spec() as int, buffer)
                &&& asked_for(g.ata.remaining) == 1 ==> d.ata.phase == Phase::Idle && d.ata.status
                    == STATUS_DRDY
                &&& asked_for(g.ata.remaining) > 1 ==> {
                    &&& d.ata.phase == Phase::Writing
                    &&& d.ata.at == 0
                    &&& d.ata.lba_spec() == g.ata.lba_spec() + 1
                    &&& d.ata.remaining == g.ata.remaining - 1
                }
            }
        }),
{
    lemma_scattered(g.ata.buffer, g.ata.at as int, unit, width as int);
    if asked_for(g.ata.remaining) > 1 {
        lemma_registers(0, 0, 0, g.ata.lba[3], (g.ata.lba_spec() + 1) as u32, 0);
    }
}

/// The card `d` is a write that began as `c` once `sent` bytes have gone in.
#[verifier::opaque]
spec fn write_stands(c: CardState, d: CardState, units: Seq<u32>, width: u32, sent: int) -> bool {
    let l = c.ata.lba_spec() as int;
    let total = asked_for(c.ata.remaining);
    let q = sent / 512;
    &&& d.wf()
    &&& d.data.len() == c.data.len()
    &&& forall|i: int|
        #![trigger d.data[i]]
        0 <= i < c.data.len() ==> d.data[i] == if l * 512 <= i < (l + q) * 512 {
            byte_sent(units, width, i - l * 512)
        } else {
            c.data[i]
        }
    &&& sent < total * 512 ==> {
        &&& d.ata.phase == Phase::Writing
        &&& d.ata.at == sent % 512
        &&& d.ata.lba_spec() == l + q
        &&& asked_for(d.ata.remaining) == total - q
        &&& forall|j: int|
            0 <= j < sent % 512 ==> #[trigger] d.ata.buffer[j] == byte_sent(
                units,
                width,
                q * 512 + j,
            )
    }
    &&& sent == total * 512 ==> d.ata.phase == Phase::Idle && d.ata.status == STATUS_DRDY
}

/// One unit more.
proof fn lemma_stands_within(
    c: CardState,
    g: CardState,
    off: u32,
    units: Seq<u32>,
    width: u32,
    k: int,
)
    requires
        c.wf(),
        off & 0x0F == 0,
        width == 1 || width == 2 || width == 4,
        (c.ata.lba_spec() + asked_for(c.ata.remaining)) * 512 <= c.data.len(),
        c.ata.lba_spec() + asked_for(c.ata.remaining) <= 0x1000_0000,
        0 <= k < units.len(),
        k * width < asked_for(c.ata.remaining) * 512,
        write_stands(c, g, units, width, k * width),
    ensures
        write_stands(
            c,
            g.written(Space::Io, off, units[k], width),
            units,
            width,
            (k + 1) * width,
        ),
{
    reveal(write_stands);
    let w = width as int;
    let l = c.ata.lba_spec() as int;
    let total = asked_for(c.ata.remaining);
    let sent = k * w;
    let q = sent / 512;
    let at = sent % 512;
    lemma_progress(k, w);
    let unit = units[k];
    let d = g.written(Space::Io, off, unit, width);
    assert(q < total);
    lemma_unit_fed(g, off, unit, width);
    let buffer = Seq::new(
        512,
        |j: int|
            if at <= j < at + w {
                (unit >> ((8 * (j - at)) as u32)) as u8
            } else {
                g.ata.buffer[j]
            },
    );
    assert forall|j: int| 0 <= j < at + w implies #[trigger] buffer[j] == byte_sent(
        units,
        width,
        q * 512 + j,
    ) by {
        lemma_unit_of(q * 512 + j, k, w);
    }
    if at + w == 512 {
        assert(d.data == with_sector(g.data, l + q, buffer));
        lemma_sector_done(c.data, g.data, d.data, units, width, l, q, buffer);
    }
}

/// The task file and the disk after `k` units of a write.
proof fn lemma_fed_through(c: CardState, off: u32, units: Seq<u32>, width: u32, k: int)
    requires
        c.wf(),
        off & 0x0F == 0,
        width == 1 || width == 2 || width == 4,
        c.ata.phase == Phase::Writing,
        c.ata.at == 0,
        units.len() * width == asked_for(c.ata.remaining) * 512,
        (c.ata.lba_spec() + asked_for(c.ata.remaining)) * 512 <= c.data.len(),
        c.ata.lba_spec() + asked_for(c.ata.remaining) <= 0x1000_0000,
        0 <= k <= units.len(),
    ensures
        write_stands(c, c.fed(off, units.take(k), width), units, width, k * width),
    decreases k,
{
    let w = width as int;
    let total = asked_for(c.ata.remaining);
    if k == 0 {
        assert(units.take(0) =~= Seq::empty());
        assert(0 * w == 0);
        reveal(write_stands);
    } else {
        lemma_fed_through(c, off, units, width, k - 1);
        assert(units.take(k).drop_last() =~= units.take(k - 1));
        assert((k - 1) * w < total * 512) by (nonlinear_arith)
            requires
                k <= units.len(),
                units.len() * w == total * 512,
                w > 0,
        ;
        lemma_stands_within(c, c.fed(off, units.take(k - 1), width), off, units, width, k - 1);
    }
}

/// A sector more on a disk that has the sectors before it.
proof fn lemma_sector_done(
    first: Seq<u8>,
    before: Seq<u8>,
    after: Seq<u8>,
    units: Seq<u32>,
    width: u32,
    l: int,
    q: int,
    buffer: Seq<u8>,
)
    requires
        0 <= l,
        0 <= q,
        before.len() == first.len(),
        (l + q) * 512 + 512 <= first.len(),
        buffer.len() == 512,
        after == with_sector(before, l + q, buffer),
        forall|i: int|
            #![trigger before[i]]
            0 <= i < first.len() ==> before[i] == if l * 512 <= i < (l + q) * 512 {
                byte_sent(units, width, i - l * 512)
            } else {
                first[i]
            },
        forall|j: int|
            0 <= j < 512 ==> #[trigger] buffer[j] == byte_sent(units, width, q * 512 + j),
    ensures
        after.len() == first.len(),
        forall|i: int|
            #![trigger after[i]]
            0 <= i < first.len() ==> after[i] == if l * 512 <= i < (l + q + 1) * 512 {
                byte_sent(units, width, i - l * 512)
            } else {
                first[i]
            },
{
    assert forall|i: int| #![trigger after[i]] 0 <= i < first.len() implies after[i] == if l * 512
        <= i < (l + q + 1) * 512 {
        byte_sent(units, width, i - l * 512)
    } else {
        first[i]
    } by {
        let j = i - (l + q) * 512;
        if 0 <= j < 512 {
            assert(after[i] == buffer[j]);
            assert(q * 512 + j == i - l * 512);
        } else {
            assert(after[i] == before[i]);
        }
    }
}

/// A write of `count` sectors from sector `lba` on, however wide its units,
/// puts byte `j` of what is sent at place `lba * 512 + j` of the disk, for
/// every byte of every sector, and leaves every other byte of the disk as it
/// was. Then the card is at rest.
#[verifier::rlimit(40)]
pub proof fn law_sectors_sent_land_in_order(
    c: CardState,
    count: u8,
    lba: u32,
    device: u8,
    cmd: u8,
    off: u32,
    units: Seq<u32>,
    width: u32,
)
    requires
        c.wf(),
        cmd == 0x30 || cmd == 0x31,
        off & 0x0F == 0,
        width == 1 || width == 2 || width == 4,
        units.len() * width == asked_for(count) * 512,
        lba + asked_for(count) <= 0x1000_0000,
        (lba + asked_for(count)) * 512 <= c.data.len(),
        lba < c.ata.sectors,
    ensures
        ({
            let done = c.told(count, lba, device, cmd).fed(off, units, width);
            &&& done.data.len() == c.data.len()
            &&& forall|i: int|
                #![trigger done.data[i]]
                0 <= i < c.data.len() ==> done.data[i] == if lba * 512 <= i < lba * 512
                    + units.len() * width {
                    byte_sent(units, width, i - lba * 512)
                } else {
                    c.data[i]
                }
            &&& done.ata.phase == Phase::Idle
            &&& done.ata.status == STATUS_DRDY
        }),
{
    lemma_begun(c, count, lba, device, cmd);
    let t = c.told(count, lba, device, cmd);
    lemma_fed_through(t, off, units, width, units.len() as int);
    reveal(write_stands);
    assert(units.take(units.len() as int) =~= units);
}

/// The task file after `k` units of a read.
proof fn lemma_drawn_through(c: CardState, off: u32, width: u32, k: nat)
    requires
        c.wf(),
        off & 0x0F == 0,
        width == 1 || width == 2 || width == 4,
        c.ata.phase == Phase::Reading,
        c.ata.at == 0,
        (c.ata.lba_spec() + asked_for(c.ata.remaining)) * 512 <= c.data.len(),
        c.ata.lba_spec() + asked_for(c.ata.remaining) <= 0x1000_0000,
        c.ata.buffer == sector_of(c.data, c.ata.lba_spec() as int),
        k * width <= asked_for(c.ata.remaining) * 512,
    ensures
        ({
            let d = c.drawn(off, width, k);
            let l = c.ata.lba_spec() as int;
            let q = (k * width) / 512;
            &&& d.wf()
            &&& d.data == c.data
            &&& k * width < asked_for(c.ata.remaining) * 512 ==> {
                &&& d.ata.phase == Phase::Reading
                &&& d.ata.at == (k * width) % 512
                &&& d.ata.lba_spec() == l + q
                &&& asked_for(d.ata.remaining) == asked_for(c.ata.remaining) - q
                &&& d.ata.buffer == sector_of(c.data, l + q)
            }
            &&& k * width == asked_for(c.ata.remaining) * 512 ==> d.ata.phase == Phase::Idle
                && d.ata.status == STATUS_DRDY
        }),
    decreases k,
{
    let l = c.ata.lba_spec() as int;
    let total = asked_for(c.ata.remaining);
    let w = width as int;
    if k == 0 {
        assert(0 * w == 0);
    } else {
        lemma_progress(k - 1, w);
        lemma_drawn_through(c, off, width, (k - 1) as nat);
        let g = c.drawn(off, width, (k - 1) as nat);
        let q = ((k - 1) * w) / 512;
        let at = ((k - 1) * w) % 512;
        let lba = (l + q) as u32;
        if at + w == 512 && k * w < total * 512 {
            assert(q + 1 < total);
            lemma_registers(0, 0, 0, g.ata.lba[3], (lba + 1) as u32, 0);
        }
    }
}

/// The number that the bytes from `at` on make, the first of them lowest.
pub open spec fn number_at(bytes: Seq<u8>, at: int, width: u32) -> int {
    if width == 1 {
        bytes[at] as int
    } else if width == 2 {
        bytes[at] + 0x100 * bytes[at + 1]
    } else {
        bytes[at] + 0x100 * bytes[at + 1] + 0x1_0000 * bytes[at + 2] + 0x100_0000 * bytes[at + 3]
    }
}

proof fn lemma_gathered(buffer: Seq<u8>, at: int, width: u32)
    requires
        0 <= at,
        at + width <= buffer.len(),
        width == 1 || width == 2 || width == 4,
    ensures
        gathered(buffer, at, width as int) == number_at(buffer, at, width),
{
    reveal_with_fuel(gathered, 6);
    let b = byte_at(buffer, at + 1);
    let c = byte_at(buffer, at + 2);
    let d = byte_at(buffer, at + 3);
    lemma_registers(buffer[at], b, c, d, 0, 0);
}

/// The unit that a read hands over next.
proof fn lemma_unit_drawn(d: CardState, off: u32, width: u32, sector: int)
    requires
        off & 0x0F == 0,
        width == 1 || width == 2 || width == 4,
        0 <= sector,
        sector * 512 + 512 <= d.data.len(),
        d.ata.phase == Phase::Reading,
        d.ata.at + width <= 512,
        d.ata.buffer == sector_of(d.data, sector),
    ensures
        d.read_spec(Space::Io, off, width) == number_at(
            d.data,
            sector * 512 + d.ata.at,
            width,
        ),
{
    let p = d.ata.at as int;
    let at = sector * 512 + p;
    lemma_gathered(d.ata.buffer, p, width);
    assert(d.ata.buffer[p] == d.data[at]);
    if width == 2 {
        assert(d.ata.buffer[p + 1] == d.data[at + 1]);
    } else if width == 4 {
        assert(d.ata.buffer[p + 1] == d.data[at + 1]);
        assert(d.ata.buffer[p + 2] == d.data[at + 2]);
        assert(d.ata.buffer[p + 3] == d.data[at + 3]);
    }
}

/// A read of `count` sectors from sector `lba` on hands over the bytes of the
/// disk from place `lba * 512` on, in order, a unit at a time with the first
/// byte lowest: unit `k` holds what stands at `lba * 512 + k * width`. After
/// the last sector the card is at rest, and the disk is as it was throughout.
#[verifier::rlimit(40)]
pub proof fn law_sectors_are_handed_over_in_order(
    c: CardState,
    count: u8,
    lba: u32,
    device: u8,
    cmd: u8,
    off: u32,
    width: u32,
    k: nat,
)
    requires
        c.wf(),
        cmd == 0x20 || cmd == 0x21,
        off & 0x0F == 0,
        width == 1 || width == 2 || width == 4,
        lba + asked_for(count) <= 0x1000_0000,
        (lba + asked_for(count)) * 512 <= c.data.len(),
        k * width <= asked_for(count) * 512,
    ensures
        ({
            let d = c.told(count, lba, device, cmd).drawn(off, width, k);
            let unit = d.read_spec(Space::Io, off, width);
            let at = lba * 512 + k * width;
            &&& d.data == c.data
            &&& k * width < asked_for(count) * 512 ==> unit == number_at(c.data, at, width)
            &&& k * width == asked_for(count) * 512 ==> d.ata.phase == Phase::Idle && d.ata.status
                == STATUS_DRDY
        }),
{
    lemma_begun(c, count, lba, device, cmd);
    let t = c.told(count, lba, device, cmd);
    lemma_drawn_through(t, off, width, k);
    let d = t.drawn(off, width, k);
    let w = width as int;
    lemma_progress(k as int, w);
    if k * width < asked_for(count) * 512 {
        lemma_unit_drawn(d, off, width, lba + (k * w) / 512);
    }
}

} // verus!
