//! A USB flash drive: descriptors, bulk-only transport, and enough SCSI.
//!
//! What the guest has to recognise this as, and why each choice is forced:
//!
//! - **Interface class 8, subclass 6, protocol 0x50.** Mass storage, SCSI
//!   transparent command set, bulk-only transport. `usbmsc.dll` binds on that
//!   triple; anything else and the device enumerates and is then ignored.
//! - **Two bulk endpoints**, one in, one out, 64 bytes. Bulk-only has no use
//!   for an interrupt endpoint and a driver that finds one may not care, but
//!   one that cannot find both bulk endpoints has nothing to talk over.
//! - **USB 1.1.** This is an OHCI root port; claiming 2.0 invites a driver to
//!   expect high speed from a controller that has none.
//!
//! # Bulk-only transport
//!
//! Every exchange is three steps, always in this order: a 31-byte command
//! block wrapper out, then data in whichever direction the wrapper said, then
//! a 13-byte command status wrapper back. The tag in the wrapper is echoed in
//! the status, and a driver checks it -- getting that wrong looks like the
//! device answering somebody else's question.
//!
//! The residue is the part everyone gets wrong: it is how many bytes of what
//! was *asked for* did not arrive, not how many did.

use super::fat32::Store;
use super::fatname::encode;
use super::usb::Device;
use crate::bytes::{copy_range, get16_be, get32, get32_be, push16, push32, push32_be, push_all};
use crate::text::{push_byte_hex, push_decimal, push_left_aligned};
use std::collections::BTreeMap;
use vstd::prelude::*;
use vstd::string::*;

verus! {

broadcast use vstd::std_specs::btree::group_btree_axioms;

/// Sector size, and nothing here changes it.
pub const SECTOR: usize = 512;

pub const CBW_SIGNATURE: u32 = 0x4342_5355;
pub const CSW_SIGNATURE: u32 = 0x5342_5355;

pub const STATUS_GOOD: u8 = 0;
pub const STATUS_FAILED: u8 = 1;

/// Where the transport has got to.
#[derive(PartialEq, Eq, Debug, Clone, Copy, Structural)]
pub enum Phase {
    /// Waiting for a command block wrapper.
    Command,
    /// Handing data to the host, then the status.
    DataIn,
    /// Taking data from the host, then the status.
    DataOut,
    /// The command is done; the host has yet to collect the status.
    Status,
}

pub struct UsbDisk {
    /// The disk itself.
    pub store: Store,
    /// Where the guest has written and how much, for a disk that is kept in a
    /// file as well. One that is kept nowhere else has none.
    pub journal: Option<Vec<(u64, usize)>>,
    pub address: u8,
    pub configured: bool,
    pub phase: Phase,
    pub tag: u32,
    /// How much the host said it would move.
    pub expected: u32,
    /// Bytes handed over or taken so far.
    pub moved: u32,
    pub status: u8,
    /// Data waiting to go to the host.
    pub to_host: Vec<u8>,
    /// Where a write is going, and how much is left of it.
    pub write_at: u64,
    pub write_left: usize,
    /// The answer to REQUEST SENSE: key, then additional code and qualifier.
    pub sense: (u8, u8, u8),
    /// Commands seen, so a class driver that bound can be told from one that
    /// never did. Enumeration and use are separate questions.
    pub commands: u64,
    /// Which commands, and how many of each. A retry loop and a long job
    /// look identical in a total; they do not look alike in this.
    pub opcodes: BTreeMap<u8, u64>,
    /// The last block a read asked for, how often a read asked for the same
    /// one again, and the furthest it has got. A driver making progress walks
    /// forward; a stuck one asks for the same block for ever.
    pub last_read: u32,
    pub repeated_reads: u64,
    pub highest_read: u32,
}

/// What a [`UsbDisk`] holds.
#[verifier::ext_equal]
pub struct DriveState {
    pub disk: Seq<u8>,
    pub journal: Option<Seq<(u64, usize)>>,
    pub address: u8,
    pub configured: bool,
    pub phase: Phase,
    pub tag: u32,
    pub expected: u32,
    pub moved: u32,
    pub status: u8,
    pub to_host: Seq<u8>,
    pub write_at: u64,
    pub write_left: usize,
    pub sense: (u8, u8, u8),
    pub commands: u64,
    pub opcodes: Map<u8, u64>,
    pub last_read: u32,
    pub repeated_reads: u64,
    pub highest_read: u32,
}

impl View for UsbDisk {
    type V = DriveState;

    open spec fn view(&self) -> DriveState {
        DriveState {
            disk: self.store@,
            journal: match self.journal {
                Some(j) => Some(j@),
                None => None,
            },
            address: self.address,
            configured: self.configured,
            phase: self.phase,
            tag: self.tag,
            expected: self.expected,
            moved: self.moved,
            status: self.status,
            to_host: self.to_host@,
            write_at: self.write_at,
            write_left: self.write_left,
            sense: self.sense,
            commands: self.commands,
            opcodes: self.opcodes@,
            last_read: self.last_read,
            repeated_reads: self.repeated_reads,
            highest_read: self.highest_read,
        }
    }
}

/// `Fractal `.
pub const VENDOR: [u8; 8] = [0x46, 0x72, 0x61, 0x63, 0x74, 0x61, 0x6C, 0x20];

/// `VBNote Storage  `.
pub const PRODUCT: [u8; 16] = [
    0x56, 0x42, 0x4E, 0x6F, 0x74, 0x65, 0x20, 0x53, 0x74, 0x6F, 0x72, 0x61, 0x67, 0x65, 0x20, 0x20,
];

/// `1.00`.
pub const RELEASE: [u8; 4] = [0x31, 0x2E, 0x30, 0x30];

/// USB 1.1, the class in the interface, a 64-byte control endpoint, and one
/// configuration.
pub const DEVICE_DESCRIPTOR: [u8; 18] = [
    18, 1, 0x10, 0x01, 0, 0, 0, 64, 0xC0, 0x16, 0x01, 0x00, 0x00, 0x01, 1, 2, 3, 1,
];

/// The configuration, with the interface and endpoints behind it: mass
/// storage, SCSI transparent, bulk-only; bulk in on endpoint 1, bulk out on
/// endpoint 2.
pub const CONFIGURATION: [u8; 32] = [
    9, 2, 32, 0, 1, 1, 0, 0x80, 50,
    9, 4, 0, 0, 2, 0x08, 0x06, 0x50, 0,
    7, 5, 0x81, 0x02, 64, 0, 0,
    7, 5, 0x02, 0x02, 64, 0, 0,
];

/// Text as little-endian UTF-16.
pub open spec fn wide(u: Seq<u16>) -> Seq<u8>
    decreases u.len(),
{
    if u.len() == 0 {
        Seq::empty()
    } else {
        wide(u.drop_last()) + crate::bytes::le16(u.last())
    }
}

/// A string descriptor: its length, its kind, and the text.
pub open spec fn string_descriptor(text: Seq<char>) -> Seq<u8> {
    let body = wide(super::fatname::units(text));
    seq![(2 + body.len()) as u8, 3u8] + body
}

pub open spec fn descriptor_spec(kind: u8, index: u8) -> Option<Seq<u8>> {
    if kind == 1 {
        Some(DEVICE_DESCRIPTOR@)
    } else if kind == 2 {
        Some(CONFIGURATION@)
    } else if kind == 3 {
        if index == 0 {
            // English.
            Some(seq![4u8, 3, 0x09, 0x04])
        } else if index == 1 {
            Some(string_descriptor("Fractal Microsystems"@))
        } else if index == 2 {
            Some(string_descriptor("VBNote Storage Card"@))
        } else if index == 3 {
            Some(string_descriptor("VBNOTE0001"@))
        } else {
            None
        }
    } else {
        None
    }
}

/// What a command counts as in the log.
pub open spec fn counted(opcodes: Map<u8, u64>, op: u8) -> Map<u8, u64> {
    let n = if opcodes.contains_key(op) {
        opcodes[op]
    } else {
        0
    };
    opcodes.insert(op, n.wrapping_add(1))
}

/// The block a command starts at.
pub open spec fn lba_of(cb: Seq<u8>) -> u32 {
    crate::bytes::of_be32(cb[2], cb[3], cb[4], cb[5])
}

/// How many blocks a command is about.
pub open spec fn count_of(cb: Seq<u8>) -> u16 {
    crate::bytes::of_be16(cb[7], cb[8])
}

impl DriveState {
    pub open spec fn fresh(disk: Seq<u8>) -> DriveState {
        DriveState {
            disk,
            journal: None,
            address: 0,
            configured: false,
            phase: Phase::Command,
            tag: 0,
            expected: 0,
            moved: 0,
            status: STATUS_GOOD,
            to_host: Seq::empty(),
            write_at: 0,
            write_left: 0,
            sense: (0, 0, 0),
            commands: 0,
            opcodes: Map::empty(),
            last_read: u32::MAX,
            repeated_reads: 0,
            highest_read: 0,
        }
    }

    pub open spec fn sectors_spec(self) -> u32 {
        (self.disk.len() / 512) as u32
    }

    pub open spec fn failed(self, key: u8, asc: u8, ascq: u8) -> DriveState {
        DriveState { status: STATUS_FAILED, sense: (key, asc, ascq), ..self }
    }

    pub open spec fn offering(self, data: Seq<u8>) -> DriveState {
        DriveState { to_host: data, ..self }
    }

    /// The blocks a command is about lie on the disk.
    pub open spec fn in_range(self, cb: Seq<u8>) -> bool {
        lba_of(cb) * 512 + count_of(cb) * 512 <= self.disk.len()
    }

    /// The answer to REQUEST SENSE.
    pub open spec fn sense_data(self) -> Seq<u8> {
        seq![
            0x70u8,
            0,
            self.sense.0,
            0,
            0,
            0,
            0,
            10,
            0,
            0,
            0,
            0,
            self.sense.1,
            self.sense.2,
            0,
            0,
            0,
            0,
        ]
    }

    /// What a command block does.
    pub open spec fn executed(self, cb: Seq<u8>) -> DriveState {
        let op = cb[0];
        if op == 0x00 {
            // TEST UNIT READY.
            DriveState { sense: (0, 0, 0), ..self }
        } else if op == 0x03 {
            // REQUEST SENSE.
            DriveState { sense: (0, 0, 0), ..self.offering(self.sense_data()) }
        } else if op == 0x12 {
            // INQUIRY: a removable direct access block device.
            self.offering(
                seq![0x00u8, 0x80, 0x02, 0x02, 31, 0, 0, 0] + VENDOR@ + PRODUCT@ + RELEASE@,
            )
        } else if op == 0x1A {
            // MODE SENSE(6): not write protected.
            self.offering(seq![3u8, 0, 0, 0])
        } else if op == 0x1E || op == 0x1B || op == 0x35 {
            self
        } else if op == 0x25 {
            // READ CAPACITY(10): the address of the last sector.
            let last = if self.sectors_spec() == 0 {
                0u32
            } else {
                (self.sectors_spec() - 1) as u32
            };
            self.offering(crate::bytes::be32(last) + crate::bytes::be32(512))
        } else if op == 0x28 {
            // READ(10).
            if self.in_range(cb) {
                self.offering(
                    super::fat32::stretch(
                        self.disk,
                        lba_of(cb) * 512,
                        (count_of(cb) * 512) as nat,
                    ),
                )
            } else {
                self.failed(5, 0x21, 0)
            }
        } else if op == 0x2A {
            // WRITE(10).
            if self.in_range(cb) {
                DriveState {
                    write_at: (lba_of(cb) * 512) as u64,
                    write_left: (count_of(cb) * 512) as usize,
                    ..self
                }
            } else {
                self.failed(5, 0x21, 0)
            }
        } else {
            self.failed(5, 0x20, 0)
        }
    }

    /// A read noted in the log.
    pub open spec fn read_noted(self, cb: Seq<u8>) -> DriveState {
        let lba = lba_of(cb);
        if cb[0] == 0x28 {
            DriveState {
                repeated_reads: if lba == self.last_read {
                    self.repeated_reads.wrapping_add(1)
                } else {
                    self.repeated_reads
                },
                last_read: lba,
                highest_read: if lba > self.highest_read {
                    lba
                } else {
                    self.highest_read
                },
                ..self
            }
        } else {
            self
        }
    }

    /// The bytes are a command block wrapper.
    pub open spec fn is_wrapper(cbw: Seq<u8>) -> bool {
        cbw.len() >= 31 && crate::bytes::word32(cbw, 0) == CBW_SIGNATURE
    }

    /// A wrapper taken apart, before its command is carried out.
    pub open spec fn started(self, cbw: Seq<u8>) -> DriveState {
        DriveState {
            tag: crate::bytes::word32(cbw, 4),
            expected: crate::bytes::word32(cbw, 8),
            moved: 0,
            status: STATUS_GOOD,
            to_host: Seq::empty(),
            write_left: 0,
            commands: self.commands.wrapping_add(1),
            opcodes: counted(self.opcodes, cbw[15]),
            ..self
        }
    }

    /// A command block wrapper has arrived, or something that is none.
    pub open spec fn commanded(self, cbw: Seq<u8>) -> DriveState {
        if !Self::is_wrapper(cbw) {
            DriveState { status: STATUS_FAILED, phase: Phase::Status, ..self }
        } else {
            let cb = cbw.subrange(15, 31);
            let s = self.started(cbw).read_noted(cb).executed(cb);
            DriveState {
                phase: if s.expected == 0 {
                    Phase::Status
                } else if cbw[12] & 0x80 != 0 {
                    Phase::DataIn
                } else {
                    Phase::DataOut
                },
                ..s
            }
        }
    }

    /// What was asked for and did not arrive.
    pub open spec fn residue(self) -> u32 {
        if self.expected > self.moved {
            (self.expected - self.moved) as u32
        } else {
            0
        }
    }

    /// The 13-byte command status wrapper.
    pub open spec fn csw_spec(self) -> Seq<u8> {
        crate::bytes::le32(CSW_SIGNATURE) + crate::bytes::le32(self.tag) + crate::bytes::le32(
            self.residue(),
        ) + seq![self.status]
    }

    /// What a control transfer leaves behind, and what it answers.
    pub open spec fn controlled(self, setup: Seq<u8>) -> (DriveState, Option<Seq<u8>>) {
        let request = setup[1];
        let value = crate::bytes::word16(setup, 2);
        let length = crate::bytes::word16(setup, 6);
        if setup[0] & 0x60 == 0x20 {
            // Class requests, to the interface.
            if request == 0xFE {
                (self, Some(seq![0u8]))
            } else if request == 0xFF {
                (
                    DriveState {
                        phase: Phase::Command,
                        to_host: Seq::empty(),
                        write_left: 0,
                        ..self
                    },
                    Some(Seq::empty()),
                )
            } else {
                (self, None)
            }
        } else if request == 0x00 {
            (self, Some(seq![1u8, 0]))
        } else if request == 0x01 || request == 0x0B {
            (self, Some(Seq::empty()))
        } else if request == 0x05 {
            (DriveState { address: value as u8, ..self }, Some(Seq::empty()))
        } else if request == 0x06 {
            (
                self,
                match descriptor_spec((value >> 8) as u8, value as u8) {
                    Some(d) => Some(
                        if d.len() <= length {
                            d
                        } else {
                            d.take(length as int)
                        },
                    ),
                    None => None,
                },
            )
        } else if request == 0x08 {
            (
                self,
                Some(
                    seq![
                        if self.configured {
                            1u8
                        } else {
                            0
                        },
                    ],
                ),
            )
        } else if request == 0x09 {
            (DriveState { configured: value != 0, ..self }, Some(Seq::empty()))
        } else if request == 0x0A {
            (self, Some(seq![0u8]))
        } else {
            (self, None)
        }
    }

    /// What the host gets from the bulk endpoint, and what that leaves behind.
    pub open spec fn taken(self, len: int) -> (DriveState, Seq<u8>) {
        match self.phase {
            Phase::DataIn => {
                let n = if len < self.to_host.len() {
                    len
                } else {
                    self.to_host.len() as int
                };
                let rest = self.to_host.skip(n);
                (
                    DriveState {
                        to_host: rest,
                        moved: self.moved.wrapping_add(n as u32),
                        phase: if rest.len() == 0 {
                            Phase::Status
                        } else {
                            Phase::DataIn
                        },
                        ..self
                    },
                    self.to_host.take(n),
                )
            },
            Phase::DataOut => (self, Seq::empty()),
            // The host is collecting the status.
            _ => (DriveState { phase: Phase::Command, ..self }, self.csw_spec()),
        }
    }

    /// What bytes sent to the bulk endpoint do.
    pub open spec fn given(self, data: Seq<u8>) -> DriveState {
        match self.phase {
            Phase::Command => self.commanded(data),
            Phase::DataOut => {
                let n = if data.len() < self.write_left {
                    data.len() as int
                } else {
                    self.write_left as int
                };
                let moved = self.moved.wrapping_add(data.len() as u32);
                DriveState {
                    disk: crate::bytes::overlaid(self.disk, self.write_at as int, data.take(n)),
                    journal: noted(self.journal, self.write_at, n as usize),
                    write_at: self.write_at.wrapping_add(n as u64),
                    write_left: (self.write_left - n) as usize,
                    moved,
                    phase: if self.write_left - n == 0 || moved >= self.expected {
                        Phase::Status
                    } else {
                        Phase::DataOut
                    },
                    ..self
                }
            },
            _ => self,
        }
    }
}

/// A journal once a write has been noted in it.
pub open spec fn noted(journal: Option<Seq<(u64, usize)>>, at: u64, len: usize) -> Option<
    Seq<(u64, usize)>,
> {
    match journal {
        Some(j) => Some(j.push((at, len))),
        None => None,
    }
}

/// A byte is in one of the places that a journal names.
pub open spec fn covered(journal: Seq<(u64, usize)>, i: int) -> bool {
    exists|k: int|
        0 <= k < journal.len() && (#[trigger] journal[k]).0 <= i < journal[k].0 + journal[k].1
}

/// A copy of a disk is behind it by no more than what a journal names.
pub open spec fn in_step(copy: Seq<u8>, disk: Seq<u8>, journal: Seq<(u64, usize)>) -> bool {
    &&& copy.len() == disk.len()
    &&& forall|i: int| 0 <= i < disk.len() && copy[i] != disk[i] ==> covered(journal, i)
}

/// A copy of a disk with the first `k` places that a journal names read from
/// the disk and written to it.
pub open spec fn caught_up(
    copy: Seq<u8>,
    disk: Seq<u8>,
    journal: Seq<(u64, usize)>,
    k: int,
) -> Seq<u8>
    decreases k,
{
    if k <= 0 {
        copy
    } else {
        let (at, len) = journal[k - 1];
        crate::bytes::overlaid(
            caught_up(copy, disk, journal, k - 1),
            at as int,
            super::fat32::stretch(disk, at as int, len as nat),
        )
    }
}

/// What the log calls a command.
pub open spec fn name_of(op: u8) -> Seq<char> {
    if op == 0x00 {
        "TEST UNIT READY"@
    } else if op == 0x03 {
        "REQUEST SENSE"@
    } else if op == 0x12 {
        "INQUIRY"@
    } else if op == 0x1A {
        "MODE SENSE(6)"@
    } else if op == 0x1B {
        "START STOP UNIT"@
    } else if op == 0x1E {
        "PREVENT REMOVAL"@
    } else if op == 0x23 {
        "READ FORMAT CAPACITIES"@
    } else if op == 0x25 {
        "READ CAPACITY"@
    } else if op == 0x28 {
        "READ(10)"@
    } else if op == 0x2A {
        "WRITE(10)"@
    } else if op == 0x35 {
        "SYNCHRONIZE CACHE"@
    } else if op == 0x5A {
        "MODE SENSE(10)"@
    } else {
        "unknown"@
    }
}

/// One line of the log.
pub open spec fn log_line(op: u8, n: u64) -> Seq<char> {
    "\n    "@ + crate::text::byte_hex(op) + " "@ + crate::text::left_aligned(name_of(op), 22)
        + " x"@ + crate::text::decimal(n as nat)
}

/// The lines of the first `k` commands, in order.
pub open spec fn log_lines(opcodes: Map<u8, u64>, k: int) -> Seq<char>
    decreases k,
{
    if k <= 0 {
        Seq::empty()
    } else if opcodes.contains_key((k - 1) as u8) {
        log_lines(opcodes, k - 1) + log_line((k - 1) as u8, opcodes[(k - 1) as u8])
    } else {
        log_lines(opcodes, k - 1)
    }
}

fn command_name(op: u8) -> (r: &'static str)
    ensures
        r@ == name_of(op),
{
    match op {
        0x00 => "TEST UNIT READY",
        0x03 => "REQUEST SENSE",
        0x12 => "INQUIRY",
        0x1A => "MODE SENSE(6)",
        0x1B => "START STOP UNIT",
        0x1E => "PREVENT REMOVAL",
        0x23 => "READ FORMAT CAPACITIES",
        0x25 => "READ CAPACITY",
        0x28 => "READ(10)",
        0x2A => "WRITE(10)",
        0x35 => "SYNCHRONIZE CACHE",
        0x5A => "MODE SENSE(10)",
        _ => "unknown",
    }
}

fn to_vec(s: &[u8]) -> (r: Vec<u8>)
    ensures
        r@ == s@,
{
    let mut v: Vec<u8> = Vec::new();
    push_all(&mut v, s);
    assert(v@ =~= s@);
    v
}

fn text_descriptor(text: &str) -> (r: Vec<u8>)
    ensures
        r@ == string_descriptor(text@),
{
    let u: Vec<u16> = encode(text);
    let mut body: Vec<u8> = Vec::new();
    let mut i: usize = 0;
    while i < u.len()
        invariant
            i <= u@.len(),
            body@ == wide(u@.take(i as int)),
        decreases u.len() - i,
    {
        assert(u@.take(i as int + 1).drop_last() =~= u@.take(i as int));
        push16(&mut body, u[i]);
        i = i + 1;
    }
    assert(u@.take(u@.len() as int) =~= u@);
    let mut d: Vec<u8> = Vec::new();
    d.push((2 + body.len() as u128) as u8);
    d.push(3);
    push_all(&mut d, body.as_slice());
    assert(d@ =~= string_descriptor(text@));
    d
}

impl UsbDisk {
    pub fn new(store: Store) -> (r: UsbDisk)
        ensures
            r@ == DriveState::fresh(store@),
    {
        UsbDisk {
            store,
            journal: None,
            address: 0,
            configured: false,
            phase: Phase::Command,
            tag: 0,
            expected: 0,
            moved: 0,
            status: STATUS_GOOD,
            to_host: Vec::new(),
            write_at: 0,
            write_left: 0,
            sense: (0, 0, 0),
            commands: 0,
            opcodes: BTreeMap::new(),
            last_read: u32::MAX,
            repeated_reads: 0,
            highest_read: 0,
        }
    }

    pub fn blank(megabytes: usize) -> (r: UsbDisk)
        requires
            megabytes * 0x10_0000 <= usize::MAX,
        ensures
            r@ == DriveState::fresh(crate::bytes::zeroes((megabytes * 0x10_0000) as nat)),
    {
        UsbDisk::new(Store::memory(megabytes * 0x10_0000))
    }

    /// A drive whose disk is kept in a file as well.
    pub fn kept(store: Store) -> (r: UsbDisk)
        ensures
            r@ == (DriveState { journal: Some(Seq::empty()), ..DriveState::fresh(store@) }),
    {
        let mut drive = UsbDisk::new(store);
        drive.journal = Some(Vec::new());
        drive
    }

    /// What is to be copied to the file, and nothing twice.
    pub fn take_journal(&mut self) -> (r: Vec<(u64, usize)>)
        ensures
            r@ == (match old(self)@.journal {
                Some(j) => j,
                None => Seq::empty(),
            }),
            final(self)@ == (DriveState {
                journal: match old(self)@.journal {
                    Some(_) => Some(Seq::empty()),
                    None => None,
                },
                ..old(self)@
            }),
    {
        match self.journal.take() {
            Some(j) => {
                self.journal = Some(Vec::new());
                j
            },
            None => Vec::new(),
        }
    }

    /// A write has been made.
    fn note(&mut self, at: u64, len: usize)
        ensures
            final(self)@ == (DriveState {
                journal: noted(old(self)@.journal, at, len),
                ..old(self)@
            }),
    {
        if let Some(mut j) = self.journal.take() {
            j.push((at, len));
            self.journal = Some(j);
        }
    }

    pub fn sectors(&self) -> (r: u32)
        ensures
            r == self@.sectors_spec(),
    {
        self.store.sectors() as u32
    }

    pub fn descriptor(&self, kind: u8, index: u8) -> (r: Option<Vec<u8>>)
        ensures
            match r {
                Some(d) => descriptor_spec(kind, index) == Some(d@),
                None => descriptor_spec(kind, index) is None,
            },
    {
        match kind {
            1 => Some(to_vec(DEVICE_DESCRIPTOR.as_slice())),
            2 => Some(to_vec(CONFIGURATION.as_slice())),
            3 => match index {
                0 => {
                    let d: Vec<u8> = to_vec([4, 3, 0x09, 0x04].as_slice());
                    assert(d@ =~= seq![4u8, 3, 0x09, 0x04]);
                    Some(d)
                },
                1 => Some(text_descriptor("Fractal Microsystems")),
                2 => Some(text_descriptor("VBNote Storage Card")),
                3 => Some(text_descriptor("VBNOTE0001")),
                _ => None,
            },
            _ => None,
        }
    }

    /// A command block wrapper has arrived.
    fn command(&mut self, cbw: &[u8])
        ensures
            final(self)@ == old(self)@.commanded(cbw@),
    {
        if cbw.len() < 31 || get32(cbw, 0) != CBW_SIGNATURE {
            // Not a wrapper. A real device stalls; pretending it was fine
            // would desynchronise the transport for good.
            self.status = STATUS_FAILED;
            self.phase = Phase::Status;
            return ;
        }
        self.tag = get32(cbw, 4);
        self.expected = get32(cbw, 8);
        let to_host = cbw[12] & 0x80 != 0;
        self.moved = 0;
        self.status = STATUS_GOOD;
        self.to_host = Vec::new();
        self.write_left = 0;
        self.commands = self.commands.wrapping_add(1);
        let cb: Vec<u8> = copy_range(cbw, 15, 31);
        self.count(cb[0]);
        assert(self@ == old(self)@.started(cbw@));
        if cb[0] == 0x28 {
            let lba: u32 = get32_be(cb.as_slice(), 2);
            if lba == self.last_read {
                self.repeated_reads = self.repeated_reads.wrapping_add(1);
            }
            self.last_read = lba;
            if lba > self.highest_read {
                self.highest_read = lba;
            }
        }
        self.scsi(cb.as_slice());
        self.phase = if self.expected == 0 {
            Phase::Status
        } else if to_host {
            Phase::DataIn
        } else {
            Phase::DataOut
        };
    }

    /// Count a command in the log.
    fn count(&mut self, op: u8)
        ensures
            final(self)@ == (DriveState {
                opcodes: counted(old(self)@.opcodes, op),
                ..old(self)@
            }),
    {
        let n: u64 = match self.opcodes.get(&op) {
            Some(n) => *n,
            None => 0,
        };
        self.opcodes.insert(op, n.wrapping_add(1));
    }

    fn fail(&mut self, key: u8, asc: u8, ascq: u8)
        ensures
            final(self)@ == old(self)@.failed(key, asc, ascq),
    {
        self.status = STATUS_FAILED;
        self.sense = (key, asc, ascq);
    }

    fn scsi(&mut self, cb: &[u8])
        requires
            cb.len() == 16,
        ensures
            final(self)@ == old(self)@.executed(cb@),
    {
        let lba: u64 = get32_be(cb, 2) as u64;
        let n: u64 = get16_be(cb, 7) as u64;
        match cb[0] {
            // TEST UNIT READY: no data, and ready is the answer.
            0x00 => {
                self.sense = (0, 0, 0);
            },
            // REQUEST SENSE.
            0x03 => {
                let (key, asc, ascq): (u8, u8, u8) = self.sense;
                let d: Vec<u8> = to_vec(
                    [0x70, 0, key, 0, 0, 0, 0, 10, 0, 0, 0, 0, asc, ascq, 0, 0, 0, 0].as_slice(),
                );
                assert(d@ =~= self@.sense_data());
                self.to_host = d;
                self.sense = (0, 0, 0);
            },
            // INQUIRY. The strings are padded to their fixed widths because
            // the fields are fixed-width, not terminated.
            0x12 => {
                let mut d: Vec<u8> = Vec::new();
                // A direct access block device, removable, SCSI-2, and 31
                // bytes more.
                push_all(&mut d, [0x00, 0x80, 0x02, 0x02, 31, 0, 0, 0].as_slice());
                push_all(&mut d, VENDOR.as_slice());
                push_all(&mut d, PRODUCT.as_slice());
                push_all(&mut d, RELEASE.as_slice());
                assert(d@ =~= seq![0x00u8, 0x80, 0x02, 0x02, 31, 0, 0, 0] + VENDOR@ + PRODUCT@
                    + RELEASE@);
                self.to_host = d;
            },
            // MODE SENSE(6): a minimal header, not write protected.
            0x1A => {
                let d: Vec<u8> = to_vec([3, 0, 0, 0].as_slice());
                assert(d@ =~= seq![3u8, 0, 0, 0]);
                self.to_host = d;
            },
            // PREVENT/ALLOW MEDIUM REMOVAL, START STOP UNIT, SYNCHRONIZE
            // CACHE: nothing to do, and all three must succeed or the driver
            // decides the device is faulty.
            0x1E | 0x1B | 0x35 => {},
            // READ CAPACITY(10): the address of the *last* sector, not the
            // count. One out here is a disk one sector too big, and the error
            // only shows up when something reads the end of it.
            0x25 => {
                let last: u32 = self.sectors().saturating_sub(1);
                let mut d: Vec<u8> = Vec::new();
                push32_be(&mut d, last);
                push32_be(&mut d, 512);
                assert(d@ =~= crate::bytes::be32(last) + crate::bytes::be32(512));
                self.to_host = d;
            },
            // READ(10).
            0x28 => {
                if lba * 512 + n * 512 > self.store.len() {
                    // Logical block address out of range.
                    self.fail(5, 0x21, 0);
                } else {
                    self.to_host = self.store.read(lba * 512, (n * 512) as usize);
                }
            },
            // WRITE(10).
            0x2A => {
                if lba * 512 + n * 512 > self.store.len() {
                    self.fail(5, 0x21, 0);
                } else {
                    self.write_at = lba * 512;
                    self.write_left = (n * 512) as usize;
                }
            },
            // Anything else: invalid command operation code. Saying so is
            // better than succeeding, which leaves the driver believing
            // something happened.
            _ => {
                self.fail(5, 0x20, 0);
            },
        }
    }

    /// The 13-byte command status wrapper.
    fn csw(&self) -> (r: Vec<u8>)
        ensures
            r@ == self@.csw_spec(),
    {
        let mut d: Vec<u8> = Vec::new();
        push32(&mut d, CSW_SIGNATURE);
        push32(&mut d, self.tag);
        // Residue is what was asked for and did not arrive.
        push32(&mut d, self.expected.saturating_sub(self.moved));
        d.push(self.status);
        assert(d@ =~= self@.csw_spec());
        d
    }

    /// What has been asked of the drive, for the log.
    pub fn summary(&self) -> (r: String)
        ensures
            r@ == log_lines(self@.opcodes, 256) + "\n    reads: highest block "@
                + crate::text::decimal(self.highest_read as nat) + ", "@ + crate::text::decimal(
                self.repeated_reads as nat,
            ) + " asked for twice running"@,
    {
        let mut out = String::new();
        let mut op: u16 = 0;
        while op < 256
            invariant
                op <= 256,
                out@ == log_lines(self@.opcodes, op as int),
            decreases 256 - op,
        {
            if let Some(n) = self.opcodes.get(&(op as u8)) {
                let ghost before = out@;
                out.append("\n    ");
                push_byte_hex(&mut out, op as u8);
                out.append(" ");
                push_left_aligned(&mut out, command_name(op as u8), 22);
                out.append(" x");
                push_decimal(&mut out, *n);
                assert(out@ =~= before + log_line(op as u8, *n));
            }
            op = op + 1;
        }
        let ghost lines = out@;
        out.append("\n    reads: highest block ");
        push_decimal(&mut out, self.highest_read as u64);
        out.append(", ");
        push_decimal(&mut out, self.repeated_reads);
        out.append(" asked for twice running");
        assert(out@ =~= lines + "\n    reads: highest block "@ + crate::text::decimal(
            self.highest_read as nat,
        ) + ", "@ + crate::text::decimal(self.repeated_reads as nat)
            + " asked for twice running"@);
        out
    }
}

impl Device for UsbDisk {
    open spec fn controlled(s: DriveState, setup: Seq<u8>, data: Seq<u8>) -> (
        DriveState,
        Option<Seq<u8>>,
    ) {
        s.controlled(setup)
    }

    open spec fn taken(s: DriveState, endpoint: u8, len: int) -> (DriveState, Seq<u8>) {
        s.taken(len)
    }

    open spec fn given(s: DriveState, endpoint: u8, data: Seq<u8>) -> DriveState {
        s.given(data)
    }

    fn commands(&self) -> (r: u64)
        ensures
            r == self@.commands,
    {
        self.commands
    }

    fn address(&self) -> (r: u8)
        ensures
            r == self@.address,
    {
        self.address
    }

    fn control(&mut self, setup: &[u8; 8], _data_out: &[u8]) -> (r: Option<Vec<u8>>) {
        let request: u8 = setup[1];
        let value: u16 = (setup[2] as u16) | ((setup[3] as u16) << 8);
        let length: usize = ((setup[6] as u16) | ((setup[7] as u16) << 8)) as usize;

        // Class requests, to the interface.
        if setup[0] & 0x60 == 0x20 {
            return match request {
                // GET MAX LUN: one drive, so zero.
                0xFE => {
                    let d: Vec<u8> = to_vec([0].as_slice());
                    assert(d@ =~= seq![0u8]);
                    Some(d)
                },
                // Bulk-only mass storage reset: back to waiting for a command.
                0xFF => {
                    self.phase = Phase::Command;
                    self.to_host = Vec::new();
                    self.write_left = 0;
                    Some(Vec::new())
                },
                _ => None,
            };
        }
        match request {
            // GET_STATUS: self-powered, not remote-wakeup.
            0x00 => {
                let d: Vec<u8> = to_vec([1, 0].as_slice());
                assert(d@ =~= seq![1u8, 0]);
                Some(d)
            },
            // CLEAR_FEATURE, on an endpoint: clearing a halt. SET_INTERFACE.
            0x01 | 0x0B => Some(Vec::new()),
            // SET_ADDRESS.
            0x05 => {
                self.address = value as u8;
                Some(Vec::new())
            },
            // GET_DESCRIPTOR. Truncated to what was asked for, because the
            // host reads the first eight bytes to find out how long the real
            // answer is before asking again.
            0x06 => match self.descriptor((value >> 8) as u8, value as u8) {
                Some(d) => if d.len() <= length {
                    Some(d)
                } else {
                    let short: Vec<u8> = copy_range(d.as_slice(), 0, length);
                    assert(short@ =~= d@.take(length as int));
                    Some(short)
                },
                None => None,
            },
            // GET_CONFIGURATION / SET_CONFIGURATION.
            0x08 => {
                let d: Vec<u8> = to_vec(
                    [
                        if self.configured {
                            1
                        } else {
                            0
                        },
                    ].as_slice(),
                );
                assert(d@ =~= self@.controlled(setup@).1->0);
                Some(d)
            },
            0x09 => {
                self.configured = value != 0;
                Some(Vec::new())
            },
            // The query behind SET_INTERFACE.
            0x0A => {
                let d: Vec<u8> = to_vec([0].as_slice());
                assert(d@ =~= seq![0u8]);
                Some(d)
            },
            _ => None,
        }
    }

    fn bulk_in(&mut self, _endpoint: u8, len: usize) -> (r: Vec<u8>) {
        match self.phase {
            Phase::DataIn => {
                let n: usize = if len < self.to_host.len() {
                    len
                } else {
                    self.to_host.len()
                };
                let out: Vec<u8> = copy_range(self.to_host.as_slice(), 0, n);
                let rest: Vec<u8> = copy_range(self.to_host.as_slice(), n, self.to_host.len());
                assert(out@ =~= self.to_host@.take(n as int));
                assert(rest@ =~= self.to_host@.skip(n as int));
                self.to_host = rest;
                self.moved = self.moved.wrapping_add(n as u32);
                if self.to_host.len() == 0 {
                    self.phase = Phase::Status;
                }
                out
            },
            // The host is collecting the status.
            Phase::Status | Phase::Command => {
                let csw: Vec<u8> = self.csw();
                self.phase = Phase::Command;
                csw
            },
            Phase::DataOut => Vec::new(),
        }
    }

    fn bulk_out(&mut self, _endpoint: u8, data: &[u8]) {
        match self.phase {
            Phase::Command => {
                self.command(data);
            },
            Phase::DataOut => {
                let n: usize = if data.len() < self.write_left {
                    data.len()
                } else {
                    self.write_left
                };
                let part: Vec<u8> = copy_range(data, 0, n);
                assert(part@ =~= data@.take(n as int));
                self.store.write(self.write_at, part.as_slice());
                self.note(self.write_at, n);
                self.write_at = self.write_at.wrapping_add(n as u64);
                self.write_left = self.write_left - n;
                self.moved = self.moved.wrapping_add(data.len() as u32);
                if self.write_left == 0 || self.moved >= self.expected {
                    self.phase = Phase::Status;
                }
            },
            _ => {},
        }
    }
}

/// The status carries the tag of the command it answers, what did not arrive
/// of what was asked for, and how it went.
pub proof fn law_status_answers_the_command(s: DriveState)
    ensures
        s.csw_spec().len() == 13,
        crate::bytes::word32(s.csw_spec(), 0) == CSW_SIGNATURE,
        crate::bytes::word32(s.csw_spec(), 4) == s.tag,
        crate::bytes::word32(s.csw_spec(), 8) == s.residue(),
        s.csw_spec()[12] == s.status,
{
    let c = s.csw_spec();
    crate::bytes::lemma_word32_round_trip(CSW_SIGNATURE);
    crate::bytes::lemma_word32_round_trip(s.tag);
    crate::bytes::lemma_word32_round_trip(s.residue());
    assert(c[4] == s.tag as u8 && c[5] == (s.tag >> 8) as u8 && c[6] == (s.tag >> 16) as u8 && c[7]
        == (s.tag >> 24) as u8);
    assert(c[8] == s.residue() as u8 && c[9] == (s.residue() >> 8) as u8 && c[10] == (s.residue()
        >> 16) as u8 && c[11] == (s.residue() >> 24) as u8);
}

/// Blocks that were written in one go read back as what was sent, and the
/// write is answered with success.
pub proof fn law_blocks_written_read_back(
    s: DriveState,
    write: Seq<u8>,
    data: Seq<u8>,
    read: Seq<u8>,
)
    requires
        s.phase == Phase::Command,
        DriveState::is_wrapper(write),
        DriveState::is_wrapper(read),
        write[15] == 0x2A,
        write[12] & 0x80 == 0,
        read[15] == 0x28,
        read[12] & 0x80 != 0,
        lba_of(write.subrange(15, 31)) == lba_of(read.subrange(15, 31)),
        count_of(write.subrange(15, 31)) == count_of(read.subrange(15, 31)),
        s.in_range(write.subrange(15, 31)),
        count_of(write.subrange(15, 31)) > 0,
        data.len() == count_of(write.subrange(15, 31)) * 512,
        crate::bytes::word32(write, 8) == data.len(),
        crate::bytes::word32(read, 8) == data.len(),
    ensures
        ({
            let written = s.given(write).given(data);
            let answered = written.taken(13).0;
            let asked = answered.given(read);
            &&& written.phase == Phase::Status
            &&& written.status == STATUS_GOOD
            &&& written.residue() == 0
            &&& asked.taken(data.len() as int).1 == data
        }),
{
    let wb = write.subrange(15, 31);
    let rb = read.subrange(15, 31);
    assert(wb[0] == 0x2A);
    assert(rb[0] == 0x28);
    let started = s.given(write);
    assert(started.phase == Phase::DataOut);
    let written = started.given(data);
    assert(data.take(data.len() as int) =~= data);
    let answered = written.taken(13).0;
    let asked = answered.given(read);
    super::fat32::law_read_after_write(s.disk, lba_of(wb) * 512, data);
    assert(asked.to_host == data);
    assert(data.take(data.len() as int) =~= data);
}

/// Data for a write may come in pieces: two that follow one another do what
/// both together would, but for how the journal puts it.
pub proof fn law_writes_may_come_in_pieces(s: DriveState, a: Seq<u8>, b: Seq<u8>)
    requires
        s.phase == Phase::DataOut,
        a.len() + b.len() <= s.write_left,
        a.len() < s.write_left,
        s.write_at + s.write_left <= s.disk.len(),
        s.disk.len() <= u64::MAX,
        s.moved + a.len() < s.expected,
        s.moved + a.len() + b.len() <= u32::MAX,
    ensures
        s.given(a).phase == Phase::DataOut,
        (DriveState { journal: None, ..s.given(a).given(b) }) == (DriveState {
            journal: None,
            ..s.given(a + b)
        }),
{
    assert(a.take(a.len() as int) =~= a);
    assert(b.take(b.len() as int) =~= b);
    assert((a + b).take((a + b).len() as int) =~= a + b);
    assert(s.given(a).given(b).disk =~= s.given(a + b).disk);
}

/// Whatever the guest sends, the journal names every byte of the disk that it
/// changes.
pub proof fn law_the_journal_names_what_changes(s: DriveState, copy: Seq<u8>, data: Seq<u8>)
    requires
        s.journal is Some,
        in_step(copy, s.disk, s.journal->0),
    ensures
        s.given(data).journal is Some,
        in_step(copy, s.given(data).disk, s.given(data).journal->0),
{
    let now = s.given(data);
    let j = s.journal->0;
    let jj = now.journal->0;
    assert forall|i: int| 0 <= i < now.disk.len() && copy[i] != now.disk[i] implies covered(
        jj,
        i,
    ) by {
        if s.phase == Phase::DataOut {
            if copy[i] != s.disk[i] {
                let k = choose|k: int|
                    0 <= k < j.len() && (#[trigger] j[k]).0 <= i < j[k].0 + j[k].1;
                assert(jj[k] == j[k]);
            } else {
                assert(jj[j.len() as int].0 <= i < jj[j.len() as int].0 + jj[j.len() as int].1);
            }
        } else {
            assert(jj == j);
        }
    }
}

/// Copying to the file what the journal names leaves the file like the disk.
pub proof fn law_the_journal_is_enough(copy: Seq<u8>, disk: Seq<u8>, journal: Seq<(u64, usize)>)
    requires
        in_step(copy, disk, journal),
    ensures
        caught_up(copy, disk, journal, journal.len() as int) == disk,
{
    lemma_caught_up(copy, disk, journal, journal.len() as int);
    let now = caught_up(copy, disk, journal, journal.len() as int);
    assert forall|i: int| 0 <= i < disk.len() implies now[i] == disk[i] by {
        if copy[i] != disk[i] {
            let k = choose|k: int|
                0 <= k < journal.len() && (#[trigger] journal[k]).0 <= i < journal[k].0
                    + journal[k].1;
            assert(covered(journal.take(journal.len() as int), i)) by {
                assert(journal.take(journal.len() as int)[k] == journal[k]);
            }
        }
    }
    assert(now =~= disk);
}

proof fn lemma_caught_up(copy: Seq<u8>, disk: Seq<u8>, journal: Seq<(u64, usize)>, k: int)
    requires
        copy.len() == disk.len(),
        0 <= k <= journal.len(),
    ensures
        caught_up(copy, disk, journal, k).len() == disk.len(),
        forall|i: int|
            0 <= i < disk.len() ==> (#[trigger] caught_up(copy, disk, journal, k)[i] == disk[i] || (
            !covered(journal.take(k), i) && caught_up(copy, disk, journal, k)[i] == copy[i])),
    decreases k,
{
    if k > 0 {
        lemma_caught_up(copy, disk, journal, k - 1);
        let before = caught_up(copy, disk, journal, k - 1);
        let now = caught_up(copy, disk, journal, k);
        assert forall|i: int| 0 <= i < disk.len() implies now[i] == disk[i] || (!covered(
            journal.take(k),
            i,
        ) && now[i] == copy[i]) by {
            let (at, len) = journal[k - 1];
            if !(at <= i < at + len) {
                assert(now[i] == before[i]);
                if covered(journal.take(k), i) {
                    let w = choose|w: int|
                        0 <= w < k && (#[trigger] journal.take(k)[w]).0 <= i
                            < journal.take(k)[w].0 + journal.take(k)[w].1;
                    assert(journal.take(k - 1)[w] == journal.take(k)[w]);
                }
            }
        }
    }
}

/// Data from a read may be taken in pieces: what two reads that follow one
/// another give is what one of both lengths would.
pub proof fn law_reads_may_be_taken_in_pieces(s: DriveState, m: nat, n: nat)
    requires
        s.phase == Phase::DataIn,
        m < s.to_host.len(),
        m + n <= s.to_host.len(),
        s.moved + m + n <= u32::MAX,
    ensures
        s.taken(m as int).1 + s.taken(m as int).0.taken(n as int).1 == s.taken((m + n) as int).1,
        s.taken(m as int).0.taken(n as int).0 == s.taken((m + n) as int).0,
{
    assert(s.to_host.skip(m as int).skip(n as int) =~= s.to_host.skip((m + n) as int));
    assert(s.taken(m as int).1 + s.taken(m as int).0.taken(n as int).1 =~= s.to_host.take(
        (m + n) as int,
    ));
}

/// A command that the drive does not know is refused, and says why.
pub proof fn law_unknown_commands_are_refused(s: DriveState, cb: Seq<u8>)
    requires
        cb.len() == 16,
        cb[0] != 0x00 && cb[0] != 0x03 && cb[0] != 0x12 && cb[0] != 0x1A && cb[0] != 0x1B && cb[0]
            != 0x1E && cb[0] != 0x25 && cb[0] != 0x28 && cb[0] != 0x2A && cb[0] != 0x35,
    ensures
        s.executed(cb).status == STATUS_FAILED,
        s.executed(cb).sense == (5u8, 0x20u8, 0u8),
        s.executed(cb).disk == s.disk,
{
}

/// The number that four bytes of a command spell, the first of them highest.
pub open spec fn block_number(cbw: Seq<u8>) -> int {
    cbw[17] * 0x100_0000 + cbw[18] * 0x1_0000 + cbw[19] * 0x100 + cbw[20]
}

/// The number of blocks that a command spells, the first byte higher.
pub open spec fn block_count(cbw: Seq<u8>) -> int {
    cbw[22] * 0x100 + cbw[23]
}

proof fn lemma_places(cbw: Seq<u8>)
    requires
        cbw.len() >= 31,
    ensures
        ({
            let cb = cbw.subrange(15, 31);
            &&& lba_of(cb) == block_number(cbw)
            &&& count_of(cb) == block_count(cbw)
            &&& cb[0] == cbw[15]
        }),
{
    crate::bytes::law_the_first_byte_is_lowest(cbw[20], cbw[19], cbw[18], cbw[17], 0, 0);
    crate::bytes::law_the_first_byte_is_lowest(cbw[23], cbw[22], 0, 0, 0, 0);
}

/// A read command offers the disk's bytes from the block it names on, as many
/// blocks as it asks for, and leaves the disk alone. Where the blocks are not
/// all there it offers nothing, fails, and says that the address was out of
/// range.
pub proof fn law_a_read_offers_the_blocks_it_names(s: DriveState, cbw: Seq<u8>)
    requires
        s.phase == Phase::Command,
        DriveState::is_wrapper(cbw),
        cbw[15] == 0x28,
        cbw[12] & 0x80 != 0,
        crate::bytes::word32(cbw, 8) > 0,
    ensures
        ({
            let from = block_number(cbw) * 512;
            let to = from + block_count(cbw) * 512;
            let asked = s.given(cbw);
            &&& asked.disk == s.disk
            &&& asked.phase == Phase::DataIn
            &&& to <= s.disk.len() ==> asked.status == STATUS_GOOD && asked.to_host
                == s.disk.subrange(from, to)
            &&& to > s.disk.len() ==> asked.status == STATUS_FAILED && asked.to_host.len() == 0
                && asked.sense == (5u8, 0x21u8, 0u8)
        }),
{
    lemma_places(cbw);
    let from = block_number(cbw) * 512;
    let to = from + block_count(cbw) * 512;
    if to <= s.disk.len() {
        assert(s.given(cbw).to_host =~= s.disk.subrange(from, to));
    }
}

impl DriveState {
    /// The drive after pieces of data were sent to it, one after another.
    pub open spec fn after_pieces(self, pieces: Seq<Seq<u8>>) -> DriveState
        decreases pieces.len(),
    {
        if pieces.len() == 0 {
            self
        } else {
            self.after_pieces(pieces.drop_last()).given(pieces.last())
        }
    }
}

/// All the bytes of some pieces.
pub open spec fn joined(pieces: Seq<Seq<u8>>) -> Seq<u8>
    decreases pieces.len(),
{
    if pieces.len() == 0 {
        Seq::empty()
    } else {
        joined(pieces.drop_last()) + pieces.last()
    }
}

/// A write that has begun, after some pieces of it.
proof fn lemma_pieces(s: DriveState, pieces: Seq<Seq<u8>>)
    requires
        s.phase == Phase::DataOut,
        s.write_at + s.write_left <= s.disk.len(),
        s.disk.len() <= u64::MAX,
        s.moved == 0,
        s.expected == s.write_left,
        s.expected > 0,
        joined(pieces).len() <= s.write_left,
        forall|k: int| 0 <= k < pieces.len() ==> (#[trigger] pieces[k]).len() > 0,
    ensures
        ({
            let d = s.after_pieces(pieces);
            let n = joined(pieces).len();
            &&& d.disk == crate::bytes::overlaid(s.disk, s.write_at as int, joined(pieces))
            &&& d.write_at == s.write_at + n
            &&& d.write_left == s.write_left - n
            &&& d.moved == n
            &&& d.expected == s.expected
            &&& d.status == s.status
            &&& d.tag == s.tag
            &&& d.phase == if n == s.write_left {
                Phase::Status
            } else {
                Phase::DataOut
            }
        }),
    decreases pieces.len(),
{
    if pieces.len() == 0 {
        assert(crate::bytes::overlaid(s.disk, s.write_at as int, joined(pieces)) =~= s.disk);
    } else {
        let front = pieces.drop_last();
        let last = pieces.last();
        assert(pieces[pieces.len() - 1].len() > 0);
        assert forall|k: int| 0 <= k < front.len() implies (#[trigger] front[k]).len() > 0 by {
            assert(front[k] == pieces[k]);
        }
        lemma_pieces(s, front);
        assert(last.take(last.len() as int) =~= last);
        assert(s.after_pieces(pieces).disk =~= crate::bytes::overlaid(
            s.disk,
            s.write_at as int,
            joined(pieces),
        ));
    }
}

/// A write command and its data, in whatever pieces they come, put the bytes on
/// the disk from the block that the command names on, in order, and change no
/// other byte. Once all have come the status says that it went well and that
/// nothing is missing.
pub proof fn law_a_write_lands_in_the_blocks_it_names(
    s: DriveState,
    cbw: Seq<u8>,
    pieces: Seq<Seq<u8>>,
)
    requires
        s.phase == Phase::Command,
        DriveState::is_wrapper(cbw),
        cbw[15] == 0x2A,
        cbw[12] & 0x80 == 0,
        block_count(cbw) > 0,
        crate::bytes::word32(cbw, 8) == block_count(cbw) * 512,
        (block_number(cbw) + block_count(cbw)) * 512 <= s.disk.len() <= u64::MAX,
        joined(pieces).len() <= block_count(cbw) * 512,
        forall|k: int| 0 <= k < pieces.len() ==> (#[trigger] pieces[k]).len() > 0,
    ensures
        ({
            let from = block_number(cbw) * 512;
            let d = s.given(cbw).after_pieces(pieces);
            &&& d.disk.len() == s.disk.len()
            &&& forall|i: int|
                #![trigger d.disk[i]]
                0 <= i < s.disk.len() ==> d.disk[i] == if from <= i < from + joined(pieces).len() {
                    joined(pieces)[i - from]
                } else {
                    s.disk[i]
                }
            &&& joined(pieces).len() == block_count(cbw) * 512 ==> d.phase == Phase::Status
                && d.status == STATUS_GOOD && d.residue() == 0
            &&& joined(pieces).len() < block_count(cbw) * 512 ==> d.phase == Phase::DataOut
        }),
{
    lemma_places(cbw);
    lemma_pieces(s.given(cbw), pieces);
}

/// Nothing but a write that is under way changes the disk: no command that is
/// sent does, nor anything that is read, nor a control transfer. A write that
/// would not fit is refused and changes nothing.
pub proof fn law_only_write_data_changes_the_disk(
    s: DriveState,
    data: Seq<u8>,
    len: int,
    setup: Seq<u8>,
)
    ensures
        s.phase != Phase::DataOut ==> s.given(data).disk == s.disk,
        s.taken(len).0.disk == s.disk,
        s.controlled(setup).0.disk == s.disk,
        s.phase == Phase::DataOut && s.write_left == 0 ==> s.given(data).disk == s.disk,
        s.phase == Phase::Command && DriveState::is_wrapper(data) && data[15] == 0x2A && (
        block_number(data) + block_count(data)) * 512 > s.disk.len() ==> s.given(data).write_left
            == 0 && s.given(data).status == STATUS_FAILED && s.given(data).sense == (
            5u8,
            0x21u8,
            0u8,
        ),
{
    if s.phase == Phase::DataOut && s.write_left == 0 {
        assert(s.given(data).disk =~= s.disk);
    }
    if DriveState::is_wrapper(data) {
        lemma_places(data);
    }
}

/// The drive tells how large it is: the number of its last block, and the size
/// of a block, each the highest byte first.
pub proof fn law_the_drive_tells_its_size(s: DriveState, cb: Seq<u8>)
    requires
        cb.len() == 16,
        cb[0] == 0x25,
        512 <= s.disk.len() <= 0xFFFF_FFFF * 512,
    ensures
        ({
            let answer = s.executed(cb).to_host;
            &&& answer.len() == 8
            &&& answer[0] * 0x100_0000 + answer[1] * 0x1_0000 + answer[2] * 0x100 + answer[3]
                == s.disk.len() / 512 - 1
            &&& answer[4] * 0x100_0000 + answer[5] * 0x1_0000 + answer[6] * 0x100 + answer[7] == 512
        }),
{
    let last = (s.sectors_spec() - 1) as u32;
    crate::bytes::law_the_first_byte_is_lowest(0, 0, 0, 0, last, 0);
    crate::bytes::law_the_first_byte_is_lowest(0, 0, 0, 0, 512, 0);
    let a = crate::bytes::be32(last);
    let b = crate::bytes::be32(512);
    let answer = s.executed(cb).to_host;
    assert(answer == a + b);
    assert(answer[4] == b[0] && answer[5] == b[1] && answer[6] == b[2] && answer[7] == b[3]);
}

/// Why a command failed is told to whoever asks next, and only once.
pub proof fn law_the_reason_is_told_once(s: DriveState, ask: Seq<u8>)
    requires
        ask.len() == 16,
        ask[0] == 0x03,
    ensures
        ({
            let told = s.executed(ask);
            &&& told.to_host.len() == 18
            &&& told.to_host[2] == s.sense.0
            &&& told.to_host[12] == s.sense.1
            &&& told.to_host[13] == s.sense.2
            &&& told.executed(ask).to_host[2] == 0
            &&& told.executed(ask).to_host[12] == 0
        }),
{
}

/// A conversation has three parts: the command, the data where there are any,
/// and the status, after which the drive takes the next command. Data run out
/// brings the status, and so does a command for which no data are expected or
/// that is none at all.
pub proof fn law_a_conversation_ends_with_the_status(s: DriveState, cbw: Seq<u8>, len: int)
    requires
        len >= 0,
    ensures
        s.phase == Phase::Status ==> s.taken(len).0.phase == Phase::Command && s.taken(len).1
            == s.csw_spec() && s.given(cbw) == s,
        s.phase == Phase::DataIn && len >= s.to_host.len() ==> s.taken(len).0.phase == Phase::Status
            && s.taken(len).1 == s.to_host,
        s.phase == Phase::DataIn && len < s.to_host.len() ==> s.taken(len).0.phase == Phase::DataIn,
        s.phase == Phase::Command && !DriveState::is_wrapper(cbw) ==> s.given(cbw).phase
            == Phase::Status && s.given(cbw).status == STATUS_FAILED,
        s.phase == Phase::Command && DriveState::is_wrapper(cbw) && crate::bytes::word32(cbw, 8)
            == 0 ==> s.given(cbw).phase == Phase::Status,
        s.phase == Phase::Command && DriveState::is_wrapper(cbw) ==> s.given(cbw).tag
            == crate::bytes::word32(cbw, 4) && s.given(cbw).expected == crate::bytes::word32(
            cbw,
            8,
        ),
{
    if s.phase == Phase::DataIn && len >= s.to_host.len() {
        assert(s.to_host.take(s.to_host.len() as int) =~= s.to_host);
    }
}

/// The status says what did not arrive of what was expected: all of it before
/// anything has moved, less as it moves, and nothing once it has.
pub proof fn law_the_residue_is_what_is_missing(s: DriveState, len: int)
    requires
        s.phase == Phase::DataIn,
        0 <= len,
        s.moved + s.to_host.len() <= s.expected,
    ensures
        ({
            let n = if len < s.to_host.len() {
                len
            } else {
                s.to_host.len() as int
            };
            s.taken(len).0.residue() == s.residue() - n
        }),
{
}

/// Commands are counted, and each kind apart; a read is noted with the block it
/// asked for, whether that was the block asked for last, and the furthest yet.
pub proof fn law_commands_are_noted(s: DriveState, cbw: Seq<u8>, other: u8)
    requires
        s.phase == Phase::Command,
        DriveState::is_wrapper(cbw),
        s.commands < u64::MAX,
        s.repeated_reads < u64::MAX,
        s.opcodes.contains_key(cbw[15]) ==> s.opcodes[cbw[15]] < u64::MAX,
        other != cbw[15],
    ensures
        ({
            let d = s.given(cbw);
            let n = if s.opcodes.contains_key(cbw[15]) {
                s.opcodes[cbw[15]] as int
            } else {
                0
            };
            &&& d.commands == s.commands + 1
            &&& d.opcodes.contains_key(cbw[15]) && d.opcodes[cbw[15]] == n + 1
            &&& d.opcodes.contains_key(other) == s.opcodes.contains_key(other)
            &&& s.opcodes.contains_key(other) ==> d.opcodes[other] == s.opcodes[other]
            &&& cbw[15] == 0x28 ==> d.last_read == block_number(cbw) && d.repeated_reads
                == s.repeated_reads + (if s.last_read == block_number(cbw) {
                1int
            } else {
                0
            }) && d.highest_read == if block_number(cbw) > s.highest_read {
                block_number(cbw)
            } else {
                s.highest_read as int
            }
            &&& cbw[15] != 0x28 ==> d.last_read == s.last_read && d.repeated_reads
                == s.repeated_reads
        }),
{
    lemma_places(cbw);
}

/// A descriptor is answered as far as the host asked for it, and one that the
/// drive does not have is refused. An address and a configuration that are set
/// are kept.
pub proof fn law_descriptors_are_cut_to_length(s: DriveState, setup: Seq<u8>)
    requires
        setup.len() == 8,
        setup[0] & 0x60 != 0x20,
    ensures
        ({
            let (after, answer) = s.controlled(setup);
            let length = setup[6] + 0x100 * setup[7];
            &&& setup[1] == 0x06 ==> after == s && match descriptor_spec(setup[3], setup[2]) {
                Some(d) => answer is Some && answer->0 == d.take(
                    if d.len() < length {
                        d.len() as int
                    } else {
                        length
                    },
                ),
                None => answer is None,
            }
            &&& setup[1] == 0x05 ==> after.address == setup[2]
            &&& setup[1] == 0x09 ==> after.configured == (setup[2] != 0 || setup[3] != 0)
            &&& setup[1] == 0x08 ==> answer == Some(
                seq![
                    if s.configured {
                        1u8
                    } else {
                        0u8
                    },
                ],
            )
        }),
{
    let v = crate::bytes::word16(setup, 2);
    crate::bytes::law_the_first_byte_is_lowest(setup[2], setup[3], 0, 0, 0, 0);
    crate::bytes::law_the_first_byte_is_lowest(setup[6], setup[7], 0, 0, 0, 0);
    crate::bytes::lemma_bytes32_round_trip(setup[2], setup[3], 0, 0);
    assert(crate::bytes::le16(v)[0] == seq![setup[2], setup[3]][0]);
    assert(crate::bytes::le16(v)[1] == seq![setup[2], setup[3]][1]);
    assert(v as u8 == setup[2] && (v >> 8) as u8 == setup[3]);
    match descriptor_spec(setup[3], setup[2]) {
        Some(d) => {
            assert(d.take(d.len() as int) =~= d);
        },
        None => {},
    }
}

} // verus!
