//! A disk the machine can use without being asked to make one.
//!
//! Windows CE 4.2 will partition and format storage it is given, and for the
//! SD card it does exactly that. It cannot be relied on here, so the drive
//! arrives already partitioned and already formatted and the guest only has
//! to mount it.
//!
//! Formatting a volume touches the boot sector, the information sector, two
//! file allocation tables and the root directory, and nothing else, so making
//! one is quick however large it is. [`layout`] says what has to be written
//! where, and [`format`] writes it.
//!
//! # Backing, and why it is not only a `Vec`
//!
//! A 32 GB disk is 32 GB of memory if it is held as bytes. It is held sparsely
//! instead: the metadata is written and the rest of it costs nothing until
//! something is stored there.
//!
//! # 32 GB
//!
//! The cap is not arbitrary and is not this emulator's: Windows itself will
//! not *create* a FAT32 volume larger than 32 GB, and a disk this machine
//! cannot read is no use to anybody. Cluster sizes follow the same table
//! Windows uses, for the same reason.

use super::sparse::SparseDisk;
use crate::bytes::{filled, push16, push32, push_all, push_zeroes, put_all};
use crate::text::push_decimal;
use vstd::prelude::*;
use vstd::string::*;

verus! {

pub const SECTOR: u64 = 512;

/// The largest volume to make. Windows will not format FAT32 above this, so
/// a bigger one would be a disk the user's own computer could not write to.
pub const MAX_MEGABYTES: usize = 32768;

/// The smallest that can honestly be called FAT32.
///
/// The format is defined by its cluster count: fewer than 65525 and it is a
/// FAT16 volume wearing the wrong label, which a driver is entitled to reject.
pub const MIN_MEGABYTES: usize = 64;

/// Where the volume starts. One megabyte in, which is what every modern tool
/// does and what alignment-sensitive media expect.
pub const PARTITION_START: u64 = 2048;

/// Sectors in front of the first table.
pub const RESERVED: u64 = 32;

/// How many copies of the table there are: two, the conventional number. The
/// second is the one a damaged volume is recovered from.
pub const TABLES: u64 = 2;

/// The fewest clusters a FAT32 volume may have.
pub const MIN_CLUSTERS: u64 = 65525;

/// Bytes, wherever they are actually kept.
///
/// Two backings: all of them, which a small disk can afford, or no more than
/// what has been stored, which a large one needs.
pub enum Store {
    Memory(Vec<u8>),
    Sparse(SparseDisk),
}

impl View for Store {
    type V = Seq<u8>;

    open spec fn view(&self) -> Seq<u8> {
        match self {
            Store::Memory(v) => v@,
            Store::Sparse(d) => d@,
        }
    }
}

/// `len` bytes of a disk from `at` on. Past its end stand zeroes.
pub open spec fn stretch(disk: Seq<u8>, at: int, len: nat) -> Seq<u8> {
    Seq::new(
        len,
        |i: int|
            if at + i < disk.len() {
                disk[at + i]
            } else {
                0
            },
    )
}

/// A disk made long enough for `data` at `at`, with it in place.
pub open spec fn extended(disk: Seq<u8>, at: int, data: Seq<u8>) -> Seq<u8> {
    let end = at + data.len();
    let longer = if disk.len() < end {
        disk + crate::bytes::zeroes((end - disk.len()) as nat)
    } else {
        disk
    };
    crate::bytes::overlaid(longer, at, data)
}

impl Store {
    pub fn memory(bytes: usize) -> (r: Store)
        ensures
            r@ == crate::bytes::zeroes(bytes as nat),
    {
        Store::Memory(filled(bytes, 0))
    }

    /// A disk with nothing on it, which costs nothing until something is
    /// stored there.
    pub fn sparse(bytes: u64) -> (r: Store)
        ensures
            r@ == crate::bytes::zeroes(bytes as nat),
    {
        Store::Sparse(SparseDisk::new(bytes))
    }

    pub fn len(&self) -> (r: u64)
        ensures
            r == self@.len(),
    {
        match self {
            Store::Memory(v) => v.len() as u64,
            Store::Sparse(d) => d.len,
        }
    }

    pub fn is_empty(&self) -> (r: bool)
        ensures
            r == (self@.len() == 0),
    {
        self.len() == 0
    }

    pub fn sectors(&self) -> (r: u64)
        ensures
            r == self@.len() / 512,
            r <= 0x7F_FFFF_FFFF_FFFF,
    {
        self.len() / SECTOR
    }

    pub fn read(&self, at: u64, len: usize) -> (r: Vec<u8>)
        ensures
            r@ == stretch(self@, at as int, len as nat),
    {
        match self {
            Store::Sparse(d) => d.read(at, len),
            Store::Memory(v) => {
                let mut out: Vec<u8> = Vec::new();
                let mut i: usize = 0;
                while i < len
                    invariant
                        i <= len,
                        v@ == self@,
                        out@ =~= stretch(self@, at as int, i as nat),
                    decreases len - i,
                {
                    // A read past the end is a read of what was never
                    // written, which is zeroes.
                    let b: u8 = if at < v.len() as u64 && i < v.len() - at as usize {
                        v[at as usize + i]
                    } else {
                        0
                    };
                    out.push(b);
                    i = i + 1;
                }
                out
            },
        }
    }

    /// Write. What lies past the end of the disk is dropped.
    pub fn write(&mut self, at: u64, data: &[u8])
        ensures
            final(self)@ == crate::bytes::overlaid(old(self)@, at as int, data@),
    {
        match self {
            Store::Sparse(d) => {
                d.write(at, data);
            },
            Store::Memory(v) => {
                let ghost start = v@;
                if at < v.len() as u64 {
                    let from: usize = at as usize;
                    let room: usize = v.len() - from;
                    let mut i: usize = 0;
                    while i < data.len() && i < room
                        invariant
                            i <= data@.len(),
                            i <= room,
                            from == at,
                            from + room == v.len(),
                            v@ =~= crate::bytes::overlaid(start, from as int, data@.take(i as int)),
                        decreases data.len() - i,
                    {
                        v[from + i] = data[i];
                        i = i + 1;
                    }
                    assert(v@ =~= crate::bytes::overlaid(start, at as int, data@));
                } else {
                    assert(v@ =~= crate::bytes::overlaid(start, at as int, data@));
                }
            },
        }
    }

    /// Write beyond the disk's own length.
    ///
    /// Only one thing is out there: the VHD footer, which belongs to the file
    /// rather than to the disk. Ordinary writes are refused past the end, and
    /// should be.
    pub fn write_past_end(&mut self, at: u64, data: &[u8]) -> (r: Result<(), String>)
        requires
            at + data.len() <= usize::MAX,
        ensures
            r is Ok,
            final(self)@ == extended(old(self)@, at as int, data@),
    {
        match self {
            Store::Sparse(d) => {
                let end: u64 = at + data.len() as u64;
                if d.len < end {
                    d.grow(end);
                }
                d.write(at, data);
            },
            Store::Memory(v) => {
                let ghost start = v@;
                let from: usize = at as usize;
                let end: usize = from + data.len();
                if v.len() < end {
                    let more: usize = end - v.len();
                    push_zeroes(v, more);
                }
                put_all(v, from, data);
                assert(v@ == extended(start, at as int, data@));
            },
        }
        Ok(())
    }

    /// See that everything written has reached the medium. Both backings are
    /// memory, so there is nothing to do.
    pub fn sync(&mut self)
        ensures
            final(self)@ == old(self)@,
    {
    }
}

/// How big a cluster to use: the largest of the sizes Windows uses that still
/// leaves 70,000 clusters, which is comfortably FAT32; one sector if none
/// does.
pub open spec fn cluster_size(total_sectors: int) -> u32 {
    if total_sectors / 64 >= 70_000 {
        64
    } else if total_sectors / 32 >= 70_000 {
        32
    } else if total_sectors / 16 >= 70_000 {
        16
    } else if total_sectors / 8 >= 70_000 {
        8
    } else if total_sectors / 4 >= 70_000 {
        4
    } else if total_sectors / 2 >= 70_000 {
        2
    } else {
        1
    }
}

/// How big a cluster to use, following Windows' own table.
///
/// Getting this wrong is not a formatting detail: too small and the file
/// allocation table for a large volume becomes enormous, too large and a
/// small volume has too few clusters to be FAT32 at all.
///
/// Asking the drive how much space is free means **reading the whole table**,
/// one sector at a time, so the largest cluster that still leaves enough of
/// them wins. 70,000 rather than the bare 65,525 minimum: a volume that sits
/// exactly on the line is one a slightly different arithmetic somewhere else
/// rejects.
pub fn sectors_per_cluster(total_sectors: u64) -> (r: u32)
    ensures
        r == cluster_size(total_sectors as int),
{
    let mut spc: u32 = 64;
    while spc > 1
        invariant
            spc == 64 || spc == 32 || spc == 16 || spc == 8 || spc == 4 || spc == 2 || spc == 1,
            spc < 64 ==> total_sectors / 64 < 70_000,
            spc < 32 ==> total_sectors / 32 < 70_000,
            spc < 16 ==> total_sectors / 16 < 70_000,
            spc < 8 ==> total_sectors / 8 < 70_000,
            spc < 4 ==> total_sectors / 4 < 70_000,
            spc < 2 ==> total_sectors / 2 < 70_000,
        decreases spc,
    {
        if total_sectors / spc as u64 >= 70_000 {
            return spc;
        }
        spc = spc / 2;
    }
    1
}

/// How a volume is laid out.
#[derive(Debug, Clone, Copy, PartialEq, Eq, Structural)]
pub struct Layout {
    pub volume_sectors: u64,
    pub spc: u32,
    pub fat_sectors: u32,
    /// The first sector of the data, counted from the start of the volume.
    pub data_start: u64,
    pub clusters: u64,
}

/// Why a disk cannot be formatted.
#[derive(Debug, Clone, Copy, PartialEq, Eq, Structural)]
pub enum TooSmall {
    ForPartition,
    ForTable,
    ForFat32 { clusters: u64 },
}

impl TooSmall {
    pub open spec fn text(self) -> Seq<char> {
        match self {
            TooSmall::ForPartition => "the disk is too small to hold a partition"@,
            TooSmall::ForTable => "the disk is too small for a file allocation table"@,
            TooSmall::ForFat32 { clusters } => crate::text::decimal(clusters as nat)
                + " clusters is too few for FAT32; the disk must be at least 64 MB"@,
        }
    }

    pub fn message(&self) -> (r: String)
        ensures
            r@ == self.text(),
    {
        let mut s = String::new();
        match *self {
            TooSmall::ForPartition => {
                s.append("the disk is too small to hold a partition");
            },
            TooSmall::ForTable => {
                s.append("the disk is too small for a file allocation table");
            },
            TooSmall::ForFat32 { clusters } => {
                push_decimal(&mut s, clusters);
                s.append(" clusters is too few for FAT32; the disk must be at least 64 MB");
            },
        }
        assert(s@ =~= self.text());
        s
    }
}

/// How many clusters there might be, when each also costs eight bytes of
/// table.
pub open spec fn approx_clusters(total: int) -> int {
    (total - PARTITION_START - RESERVED) * 512 / (cluster_size(total) * 512 + 8)
}

/// How many sectors one table takes.
pub open spec fn table_sectors(total: int) -> int {
    ((approx_clusters(total) + 2) * 4 + 511) / 512
}

/// The layout of a disk of `total` sectors.
pub open spec fn layout_spec(total: int) -> Layout {
    let volume_sectors = total - PARTITION_START;
    let spc = cluster_size(total);
    let fat_sectors = table_sectors(total) as u32;
    let data_start = RESERVED + TABLES * fat_sectors;
    Layout {
        volume_sectors: volume_sectors as u64,
        spc,
        fat_sectors,
        data_start: data_start as u64,
        clusters: ((volume_sectors - data_start) / spc as int) as u64,
    }
}

/// What is wrong with a disk of `total` sectors, if anything.
pub open spec fn flaw(total: int) -> Option<TooSmall> {
    let l = layout_spec(total);
    if total <= PARTITION_START {
        Some(TooSmall::ForPartition)
    } else if total - PARTITION_START < RESERVED || RESERVED + TABLES * l.fat_sectors
        >= l.volume_sectors {
        Some(TooSmall::ForTable)
    } else if l.clusters < MIN_CLUSTERS {
        Some(TooSmall::ForFat32 { clusters: l.clusters })
    } else {
        None
    }
}

/// Work out how a disk of `total` sectors is laid out.
///
/// The table has to fit the clusters, and the clusters are what is left after
/// the table -- so it is solved rather than counted.
pub fn layout(total: u64) -> (r: Result<Layout, TooSmall>)
    requires
        total <= 0x7F_FFFF_FFFF_FFFF,
    ensures
        match r {
            Ok(l) => flaw(total as int) is None && l == layout_spec(total as int),
            Err(e) => flaw(total as int) == Some(e),
        },
{
    if total <= PARTITION_START {
        return Err(TooSmall::ForPartition);
    }
    let volume_sectors: u64 = total - PARTITION_START;
    if volume_sectors < RESERVED {
        return Err(TooSmall::ForTable);
    }
    let spc: u32 = sectors_per_cluster(total);
    let bytes_per_cluster: u64 = spc as u64 * SECTOR;
    let approx: u64 = (volume_sectors - RESERVED) * SECTOR / (bytes_per_cluster + 8);
    assert(approx == approx_clusters(total as int));
    assert(approx * 520 <= (volume_sectors - RESERVED) * SECTOR) by (nonlinear_arith)
        requires
            approx == (volume_sectors - RESERVED) * SECTOR / (bytes_per_cluster + 8),
            bytes_per_cluster >= 512,
            volume_sectors >= RESERVED,
    ;
    let fat_sectors: u32 = (((approx + 2) * 4 + 511) / 512) as u32;
    let data_start: u64 = RESERVED + TABLES * fat_sectors as u64;
    if data_start >= volume_sectors {
        return Err(TooSmall::ForTable);
    }
    let clusters: u64 = (volume_sectors - data_start) / spc as u64;
    if clusters < MIN_CLUSTERS {
        return Err(TooSmall::ForFat32 { clusters });
    }
    Ok(Layout { volume_sectors, spc, fat_sectors, data_start, clusters })
}

/// An ASCII letter made a capital.
pub open spec fn upper(c: u8) -> u8 {
    if 0x61 <= c <= 0x7A {
        (c - 0x20) as u8
    } else {
        c
    }
}

/// A volume label is 11 bytes, space padded, upper case, and not terminated.
pub open spec fn label_spec(label: Seq<u8>) -> Seq<u8> {
    Seq::new(
        11,
        |i: int|
            if i < label.len() {
                upper(label[i])
            } else {
                0x20
            },
    )
}

fn label_bytes(label: &str) -> (r: Vec<u8>)
    ensures
        r@ == label_spec(label.spec_bytes()),
{
    let text: &[u8] = label.as_bytes();
    let mut out: Vec<u8> = Vec::new();
    let mut i: usize = 0;
    while i < 11
        invariant
            i <= 11,
            text@ == label.spec_bytes(),
            out@ =~= label_spec(text@).take(i as int),
        decreases 11 - i,
    {
        if i < text.len() {
            let c: u8 = text[i];
            if 0x61 <= c && c <= 0x7A {
                out.push(c - 0x20);
            } else {
                out.push(c);
            }
        } else {
            out.push(0x20);
        }
        i = i + 1;
    }
    out
}

/// The first sector of the disk: one partition, FAT32 with LBA addressing.
pub open spec fn mbr_spec(volume_sectors: u64) -> Seq<u8> {
    crate::bytes::zeroes(446) + seq![0x00u8, 0xFE, 0xFF, 0xFF, 0x0C, 0xFE, 0xFF, 0xFF]
        + crate::bytes::le32(PARTITION_START as u32) + crate::bytes::le32(volume_sectors as u32)
        + crate::bytes::zeroes(48) + seq![0x55u8, 0xAA]
}

fn mbr(volume_sectors: u64) -> (r: Vec<u8>)
    ensures
        r@ == mbr_spec(volume_sectors),
{
    let mut v: Vec<u8> = Vec::new();
    push_zeroes(&mut v, 446);
    // Not bootable, and cylinder/head/sector fields nobody reads any more,
    // filled with the conventional "use LBA instead" values. 0x0C is FAT32
    // with LBA addressing; 0x0B, the one without, invites a driver to try
    // geometry that is not there.
    push_all(&mut v, [0x00, 0xFE, 0xFF, 0xFF, 0x0C, 0xFE, 0xFF, 0xFF].as_slice());
    push32(&mut v, PARTITION_START as u32);
    push32(&mut v, volume_sectors as u32);
    push_zeroes(&mut v, 48);
    push_all(&mut v, [0x55, 0xAA].as_slice());
    assert(v@ =~= mbr_spec(volume_sectors));
    v
}

/// `MSWIN4.1`, which some drivers insist on.
pub const OEM_NAME: [u8; 8] = [0x4D, 0x53, 0x57, 0x49, 0x4E, 0x34, 0x2E, 0x31];

/// `FAT32   `.
pub const FILE_SYSTEM: [u8; 8] = [0x46, 0x41, 0x54, 0x33, 0x32, 0x20, 0x20, 0x20];

/// The first sector of the volume. Root entries and the 16-bit totals are zero
/// on FAT32, and that is how a driver tells which format it is looking at.
pub open spec fn boot_spec(l: Layout, label: Seq<u8>) -> Seq<u8> {
    seq![0xEBu8, 0x58, 0x90] + OEM_NAME@ + crate::bytes::le16(512) + seq![l.spc as u8]
        + crate::bytes::le16(RESERVED as u16) + seq![TABLES as u8] + crate::bytes::zeroes(4) + seq![
        0xF8u8,
    ] + crate::bytes::zeroes(2) + crate::bytes::le16(63) + crate::bytes::le16(255)
        + crate::bytes::le32(PARTITION_START as u32) + crate::bytes::le32(l.volume_sectors as u32)
        + crate::bytes::le32(l.fat_sectors) + crate::bytes::zeroes(4) + crate::bytes::le32(2)
        + crate::bytes::le16(1) + crate::bytes::le16(6) + crate::bytes::zeroes(12) + seq![
        0x80u8,
        0,
        0x29,
    ] + crate::bytes::le32(0x5642_4E31) + label_spec(label) + FILE_SYSTEM@ + crate::bytes::zeroes(
        420,
    ) + seq![0x55u8, 0xAA]
}

fn boot_sector(l: Layout, label: &str) -> (r: Vec<u8>)
    ensures
        r@ == boot_spec(l, label.spec_bytes()),
{
    let mut b: Vec<u8> = Vec::new();
    push_all(&mut b, [0xEB, 0x58, 0x90].as_slice());
    push_all(&mut b, OEM_NAME.as_slice());
    push16(&mut b, 512);
    b.push(l.spc as u8);
    push16(&mut b, RESERVED as u16);
    b.push(TABLES as u8);
    push_zeroes(&mut b, 4);
    b.push(0xF8);
    push_zeroes(&mut b, 2);
    push16(&mut b, 63);
    push16(&mut b, 255);
    push32(&mut b, PARTITION_START as u32);
    push32(&mut b, l.volume_sectors as u32);
    push32(&mut b, l.fat_sectors);
    push_zeroes(&mut b, 4);
    push32(&mut b, 2);  // root starts at cluster 2
    push16(&mut b, 1);  // information sector
    push16(&mut b, 6);  // backup boot sector
    push_zeroes(&mut b, 12);
    push_all(&mut b, [0x80, 0, 0x29].as_slice());
    push32(&mut b, 0x5642_4E31);
    let text: Vec<u8> = label_bytes(label);
    push_all(&mut b, text.as_slice());
    push_all(&mut b, FILE_SYSTEM.as_slice());
    push_zeroes(&mut b, 420);
    push_all(&mut b, [0x55, 0xAA].as_slice());
    assert(b@ =~= boot_spec(l, label.spec_bytes()));
    b
}

/// The information sector: everything but the root directory's one cluster is
/// free, and the next to try is the third.
pub open spec fn info_spec(clusters: u64) -> Seq<u8> {
    seq![0x52u8, 0x52, 0x61, 0x41] + crate::bytes::zeroes(480) + seq![0x72u8, 0x72, 0x41, 0x61]
        + crate::bytes::le32((clusters - 1) as u32) + crate::bytes::le32(3) + crate::bytes::zeroes(
        12,
    ) + seq![0x00u8, 0x00, 0x55, 0xAA]
}

fn fs_info(clusters: u64) -> (r: Vec<u8>)
    requires
        clusters > 0,
    ensures
        r@ == info_spec(clusters),
{
    let mut s: Vec<u8> = Vec::new();
    push_all(&mut s, [0x52, 0x52, 0x61, 0x41].as_slice());
    push_zeroes(&mut s, 480);
    push_all(&mut s, [0x72, 0x72, 0x41, 0x61].as_slice());
    push32(&mut s, (clusters - 1) as u32);
    push32(&mut s, 3);
    push_zeroes(&mut s, 12);
    push_all(&mut s, [0x00, 0x00, 0x55, 0xAA].as_slice());
    assert(s@ =~= info_spec(clusters));
    s
}

/// The start of a table: two reserved entries, and one that ends the root
/// directory's chain.
pub open spec fn table_spec() -> Seq<u8> {
    crate::bytes::le32(0x0FFF_FFF8) + crate::bytes::le32(0x0FFF_FFFF) + crate::bytes::le32(
        0x0FFF_FFFF,
    )
}

/// The root directory: one volume label entry.
pub open spec fn label_entry_spec(label: Seq<u8>) -> Seq<u8> {
    label_spec(label) + seq![0x08u8] + crate::bytes::zeroes(20)
}

fn volume_label_entry(label: &str) -> (r: Vec<u8>)
    ensures
        r@ == label_entry_spec(label.spec_bytes()),
{
    let mut e: Vec<u8> = label_bytes(label);
    e.push(0x08);
    push_zeroes(&mut e, 20);
    assert(e@ =~= label_entry_spec(label.spec_bytes()));
    e
}

/// One stretch of a disk to write.
pub struct Piece {
    pub at: u64,
    pub data: Vec<u8>,
}

/// Where the volume starts, in bytes.
pub open spec fn volume_at() -> int {
    PARTITION_START * 512
}

/// Where table `n` starts.
pub open spec fn table_at(l: Layout, n: int) -> int {
    volume_at() + (RESERVED + n * l.fat_sectors) * 512
}

/// Where the root directory starts.
pub open spec fn root_at(l: Layout) -> int {
    (PARTITION_START + l.data_start) * 512
}

/// What formatting writes, and where: the partition table, the boot sector and
/// its backup, the information sector and its backup, both tables and the root
/// directory. The rest is zero, which is what a free cluster is.
pub open spec fn pieces_spec(l: Layout, label: Seq<u8>) -> Seq<(int, Seq<u8>)> {
    seq![
        (0int, mbr_spec(l.volume_sectors)),
        (volume_at(), boot_spec(l, label)),
        (volume_at() + 6 * 512, boot_spec(l, label)),
        (volume_at() + 512, info_spec(l.clusters)),
        (volume_at() + 7 * 512, info_spec(l.clusters)),
        (table_at(l, 0), table_spec()),
        (table_at(l, 1), table_spec()),
        (root_at(l), label_entry_spec(label)),
    ]
}

/// The disk with the first `n` pieces written.
pub open spec fn with_pieces(disk: Seq<u8>, pieces: Seq<(int, Seq<u8>)>, n: int) -> Seq<u8>
    decreases n,
{
    if n <= 0 {
        disk
    } else {
        crate::bytes::overlaid(
            with_pieces(disk, pieces, n - 1),
            pieces[n - 1].0,
            pieces[n - 1].1,
        )
    }
}

/// A formatted disk.
pub open spec fn formatted(disk: Seq<u8>, l: Layout, label: Seq<u8>) -> Seq<u8> {
    with_pieces(disk, pieces_spec(l, label), 8)
}

/// What to write, and where, to format a disk that is laid out like this.
pub fn pieces(l: Layout, label: &str) -> (r: Vec<Piece>)
    requires
        l.clusters > 0,
        l.data_start <= 0x1_0000_0000_0000,
    ensures
        r@.len() == 8,
        forall|i: int|
            0 <= i < 8 ==> (#[trigger] r@[i]).at == pieces_spec(l, label.spec_bytes())[i].0
                && r@[i].data@ == pieces_spec(l, label.spec_bytes())[i].1,
{
    let base: u64 = PARTITION_START * SECTOR;
    let mut out: Vec<Piece> = Vec::new();
    out.push(Piece { at: 0, data: mbr(l.volume_sectors) });
    out.push(Piece { at: base, data: boot_sector(l, label) });
    // The backup, six sectors in, which a driver falls back to if the first
    // one is unreadable.
    out.push(Piece { at: base + 6 * SECTOR, data: boot_sector(l, label) });
    out.push(Piece { at: base + SECTOR, data: fs_info(l.clusters) });
    out.push(Piece { at: base + 7 * SECTOR, data: fs_info(l.clusters) });
    out.push(Piece { at: base + RESERVED * SECTOR, data: table() });
    out.push(
        Piece { at: base + (RESERVED + l.fat_sectors as u64) * SECTOR, data: table() },
    );
    out.push(
        Piece {
            at: (PARTITION_START + l.data_start) * SECTOR,
            data: volume_label_entry(label),
        },
    );
    out
}

fn table() -> (r: Vec<u8>)
    ensures
        r@ == table_spec(),
{
    let mut t: Vec<u8> = Vec::new();
    push32(&mut t, 0x0FFF_FFF8);
    push32(&mut t, 0x0FFF_FFFF);
    push32(&mut t, 0x0FFF_FFFF);
    assert(t@ =~= table_spec());
    t
}

/// Lay down a partition table and a FAT32 volume.
pub fn format(store: &mut Store, label: &str) -> (r: Result<(), String>)
    ensures
        match flaw(old(store)@.len() as int / 512) {
            None => r is Ok && final(store)@ == formatted(
                old(store)@,
                layout_spec(old(store)@.len() as int / 512),
                label.spec_bytes(),
            ),
            Some(e) => r is Err && r->Err_0@ == e.text() && final(store)@ == old(store)@,
        },
{
    let total: u64 = store.sectors();
    let l: Layout = match layout(total) {
        Ok(l) => l,
        Err(e) => {
            return Err(e.message());
        },
    };
    let todo: Vec<Piece> = pieces(l, label);
    let ghost all = pieces_spec(l, label.spec_bytes());
    let mut i: usize = 0;
    while i < todo.len()
        invariant
            i <= 8,
            todo@.len() == 8,
            forall|j: int|
                0 <= j < 8 ==> (#[trigger] todo@[j]).at == all[j].0 && todo@[j].data@ == all[j].1,
            store@ == with_pieces(old(store)@, all, i as int),
        decreases todo.len() - i,
    {
        store.write(todo[i].at, todo[i].data.as_slice());
        i = i + 1;
    }
    store.sync();
    Ok(())
}

/// The VHD footer's size, and its cookie, which is how one is recognised.
pub const FOOTER: u64 = 512;

/// `conectix`.
pub const FOOTER_COOKIE: [u8; 8] = [0x63, 0x6F, 0x6E, 0x65, 0x63, 0x74, 0x69, 0x78];

/// How much of a file of `len` bytes is the disk: everything in front of the
/// VHD footer, if `tail`, the eight bytes that stand where one would start,
/// says that there is one. Handing the guest the footer as if it were a sector
/// would put a stray sector of metadata at the end of its disk.
pub fn disk_length(len: u64, tail: &[u8]) -> (r: u64)
    ensures
        r == (if len > FOOTER && tail@ == FOOTER_COOKIE@ {
            (len - FOOTER) as u64
        } else {
            len
        }),
{
    if len > FOOTER && tail.len() == 8 && super::patch::same_bytes(
        tail,
        0,
        FOOTER_COOKIE.as_slice(),
        0,
        8,
    ) {
        assert(tail@.subrange(0, 8) =~= tail@);
        assert(FOOTER_COOKIE@.subrange(0, 8) =~= FOOTER_COOKIE@);
        len - FOOTER
    } else {
        assert(tail@.len() == 8 ==> tail@.subrange(0, 8) =~= tail@);
        assert(FOOTER_COOKIE@.subrange(0, 8) =~= FOOTER_COOKIE@);
        len
    }
}

/// What is read is what was written, where there is a disk to hold it.
pub proof fn law_read_after_write(disk: Seq<u8>, at: int, data: Seq<u8>)
    requires
        0 <= at,
        at + data.len() <= disk.len(),
    ensures
        stretch(crate::bytes::overlaid(disk, at, data), at, data.len()) == data,
{
    assert(stretch(crate::bytes::overlaid(disk, at, data), at, data.len()) =~= data);
}

/// The cluster size chosen always leaves enough clusters to be FAT32 where a
/// single sector would, and no larger size leaves comfortably many.
pub proof fn law_clusters_as_large_as_can_be(total: int)
    requires
        total >= 65525,
    ensures
        total / cluster_size(total) as int >= 65525,
        cluster_size(total) < 64 ==> total / (2 * cluster_size(total)) < 70_000,
{
}

/// A disk with fewer sectors than FAT32 needs clusters is refused.
pub proof fn law_small_disks_are_refused(total: int)
    requires
        0 <= total < MIN_CLUSTERS,
    ensures
        flaw(total) is Some,
{
    let l = layout_spec(total);
    if total > PARTITION_START && total - PARTITION_START >= RESERVED {
        let fat = table_sectors(total);
        let spc = cluster_size(total) as int;
        assert(spc == 1);
        assert(approx_clusters(total) == (total - PARTITION_START - RESERVED) * 512 / 520) by {
            assert(spc * 512 + 8 == 520);
        }
        assert(0 <= fat <= 0x1_0000);
    }
}

/// Every size that is offered makes a volume.
pub proof fn law_allowed_sizes_format(megabytes: int)
    requires
        MIN_MEGABYTES <= megabytes <= MAX_MEGABYTES,
    ensures
        flaw(megabytes * 2048) is None,
{
    let total = megabytes * 2048;
    lemma_room(total, 64);
    lemma_room(total, 32);
    lemma_room(total, 16);
    lemma_room(total, 8);
    lemma_room(total, 4);
    lemma_room(total, 2);
    lemma_room(total, 1);
}

/// With clusters of a size that leaves enough of them, the tables leave
/// enough too.
proof fn lemma_room(total: int, spc: int)
    requires
        131_072 <= total <= 67_108_864,
        spc == 64 || spc == 32 || spc == 16 || spc == 8 || spc == 4 || spc == 2 || spc == 1,
    ensures
        ({
            let approx = (total - PARTITION_START - RESERVED) * 512 / (spc * 512 + 8);
            let fat = ((approx + 2) * 4 + 511) / 512;
            let left = total - PARTITION_START - RESERVED - TABLES * fat;
            total / spc >= 70_000 ==> {
                &&& 0 <= fat <= 0x10_0000
                &&& left > 0
                &&& left / spc >= MIN_CLUSTERS
            }
        }),
{
    let room = (total - PARTITION_START - RESERVED) * 512;
    if spc == 64 {
        assert(room / (spc * 512 + 8) == room / 32776);
    } else if spc == 32 {
        assert(room / (spc * 512 + 8) == room / 16392);
    } else if spc == 16 {
        assert(room / (spc * 512 + 8) == room / 8200);
    } else if spc == 8 {
        assert(room / (spc * 512 + 8) == room / 4104);
    } else if spc == 4 {
        assert(room / (spc * 512 + 8) == room / 2056);
    } else if spc == 2 {
        assert(room / (spc * 512 + 8) == room / 1032);
    } else {
        assert(room / (spc * 512 + 8) == room / 520);
    }
}

/// A layout hangs together: both tables and the data are on the volume, less
/// than one cluster of it is left over, and each table has an entry for every
/// cluster, and the two that it keeps for itself.
#[verifier::rlimit(40)]
pub proof fn law_the_layout_fits(total: int)
    requires
        flaw(total) is None,
        total <= 0xFFFF_FFFF,
    ensures
        ({
            let l = layout_spec(total);
            &&& l.volume_sectors == total - PARTITION_START
            &&& l.data_start == RESERVED + 2 * l.fat_sectors
            &&& l.data_start + l.clusters * l.spc <= l.volume_sectors
            &&& l.volume_sectors < l.data_start + l.clusters * l.spc + l.spc
            &&& (l.clusters + 2) * 4 <= l.fat_sectors * 512
        }),
{
    let l = layout_spec(total);
    let spc = cluster_size(total) as int;
    let v = total - PARTITION_START;
    let room = (v - RESERVED) * 512;
    let per = spc * 512 + 8;
    let approx = approx_clusters(total);
    let t = table_sectors(total);
    assert(approx * per <= room < approx * per + per) by (nonlinear_arith)
        requires
            approx == room / per,
            per > 0,
    ;
    assert(0 <= approx <= room) by (nonlinear_arith)
        requires
            approx == room / per,
            per >= 1,
            room >= 0,
    ;
    assert((approx + 2) * 4 <= t * 512);
    assert(approx * 512 <= room) by (nonlinear_arith)
        requires
            approx * per <= room,
            per >= 512,
            approx >= 0,
    ;
    let c = (v - RESERVED - 2 * t) / spc;
    assert(l.clusters == c);
    assert(c * spc <= v - RESERVED - 2 * t < c * spc + spc) by (nonlinear_arith)
        requires
            c == (v - RESERVED - 2 * t) / spc,
            spc > 0,
    ;
    assert(l.clusters * l.spc == c * spc);
    if c >= approx + 1 {
        assert(c * spc * 512 >= (approx + 1) * spc * 512) by (nonlinear_arith)
            requires
                c >= approx + 1,
                spc > 0,
        ;
        assert(approx * per == approx * spc * 512 + approx * 8) by (nonlinear_arith)
            requires
                per == spc * 512 + 8,
        ;
        assert((approx + 1) * spc * 512 == approx * spc * 512 + spc * 512) by (nonlinear_arith);
        assert(false);
    }
}

/// The first sector of a formatted disk says where the volume is, at the places
/// where a driver looks for it.
pub proof fn law_the_partition_is_named(volume_sectors: u64)
    requires
        volume_sectors <= u32::MAX,
    ensures
        ({
            let m = mbr_spec(volume_sectors);
            &&& m.len() == 512
            &&& m[510] == 0x55 && m[511] == 0xAA
            &&& m[450] == 0x0C
            &&& crate::bytes::word32(m, 454) == PARTITION_START
            &&& crate::bytes::word32(m, 458) == volume_sectors
        }),
{
    let m = mbr_spec(volume_sectors);
    lemma_number(m, 454, PARTITION_START as u32);
    lemma_number(m, 458, volume_sectors as u32);
}

/// The first sector of a volume says how it is laid out, at the places where a
/// driver looks for it.
pub proof fn law_the_boot_sector_tells_the_layout(l: Layout, label: Seq<u8>)
    requires
        l.volume_sectors <= u32::MAX,
        l.spc < 256,
    ensures
        ({
            let b = boot_spec(l, label);
            &&& crate::bytes::word16(b, 11) == 512
            &&& b[13] == l.spc
            &&& crate::bytes::word16(b, 14) == RESERVED
            &&& b[16] == 2
            &&& crate::bytes::word32(b, 28) == PARTITION_START
            &&& crate::bytes::word32(b, 32) == l.volume_sectors
            &&& crate::bytes::word32(b, 36) == l.fat_sectors
            &&& crate::bytes::word32(b, 44) == 2
            &&& crate::bytes::word16(b, 48) == 1
            &&& crate::bytes::word16(b, 50) == 6
        }),
{
    lemma_boot_shape(l, label);
    lemma_boot_places(l, label);
    lemma_boot_root(l, label);
}

#[verifier::rlimit(40)]
proof fn lemma_boot_shape(l: Layout, label: Seq<u8>)
    requires
        l.spc < 256,
    ensures
        crate::bytes::word16(boot_spec(l, label), 11) == 512,
        boot_spec(l, label)[13] == l.spc,
        crate::bytes::word16(boot_spec(l, label), 14) == RESERVED,
        boot_spec(l, label)[16] == 2,
{
    let b = boot_spec(l, label);
    lemma_half(b, 11, 512);
    lemma_half(b, 14, RESERVED as u16);
}

#[verifier::rlimit(40)]
proof fn lemma_boot_places(l: Layout, label: Seq<u8>)
    requires
        l.volume_sectors <= u32::MAX,
    ensures
        crate::bytes::word32(boot_spec(l, label), 28) == PARTITION_START,
        crate::bytes::word32(boot_spec(l, label), 32) == l.volume_sectors,
        crate::bytes::word32(boot_spec(l, label), 36) == l.fat_sectors,
{
    let b = boot_spec(l, label);
    lemma_number(b, 28, PARTITION_START as u32);
    lemma_number(b, 32, l.volume_sectors as u32);
    lemma_number(b, 36, l.fat_sectors);
}

#[verifier::rlimit(40)]
proof fn lemma_boot_root(l: Layout, label: Seq<u8>)
    ensures
        crate::bytes::word32(boot_spec(l, label), 44) == 2,
        crate::bytes::word16(boot_spec(l, label), 48) == 1,
        crate::bytes::word16(boot_spec(l, label), 50) == 6,
{
    let b = boot_spec(l, label);
    lemma_number(b, 44, 2);
    lemma_half(b, 48, 1);
    lemma_half(b, 50, 6);
}

/// The information sector says how many clusters are free, all but the one that
/// the root directory has, and where to look for them first.
pub proof fn law_the_free_clusters_are_counted(clusters: u64)
    requires
        0 < clusters <= u32::MAX,
    ensures
        ({
            let s = info_spec(clusters);
            &&& s.len() == 512
            &&& s[510] == 0x55 && s[511] == 0xAA
            &&& crate::bytes::word32(s, 488) == clusters - 1
            &&& crate::bytes::word32(s, 492) == 3
        }),
{
    let s = info_spec(clusters);
    lemma_number(s, 488, (clusters - 1) as u32);
    lemma_number(s, 492, 3);
}

/// A number that stands in a sector, low byte first, is read there.
proof fn lemma_number(s: Seq<u8>, at: int, v: u32)
    ensures
        0 <= at && at + 4 <= s.len() && s[at] == v as u8 && s[at + 1] == (v >> 8) as u8 && s[at + 2]
            == (v >> 16) as u8 && s[at + 3] == (v >> 24) as u8 ==> crate::bytes::word32(s, at) == v,
{
    crate::bytes::lemma_word32_round_trip(v);
}

proof fn lemma_half(s: Seq<u8>, at: int, v: u16)
    ensures
        0 <= at && at + 2 <= s.len() && s[at] == v as u8 && s[at + 1] == (v >> 8) as u8
            ==> crate::bytes::word16(s, at) == v,
{
    crate::bytes::lemma_word16_round_trip(v);
}

/// A disk that is written to past its end grows as far as that takes, and no
/// further; what was written reads back, what was there before stays, and what
/// lies between reads as zeroes.
pub proof fn law_a_disk_grows_to_hold_what_is_written(disk: Seq<u8>, at: int, data: Seq<u8>, i: int)
    requires
        0 <= at,
        0 <= i,
    ensures
        ({
            let d = extended(disk, at, data);
            &&& d.len() == if at + data.len() > disk.len() {
                at + data.len()
            } else {
                disk.len() as int
            }
            &&& stretch(d, at, data.len()) == data
            &&& i < disk.len() && !(at <= i < at + data.len()) ==> d[i] == disk[i]
            &&& disk.len() <= i < at && data.len() > 0 ==> d[i] == 0
        }),
{
    assert(stretch(extended(disk, at, data), at, data.len()) =~= data);
}

} // verus!
