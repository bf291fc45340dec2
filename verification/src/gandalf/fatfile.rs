//! Reading and writing files in the FAT32 volume the drive holds.
//!
//! This is what makes the drive useful from the host side: files can be put
//! on it and taken off it without the machine running and without asking
//! anybody for administrator rights.
//!
//! # Only the root directory, deliberately
//!
//! The drive is a place to carry things between two machines, not a place to
//! keep them. Documents live on the flash disk. Keeping this to one flat
//! directory removes path handling, directory growth and recursion, and the
//! ways each of those can corrupt a volume -- and a transfer drive with
//! folders on it would be a filing system the user has to maintain in two
//! places.
//!
//! # The parts that go wrong quietly
//!
//! **Both allocation tables.** A volume has two and drivers may read either.
//! Updating one leaves a disk that works until something reads the other, at
//! which point files disappear that were there a moment ago.
//!
//! **Cluster 0 and 1 are not clusters.** The first real one is 2. A free
//! search that starts at zero hands out an allocation that overwrites the
//! table's own reserved entries.

use super::fat32::Store;
use super::fatname::{
    long_name_entries, long_name_part, short_checksum, short_name, short_name_of,
};
use crate::bytes::{filled, get16, get32, push16, push32, push_all, push_zeroes, split32};
use crate::text::push_decimal;
use vstd::prelude::*;
use vstd::string::*;

verus! {

/// What ends a chain of clusters.
pub const END_OF_CHAIN: u32 = 0x0FFF_FFFF;

/// The first value of a table entry that ends a chain.
pub const CHAIN_ENDS: u32 = 0x0FFF_FFF8;

/// A plausible date rather than zero, which some tools show as 1980 and some
/// refuse: 1 January 2026.
pub const A_DATE: u16 = 0x5C21;

/// A file in the volume's root directory.
#[derive(Debug, Clone, PartialEq)]
pub struct Entry {
    pub name: String,
    pub size: u32,
    pub cluster: u32,
    /// Where the 8.3 entry sits, for changing it later.
    pub at: u64,
}

/// What an [`Entry`] says.
pub struct FileEntry {
    pub name: Seq<char>,
    pub size: u32,
    pub cluster: u32,
    pub at: int,
}

impl View for Entry {
    type V = FileEntry;

    open spec fn view(&self) -> FileEntry {
        FileEntry {
            name: self.name@,
            size: self.size,
            cluster: self.cluster,
            at: self.at as int,
        }
    }
}

pub struct Volume {
    pub store: Store,
    pub part_start: u64,
    pub spc: u32,
    pub reserved: u32,
    pub fats: u32,
    pub fat_sectors: u32,
    pub root_cluster: u32,
    pub data_start: u64,
    pub total_clusters: u32,
}

/// What a [`Volume`] holds.
#[verifier::ext_equal]
pub struct VolumeState {
    pub disk: Seq<u8>,
    pub part_start: u64,
    pub spc: u32,
    pub reserved: u32,
    pub fats: u32,
    pub fat_sectors: u32,
    pub root_cluster: u32,
    pub data_start: u64,
    pub total_clusters: u32,
}

impl View for Volume {
    type V = VolumeState;

    open spec fn view(&self) -> VolumeState {
        VolumeState {
            disk: self.store@,
            part_start: self.part_start,
            spc: self.spc,
            reserved: self.reserved,
            fats: self.fats,
            fat_sectors: self.fat_sectors,
            root_cluster: self.root_cluster,
            data_start: self.data_start,
            total_clusters: self.total_clusters,
        }
    }
}

/// A 32-byte slot of the root directory, and where it is.
pub struct Slot {
    pub at: int,
    pub bytes: Seq<u8>,
}

/// Whether every byte is the one wanted.
fn all_are(bytes: &Vec<u8>, want: u8) -> (r: bool)
    ensures
        r == (forall|i: int| 0 <= i < bytes@.len() ==> #[trigger] bytes@[i] == want),
{
    let mut i: usize = 0;
    while i < bytes.len()
        invariant
            i <= bytes@.len(),
            forall|j: int| 0 <= j < i ==> #[trigger] bytes@[j] == want,
        decreases bytes.len() - i,
    {
        if bytes[i] != want {
            return false;
        }
        i = i + 1;
    }
    true
}

impl Slot {
    /// Nothing is in the slot, and nothing behind it either.
    pub open spec fn is_end(self) -> bool {
        self.bytes[0] == 0
    }

    pub open spec fn is_deleted(self) -> bool {
        self.bytes[0] == 0xE5
    }

    pub open spec fn is_free(self) -> bool {
        self.is_end() || self.is_deleted()
    }

    /// Part of a long name.
    pub open spec fn is_long(self) -> bool {
        self.bytes[11] == 0x0F
    }

    /// Volume labels are not files, and neither is a directory.
    pub open spec fn is_file(self) -> bool {
        self.bytes[11] & 0x08 == 0 && self.bytes[11] & 0x10 == 0
    }

    /// The parts of a long name in front of an 8.3 entry are of its name: each
    /// carries the checksum of it.
    pub open spec fn owns(self, parts: Seq<Seq<u8>>) -> bool {
        forall|i: int|
            0 <= i < parts.len() ==> (#[trigger] parts[i])[13] == super::fatname::checksum_of(
                self.bytes.take(11),
            )
    }

    /// The file that an 8.3 entry stands for, if `parts` are the parts of a
    /// long name in front of it. A long name that is another's is ignored, and
    /// the file appears under its 8.3 alias.
    pub open spec fn file(self, parts: Seq<Seq<u8>>) -> FileEntry {
        let long = super::fatname::gathered(parts, parts.len() as int);
        FileEntry {
            name: if long.len() == 0 || !self.owns(parts) {
                super::fatname::short_text(self.bytes)
            } else {
                long
            },
            size: crate::bytes::word32(self.bytes, 28),
            cluster: crate::bytes::of_le32(
                self.bytes[26],
                self.bytes[27],
                self.bytes[20],
                self.bytes[21],
            ),
            at: self.at,
        }
    }
}

/// The files in the slots from `i` on, when `parts` of a long name have been
/// gathered so far.
pub open spec fn listed(slots: Seq<Slot>, i: int, parts: Seq<Seq<u8>>) -> Seq<FileEntry>
    decreases slots.len() - i,
{
    if i < 0 || i >= slots.len() || slots[i].is_end() {
        Seq::empty()
    } else if slots[i].is_deleted() {
        listed(slots, i + 1, Seq::empty())
    } else if slots[i].is_long() {
        listed(slots, i + 1, parts.push(slots[i].bytes))
    } else if !slots[i].is_file() {
        listed(slots, i + 1, Seq::empty())
    } else {
        seq![slots[i].file(parts)] + listed(slots, i + 1, Seq::empty())
    }
}

/// The first file of that name from `i` on.
pub open spec fn named_in(files: Seq<FileEntry>, name: Seq<char>, i: int) -> Option<FileEntry>
    decreases files.len() - i,
{
    if i < 0 || i >= files.len() {
        None
    } else if files[i].name == name {
        Some(files[i])
    } else {
        named_in(files, name, i + 1)
    }
}

/// Which slot, from `i` on, is at a place on the disk.
pub open spec fn place_of(slots: Seq<Slot>, at: int, i: int) -> int
    decreases slots.len() - i,
{
    if i < 0 || i >= slots.len() || slots[i].at == at {
        i
    } else {
        place_of(slots, at, i + 1)
    }
}

/// Where the parts of a long name right in front of slot `j` start.
pub open spec fn long_start(slots: Seq<Slot>, j: int) -> int
    decreases j,
{
    if j <= 0 || !slots[j - 1].is_long() {
        j
    } else {
        long_start(slots, j - 1)
    }
}

/// Whether an 8.3 name is in use.
pub open spec fn alias_taken(slots: Seq<Slot>, alias: Seq<u8>) -> bool {
    exists|i: int|
        0 <= i < slots.len() && !(#[trigger] slots[i]).is_free() && !slots[i].is_long()
            && slots[i].bytes.take(11) == alias
}

/// The first alias from number `n` on that nothing else is using; the last one
/// there is if they all are.
pub open spec fn alias_from(slots: Seq<Slot>, name: Seq<char>, n: int) -> Seq<u8>
    decreases 1000 - n,
{
    if n >= 1000 {
        super::fatname::alias(name, 999)
    } else if !alias_taken(slots, super::fatname::alias(name, n as u32)) {
        super::fatname::alias(name, n as u32)
    } else {
        alias_from(slots, name, n + 1)
    }
}

/// `count` slots from `k` on are all free.
pub open spec fn run_free(slots: Seq<Slot>, k: int, count: int) -> bool {
    &&& 0 <= k
    &&& k + count <= slots.len()
    &&& forall|i: int| k <= i < k + count ==> (#[trigger] slots[i]).is_free()
}

/// Where the first run of `count` free slots at or after `k` starts.
pub open spec fn first_run(slots: Seq<Slot>, count: int, k: int) -> Option<int>
    decreases slots.len() - k,
{
    if k < 0 || k + count > slots.len() || count <= 0 {
        None
    } else if run_free(slots, k, count) {
        Some(k)
    } else {
        first_run(slots, count, k + 1)
    }
}

/// An ordinary file's 8.3 entry.
pub open spec fn short_entry(alias: Seq<u8>, cluster: u32, size: u32) -> Seq<u8> {
    alias + seq![0x20u8] + crate::bytes::zeroes(6) + crate::bytes::le16(A_DATE)
        + crate::bytes::le16((cluster >> 16) as u16) + crate::bytes::zeroes(2)
        + crate::bytes::le16(A_DATE) + crate::bytes::le16(cluster as u16) + crate::bytes::le32(
        size,
    )
}

/// What cluster number `i` of a file holds: its share of the data, and zeroes
/// behind the end.
pub open spec fn block_of(data: Seq<u8>, per: int, i: int) -> Seq<u8> {
    Seq::new(
        per as nat,
        |j: int|
            if i * per + j < data.len() {
                data[i * per + j]
            } else {
                0
            },
    )
}

/// How many clusters `len` bytes take: at least one.
pub open spec fn clusters_for(len: int, per: int) -> int {
    if len <= 0 {
        1
    } else {
        (len + per - 1) / per
    }
}

impl VolumeState {
    /// The fields are as a boot sector can give them.
    pub open spec fn wf(self) -> bool {
        &&& self.part_start <= 0xFFFF_FFFF
        &&& 1 <= self.spc <= 255
        &&& self.reserved <= 0xFFFF
        &&& 1 <= self.fats <= 255
        &&& self.data_start == self.reserved + self.fats * self.fat_sectors
        &&& self.data_start <= 0x100_0000_0000
        &&& self.total_clusters <= 0xFFFF_FFFE
    }

    /// Bytes in a cluster.
    pub open spec fn per(self) -> int {
        self.spc * 512
    }

    pub open spec fn cluster_at(self, c: u32) -> int {
        (self.part_start + self.data_start + (c - 2) * self.spc) * 512
    }

    /// Where table `n` keeps the entry of a cluster.
    pub open spec fn fat_at(self, n: int, c: u32) -> int {
        (self.part_start + self.reserved + n * self.fat_sectors) * 512 + c * 4
    }

    /// What table `n` says of a cluster.
    pub open spec fn entry_in(self, n: int, c: u32) -> u32 {
        crate::bytes::word32(super::fat32::stretch(self.disk, self.fat_at(n, c), 4), 0)
            & 0x0FFF_FFFF
    }

    pub open spec fn fat_entry(self, c: u32) -> u32 {
        self.entry_in(0, c)
    }

    pub open spec fn wrote(self, at: int, data: Seq<u8>) -> VolumeState {
        VolumeState { disk: crate::bytes::overlaid(self.disk, at, data), ..self }
    }

    /// The entry of a cluster set in the first `n` tables.
    pub open spec fn fat_upto(self, c: u32, v: u32, n: int) -> VolumeState
        decreases n,
    {
        if n <= 0 {
            self
        } else {
            self.fat_upto(c, v, n - 1).wrote(self.fat_at(n - 1, c), crate::bytes::le32(v))
        }
    }

    /// The entry of a cluster set in every table.
    pub open spec fn with_fat(self, c: u32, v: u32) -> VolumeState {
        self.fat_upto(c, v, self.fats as int)
    }

    /// The chain from a cluster on, `fuel` clusters at most.
    pub open spec fn chain_from(self, c: u32, fuel: nat) -> Seq<u32>
        decreases fuel,
    {
        if c < 2 || c >= CHAIN_ENDS || fuel == 0 {
            Seq::empty()
        } else {
            seq![c] + self.chain_from(self.fat_entry(c), (fuel - 1) as nat)
        }
    }

    pub open spec fn chain(self, c: u32) -> Seq<u32> {
        self.chain_from(c, self.total_clusters as nat)
    }

    /// The free clusters below `n`, in order.
    pub open spec fn free_below(self, n: int) -> Seq<u32>
        decreases n,
    {
        if n <= 2 {
            Seq::empty()
        } else if self.fat_entry((n - 1) as u32) == 0 {
            self.free_below(n - 1).push((n - 1) as u32)
        } else {
            self.free_below(n - 1)
        }
    }

    /// The free clusters, in order.
    pub open spec fn free(self) -> Seq<u32> {
        self.free_below(self.total_clusters + 2)
    }

    /// Somewhere to put `count` clusters: the first ones that are free.
    pub open spec fn allocated(self, count: int) -> Option<Seq<u32>> {
        if 0 < count <= self.free().len() {
            Some(self.free().take(count))
        } else {
            None
        }
    }

    pub open spec fn slot(self, at: int) -> Slot {
        Slot { at, bytes: super::fat32::stretch(self.disk, at, 32) }
    }

    pub open spec fn cluster_slots(self, c: u32) -> Seq<Slot> {
        Seq::new((self.per() / 32) as nat, |i: int| self.slot(self.cluster_at(c) + 32 * i))
    }

    pub open spec fn slots_of(self, chain: Seq<u32>) -> Seq<Slot>
        decreases chain.len(),
    {
        if chain.len() == 0 {
            Seq::empty()
        } else {
            self.slots_of(chain.drop_last()) + self.cluster_slots(chain.last())
        }
    }

    /// Every 32-byte slot of the root directory, with where each one is.
    pub open spec fn root_slots(self) -> Seq<Slot> {
        self.slots_of(self.chain(self.root_cluster))
    }

    /// What is on the drive.
    pub open spec fn files(self) -> Seq<FileEntry> {
        listed(self.root_slots(), 0, Seq::empty())
    }

    /// What the first `n` clusters of a chain hold.
    pub open spec fn content(self, chain: Seq<u32>, n: int) -> Seq<u8>
        decreases n,
    {
        if n <= 0 {
            Seq::empty()
        } else {
            self.content(chain, n - 1) + super::fat32::stretch(
                self.disk,
                self.cluster_at(chain[n - 1]),
                self.per() as nat,
            )
        }
    }

    /// What is in a file: as much of its clusters as its size says.
    pub open spec fn file_bytes(self, e: FileEntry) -> Seq<u8> {
        let chain = self.chain(e.cluster);
        let all = self.content(chain, chain.len() as int);
        if all.len() <= e.size {
            all
        } else {
            all.take(e.size as int)
        }
    }

    /// The first `n` clusters of a chain marked free.
    pub open spec fn freed(self, chain: Seq<u32>, n: int) -> VolumeState
        decreases n,
    {
        if n <= 0 {
            self
        } else {
            self.freed(chain, n - 1).with_fat(chain[n - 1], 0)
        }
    }

    /// The slots from `from` up to `to` marked deleted.
    pub open spec fn erased(self, slots: Seq<Slot>, from: int, to: int) -> VolumeState
        decreases to - from,
    {
        if to <= from {
            self
        } else {
            self.wrote(slots[to - 1].at, seq![0xE5u8]).erased(slots, from, to - 1)
        }
    }

    /// A file's clusters freed and its directory entries marked deleted: the
    /// 8.3 entry, and the parts of the long name in front of it.
    pub open spec fn removed(self, e: FileEntry) -> VolumeState {
        let chain = self.chain(e.cluster);
        let slots = self.root_slots();
        let j = place_of(slots, e.at, 0);
        let free = self.freed(chain, chain.len() as int);
        if j < slots.len() {
            free.erased(slots, long_start(slots, j), j + 1)
        } else {
            free.wrote(e.at, seq![0xE5u8])
        }
    }

    /// The drive without the file of that name, if there was one.
    #[verifier::opaque]
    pub open spec fn cleared(self, name: Seq<char>) -> VolumeState {
        match named_in(self.files(), name, 0) {
            Some(e) => self.removed(e),
            None => self,
        }
    }

    /// The data in the first `n` of its clusters.
    pub open spec fn with_blocks(self, clusters: Seq<u32>, data: Seq<u8>, n: int) -> VolumeState
        decreases n,
    {
        if n <= 0 {
            self
        } else {
            self.with_blocks(clusters, data, n - 1).wrote(
                self.cluster_at(clusters[n - 1]),
                block_of(data, self.per(), n - 1),
            )
        }
    }

    /// The first `n` clusters each pointing at the next.
    pub open spec fn linked(self, clusters: Seq<u32>, n: int) -> VolumeState
        decreases n,
    {
        if n <= 0 {
            self
        } else {
            self.linked(clusters, n - 1).with_fat(clusters[n - 1], clusters[n])
        }
    }

    /// The data in its clusters, and these chained and the chain ended. The
    /// chain is written after the data, so a half-written file is never
    /// reachable through the table.
    #[verifier::opaque]
    pub open spec fn stored(self, clusters: Seq<u32>, data: Seq<u8>) -> VolumeState {
        self.with_blocks(clusters, data, clusters.len() as int).linked(
            clusters,
            clusters.len() - 1,
        ).with_fat(clusters.last(), END_OF_CHAIN)
    }

    /// Of the first `n` slots, those that end the directory marked deleted.
    pub open spec fn marked(self, slots: Seq<Slot>, n: int) -> VolumeState
        decreases n,
    {
        if n <= 0 {
            self
        } else if slots[n - 1].is_end() {
            self.marked(slots, n - 1).wrote(slots[n - 1].at, seq![0xE5u8])
        } else {
            self.marked(slots, n - 1)
        }
    }

    /// The directory given another cluster, and the first `count` slots of it.
    pub open spec fn grown(self, count: int) -> (VolumeState, Result<Seq<int>, Seq<char>>) {
        let slots = self.root_slots();
        let m = self.marked(slots, slots.len() as int);
        match m.allocated(1) {
            None => (m, Err("the drive is full"@)),
            Some(found) => {
                let extra = found[0];
                let b = m.wrote(m.cluster_at(extra), crate::bytes::zeroes(m.per() as nat));
                let chain = b.chain(b.root_cluster);
                if chain.len() == 0 {
                    (b, Err("the root directory has no clusters"@))
                } else {
                    let g = b.with_fat(chain.last(), extra).with_fat(extra, END_OF_CHAIN);
                    if self.per() / 32 < count {
                        (g, Err("that name is too long for this drive"@))
                    } else {
                        (g, Ok(Seq::new(count as nat, |i: int| self.cluster_at(extra) + 32 * i)))
                    }
                }
            },
        }
    }

    /// `count` consecutive free slots in the root directory, which grows if
    /// there are none.
    pub open spec fn roomy(self, count: int) -> (VolumeState, Result<Seq<int>, Seq<char>>) {
        let slots = self.root_slots();
        match first_run(slots, count, 0) {
            Some(k) => (self, Ok(Seq::new(count as nat, |i: int| slots[k + i].at))),
            None => self.grown(count),
        }
    }

    /// The first `n` entries written, each to its place.
    pub open spec fn with_entries(
        self,
        places: Seq<int>,
        entries: Seq<Seq<u8>>,
        n: int,
    ) -> VolumeState
        decreases n,
    {
        if n <= 0 {
            self
        } else {
            self.with_entries(places, entries, n - 1).wrote(places[n - 1], entries[n - 1])
        }
    }

    /// The entries that a new file gets: its long name, and then the 8.3 one.
    pub open spec fn entries_for(self, name: Seq<char>, cluster: u32, size: u32) -> Seq<Seq<u8>> {
        let alias = alias_from(self.root_slots(), name, 1);
        super::fatname::long_entries(
            super::fatname::units(name),
            super::fatname::checksum_of(alias),
        ).push(short_entry(alias, cluster, size))
    }

    /// The directory with an entry for a new file, or what was wrong.
    #[verifier::opaque]
    pub open spec fn entered(self, name: Seq<char>, cluster: u32, size: u32) -> (
        VolumeState,
        Option<Seq<char>>,
    ) {
        let entries = self.entries_for(name, cluster, size);
        let (r, found) = self.roomy(entries.len() as int);
        match found {
            Ok(places) => (r.with_entries(places, entries, entries.len() as int), None),
            Err(e) => (r, Some(e)),
        }
    }

    /// The drive with a file put on it, or what was wrong, and how far it got.
    pub open spec fn created(self, name: Seq<char>, data: Seq<u8>) -> (
        VolumeState,
        Option<Seq<char>>,
    ) {
        let c = self.cleared(name);
        match c.allocated(clusters_for(data.len() as int, self.per())) {
            None => (c, Some("the drive is full"@)),
            Some(clusters) => c.stored(clusters, data).entered(
                name,
                clusters[0],
                data.len() as u32,
            ),
        }
    }

    // -------------------------------------------------------- a boot sector
    /// What is wrong with a disk, if anything.
    pub open spec fn flaw(disk: Seq<u8>) -> Option<Seq<char>> {
        let mbr = super::fat32::stretch(disk, 0, 512);
        let b = Self::boot_of(disk);
        let sector = crate::bytes::word16(b, 11);
        if mbr[510] != 0x55 || mbr[511] != 0xAA {
            Some("no partition table"@)
        } else if Self::start_of(disk) == 0 {
            Some("no partition"@)
        } else if b[510] != 0x55 || b[511] != 0xAA {
            Some("no boot record"@)
        } else if sector != 512 {
            Some(crate::text::decimal(sector as nat) + "-byte sectors are not supported"@)
        } else if crate::bytes::word32(b, 36) == 0 || b[13] == 0 || b[16] == 0 {
            Some("this is not a FAT32 volume"@)
        } else {
            None
        }
    }

    /// The first sector of the first partition.
    pub open spec fn start_of(disk: Seq<u8>) -> u32 {
        crate::bytes::word32(super::fat32::stretch(disk, 0, 512), 454)
    }

    /// The boot sector of the first partition.
    pub open spec fn boot_of(disk: Seq<u8>) -> Seq<u8> {
        super::fat32::stretch(disk, Self::start_of(disk) * 512, 512)
    }

    /// How many sectors there are in front of the data.
    pub open spec fn before_data(disk: Seq<u8>) -> int {
        let b = Self::boot_of(disk);
        crate::bytes::word16(b, 14) + b[16] * crate::bytes::word32(b, 36)
    }

    /// The volume is at least as long as what stands in front of its data.
    pub open spec fn long_enough(disk: Seq<u8>) -> bool {
        crate::bytes::word32(Self::boot_of(disk), 32) >= Self::before_data(disk)
    }

    /// The volume on a disk, as its boot sector describes it.
    pub open spec fn opened(disk: Seq<u8>) -> VolumeState {
        let b = Self::boot_of(disk);
        let data_start = Self::before_data(disk);
        VolumeState {
            disk,
            part_start: Self::start_of(disk) as u64,
            spc: b[13] as u32,
            reserved: crate::bytes::word16(b, 14) as u32,
            fats: b[16] as u32,
            fat_sectors: crate::bytes::word32(b, 36),
            root_cluster: crate::bytes::word32(b, 44),
            data_start: data_start as u64,
            total_clusters: ((crate::bytes::word32(b, 32) - data_start) / (b[13] as int)) as u32,
        }
    }
}

/// A table is counted in at most 255 times 2^32 sectors, and so are clusters.
proof fn lemma_product(a: int, b: int)
    requires
        0 <= a <= 255,
        0 <= b <= 0xFFFF_FFFF,
    ensures
        0 <= a * b <= 255 * 0xFFFF_FFFF,
{
    assert(0 <= a * b <= 255 * 0xFFFF_FFFF) by (nonlinear_arith)
        requires
            0 <= a <= 255,
            0 <= b <= 0xFFFF_FFFF,
    ;
}

impl Volume {
    /// Read the layout out of the volume rather than assuming the one this
    /// project writes: an image may have been formatted elsewhere.
    pub fn open(store: Store) -> (r: Result<Volume, String>)
        requires
            VolumeState::flaw(store@) is None ==> VolumeState::long_enough(store@),
        ensures
            match VolumeState::flaw(store@) {
                None => r is Ok && r->Ok_0@ == VolumeState::opened(store@) && r->Ok_0@.wf(),
                Some(e) => r is Err && r->Err_0@ == e,
            },
    {
        let mbr: Vec<u8> = store.read(0, 512);
        if mbr[510] != 0x55 || mbr[511] != 0xAA {
            return Err(String::from_str("no partition table"));
        }
        let part_start: u64 = get32(mbr.as_slice(), 454) as u64;
        if part_start == 0 {
            return Err(String::from_str("no partition"));
        }
        let b: Vec<u8> = store.read(part_start * 512, 512);
        if b[510] != 0x55 || b[511] != 0xAA {
            return Err(String::from_str("no boot record"));
        }
        let sector: u16 = get16(b.as_slice(), 11);
        if sector != 512 {
            let mut e = String::new();
            push_decimal(&mut e, sector as u64);
            e.append("-byte sectors are not supported");
            assert(e@ =~= VolumeState::flaw(store@)->0);
            return Err(e);
        }
        let spc: u32 = b[13] as u32;
        let reserved: u32 = get16(b.as_slice(), 14) as u32;
        let fats: u32 = b[16] as u32;
        let fat_sectors: u32 = get32(b.as_slice(), 36);
        let root_cluster: u32 = get32(b.as_slice(), 44);
        if fat_sectors == 0 || spc == 0 || fats == 0 {
            return Err(String::from_str("this is not a FAT32 volume"));
        }
        let total: u64 = get32(b.as_slice(), 32) as u64;
        proof {
            lemma_product(fats as int, fat_sectors as int);
        }
        let data_start: u64 = reserved as u64 + fats as u64 * fat_sectors as u64;
        assert(fats * fat_sectors >= 1) by (nonlinear_arith)
            requires
                fats >= 1,
                fat_sectors >= 1,
        ;
        assert((total - data_start) / (spc as int) <= total - data_start) by (nonlinear_arith)
            requires
                total >= data_start,
                spc >= 1,
        ;
        let total_clusters: u32 = ((total - data_start) / spc as u64) as u32;
        Ok(
            Volume {
                store,
                part_start,
                spc,
                reserved,
                fats,
                fat_sectors,
                root_cluster,
                data_start,
                total_clusters,
            },
        )
    }

    /// Whether a disk is one that [`Volume::open`] can be given: the volume on
    /// it, if there is one, is no shorter than what stands in front of its data.
    pub fn can_be_opened(store: &Store) -> (r: bool)
        ensures
            r == (VolumeState::flaw(store@) is None ==> VolumeState::long_enough(store@)),
    {
        let mbr: Vec<u8> = store.read(0, 512);
        let part_start: u64 = get32(mbr.as_slice(), 454) as u64;
        let b: Vec<u8> = store.read(part_start * 512, 512);
        if mbr[510] != 0x55 || mbr[511] != 0xAA || part_start == 0 || b[510] != 0x55 || b[511]
            != 0xAA || get16(b.as_slice(), 11) != 512 {
            return true;
        }
        let fat_sectors: u32 = get32(b.as_slice(), 36);
        if fat_sectors == 0 || b[13] == 0 || b[16] == 0 {
            return true;
        }
        proof {
            lemma_product(b@[16] as int, fat_sectors as int);
        }
        get32(b.as_slice(), 32) as u64 >= get16(b.as_slice(), 14) as u64 + b[16] as u64
            * fat_sectors as u64
    }

    pub fn into_store(self) -> (r: Store)
        ensures
            r@ == self@.disk,
    {
        self.store
    }

    fn cluster_bytes(&self) -> (r: usize)
        requires
            self@.wf(),
        ensures
            r == self@.per(),
            r % 32 == 0,
            512 <= r <= 130_560,
    {
        self.spc as usize * 512
    }

    fn cluster_at(&self, cluster: u32) -> (r: u64)
        requires
            self@.wf(),
            cluster >= 2,
        ensures
            r == self@.cluster_at(cluster),
            r <= 0x10_0000_0000_0000,
    {
        proof {
            lemma_product(self.spc as int, cluster - 2);
            assert((cluster - 2) * self.spc == self.spc * (cluster - 2)) by (nonlinear_arith);
        }
        (self.part_start + self.data_start + (cluster as u64 - 2) * self.spc as u64) * 512
    }

    pub fn fat_entry(&self, cluster: u32) -> (r: u32)
        requires
            self@.wf(),
        ensures
            r == self@.fat_entry(cluster),
    {
        let at: u64 = (self.part_start + self.reserved as u64) * 512 + cluster as u64 * 4;
        let v: Vec<u8> = self.store.read(at, 4);
        get32(v.as_slice(), 0) & 0x0FFF_FFFF
    }

    fn write(&mut self, at: u64, data: &[u8])
        ensures
            final(self)@ == old(self)@.wrote(at as int, data@),
    {
        self.store.write(at, data);
    }

    /// Write one entry into *every* table. A volume has two and a driver may
    /// read either.
    pub fn set_fat_entry(&mut self, cluster: u32, value: u32)
        requires
            old(self)@.wf(),
        ensures
            final(self)@ == old(self)@.with_fat(cluster, value),
            final(self)@.wf(),
    {
        let bytes: [u8; 4] = split32(value);
        assert(bytes@ == crate::bytes::le32(value));
        let mut n: u32 = 0;
        while n < self.fats
            invariant
                n <= self.fats,
                self@.wf(),
                old(self)@.wf(),
                self@.fats == old(self)@.fats,
                bytes@ == crate::bytes::le32(value),
                self@ == old(self)@.fat_upto(cluster, value, n as int),
                self.part_start == old(self).part_start,
                self.reserved == old(self).reserved,
                self.fat_sectors == old(self).fat_sectors,
            decreases self.fats - n,
        {
            proof {
                lemma_product(n as int, self.fat_sectors as int);
            }
            let at: u64 = (self.part_start + self.reserved as u64 + n as u64
                * self.fat_sectors as u64) * 512 + cluster as u64 * 4;
            self.write(at, bytes.as_slice());
            n = n + 1;
        }
    }

    fn chain(&self, start: u32) -> (r: Vec<u32>)
        requires
            self@.wf(),
        ensures
            r@ == self@.chain(start),
            forall|i: int| 0 <= i < r@.len() ==> 2 <= #[trigger] r@[i] < CHAIN_ENDS,
    {
        let mut out: Vec<u32> = Vec::new();
        let mut c: u32 = start;
        assert(out@ + self@.chain(start) =~= self@.chain(start));
        while 2 <= c && c < CHAIN_ENDS && out.len() < self.total_clusters as usize
            invariant
                self@.wf(),
                out@.len() <= self.total_clusters,
                self@.chain(start) == out@ + self@.chain_from(
                    c,
                    (self.total_clusters - out@.len()) as nat,
                ),
                forall|i: int| 0 <= i < out@.len() ==> 2 <= #[trigger] out@[i] < CHAIN_ENDS,
            decreases self.total_clusters - out@.len(),
        {
            let ghost rest = self@.chain_from(
                self@.fat_entry(c),
                (self.total_clusters - out@.len() - 1) as nat,
            );
            let ghost before = out@;
            out.push(c);
            assert(before + (seq![c] + rest) =~= out@ + rest);
            c = self.fat_entry(c);
        }
        assert(out@ + Seq::<u32>::empty() =~= out@);
        out
    }

    /// Somewhere to put `count` clusters. Cluster 2 is the first real one.
    fn allocate(&self, count: usize) -> (r: Option<Vec<u32>>)
        requires
            self@.wf(),
        ensures
            match r {
                Some(v) => self@.allocated(count as int) == Some(v@),
                None => self@.allocated(count as int) is None,
            },
    {
        let mut found: Vec<u32> = Vec::new();
        let end: u64 = self.total_clusters as u64 + 2;
        let mut c: u64 = 2;
        while c < end
            invariant
                self@.wf(),
                end == self.total_clusters + 2,
                end <= 0x1_0000_0000,
                2 <= c <= end,
                found@ == self@.free_below(c as int),
                found@.len() < count || count == 0,
            decreases end - c,
        {
            if self.fat_entry(c as u32) == 0 {
                found.push(c as u32);
                if found.len() == count {
                    proof {
                        lemma_free_prefix(self@, c + 1, end as int);
                        assert(self@.free().take(count as int) =~= found@);
                    }
                    return Some(found);
                }
            }
            c = c + 1;
        }
        proof {
            lemma_free_prefix(self@, c as int, end as int);
        }
        None
    }

    /// Where every 32-byte slot of the root directory is.
    fn slot_places(&self) -> (r: Vec<u64>)
        requires
            self@.wf(),
        ensures
            r@.len() == self@.root_slots().len(),
            forall|i: int|
                0 <= i < r@.len() ==> self@.root_slots()[i] == self@.slot(#[trigger] r@[i] as int),
            forall|i: int| 0 <= i < r@.len() ==> #[trigger] r@[i] <= 0x20_0000_0000_0000,
    {
        let chain: Vec<u32> = self.chain(self.root_cluster);
        let per: usize = self.cluster_bytes();
        let mut out: Vec<u64> = Vec::new();
        let mut n: usize = 0;
        while n < chain.len()
            invariant
                self@.wf(),
                per == self@.per(),
                per % 32 == 0,
                512 <= per <= 130_560,
                n <= chain@.len(),
                forall|i: int| 0 <= i < chain@.len() ==> 2 <= #[trigger] chain@[i] < CHAIN_ENDS,
                out@.len() == self@.slots_of(chain@.take(n as int)).len(),
                forall|i: int|
                    0 <= i < out@.len() ==> self@.slots_of(chain@.take(n as int))[i] == self@.slot(
                        #[trigger] out@[i] as int,
                    ),
                forall|i: int| 0 <= i < out@.len() ==> #[trigger] out@[i] <= 0x20_0000_0000_0000,
            decreases chain.len() - n,
        {
            let at: u64 = self.cluster_at(chain[n]);
            let ghost before = out@;
            let ghost slots = self@.slots_of(chain@.take(n as int));
            let ghost more = self@.cluster_slots(chain@[n as int]);
            proof {
                assert(chain@.take(n as int + 1).drop_last() =~= chain@.take(n as int));
                assert(chain@.take(n as int + 1).last() == chain@[n as int]);
            }
            let mut i: usize = 0;
            while i < per / 32
                invariant
                    self@.wf(),
                    per == self@.per(),
                    512 <= per <= 130_560,
                    i <= per / 32,
                    n < chain@.len(),
                    at == self@.cluster_at(chain@[n as int]),
                    at <= 0x10_0000_0000_0000,
                    more == self@.cluster_slots(chain@[n as int]),
                    out@.len() == before.len() + i,
                    before.len() == slots.len(),
                    forall|j: int| 0 <= j < before.len() ==> #[trigger] out@[j] == before[j],
                    forall|j: int|
                        before.len() <= j < out@.len() ==> self@.slot(#[trigger] out@[j] as int)
                            == more[j - before.len()],
                    forall|j: int|
                        0 <= j < out@.len() ==> #[trigger] out@[j] <= 0x20_0000_0000_0000,
                decreases per / 32 - i,
            {
                out.push(at + 32 * i as u64);
                i = i + 1;
            }
            n = n + 1;
        }
        assert(chain@.take(chain@.len() as int) =~= chain@);
        out
    }

    /// Read the slot at a place.
    fn slot(&self, at: u64) -> (r: Vec<u8>)
        ensures
            r@ == self@.slot(at as int).bytes,
            r@.len() == 32,
    {
        self.store.read(at, 32)
    }

    /// What is on the drive.
    pub fn list(&self) -> (r: Vec<Entry>)
        requires
            self@.wf(),
        ensures
            r@.map_values(|e: Entry| e@) =~= self@.files(),
    {
        let places: Vec<u64> = self.slot_places();
        let ghost slots = self@.root_slots();
        let mut out: Vec<Entry> = Vec::new();
        let mut long = String::new();
        let mut sums: Vec<u8> = Vec::new();
        let ghost mut parts = Seq::<Seq<u8>>::empty();
        let mut i: usize = 0;
        assert(out@.map_values(|e: Entry| e@) + self@.files() =~= self@.files());
        while i < places.len()
            invariant
                self@.wf(),
                slots == self@.root_slots(),
                places@.len() == slots.len(),
                forall|j: int|
                    0 <= j < places@.len() ==> slots[j] == self@.slot(#[trigger] places@[j] as int),
                i <= places@.len(),
                long@ == super::fatname::gathered(parts, parts.len() as int),
                sums@ == parts.map_values(|e: Seq<u8>| e[13]),
                self@.files() == out@.map_values(|e: Entry| e@) + listed(slots, i as int, parts),
            decreases places.len() - i,
        {
            let ghost before = out@.map_values(|e: Entry| e@);
            assert(slots[i as int] == self@.slot(places@[i as int] as int));
            let e: Vec<u8> = self.slot(places[i]);
            let first: u8 = e[0];
            let attr: u8 = e[11];
            if first == 0 {
                assert(before + Seq::<FileEntry>::empty() =~= before);
                return out;
            }
            if first != 0xE5 && attr == 0x0F {
                let mut part: String = long_name_part(e.as_slice());
                part.append(long.as_str());
                long = part;
                sums.push(e[13]);
                proof {
                    let more = parts.push(e@);
                    super::fatname::lemma_gathered_prefix(more, parts, parts.len() as int);
                    assert(more.map_values(|e: Seq<u8>| e[13]) =~= sums@);
                    parts = more;
                }
                i = i + 1;
                continue;
            }
            // Volume labels are not files, and neither is a directory.
            if first != 0xE5 && attr & 0x08 == 0 && attr & 0x10 == 0 {
                let short: [u8; 11] = [
                    e[0],
                    e[1],
                    e[2],
                    e[3],
                    e[4],
                    e[5],
                    e[6],
                    e[7],
                    e[8],
                    e[9],
                    e[10],
                ];
                assert(short@ =~= e@.take(11));
                let owned: bool = all_are(&sums, short_checksum(&short));
                assert(owned == slots[i as int].owns(parts)) by {
                    assert forall|j: int| 0 <= j < parts.len() implies (#[trigger] parts[j])[13]
                        == sums@[j] by {}
                    if slots[i as int].owns(parts) {
                        assert forall|j: int| 0 <= j < sums@.len() implies #[trigger] sums@[j]
                            == super::fatname::checksum_of(e@.take(11)) by {
                            assert(parts[j][13] == sums@[j]);
                        }
                    }
                }
                let name: String = if long.as_str().unicode_len() == 0 || !owned {
                    short_name_of(e.as_slice())
                } else {
                    long
                };
                let entry = Entry {
                    name,
                    size: get32(e.as_slice(), 28),
                    cluster: (e[26] as u32) | ((e[27] as u32) << 8) | ((e[20] as u32) << 16) | ((
                    e[21] as u32) << 24),
                    at: places[i],
                };
                let ghost file = entry@;
                assert(file == slots[i as int].file(parts));
                out.push(entry);
                assert(out@.map_values(|e: Entry| e@) =~= before.push(file));
                proof {
                    let rest = listed(slots, i + 1, Seq::empty());
                    assert(before + (seq![file] + rest) =~= before.push(file) + rest);
                }
            }
            long = String::new();
            sums = Vec::new();
            proof {
                parts = Seq::empty();
                assert(parts.map_values(|e: Seq<u8>| e[13]) =~= sums@);
            }
            i = i + 1;
        }
        assert(out@.map_values(|e: Entry| e@) + Seq::<FileEntry>::empty() =~= out@.map_values(
            |e: Entry| e@,
        ));
        out
    }

    pub fn read_file(&self, entry: &Entry) -> (r: Vec<u8>)
        requires
            self@.wf(),
        ensures
            r@ == self@.file_bytes(entry@),
    {
        let chain: Vec<u32> = self.chain(entry.cluster);
        let per: usize = self.cluster_bytes();
        let size: usize = entry.size as usize;
        let mut out: Vec<u8> = Vec::new();
        let mut n: usize = 0;
        while n < chain.len() && out.len() < size
            invariant
                self@.wf(),
                per == self@.per(),
                n <= chain@.len(),
                forall|i: int| 0 <= i < chain@.len() ==> 2 <= #[trigger] chain@[i] < CHAIN_ENDS,
                out@ == self@.content(chain@, n as int),
            decreases chain.len() - n,
        {
            let at: u64 = self.cluster_at(chain[n]);
            let more: Vec<u8> = self.store.read(at, per);
            push_all(&mut out, more.as_slice());
            n = n + 1;
        }
        proof {
            lemma_content_prefix(self@, chain@, n as int, chain@.len() as int);
        }
        if out.len() > size {
            let r: Vec<u8> = crate::bytes::copy_range(out.as_slice(), 0, size);
            assert(r@ =~= self@.file_bytes(entry@));
            r
        } else {
            assert(out@ =~= self@.file_bytes(entry@));
            out
        }
    }

    /// Free a file's clusters and mark its directory entries deleted.
    pub fn remove(&mut self, entry: &Entry)
        requires
            old(self)@.wf(),
        ensures
            final(self)@ == old(self)@.removed(entry@),
            final(self)@.wf(),
    {
        let chain: Vec<u32> = self.chain(entry.cluster);
        // The long-name entries immediately before the short one belong to
        // it, and leaving them behind attaches the old name to whatever is
        // written into that slot next. Before it in the directory, that is: at
        // the start of a cluster what comes before it on the disk is
        // somebody else's.
        let places: Vec<u64> = self.slot_places();
        let ghost slots = self@.root_slots();
        let mut at: usize = 0;
        while at < places.len() && places[at] != entry.at
            invariant
                at <= places@.len(),
                places@.len() == slots.len(),
                forall|i: int| 0 <= i < slots.len() ==> (#[trigger] slots[i]).at == places@[i],
                place_of(slots, entry.at as int, 0) == place_of(slots, entry.at as int, at as int),
            decreases places.len() - at,
        {
            at = at + 1;
        }
        let mut from: usize = at;
        if at < places.len() {
            while from > 0 && self.slot(places[from - 1])[11] == 0x0F
                invariant
                    from <= at < places@.len(),
                    places@.len() == slots.len(),
                    self@.wf(),
                    forall|i: int|
                        0 <= i < slots.len() ==> #[trigger] slots[i] == self@.slot(
                            places@[i] as int,
                        ),
                    forall|i: int| 0 <= i < places@.len() ==> #[trigger] places@[i] <= 0x20_0000_0000_0000,
                    long_start(slots, at as int) == long_start(slots, from as int),
                decreases from,
            {
                from = from - 1;
            }
        }
        let mut n: usize = 0;
        while n < chain.len()
            invariant
                n <= chain@.len(),
                self@.wf(),
                self@ == old(self)@.freed(chain@, n as int),
            decreases chain.len() - n,
        {
            self.set_fat_entry(chain[n], 0);
            n = n + 1;
        }
        let gone: [u8; 1] = [0xE5];
        assert(gone@ =~= seq![0xE5u8]);
        if at == places.len() {
            self.write(entry.at, gone.as_slice());
            return ;
        }
        let mut to: usize = at + 1;
        let ghost all = self@.erased(slots, from as int, to as int);
        while to > from
            invariant
                from <= to <= places@.len(),
                places@.len() == slots.len(),
                forall|i: int| 0 <= i < slots.len() ==> (#[trigger] slots[i]).at == places@[i],
                self@.wf(),
                gone@ == seq![0xE5u8],
                all == self@.erased(slots, from as int, to as int),
            decreases to,
        {
            assert(slots[to - 1].at == places@[to - 1]);
            self.write(places[to - 1], gone.as_slice());
            to = to - 1;
        }
    }

    /// Put a file on the drive, replacing one of the same name.
    pub fn create(&mut self, name: &str, data: &[u8]) -> (r: Result<(), String>)
        requires
            old(self)@.wf(),
            super::fatname::units(name@).len() + 13 <= usize::MAX,
        ensures
            final(self)@.wf(),
            final(self)@ == old(self)@.created(name@, data@).0,
            match old(self)@.created(name@, data@).1 {
                None => r is Ok,
                Some(e) => r is Err && r->Err_0@ == e,
            },
    {
        self.clear(name);
        proof {
            lemma_cleared_fields(old(self)@, name@);
        }
        let per: usize = self.cluster_bytes();
        let needed: usize = if data.len() == 0 {
            1
        } else {
            (data.len() - 1) / per + 1
        };
        proof {
            lemma_clusters_for(data@.len() as int, per as int);
        }
        let clusters: Vec<u32> = match self.allocate(needed) {
            Some(v) => v,
            None => {
                return Err(String::from_str("the drive is full"));
            },
        };
        proof {
            lemma_free(self@, self@.total_clusters + 2);
        }
        self.store_data(&clusters, data);
        let result = self.add_directory_entry(name, clusters[0], data.len() as u32);
        self.store.sync();
        result
    }

    /// Take off a file of that name, if there is one.
    fn clear(&mut self, name: &str)
        requires
            old(self)@.wf(),
        ensures
            final(self)@ == old(self)@.cleared(name@),
            final(self)@.wf(),
    {
        proof {
            reveal(VolumeState::cleared);
        }
        let files: Vec<Entry> = self.list();
        let ghost all = self@.files();
        let wanted: String = name.to_owned();
        let mut i: usize = 0;
        while i < files.len()
            invariant
                self@ == old(self)@,
                self@.wf(),
                i <= files@.len(),
                files@.map_values(|e: Entry| e@) =~= all,
                all == self@.files(),
                wanted@ == name@,
                named_in(all, name@, 0) == named_in(all, name@, i as int),
            decreases files.len() - i,
        {
            assert(all[i as int] == files@[i as int]@);
            if files[i].name == wanted {
                proof {
                    reveal(VolumeState::cleared);
                }
                self.remove(&files[i]);
                return ;
            }
            i = i + 1;
        }
    }

    /// Write the data to its clusters, chain them, then end the chain. The
    /// chain is written after the data so a half-written file is never
    /// reachable through the table.
    fn store_data(&mut self, clusters: &Vec<u32>, data: &[u8])
        requires
            old(self)@.wf(),
            clusters@.len() > 0,
            clusters@.len() == clusters_for(data@.len() as int, old(self)@.per()),
            forall|i: int| 0 <= i < clusters@.len() ==> 2 <= #[trigger] clusters@[i],
        ensures
            final(self)@ == old(self)@.stored(clusters@, data@),
            final(self)@.wf(),
    {
        proof {
            reveal(VolumeState::stored);
        }
        let per: usize = self.cluster_bytes();
        let mut i: usize = 0;
        while i < clusters.len()
            invariant
                i <= clusters@.len(),
                self@.wf(),
                per == old(self)@.per(),
                per == self@.per(),
                512 <= per <= 130_560,
                self@ == old(self)@.with_blocks(clusters@, data@, i as int),
                self.part_start == old(self).part_start,
                self.data_start == old(self).data_start,
                self.spc == old(self).spc,
                clusters@.len() == clusters_for(data@.len() as int, per as int),
                forall|j: int| 0 <= j < clusters@.len() ==> 2 <= #[trigger] clusters@[j],
            decreases clusters.len() - i,
        {
            let at: u64 = self.cluster_at(clusters[i]);
            proof {
                lemma_block_start(data@.len() as int, per as int, i as int);
            }
            let block: Vec<u8> = block_from(data, per, i);
            self.write(at, block.as_slice());
            i = i + 1;
        }
        let ghost filled = self@;
        let mut n: usize = 0;
        while n + 1 < clusters.len()
            invariant
                n < clusters@.len(),
                self@.wf(),
                self@ == filled.linked(clusters@, n as int),
            decreases clusters.len() - n,
        {
            self.set_fat_entry(clusters[n], clusters[n + 1]);
            n = n + 1;
        }
        self.set_fat_entry(clusters[clusters.len() - 1], END_OF_CHAIN);
    }

    fn add_directory_entry(&mut self, name: &str, cluster: u32, size: u32) -> (r: Result<
        (),
        String,
    >)
        requires
            old(self)@.wf(),
            super::fatname::units(name@).len() + 13 <= usize::MAX,
        ensures
            final(self)@.wf(),
            final(self)@ == old(self)@.entered(name@, cluster, size).0,
            match old(self)@.entered(name@, cluster, size).1 {
                None => r is Ok,
                Some(e) => r is Err && r->Err_0@ == e,
            },
    {
        proof {
            reveal(VolumeState::entered);
        }
        let short: [u8; 11] = self.unique_short_name(name);
        let checksum: u8 = short_checksum(&short);
        let mut entries: Vec<Vec<u8>> = long_name_entries(name, checksum);
        let ghost long = super::fatname::long_entries(super::fatname::units(name@), checksum);
        assert(entries@.map_values(|e: Vec<u8>| e@) =~= long);
        let last: Vec<u8> = file_entry(&short, cluster, size);
        let ghost before = entries@;
        entries.push(last);
        let ghost all = self@.entries_for(name@, cluster, size);
        assert(all =~= long.push(short_entry(short@, cluster, size)));
        assert forall|i: int| 0 <= i < entries@.len() implies (#[trigger] entries@[i])@
            == all[i] by {
            if i < before.len() {
                assert(entries@[i] == before[i]);
                assert(long[i] == before[i]@);
            }
        }
        let places: Vec<u64> = match self.free_slots(entries.len()) {
            Ok(p) => p,
            Err(e) => {
                return Err(e);
            },
        };
        let ghost found = places@.map_values(|p: u64| p as int);
        let ghost roomy = self@;
        let mut i: usize = 0;
        while i < entries.len()
            invariant
                i <= entries@.len(),
                entries@.len() == all.len(),
                places@.len() == entries@.len(),
                found == places@.map_values(|p: u64| p as int),
                forall|j: int| 0 <= j < entries@.len() ==> (#[trigger] entries@[j])@ == all[j],
                self@.wf(),
                self@ == roomy.with_entries(found, all, i as int),
            decreases entries.len() - i,
        {
            self.write(places[i], entries[i].as_slice());
            i = i + 1;
        }
        Ok(())
    }

    /// `count` consecutive free slots in the root directory.
    ///
    /// Out of room, the directory is given another cluster. On a volume with
    /// 512-byte clusters the root holds sixteen entries, and a file with a
    /// long name takes several -- so without this a drive is full at about
    /// seven files, which is not a transfer drive at all. It is safe to
    /// allocate here because `create` has already claimed and chained the
    /// file's own clusters.
    fn free_slots(&mut self, count: usize) -> (r: Result<Vec<u64>, String>)
        requires
            old(self)@.wf(),
            count > 0,
        ensures
            final(self)@.wf(),
            final(self)@ == old(self)@.roomy(count as int).0,
            match r {
                Ok(p) => match old(self)@.roomy(count as int).1 {
                    Ok(found) => p@.map_values(|p: u64| p as int) =~= found,
                    Err(_) => false,
                },
                Err(e) => match old(self)@.roomy(count as int).1 {
                    Ok(_) => false,
                    Err(text) => e@ == text,
                },
            },
    {
        let places: Vec<u64> = self.slot_places();
        let ghost slots = self@.root_slots();
        let mut run: Vec<u64> = Vec::new();
        let mut i: usize = 0;
        while i < places.len()
            invariant
                self@ == old(self)@,
                self@.wf(),
                count > 0,
                slots == self@.root_slots(),
                places@.len() == slots.len(),
                forall|j: int|
                    0 <= j < places@.len() ==> slots[j] == self@.slot(#[trigger] places@[j] as int),
                i <= places@.len(),
                run@.len() <= i,
                run@.len() < count,
                forall|j: int|
                    0 <= j < run@.len() ==> #[trigger] run@[j] == places@[i - run@.len() + j],
                forall|j: int| i - run@.len() <= j < i ==> (#[trigger] slots[j]).is_free(),
                i - run@.len() > 0 ==> !slots[i - run@.len() - 1].is_free(),
                first_run(slots, count as int, 0) == first_run(
                    slots,
                    count as int,
                    i - run@.len(),
                ),
            decreases places.len() - i,
        {
            let ghost start = i - run@.len();
            assert(slots[i as int] == self@.slot(places@[i as int] as int));
            let e: Vec<u8> = self.slot(places[i]);
            if e[0] == 0 || e[0] == 0xE5 {
                run.push(places[i]);
                if run.len() == count {
                    assert(run_free(slots, start, count as int));
                    assert(first_run(slots, count as int, 0) == Some(start));
                    assert(run@.map_values(|p: u64| p as int) =~= Seq::new(
                        count as nat,
                        |j: int| slots[start + j].at,
                    )) by {
                        assert forall|j: int| 0 <= j < count implies run@[j] as int
                            == slots[start + j].at by {
                            assert(slots[start + j] == self@.slot(
                                places@[start + j] as int,
                            ));
                        }
                    }
                    return Ok(run);
                }
            } else {
                proof {
                    lemma_no_run(slots, count as int, start, i as int);
                }
                run = Vec::new();
            }
            i = i + 1;
        }
        proof {
            lemma_no_run_at_end(slots, count as int, i - run@.len());
        }
        self.grow(&places, count)
    }

    /// Give the directory another cluster.
    fn grow(&mut self, places: &Vec<u64>, count: usize) -> (r: Result<Vec<u64>, String>)
        requires
            old(self)@.wf(),
            count > 0,
            places@.len() == old(self)@.root_slots().len(),
            forall|j: int|
                0 <= j < places@.len() ==> old(self)@.root_slots()[j] == old(self)@.slot(
                    #[trigger] places@[j] as int,
                ),
        ensures
            final(self)@.wf(),
            final(self)@ == old(self)@.grown(count as int).0,
            match r {
                Ok(p) => match old(self)@.grown(count as int).1 {
                    Ok(found) => p@.map_values(|p: u64| p as int) =~= found,
                    Err(_) => false,
                },
                Err(e) => match old(self)@.grown(count as int).1 {
                    Ok(_) => false,
                    Err(text) => e@ == text,
                },
            },
    {
        // A zero slot means "no more entries anywhere", so any free slots
        // left at the tail of the current clusters would hide everything in
        // the new one -- from this code and from the guest alike. Mark them
        // deleted instead, which means "nothing here, keep going".
        let ghost slots = self@.root_slots();
        let firsts: Vec<u8> = self.first_bytes(places);
        let gone: [u8; 1] = [0xE5];
        assert(gone@ =~= seq![0xE5u8]);
        let mut i: usize = 0;
        while i < places.len()
            invariant
                i <= places@.len(),
                self@.wf(),
                gone@ == seq![0xE5u8],
                slots == old(self)@.root_slots(),
                places@.len() == slots.len(),
                firsts@.len() == places@.len(),
                forall|j: int|
                    0 <= j < places@.len() ==> slots[j] == old(self)@.slot(
                        #[trigger] places@[j] as int,
                    ),
                forall|j: int| 0 <= j < firsts@.len() ==> #[trigger] firsts@[j] == slots[j].bytes[0],
                self@ == old(self)@.marked(slots, i as int),
            decreases places.len() - i,
        {
            assert(slots[i as int] == old(self)@.slot(places@[i as int] as int));
            if firsts[i] == 0 {
                self.write(places[i], gone.as_slice());
            }
            i = i + 1;
        }
        let ghost m = self@;
        proof {
            lemma_marked_fields(old(self)@, slots, slots.len() as int);
        }
        let extra: u32 = match self.allocate(1) {
            Some(v) => v[0],
            None => {
                return Err(String::from_str("the drive is full"));
            },
        };
        proof {
            lemma_free(m, m.total_clusters + 2);
        }
        let per: usize = self.cluster_bytes();
        let at: u64 = self.cluster_at(extra);
        let blank: Vec<u8> = filled(per, 0);
        self.write(at, blank.as_slice());
        assert(self@ == m.wrote(m.cluster_at(extra), crate::bytes::zeroes(m.per() as nat)));
        let chain: Vec<u32> = self.chain(self.root_cluster);
        if chain.len() == 0 {
            return Err(String::from_str("the root directory has no clusters"));
        }
        self.set_fat_entry(chain[chain.len() - 1], extra);
        self.set_fat_entry(extra, END_OF_CHAIN);
        if per / 32 < count {
            return Err(String::from_str("that name is too long for this drive"));
        }
        let mut out: Vec<u64> = Vec::new();
        let mut k: usize = 0;
        while k < count
            invariant
                k <= count,
                count <= per / 32,
                512 <= per <= 130_560,
                at <= 0x10_0000_0000_0000,
                out@.len() == k,
                forall|j: int| 0 <= j < k ==> #[trigger] out@[j] == at + 32 * j,
            decreases count - k,
        {
            out.push(at + 32 * k as u64);
            k = k + 1;
        }
        Ok(out)
    }

    /// The first byte of every slot.
    fn first_bytes(&self, places: &Vec<u64>) -> (r: Vec<u8>)
        ensures
            r@.len() == places@.len(),
            forall|i: int|
                0 <= i < r@.len() ==> #[trigger] r@[i] == self@.slot(places@[i] as int).bytes[0],
    {
        let mut out: Vec<u8> = Vec::new();
        let mut i: usize = 0;
        while i < places.len()
            invariant
                i <= places@.len(),
                out@.len() == i,
                forall|j: int|
                    0 <= j < i ==> #[trigger] out@[j] == self@.slot(places@[j] as int).bytes[0],
            decreases places.len() - i,
        {
            let e: Vec<u8> = self.slot(places[i]);
            out.push(e[0]);
            i = i + 1;
        }
        out
    }

    /// An 8.3 name nothing else is using.
    fn unique_short_name(&self, name: &str) -> (r: [u8; 11])
        requires
            self@.wf(),
        ensures
            r@ =~= alias_from(self@.root_slots(), name@, 1),
    {
        let places: Vec<u64> = self.slot_places();
        let ghost slots = self@.root_slots();
        let mut n: u32 = 1;
        while n < 1000
            invariant
                self@.wf(),
                1 <= n <= 1000,
                slots == self@.root_slots(),
                places@.len() == slots.len(),
                forall|j: int|
                    0 <= j < places@.len() ==> slots[j] == self@.slot(#[trigger] places@[j] as int),
                alias_from(slots, name@, 1) == alias_from(slots, name@, n as int),
            decreases 1000 - n,
        {
            let candidate: [u8; 11] = short_name(name, n);
            assert(candidate@ == super::fatname::alias(name@, n));
            if !self.is_taken(&places, &candidate) {
                return candidate;
            }
            n = n + 1;
        }
        short_name(name, 999)
    }

    fn is_taken(&self, places: &Vec<u64>, alias: &[u8; 11]) -> (r: bool)
        requires
            self@.wf(),
            places@.len() == self@.root_slots().len(),
            forall|j: int|
                0 <= j < places@.len() ==> self@.root_slots()[j] == self@.slot(
                    #[trigger] places@[j] as int,
                ),
        ensures
            r == alias_taken(self@.root_slots(), alias@),
    {
        let ghost slots = self@.root_slots();
        let mut i: usize = 0;
        while i < places.len()
            invariant
                i <= places@.len(),
                slots == self@.root_slots(),
                places@.len() == slots.len(),
                forall|j: int|
                    0 <= j < places@.len() ==> slots[j] == self@.slot(#[trigger] places@[j] as int),
                forall|j: int|
                    0 <= j < i ==> !(!(#[trigger] slots[j]).is_free() && !slots[j].is_long()
                        && slots[j].bytes.take(11) == alias@),
            decreases places.len() - i,
        {
            assert(slots[i as int] == self@.slot(places@[i as int] as int));
            let e: Vec<u8> = self.slot(places[i]);
            if e[0] != 0 && e[0] != 0xE5 && e[11] != 0x0F && super::patch::same_bytes(
                e.as_slice(),
                0,
                alias.as_slice(),
                0,
                11,
            ) {
                assert(e@.subrange(0, 11) =~= e@.take(11));
                assert(alias@.subrange(0, 11) =~= alias@);
                assert(slots[i as int].bytes.take(11) == alias@);
                return true;
            }
            assert(e@.subrange(0, 11) =~= e@.take(11));
            assert(alias@.subrange(0, 11) =~= alias@);
            i = i + 1;
        }
        false
    }
}

/// An ordinary file's 8.3 entry.
fn file_entry(alias: &[u8; 11], cluster: u32, size: u32) -> (r: Vec<u8>)
    ensures
        r@ == short_entry(alias@, cluster, size),
{
    let mut e: Vec<u8> = Vec::new();
    push_all(&mut e, alias.as_slice());
    e.push(0x20);
    push_zeroes(&mut e, 6);
    push16(&mut e, A_DATE);
    push16(&mut e, (cluster >> 16) as u16);
    push_zeroes(&mut e, 2);
    push16(&mut e, A_DATE);
    push16(&mut e, cluster as u16);
    push32(&mut e, size);
    assert(e@ =~= short_entry(alias@, cluster, size));
    e
}

/// What cluster number `i` of a file holds.
fn block_from(data: &[u8], per: usize, i: usize) -> (r: Vec<u8>)
    requires
        i * per <= data.len(),
        per <= 130_560,
    ensures
        r@ == block_of(data@, per as int, i as int),
{
    let from: usize = i * per;
    let mut out: Vec<u8> = Vec::new();
    let mut j: usize = 0;
    while j < per
        invariant
            j <= per,
            from == i * per,
            from <= data.len(),
            out@ =~= block_of(data@, per as int, i as int).take(j as int),
        decreases per - j,
    {
        if j < data.len() - from {
            out.push(data[from + j]);
        } else {
            out.push(0);
        }
        j = j + 1;
    }
    out
}

proof fn lemma_clusters_for(len: int, per: int)
    requires
        0 <= len,
        per > 0,
    ensures
        len > 0 ==> clusters_for(len, per) == (len - 1) / per + 1,
        clusters_for(len, per) >= 1,
{
    if len > 0 {
        assert((len + per - 1) / per == (len - 1) / per + 1) by (nonlinear_arith)
            requires
                per > 0,
        ;
        assert((len - 1) / per >= 0) by (nonlinear_arith)
            requires
                len >= 1,
                per > 0,
        ;
    }
}

/// A cluster that a file takes starts inside its data.
proof fn lemma_block_start(len: int, per: int, i: int)
    requires
        0 <= len,
        per > 0,
        0 <= i < clusters_for(len, per),
    ensures
        i * per <= len,
{
    lemma_clusters_for(len, per);
    if len > 0 {
        assert(i * per <= len) by (nonlinear_arith)
            requires
                i <= (len - 1) / per,
                per > 0,
                len > 0,
                i >= 0,
        ;
    } else {
        assert(i == 0);
        assert(i * per == 0) by (nonlinear_arith)
            requires
                i == 0,
        ;
    }
}

/// What is free below a bound stays in front as the bound rises.
proof fn lemma_free_prefix(v: VolumeState, m: int, n: int)
    requires
        m <= n,
    ensures
        v.free_below(m).len() <= v.free_below(n).len(),
        v.free_below(n).take(v.free_below(m).len() as int) == v.free_below(m),
    decreases n,
{
    if m < n && n > 2 {
        lemma_free_prefix(v, m, n - 1);
        assert(v.free_below(n).take(v.free_below(m).len() as int) =~= v.free_below(m));
    } else {
        assert(v.free_below(n).take(v.free_below(m).len() as int) =~= v.free_below(m));
    }
}

/// Every free cluster is a real one, within the volume, marked free, and there
/// once.
pub proof fn lemma_free(v: VolumeState, n: int)
    requires
        n <= 0x1_0000_0000,
    ensures
        v.free_below(n).len() <= (if n <= 2 {
            0
        } else {
            n - 2
        }),
        forall|i: int|
            0 <= i < v.free_below(n).len() ==> {
                let c = #[trigger] v.free_below(n)[i];
                2 <= c < n && v.fat_entry(c) == 0
            },
        forall|i: int, j: int|
            0 <= i < j < v.free_below(n).len() ==> #[trigger] v.free_below(n)[i]
                < #[trigger] v.free_below(n)[j],
    decreases n,
{
    if n > 2 {
        lemma_free(v, n - 1);
    }
}

/// What a run of clusters holds comes first in what a longer one does.
proof fn lemma_content_prefix(v: VolumeState, chain: Seq<u32>, m: int, n: int)
    requires
        0 <= m <= n,
    ensures
        v.content(chain, m).len() <= v.content(chain, n).len(),
        v.content(chain, n).take(v.content(chain, m).len() as int) == v.content(chain, m),
    decreases n,
{
    if m < n {
        lemma_content_prefix(v, chain, m, n - 1);
    }
    assert(v.content(chain, n).take(v.content(chain, m).len() as int) =~= v.content(chain, m));
}

/// No run of `count` free slots starts between `k` and a slot in use at `i`,
/// when they are too close together for one.
proof fn lemma_no_run(slots: Seq<Slot>, count: int, k: int, i: int)
    requires
        0 <= k <= i < slots.len(),
        i - k < count,
        !slots[i].is_free(),
    ensures
        first_run(slots, count, k) == first_run(slots, count, i + 1),
    decreases i - k,
{
    if k + count <= slots.len() {
        assert(!run_free(slots, k, count));
        if k < i {
            lemma_no_run(slots, count, k + 1, i);
        }
    } else {
        assert(first_run(slots, count, i + 1) is None);
    }
}

/// No run starts where too few slots are left.
proof fn lemma_no_run_at_end(slots: Seq<Slot>, count: int, k: int)
    requires
        0 <= k,
        slots.len() - k < count,
    ensures
        first_run(slots, count, k) is None,
{
}

/// Setting an entry leaves the volume's shape alone.
pub proof fn lemma_fat_fields(v: VolumeState, c: u32, x: u32, n: int)
    ensures
        v.fat_upto(c, x, n) == (VolumeState { disk: v.fat_upto(c, x, n).disk, ..v }),
        v.fat_upto(c, x, n).disk.len() == v.disk.len(),
    decreases n,
{
    if n > 0 {
        lemma_fat_fields(v, c, x, n - 1);
    }
}

/// Freeing clusters leaves the volume's shape alone.
pub proof fn lemma_freed_fields(v: VolumeState, chain: Seq<u32>, n: int)
    ensures
        v.freed(chain, n) == (VolumeState { disk: v.freed(chain, n).disk, ..v }),
        v.freed(chain, n).disk.len() == v.disk.len(),
    decreases n,
{
    if n > 0 {
        lemma_freed_fields(v, chain, n - 1);
        let w = v.freed(chain, n - 1);
        lemma_fat_fields(w, chain[n - 1], 0, w.fats as int);
    }
}

/// Marking slots deleted leaves the volume's shape alone.
pub proof fn lemma_erased_fields(v: VolumeState, slots: Seq<Slot>, from: int, to: int)
    ensures
        v.erased(slots, from, to) == (VolumeState { disk: v.erased(slots, from, to).disk, ..v }),
        v.erased(slots, from, to).disk.len() == v.disk.len(),
    decreases to - from,
{
    if from < to {
        lemma_erased_fields(v.wrote(slots[to - 1].at, seq![0xE5u8]), slots, from, to - 1);
    }
}

/// Taking a file off leaves the volume's shape alone.
pub proof fn lemma_cleared_fields(v: VolumeState, name: Seq<char>)
    ensures
        v.cleared(name) == (VolumeState { disk: v.cleared(name).disk, ..v }),
        v.cleared(name).disk.len() == v.disk.len(),
{
    reveal(VolumeState::cleared);
    if let Some(e) = named_in(v.files(), name, 0) {
        let chain = v.chain(e.cluster);
        lemma_freed_fields(v, chain, chain.len() as int);
        let slots = v.root_slots();
        let j = place_of(slots, e.at, 0);
        lemma_erased_fields(
            v.freed(chain, chain.len() as int),
            slots,
            long_start(slots, j),
            j + 1,
        );
    }
}

/// Marking slots leaves the volume's shape alone.
pub proof fn lemma_marked_fields(v: VolumeState, slots: Seq<Slot>, n: int)
    ensures
        v.marked(slots, n) == (VolumeState { disk: v.marked(slots, n).disk, ..v }),
        v.marked(slots, n).disk.len() == v.disk.len(),
    decreases n,
{
    if n > 0 {
        lemma_marked_fields(v, slots, n - 1);
    }
}

/// The file that is found by a name is the first in the list that has it, and
/// none is found only where none has it.
pub proof fn law_the_first_of_a_name_is_found(files: Seq<FileEntry>, name: Seq<char>, i: int)
    requires
        0 <= i <= files.len(),
    ensures
        match named_in(files, name, i) {
            Some(e) => exists|k: int|
                {
                    &&& i <= k < files.len()
                    &&& #[trigger] files[k] == e
                    &&& e.name == name
                    &&& forall|j: int| i <= j < k ==> (#[trigger] files[j]).name != name
                },
            None => forall|j: int| i <= j < files.len() ==> (#[trigger] files[j]).name != name,
        },
    decreases files.len() - i,
{
    if i < files.len() && files[i].name != name {
        law_the_first_of_a_name_is_found(files, name, i + 1);
    }
}

/// The room that is found for an entry is the first run of free slots that is
/// long enough, and none is found only where there is none.
pub proof fn law_the_first_free_run_is_found(slots: Seq<Slot>, count: int, k: int)
    requires
        0 <= k,
        count > 0,
    ensures
        match first_run(slots, count, k) {
            Some(r) => k <= r && run_free(slots, r, count) && forall|j: int|
                k <= j < r ==> !#[trigger] run_free(slots, j, count),
            None => forall|j: int| k <= j ==> !#[trigger] run_free(slots, j, count),
        },
    decreases slots.len() - k,
{
    if k + count <= slots.len() && !run_free(slots, k, count) {
        law_the_first_free_run_is_found(slots, count, k + 1);
    }
}

/// The alias a file gets is the lowest numbered of its name that is not in use,
/// so that no two files share one, as long as there is one to be had.
pub proof fn law_an_alias_is_not_in_use(slots: Seq<Slot>, name: Seq<char>, n: int, free: int)
    requires
        0 <= n <= free < 1000,
        !alias_taken(slots, super::fatname::alias(name, free as u32)),
    ensures
        !alias_taken(slots, alias_from(slots, name, n)),
        exists|m: int|
            n <= m <= free && alias_from(slots, name, n) == #[trigger] super::fatname::alias(
                name,
                m as u32,
            ),
    decreases free - n,
{
    if !alias_taken(slots, super::fatname::alias(name, n as u32)) {
        assert(alias_from(slots, name, n) == super::fatname::alias(name, n as u32));
    } else {
        law_an_alias_is_not_in_use(slots, name, n + 1, free);
    }
}

/// A file gets as many clusters as its bytes need, and no more.
pub proof fn law_a_file_gets_the_clusters_it_needs(len: int, per: int)
    requires
        0 < len,
        0 < per,
    ensures
        len <= clusters_for(len, per) * per,
        (clusters_for(len, per) - 1) * per < len,
{
    let n = clusters_for(len, per);
    assert(len <= n * per && (n - 1) * per < len) by (nonlinear_arith)
        requires
            n == (len + per - 1) / per,
            0 < per,
            0 < len,
    ;
}

} // verus!
