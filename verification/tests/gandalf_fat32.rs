use vbnote::gandalf::fat32::{MAX_MEGABYTES, MIN_MEGABYTES, PARTITION_START, SECTOR, Store, sectors_per_cluster};

fn formatted(megabytes: usize) -> Store {
    let mut s = Store::memory(megabytes * 1024 * 1024);
    vbnote::gandalf::fat32::format(&mut s, "VBNOTE").expect("format failed");
    s
}

/// The partition entry has to say FAT32-with-LBA and start where the boot
/// sector claims it does, or the volume is found in the wrong place.
#[test]
fn the_partition_table_points_at_the_volume() {
    let mut s = formatted(64);
    let mbr = s.read(0, 512);
    assert_eq!([mbr[510], mbr[511]], [0x55, 0xAA]);
    assert_eq!(mbr[446 + 4], 0x0C, "not FAT32 with LBA");
    let start = u32::from_le_bytes(mbr[446 + 8..446 + 12].try_into().unwrap());
    assert_eq!(start as u64, PARTITION_START);

    let boot = s.read(PARTITION_START * SECTOR, 512);
    let hidden = u32::from_le_bytes(boot[28..32].try_into().unwrap());
    assert_eq!(hidden as u64, PARTITION_START, "hidden sectors disagree");
}

/// The three fields a driver uses to tell FAT32 from FAT16. All three
/// must be zero, and the 32-bit ones filled in instead.
#[test]
fn it_is_recognisably_fat32() {
    let mut s = formatted(64);
    let b = s.read(PARTITION_START * SECTOR, 512);
    assert_eq!(u16::from_le_bytes([b[17], b[18]]), 0, "root entries not zero");
    assert_eq!(u16::from_le_bytes([b[19], b[20]]), 0, "16-bit total not zero");
    assert_eq!(u16::from_le_bytes([b[22], b[23]]), 0, "16-bit FAT size not zero");
    assert_ne!(u32::from_le_bytes(b[36..40].try_into().unwrap()), 0);
    assert_eq!(&b[82..90], b"FAT32   ");
    assert_eq!(u32::from_le_bytes(b[44..48].try_into().unwrap()), 2);
    assert_eq!([b[510], b[511]], [0x55, 0xAA]);
}

/// The first two entries are reserved and the third ends the root
/// directory's chain. A root that does not terminate is a directory that
/// reads off into free space.
#[test]
fn the_table_starts_with_a_terminated_root() {
    let mut s = formatted(64);
    let b = s.read(PARTITION_START * SECTOR, 512);
    let reserved = u16::from_le_bytes([b[14], b[15]]) as u64;
    let fat = s.read((PARTITION_START + reserved) * SECTOR, 12);
    assert_eq!(u32::from_le_bytes(fat[0..4].try_into().unwrap()), 0x0FFF_FFF8);
    assert_eq!(u32::from_le_bytes(fat[4..8].try_into().unwrap()), 0x0FFF_FFFF);
    assert_eq!(
        u32::from_le_bytes(fat[8..12].try_into().unwrap()),
        0x0FFF_FFFF,
        "the root directory's chain does not end"
    );
}

/// One table, and the boot sector says so. Counting free space reads
/// every table there is, so a second copy is a second scan.
#[test]
fn there_are_two_tables_and_a_backup_boot_sector() {
    let mut s = formatted(64);
    let b = s.read(PARTITION_START * SECTOR, 512);
    let backup = s.read((PARTITION_START + 6) * SECTOR, 512);
    assert_eq!(b, backup, "the backup boot sector differs");
    assert_eq!(b[16], 2, "the volume claims a number of tables it has not got");

    let reserved = u16::from_le_bytes([b[14], b[15]]) as u64;
    let fat_sectors = u32::from_le_bytes(b[36..40].try_into().unwrap()) as u64;
    let first = s.read((PARTITION_START + reserved) * SECTOR, 12);
    let second = s.read((PARTITION_START + reserved + fat_sectors) * SECTOR, 12);
    assert_eq!(first, second, "the second table was not written");
}

/// Fewer than 65525 clusters is not FAT32, whatever the label says, so a
/// disk too small to have them is refused rather than made wrong.
#[test]
fn a_disk_too_small_for_fat32_is_refused() {
    let mut s = Store::memory(8 * 1024 * 1024);
    let e = vbnote::gandalf::fat32::format(&mut s, "VBNOTE").expect_err("an 8 MB FAT32 volume should be refused");
    assert!(e.contains("too few"), "{e}");
}

/// And one that is big enough has enough, which is the same check from
/// the other side.
#[test]
fn the_smallest_allowed_disk_has_enough_clusters() {
    let mut s = formatted(MIN_MEGABYTES);
    let b = s.read(PARTITION_START * SECTOR, 512);
    let spc = b[13] as u64;
    let reserved = u16::from_le_bytes([b[14], b[15]]) as u64;
    let fats = b[16] as u64;
    let fat_sectors = u32::from_le_bytes(b[36..40].try_into().unwrap()) as u64;
    let total = u32::from_le_bytes(b[32..36].try_into().unwrap()) as u64;
    let clusters = (total - reserved - fats * fat_sectors) / spc;
    assert!(clusters >= 65525, "only {clusters} clusters");
}

/// Cluster sizes follow Windows' table, because a volume it would not
/// make is a volume it may not want to read.
/// Every size still has enough clusters to be FAT32, and gets the
/// largest cluster that manages it -- which is the same thing as the
/// smallest table.
#[test]
fn clusters_are_as_large_as_they_can_be() {
    let mb = |n: u64| n * 1024 * 1024 / SECTOR;
    for size in [64u64, 128, 256, 512, 1024, 4096, 8192, 16 * 1024, 32 * 1024] {
        let sectors = mb(size);
        let spc = sectors_per_cluster(sectors);
        assert!(
            sectors / spc as u64 >= 65_525,
            "{size} MB with {spc} sectors a cluster is not FAT32"
        );
        if spc < 64 {
            let bigger = spc * 2;
            assert!(
                sectors / bigger as u64 <= 70_000,
                "{size} MB could have used {bigger} sectors a cluster"
            );
        }
    }
}

/// The bug this was found by: a 256 MB drive with 512-byte clusters has
/// an 8,032-sector table across both copies, and reading it is a minute
/// of silence when somebody asks how much space is free.
#[test]
fn a_small_drives_table_is_not_enormous() {
    let mut s = formatted(256);
    let b = s.read(PARTITION_START * SECTOR, 512);
    let fats = b[16] as u64;
    let fat_sectors = u32::from_le_bytes(b[36..40].try_into().unwrap()) as u64;
    let total = fats * fat_sectors;
    assert!(
        total <= 2500,
        "{total} sectors of table to read for a 256 MB drive"
    );
}

/// The largest allowed disk still formats, and its table is a sane size
/// rather than most of the volume.
#[test]
fn the_largest_allowed_disk_formats() {
    // Sparse in spirit: only the metadata is touched, so this does not
    // need 32 GB of anything. The memory store cannot pretend, so this
    // checks the arithmetic instead of writing it.
    let total = MAX_MEGABYTES as u64 * 1024 * 1024 / SECTOR;
    let spc = sectors_per_cluster(total);
    assert_eq!(spc, 64);
    let clusters = total / spc as u64;
    assert!(clusters >= 65525);
    // Four bytes an entry, and it must not swallow the volume.
    let fat_bytes = clusters * 4;
    assert!(fat_bytes < total * SECTOR / 100, "table is over 1% of the disk");
}

#[test]
fn the_volume_label_is_written_where_it_is_looked_for() {
    let mut s = formatted(64);
    let b = s.read(PARTITION_START * SECTOR, 512);
    assert_eq!(&b[71..82], b"VBNOTE     ");
}

/// A sparse file reads as zeroes where nothing was written, and that has
/// to hold or a freshly formatted disk is full of whatever was there.
#[test]
fn unwritten_space_reads_as_zeroes() {
    let mut s = formatted(64);
    let far = s.read(40 * 1024 * 1024, 64);
    assert!(far.iter().all(|b| *b == 0));
}
