use vbnote::gandalf::fat32::{SECTOR, Store};
use vbnote::gandalf::fatfile::Volume;
use vbnote::gandalf::fatname::{long_name_entries, short_checksum, short_name};

fn drive() -> Volume {
    let mut s = Store::memory(64 * 1024 * 1024);
    vbnote::gandalf::fat32::format(&mut s, "VBNOTE").unwrap();
    Volume::open(s).unwrap()
}

#[test]
fn a_fresh_drive_is_empty() {
    let mut v = drive();
    assert!(v.list().is_empty());
}

#[test]
fn a_file_written_reads_back() {
    let mut v = drive();
    let text = b"the quick brown fox".to_vec();
    v.create("notes.txt", &text).unwrap();

    let files = v.list();
    assert_eq!(files.len(), 1);
    assert_eq!(files[0].name, "notes.txt");
    assert_eq!(files[0].size, text.len() as u32);
    assert_eq!(v.read_file(&files[0]), text);
}

/// Longer than a cluster, so the chain has to be followed rather than
/// the first cluster being mistaken for the whole file.
#[test]
fn a_file_longer_than_a_cluster_reads_back() {
    let mut v = drive();
    let big: Vec<u8> = (0..40_000).map(|i| (i % 251) as u8).collect();
    v.create("big.bin", &big).unwrap();
    let files = v.list();
    assert_eq!(files[0].size, 40_000);
    assert_eq!(v.read_file(&files[0]), big);
}

/// The name a user typed, not the 8.3 alias. If the checksum is wrong
/// this comes back as BRAILL~1.TXT and looks like mangling.
#[test]
fn a_long_name_survives() {
    let mut v = drive();
    let name = "My braille notes from Tuesday.txt";
    v.create(name, b"hello").unwrap();
    assert_eq!(v.list()[0].name, name);
}

#[test]
fn the_checksum_is_the_rotate_and_add_the_format_asks_for() {
    // Worked by hand from the algorithm: rotate right, add, one byte at
    // a time.
    let short = *b"NOTES   TXT";
    let mut expect: u8 = 0;
    for c in short.iter() {
        expect = expect.rotate_right(1).wrapping_add(*c);
    }
    assert_eq!(short_checksum(&short), expect);
}

/// Every long-name entry must carry the checksum of the short name it
/// belongs to, or the long name is silently discarded.
#[test]
fn every_long_entry_carries_the_short_names_checksum() {
    let short = short_name("a rather long file name.txt", 1);
    let sum = short_checksum(&short);
    let entries = long_name_entries("a rather long file name.txt", sum);
    assert!(entries.len() > 1, "this name should need several entries");
    for e in &entries {
        assert_eq!(e[13], sum);
        assert_eq!(e[11], 0x0F);
    }
    // The first on disk is the last part, and it is the flagged one.
    assert_eq!(entries[0][0] & 0x40, 0x40);
    assert_eq!(entries.last().unwrap()[0], 1);
}

/// Both tables, because a driver may read either and disagreeing copies
/// lose files that were there a moment ago.
#[test]
fn both_allocation_tables_are_written() {
    let mut v = drive();
    v.create("a.txt", b"x").unwrap();
    let first = v.list()[0].cluster;

    let base = (v.part_start + v.reserved as u64) * SECTOR;
    let second = base + v.fat_sectors as u64 * SECTOR;
    let a = v.store.read(base + first as u64 * 4, 4);
    let b = v.store.read(second + first as u64 * 4, 4);
    assert_eq!(a, b, "the second table was not updated");
    assert_ne!(u32::from_le_bytes(a.try_into().unwrap()), 0);
}

/// Cluster 2 is the first real one; 0 and 1 are the table's own.
#[test]
fn allocation_never_hands_out_the_reserved_clusters() {
    let mut v = drive();
    for i in 0..8 {
        v.create(&format!("f{i}.txt"), b"data").unwrap();
    }
    for f in v.list() {
        assert!(f.cluster >= 2, "{} got cluster {}", f.name, f.cluster);
    }
}

#[test]
fn several_files_do_not_share_clusters() {
    let mut v = drive();
    for i in 0..6 {
        v.create(&format!("file{i}.txt"), format!("contents {i}").as_bytes()).unwrap();
    }
    let files = v.list();
    assert_eq!(files.len(), 6);
    let mut clusters: Vec<u32> = files.iter().map(|f| f.cluster).collect();
    clusters.sort_unstable();
    clusters.dedup();
    assert_eq!(clusters.len(), 6, "two files were given the same cluster");
    for (i, f) in files.iter().enumerate() {
        assert_eq!(v.read_file(f), format!("contents {i}").as_bytes());
    }
}

/// Writing the same name again replaces it rather than leaving two.
#[test]
fn writing_a_name_twice_replaces_it() {
    let mut v = drive();
    v.create("notes.txt", b"first").unwrap();
    v.create("notes.txt", b"second").unwrap();
    let files = v.list();
    assert_eq!(files.len(), 1, "the old entry was left behind");
    assert_eq!(v.read_file(&files[0]), b"second");
}

/// And the clusters of the replaced file come back, or a drive written
/// to repeatedly fills up with files that are not there.
#[test]
fn replacing_a_file_frees_what_it_had() {
    let mut v = drive();
    let big: Vec<u8> = vec![7; 100_000];
    v.create("big.bin", &big).unwrap();
    let first = v.list()[0].cluster;
    v.create("big.bin", b"small").unwrap();

    let mut freed = 0;
    for c in first..first + 100 {
        if v.fat_entry(c) == 0 {
            freed += 1;
        }
    }
    assert!(freed > 50, "only {freed} clusters came back");
}

#[test]
fn removing_a_file_takes_its_long_name_with_it() {
    let mut v = drive();
    v.create("A long name that needs several entries.txt", b"x").unwrap();
    let f = v.list()[0].clone();
    v.remove(&f);
    assert!(v.list().is_empty(), "something was left in the directory");
}

/// Similar long names must not collide in their 8.3 aliases.
#[test]
fn similar_names_get_different_aliases() {
    let mut v = drive();
    v.create("Meeting notes January.txt", b"a").unwrap();
    v.create("Meeting notes February.txt", b"b").unwrap();
    let files = v.list();
    assert_eq!(files.len(), 2);
    assert_eq!(v.read_file(&files[0]), b"a");
    assert_eq!(v.read_file(&files[1]), b"b");
}

/// More files than one cluster of directory can hold. At 512-byte
/// clusters that is sixteen entries, and a long name takes several, so
/// without a directory that grows a drive is full at about seven files.
#[test]
fn the_directory_grows_past_one_cluster() {
    let mut v = drive();
    for i in 0..40 {
        let name = format!("Document number {i} from the machine.txt");
        v.create(&name, format!("contents of {i}").as_bytes()).unwrap();
    }
    let files = v.list();
    assert_eq!(files.len(), 40, "files were lost as the directory grew");
    for (i, f) in files.iter().enumerate() {
        assert_eq!(f.name, format!("Document number {i} from the machine.txt"));
        assert_eq!(v.read_file(f), format!("contents of {i}").as_bytes());
    }
}

#[test]
fn an_alias_is_padded_and_upper_case() {
    assert_eq!(&short_name("notes.txt", 1), b"NOTES~1 TXT");
    assert_eq!(&short_name("a.b", 1), b"A~1     B  ");
}

/// The volume label is not a file and must not be listed as one.
#[test]
fn the_volume_label_is_not_a_file() {
    let mut v = drive();
    assert!(v.list().is_empty());
    v.create("x.txt", b"x").unwrap();
    assert_eq!(v.list().len(), 1);
}

/// An empty file is legal and must not be given a zero-length chain.
#[test]
fn an_empty_file_is_written_without_a_broken_chain() {
    let mut v = drive();
    v.create("empty.txt", b"").unwrap();
    let f = &v.list()[0];
    assert_eq!(f.size, 0);
    assert!(f.cluster >= 2);
    assert_eq!(v.read_file(f), Vec::<u8>::new());
}
