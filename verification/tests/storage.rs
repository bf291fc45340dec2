use vbnote::gandalf::fat32::{disk_length, layout, pieces, Store, TooSmall, FOOTER_COOKIE};
use vbnote::gandalf::fatfile::Volume;
use vbnote::gandalf::fatname::{encode, long_name_entries, long_name_part, short_name, short_name_of};
use vbnote::gandalf::pcmcia::{Card, Socket, Space, SECTOR};
use vbnote::gandalf::usb::Device;
use vbnote::gandalf::usbdisk::{UsbDisk, CBW_SIGNATURE};
use vbnote::gandalf::vhd::{footer, geometry, write_footer};

fn cbw(tag: u32, len: u32, to_host: bool, cb: &[u8]) -> Vec<u8> {
    let mut d = CBW_SIGNATURE.to_le_bytes().to_vec();
    d.extend_from_slice(&tag.to_le_bytes());
    d.extend_from_slice(&len.to_le_bytes());
    d.extend_from_slice(&[if to_host { 0x80 } else { 0 }, 0, cb.len() as u8]);
    d.extend_from_slice(cb);
    d.resize(31, 0);
    d
}

fn drive() -> Volume {
    let mut s = Store::memory(64 * 1024 * 1024);
    vbnote::gandalf::fat32::format(&mut s, "VBNOTE").unwrap();
    Volume::open(s).unwrap()
}

#[test]
fn a_disk_that_is_too_small_says_how() {
    assert_eq!(layout(2048), Err(TooSmall::ForPartition));
    for total in [2049, 2050, 2079, 2080] {
        assert_eq!(layout(total), Err(TooSmall::ForTable));
    }
    let mut narrow = Store::memory(2050 * 512);
    assert!(vbnote::gandalf::fat32::format(&mut narrow, "X").is_err());
    assert_eq!(narrow.read(0, 2050 * 512), vec![0; 2050 * 512], "and nothing written");
    let mut tiny = Store::memory(1024);
    assert_eq!(
        vbnote::gandalf::fat32::format(&mut tiny, "X"),
        Err("the disk is too small to hold a partition".into())
    );
    let mut small = Store::memory(2080 * 512);
    assert_eq!(
        vbnote::gandalf::fat32::format(&mut small, "X"),
        Err("the disk is too small for a file allocation table".into())
    );
    let mut eight = Store::memory(8 * 1024 * 1024);
    let e = vbnote::gandalf::fat32::format(&mut eight, "X").unwrap_err();
    assert_eq!(e, "14082 clusters is too few for FAT32; the disk must be at least 64 MB");
}

#[test]
fn a_layout_has_its_numbers() {
    let l = layout(131_072).unwrap();
    assert_eq!((l.volume_sectors, l.spc, l.fat_sectors, l.data_start), (129_024, 1, 993, 2018));
    assert_eq!(l.clusters, 127_006);
    let p = pieces(l, "VBNOTE");
    assert_eq!(p.len(), 8);
    assert_eq!(p[0].at, 0, "the partition table first");
}

#[test]
fn a_store_reads_zeroes_past_its_end_and_refuses_to_grow_by_accident() {
    let mut s = Store::memory(8);
    s.write(6, &[1, 2, 3, 4]);
    assert_eq!(s.read(4, 8), vec![0, 0, 1, 2, 0, 0, 0, 0]);
    s.write(100, &[9]);
    assert_eq!(s.len(), 8);
    assert_eq!(s.sectors(), 0);
    assert!(!s.is_empty());
    s.write_past_end(8, &[7, 7]).unwrap();
    assert_eq!(s.len(), 10);
    s.sync();
}

#[test]
fn a_volume_that_is_none_is_refused_with_the_reason() {
    let refuse = |s: Store| Volume::open(s).err().unwrap();
    assert_eq!(refuse(Store::memory(4096)), "no partition table");
    let mut s = Store::memory(4 * 1024 * 1024);
    s.write(510, &[0x55, 0xAA]);
    assert_eq!(refuse(s), "no partition");
    let mut s = Store::memory(4 * 1024 * 1024);
    s.write(510, &[0x55, 0xAA]);
    s.write(446 + 8, &[8, 0, 0, 0]);
    assert_eq!(refuse(s), "no boot record");
    let mut s = Store::memory(4 * 1024 * 1024);
    s.write(510, &[0x55, 0xAA]);
    s.write(446 + 8, &[8, 0, 0, 0]);
    s.write(8 * 512 + 510, &[0x55, 0xAA]);
    s.write(8 * 512 + 11, &[0, 4]);
    assert_eq!(refuse(s), "1024-byte sectors are not supported");
    let mut s = Store::memory(4 * 1024 * 1024);
    s.write(510, &[0x55, 0xAA]);
    s.write(446 + 8, &[8, 0, 0, 0]);
    s.write(8 * 512 + 510, &[0x55, 0xAA]);
    s.write(8 * 512 + 11, &[0, 2]);
    assert_eq!(refuse(s), "this is not a FAT32 volume");
}

#[test]
fn a_drive_that_is_full_says_so_and_keeps_what_it_has() {
    let mut v = drive();
    v.create("kept.txt", b"still here").unwrap();
    let huge = vec![0u8; 64 * 1024 * 1024];
    assert_eq!(v.create("huge.bin", &huge), Err("the drive is full".into()));
    let files = v.list();
    assert_eq!(files.len(), 1);
    assert_eq!(v.read_file(&files[0]), b"still here");
}

/// What one file holds is no business of another's.
#[test]
fn removing_one_file_leaves_the_others() {
    let mut v = drive();
    v.create("first.txt", b"one").unwrap();
    v.create("second with a long name.txt", &vec![5u8; 3000]).unwrap();
    v.create("third.txt", b"three").unwrap();
    let second = v.list()[1].clone();
    let cluster = second.cluster;
    v.remove(&second);
    assert_eq!(v.fat_entry(cluster), 0, "its clusters are free again");
    let files = v.list();
    assert_eq!(files.len(), 2);
    assert_eq!(v.read_file(&files[0]), b"one");
    assert_eq!(v.read_file(&files[1]), b"three");
    let s = v.into_store();
    let again = Volume::open(s).unwrap();
    assert_eq!(again.list().len(), 2, "and it is all on the disk");
}

/// A sparse disk is a disk like any other, but for what it costs.
#[test]
fn a_sparse_disk_reads_and_writes_like_any_other() {
    let mut dense = Store::memory(2000);
    let mut sparse = Store::sparse(2000);
    for s in [&mut dense, &mut sparse] {
        s.write(500, &[1; 600]);
        s.write(1024, &[2; 3]);
        s.write(1990, &[3; 50]);
        s.write(5000, &[4]);
    }
    assert_eq!(dense.read(0, 2100), sparse.read(0, 2100));
    assert_eq!(sparse.read(1098, 4), [1, 1, 0, 0]);
    assert_eq!(sparse.read(1990, 12), [3, 3, 3, 3, 3, 3, 3, 3, 3, 3, 0, 0], "the rest was dropped");
    assert_eq!((sparse.len(), sparse.sectors()), (2000, 3));
    for s in [&mut dense, &mut sparse] {
        s.write_past_end(2560, &[5; 4]).unwrap();
    }
    assert_eq!(sparse.len(), 2564);
    assert_eq!(dense.read(0, 2564), sparse.read(0, 2564));
    assert!(Store::sparse(0).is_empty());
    match sparse {
        Store::Sparse(d) => assert_eq!(d.sectors.keys().copied().collect::<Vec<u64>>(), [0, 1, 2, 3, 5]),
        Store::Memory(_) => panic!("it was sparse"),
    }
}

#[test]
fn the_largest_disk_costs_what_is_on_it() {
    let mut s = Store::sparse(32 * 1024 * 1024 * 1024);
    vbnote::gandalf::fat32::format(&mut s, "VBNOTE").unwrap();
    let mut v = Volume::open(s).unwrap();
    v.create("notes.txt", b"on a large disk").unwrap();
    assert_eq!(v.read_file(&v.list()[0]), b"on a large disk");
    match v.into_store() {
        Store::Sparse(d) => assert!(d.sectors.len() < 300, "{} sectors", d.sectors.len()),
        Store::Memory(_) => panic!("it was sparse"),
    }
}

/// Each part of a long name carries the checksum of the 8.3 name it is of, and
/// a name that is another's is not shown.
#[test]
fn a_long_name_with_the_wrong_checksum_is_ignored() {
    let mut v = drive();
    v.create("first notes.txt", b"one").unwrap();
    v.create("My braille notes from Tuesday.txt", b"two").unwrap();
    let files = v.list();
    let names: Vec<&str> = files.iter().map(|f| f.name.as_str()).collect();
    assert_eq!(names, ["first notes.txt", "My braille notes from Tuesday.txt"]);
    let sum = files[1].at - 64 + 13;
    let mut s = v.into_store();
    let was = s.read(sum, 1)[0];
    s.write(sum, &[was ^ 1]);
    let v = Volume::open(s).unwrap();
    let shown = v.list();
    assert_eq!(shown[0].name, "first notes.txt");
    assert_eq!(shown[1].name, "MYBRAI~1.TXT", "one part of the name is enough");
    assert_eq!(v.read_file(&shown[1]), b"two");
    let mut s = v.into_store();
    s.write(sum, &[was]);
    assert_eq!(Volume::open(s).unwrap().list()[1].name, "My braille notes from Tuesday.txt");
}

#[test]
fn names_outside_the_basic_plane_survive() {
    let name = "notes \u{1F600} and \u{e9}t\u{e9}.txt";
    assert_eq!(encode("a\u{1F600}"), vec![0x61, 0xD83D, 0xDE00]);
    let mut v = drive();
    v.create(name, b"x").unwrap();
    assert_eq!(v.list()[0].name, name);
}

/// Half a surrogate pair is no character, and shows as the one for that.
#[test]
fn a_long_name_part_is_decoded() {
    let entries = long_name_entries("hi", 0x42);
    assert_eq!(entries.len(), 1);
    assert_eq!(long_name_part(&entries[0]), "hi");
    let mut e = entries[0].clone();
    e[3] = 0x00;
    e[4] = 0xD8;
    assert_eq!(long_name_part(&e), "h\u{FFFD}");
}

#[test]
fn a_short_name_is_read_as_text() {
    let mut e = [0u8; 32];
    e[..11].copy_from_slice(b"NOTES   TXT");
    assert_eq!(short_name_of(&e), "NOTES.TXT");
    e[..11].copy_from_slice(b"README     ");
    assert_eq!(short_name_of(&e), "README");
    e[..11].copy_from_slice(b"A\xFFB     X  ");
    assert_eq!(short_name_of(&e), "A\u{FFFD}B.X", "a byte that is no text");
    assert_eq!(&short_name("a rather long name.html", 12), b"ARATH~12HTM");
}

#[test]
fn the_footer_is_found_again() {
    let mut s = Store::memory(64 * 1024);
    write_footer(&mut s).unwrap();
    assert_eq!(s.len(), 64 * 1024 + 512);
    let tail = s.read(64 * 1024, 8);
    assert_eq!(tail, FOOTER_COOKIE);
    assert_eq!(disk_length(s.len(), &tail), 64 * 1024);
    assert_eq!(disk_length(s.len(), b"somethin"), s.len());
    assert_eq!(disk_length(512, &FOOTER_COOKIE), 512, "a footer alone is no disk");
    assert_eq!(s.read(64 * 1024, 512), footer(64 * 1024));
}

#[test]
fn geometries_have_their_numbers() {
    assert_eq!(geometry(2048), (30, 4, 17));
    assert_eq!(geometry(131_072), (963, 8, 17));
    assert_eq!(geometry(65535 * 16 * 63), (16_191, 16, 255));
    assert_eq!(geometry(u64::MAX), (65_535, 16, 255));
}

/// A drive takes its data in whatever pieces the host sends.
#[test]
fn a_write_in_pieces_is_the_write_in_one() {
    let payload: Vec<u8> = (0..SECTOR * 2).map(|i| (i % 253) as u8).collect();
    let write = [0x2A, 0, 0, 0, 0, 4, 0, 0, 2, 0];
    let mut one = UsbDisk::blank(1);
    one.bulk_out(2, &cbw(1, 1024, false, &write));
    one.bulk_out(2, &payload);
    let mut many = UsbDisk::blank(1);
    many.bulk_out(2, &cbw(1, 1024, false, &write));
    for piece in payload.chunks(64) {
        many.bulk_out(2, piece);
    }
    assert_eq!(one.bulk_in(1, 13), many.bulk_in(1, 13));
    assert_eq!(one.store.read(4 * 512, 1024), many.store.read(4 * 512, 1024));
    assert_eq!(one.store.read(4 * 512, 1024), payload);

    let read = [0x28, 0, 0, 0, 0, 4, 0, 0, 2, 0];
    many.bulk_out(2, &cbw(2, 1024, true, &read));
    let mut got = Vec::new();
    while got.len() < 1024 {
        got.extend(many.bulk_in(1, 64));
    }
    assert_eq!(got, payload);
}

#[test]
fn a_volume_that_ends_before_its_data_cannot_be_opened() {
    let mut s = drive().into_store();
    assert!(Volume::can_be_opened(&s));
    assert!(Volume::can_be_opened(&Store::memory(4096)), "it is refused, which is an answer");
    s.write(2048 * 512 + 32, &100u32.to_le_bytes());
    assert!(!Volume::can_be_opened(&s));
}

/// A disk that is kept elsewhere as well says what to copy.
#[test]
fn the_journal_brings_a_copy_into_step() {
    let mut copy = Store::memory(16 * 512);
    let mut d = UsbDisk::kept(Store::memory(16 * 512));
    assert_eq!(d.take_journal(), vec![]);
    for (tag, lba, byte) in [(1, 5, 0x5A), (2, 14, 0xA5)] {
        d.bulk_out(2, &cbw(tag, 512, false, &[0x2A, 0, 0, 0, 0, lba, 0, 0, 1, 0]));
        d.bulk_out(2, &[byte; 64]);
        // No more is taken than was announced.
        d.bulk_out(2, &[byte + 1; 1000]);
        assert_eq!(d.bulk_in(1, 13)[12], 0);
    }
    let journal = d.take_journal();
    assert_eq!(journal, vec![(2560, 64), (2624, 448), (7168, 64), (7232, 448)]);
    assert_ne!(copy.read(0, 16 * 512), d.store.read(0, 16 * 512));
    for (at, len) in journal {
        copy.write(at, &d.store.read(at, len));
    }
    assert_eq!(copy.read(0, 16 * 512), d.store.read(0, 16 * 512));
    assert_eq!(d.take_journal(), vec![], "and nothing twice");

    let mut other = UsbDisk::blank(1);
    other.bulk_out(2, &cbw(1, 512, false, &[0x2A, 0, 0, 0, 0, 5, 0, 0, 1, 0]));
    other.bulk_out(2, &[1; 512]);
    assert_eq!(other.take_journal(), vec![], "nothing else keeps it");
}

#[test]
fn the_drive_keeps_a_log() {
    let mut d = UsbDisk::blank(1);
    for _ in 0..2 {
        d.bulk_out(2, &cbw(1, 0, false, &[0x28, 0, 0, 0, 0, 9, 0, 0, 0, 0]));
        d.bulk_in(1, 13);
    }
    d.bulk_out(2, &cbw(1, 0, false, &[0x00]));
    d.bulk_in(1, 13);
    d.bulk_out(2, &cbw(1, 0, false, &[0xEE]));
    assert_eq!(
        d.summary(),
        "\n    0x00 TEST UNIT READY        x1\n    0x28 READ(10)               x2\n    0xee unknown                x1\
         \n    reads: highest block 9, 1 asked for twice running"
    );
}

#[test]
fn a_drive_names_itself() {
    let d = UsbDisk::blank(1);
    let s = d.descriptor(3, 3).unwrap();
    assert_eq!(s[0] as usize, s.len());
    assert_eq!(&s[2..6], &[b'V', 0, b'B', 0]);
    assert_eq!(d.descriptor(3, 0), Some(vec![4, 3, 9, 4]));
    assert_eq!(d.descriptor(3, 4), None);
    assert_eq!(d.descriptor(9, 0), None);
}

#[test]
fn a_card_is_put_in_and_taken_out() {
    let mut s = Socket::new();
    assert!(s.insert(Card::blank(8)).is_none());
    assert!(s.occupied() && s.changed);
    assert_eq!(s.insert(Card::blank(16)).unwrap().sectors(), 8, "the one that was there");
    assert_eq!(s.eject().unwrap().sectors(), 16);
    assert!(!s.occupied());
    assert!(s.eject().is_none());
}

/// The log goes by space and offset; the sockets share it.
#[test]
fn accesses_to_a_socket_are_noted() {
    let mut s = Socket::new();
    s.read(0x2C00_0007, 1, 0x100);
    s.write(0x3C00_0007, 5, 1, 0x200);
    s.read(0x2400_0010, 1, 0x300);
    s.read(0x2000_0010, 1, 0x400);
    assert_eq!(s.log.len(), 2);
    let io = s.log.get(&0x0C00_0007).unwrap();
    assert_eq!((io.reads, io.writes, io.first_pc, io.last_value), (1, 1, 0x100, 5));
    assert_eq!(s.log.get(&0x10).unwrap().reads, 2, "both halves of common memory");
    assert_eq!(s.read(0x1000_0000, 1, 0), !0);
    assert_eq!(s.log.len(), 2);
}

/// A sector goes in and comes out at every width.
#[test]
fn a_sector_is_kept_whatever_the_width() {
    for width in [1usize, 2, 4] {
        let mut card = Card::blank(16);
        let payload: Vec<u8> = (0..SECTOR).map(|i| (i * 7 % 251) as u8).collect();
        card.write(Space::Io, 3, 3, 1);
        card.write(Space::Io, 7, 0x30, 1);
        for unit in payload.chunks(width) {
            let mut v = 0u32;
            for (i, b) in unit.iter().enumerate() {
                v |= (*b as u32) << (8 * i);
            }
            card.write(Space::Io, 0, v, width as u32);
        }
        assert_eq!(&card.data[3 * SECTOR..4 * SECTOR], &payload[..]);
        assert!(card.data[..3 * SECTOR].iter().all(|b| *b == 0));
        card.write(Space::Io, 7, 0x20, 1);
        let mut got = Vec::new();
        for _ in 0..SECTOR / width {
            let v = card.read(Space::Io, 0, width as u32);
            got.extend_from_slice(&v.to_le_bytes()[..width]);
        }
        assert_eq!(got, payload);
        assert_eq!(card.read(Space::Io, 0, 2), 0, "and then there is no more");
    }
}

#[test]
fn the_card_answers_its_other_registers() {
    let mut card = Card::blank(16);
    card.write(Space::Io, 4, 0x12, 1);
    card.write(Space::Io, 6, 0xE3, 1);
    assert_eq!(card.read(Space::Io, 4, 1), 0x12);
    assert_eq!(card.read(Space::Io, 6, 1), 0xE3);
    card.write(Space::Io, 7, 0x90, 1);
    assert_eq!(card.read(Space::Io, 1, 1), 0x01, "passed");
    card.write(Space::Io, 7, 0x30, 1);
    assert_eq!(card.read(Space::Io, 0x0D, 1), 0x04, "no such sector");
    card.write(Space::Io, 0x0E, 0x04, 1);
    assert_eq!(card.read(Space::Io, 0x0E, 1), 0x40);
    assert_eq!(card.read(Space::Io, 0x0F, 1), 1);
    assert_eq!(card.read(Space::Io, 8, 1), 0);
    assert_eq!(card.read(Space::Common, 0, 4), !0);
    assert_eq!(card.read(Space::Attribute, 0x400, 1), 0);
    card.write(Space::Attribute, 0x400, 0x41, 1);
    assert_eq!(card.read(Space::Attribute, 0x400, 1), 0x41);
}

#[test]
fn an_identity_names_the_card() {
    let mut card = Card::blank(100_000);
    card.write(Space::Io, 7, 0xEC, 1);
    let words: Vec<u16> = (0..256).map(|_| card.read(Space::Io, 0, 2) as u16).collect();
    assert_eq!(words[0], 0x044A);
    assert_eq!((words[1], words[3], words[6]), (99, 16, 63));
    assert_eq!(words[10], u16::from_be_bytes(*b"VB"), "swapped within the word");
    assert_eq!(words[46], 0x2020, "and padded with spaces");
    assert_eq!((words[60] as u32) | (words[61] as u32) << 16, 100_000);
}

/// A file's long name goes with it, also where the directory goes on in
/// another cluster, and nobody else's bytes do.
#[test]
fn removing_takes_the_long_name_along() {
    let mut v = drive();
    // Sixteen slots to a cluster, and four to each of these: the label, and
    // then one of them lies across the end of the first cluster.
    let name = |i: usize| format!("a rather long name of a file {i}");
    for i in 0..5 {
        v.create(&name(i), &[i as u8; 700]).unwrap();
    }
    let listed: Vec<String> = v.list().into_iter().map(|e| e.name).collect();
    assert_eq!(listed, (0..5).map(name).collect::<Vec<_>>());
    for i in [3, 1, 4] {
        let e = v.list().into_iter().find(|e| e.name == name(i)).unwrap();
        v.remove(&e);
    }
    let listed: Vec<String> = v.list().into_iter().map(|e| e.name).collect();
    assert_eq!(listed, vec![name(0), name(2)]);
    v.create("SHORT.TXT", b"x").unwrap();
    assert!(v.list().iter().any(|e| e.name == "SHORT.TXT"), "and no old name in front of it");
    for i in [0, 2] {
        let e = v.list().into_iter().find(|e| e.name == name(i)).unwrap();
        assert_eq!(v.read_file(&e), vec![i as u8; 700]);
    }
}

#[test]
fn replacing_leaves_one_entry() {
    let mut v = drive();
    v.create("one.txt", b"first").unwrap();
    v.create("two.txt", b"other").unwrap();
    v.create("one.txt", b"second").unwrap();
    let all = v.list();
    assert_eq!(all.iter().filter(|e| e.name == "one.txt").count(), 1);
    assert_eq!(all.len(), 2);
    let e = all.iter().find(|e| e.name == "one.txt").unwrap();
    assert_eq!(v.read_file(e), b"second");
}

/// Resetting a card puts every register of the task file back.
#[test]
fn a_reset_clears_the_task_file() {
    for by_attribute in [true, false] {
        let mut s = Card::blank(8);
        for (reg, val) in [(2, 9), (3, 1), (4, 2), (5, 3), (6, 0xE4)] {
            s.write(Space::Io, reg, val, 1);
        }
        if by_attribute {
            s.write(Space::Attribute, 0x400, 0x80, 1);
        } else {
            s.write(Space::Io, 0x0E, 0x04, 1);
        }
        for (reg, val) in [(2, 1), (3, 0), (4, 0), (5, 0), (6, 0)] {
            assert_eq!(s.read(Space::Io, reg, 1), val, "register {reg}");
        }
    }
}

/// A count of zero moves one sector.
#[test]
fn a_count_of_zero_reads_one_sector() {
    let mut data = vec![1u8; SECTOR];
    data.extend(vec![2u8; SECTOR]);
    let mut s = Card::with_data(data);
    s.write(Space::Io, 2, 0, 1);
    s.write(Space::Io, 7, 0x20, 1);
    for _ in 0..SECTOR / 2 {
        assert_eq!(s.read(Space::Io, 0, 2), 0x0101);
    }
    assert_eq!(s.read(Space::Io, 7, 1) & 0x08, 0, "nothing more is waiting");
}
