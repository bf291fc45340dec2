use vbnote::gandalf::pcmcia::{CONFIG_BASE, Card, SECTOR, STATUS_DRDY, STATUS_DRQ, STATUS_ERR, Socket, Space, cis, decode};

/// The window bases are pcmcia.dll's own, so a mistake here is a mistake
/// about the firmware rather than about taste.
#[test]
fn the_windows_are_where_the_driver_says() {
    assert_eq!(decode(0x2000_0000), Some((0, Space::Common, 0)));
    assert_eq!(decode(0x2800_0000), Some((0, Space::Attribute, 0)));
    assert_eq!(decode(0x2C00_0000), Some((0, Space::Io, 0)));
    assert_eq!(decode(0x3000_0000), Some((1, Space::Common, 0)));
    assert_eq!(decode(0x3800_0000), Some((1, Space::Attribute, 0)));
    assert_eq!(decode(0x3C00_0000), Some((1, Space::Io, 0)));
    assert_eq!(decode(0x1FFF_FFFF), None);
    assert_eq!(decode(0x4000_0000), None);
}

#[test]
fn an_empty_socket_floats_high() {
    let mut s = Socket::new();
    assert_eq!(s.read(0x2800_0000, 1, 0), !0);
    assert!(!s.occupied());
}

/// Byte n of the CIS at attribute offset 2n, odd addresses undriven. This
/// is the mistake that would look like "no card" rather than like a bug.
#[test]
fn the_cis_reads_on_even_addresses_only() {
    let mut s = Socket::new();
    s.insert(Card::blank(64));
    let chain = cis();
    for (n, want) in chain.iter().enumerate().take(8) {
        assert_eq!(s.read(0x2800_0000 + n as u32 * 2, 1, 0), *want as u32);
        assert_eq!(s.read(0x2800_0000 + n as u32 * 2 + 1, 1, 0), 0);
    }
}

/// Card services walks the chain tuple by tuple. If the lengths do not
/// add up it stops early and the card is never identified.
#[test]
fn the_tuple_chain_walks_to_its_end() {
    let chain = cis();
    let mut at = 0;
    let mut seen = Vec::new();
    while at < chain.len() {
        let code = chain[at];
        if code == 0xFF {
            seen.push(code);
            break;
        }
        let len = chain[at + 1] as usize;
        seen.push(code);
        at += 2 + len;
    }
    assert_eq!(*seen.last().unwrap(), 0xFF, "chain did not end: {seen:02x?}");
    // The tuples that decide what this is.
    assert!(seen.contains(&0x21), "no CISTPL_FUNCID");
    assert!(seen.contains(&0x1A), "no CISTPL_CONFIG");
    assert!(seen.contains(&0x1B), "no CISTPL_CFTABLE_ENTRY");
}

/// Function 4 is a fixed disk, which is what sends card services to
/// DetectATADisk rather than to a modem or a network card.
#[test]
fn the_card_says_it_is_a_fixed_disk() {
    let chain = cis();
    let at = chain.windows(2).position(|w| w[0] == 0x21).unwrap();
    assert_eq!(chain[at + 2], 0x04);
}

#[test]
fn identify_reports_the_size_it_was_made_with() {
    let mut card = Card::blank(2048);
    card.write(Space::Io, 7, 0xEC, 1);
    let mut got = Vec::new();
    for _ in 0..SECTOR / 2 {
        got.extend_from_slice(&(card.read(Space::Io, 0, 2) as u16).to_le_bytes());
    }
    let word = |n: usize| u16::from_le_bytes([got[n * 2], got[n * 2 + 1]]);
    let lba = u32::from(word(60)) | u32::from(word(61)) << 16;
    assert_eq!(lba, 2048);
    // And the status has dropped DRQ now the sector has been taken.
    assert_eq!(card.read(Space::Io, 7, 1) as u8 & STATUS_DRQ, 0);
}

#[test]
fn pcmcia_a_sector_written_reads_back() {
    let mut card = Card::blank(64);
    let payload: Vec<u8> = (0..SECTOR).map(|i| (i % 251) as u8).collect();

    card.write(Space::Io, 3, 5, 1); // LBA 5
    card.write(Space::Io, 2, 1, 1); // one sector
    card.write(Space::Io, 7, 0x30, 1); // WRITE SECTORS
    for pair in payload.chunks_exact(2) {
        let v = u16::from_le_bytes([pair[0], pair[1]]);
        card.write(Space::Io, 0, v as u32, 2);
    }

    card.write(Space::Io, 3, 5, 1);
    card.write(Space::Io, 2, 1, 1);
    card.write(Space::Io, 7, 0x20, 1); // READ SECTORS
    let mut got = Vec::new();
    for _ in 0..SECTOR / 2 {
        got.extend_from_slice(&(card.read(Space::Io, 0, 2) as u16).to_le_bytes());
    }
    assert_eq!(got, payload);
    assert_eq!(&card.data[5 * SECTOR..6 * SECTOR], &payload[..]);
}

/// Reading past the end must be an error, not a panic and not zeroes:
/// mspart reads the last sector to find the partition table.
#[test]
fn reading_off_the_end_is_an_error() {
    let mut card = Card::blank(8);
    card.write(Space::Io, 3, 99, 1);
    card.write(Space::Io, 7, 0x20, 1);
    let status = card.read(Space::Io, 7, 1) as u8;
    assert_eq!(status & STATUS_ERR, STATUS_ERR);
}

/// A multi-sector read walks on by itself; the driver only reads the data
/// register.
#[test]
fn two_sectors_come_out_in_order() {
    let mut card = Card::blank(16);
    card.data[0] = 0xAA;
    card.data[SECTOR] = 0xBB;
    card.write(Space::Io, 3, 0, 1);
    card.write(Space::Io, 2, 2, 1);
    card.write(Space::Io, 7, 0x20, 1);
    let first = card.read(Space::Io, 0, 1) as u8;
    for _ in 1..SECTOR {
        card.read(Space::Io, 0, 1);
    }
    let second = card.read(Space::Io, 0, 1) as u8;
    assert_eq!((first, second), (0xAA, 0xBB));
}

#[test]
fn a_configuration_write_can_reset_the_card() {
    let mut card = Card::blank(16);
    card.write(Space::Io, 7, 0x20, 1);
    card.write(Space::Attribute, CONFIG_BASE as u32 * 2, 0x80, 1);
    assert_eq!(card.read(Space::Io, 7, 1) as u8, STATUS_DRDY);
}

#[test]
fn an_unknown_command_is_refused_rather_than_ignored() {
    let mut card = Card::blank(16);
    card.write(Space::Io, 7, 0x77, 1);
    assert_eq!(card.read(Space::Io, 7, 1) as u8 & STATUS_ERR, STATUS_ERR);
}
