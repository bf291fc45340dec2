use vbnote::gandalf::usb::Device;
use vbnote::gandalf::usbdisk::{CBW_SIGNATURE, CSW_SIGNATURE, SECTOR, STATUS_FAILED, STATUS_GOOD, UsbDisk};

fn cbw(tag: u32, len: u32, to_host: bool, cb: &[u8]) -> Vec<u8> {
    let mut d = Vec::with_capacity(31);
    d.extend_from_slice(&CBW_SIGNATURE.to_le_bytes());
    d.extend_from_slice(&tag.to_le_bytes());
    d.extend_from_slice(&len.to_le_bytes());
    d.push(if to_host { 0x80 } else { 0 });
    d.push(0);
    d.push(cb.len() as u8);
    let mut block = cb.to_vec();
    block.resize(16, 0);
    d.extend_from_slice(&block);
    d
}

/// The triple usbmsc.dll binds on. Get any of the three wrong and the
/// device enumerates and is then ignored, which looks like nothing
/// happening at all.
#[test]
fn it_declares_itself_mass_storage_bulk_only() {
    let disk = UsbDisk::blank(1);
    let config = disk.descriptor(2, 0).unwrap();
    let interface = &config[9..18];
    assert_eq!(interface[5], 0x08, "class is not mass storage");
    assert_eq!(interface[6], 0x06, "subclass is not SCSI transparent");
    assert_eq!(interface[7], 0x50, "protocol is not bulk-only");
    assert_eq!(interface[4], 2, "wrong number of endpoints");
}

/// The total length must count everything behind it, or the host reads a
/// truncated configuration and never finds the endpoints.
#[test]
fn the_configuration_length_covers_what_follows() {
    let disk = UsbDisk::blank(1);
    let config = disk.descriptor(2, 0).unwrap();
    let total = u16::from_le_bytes([config[2], config[3]]) as usize;
    assert_eq!(total, config.len());
    assert_eq!(total, 9 + 9 + 7 + 7);
}

/// One bulk endpoint each way, which is what the transport needs.
#[test]
fn there_is_a_bulk_endpoint_each_way() {
    let disk = UsbDisk::blank(1);
    let config = disk.descriptor(2, 0).unwrap();
    let (a, b) = (&config[18..25], &config[25..32]);
    assert_eq!(a[2] & 0x80, 0x80, "first endpoint is not an IN");
    assert_eq!(b[2] & 0x80, 0, "second endpoint is not an OUT");
    assert_eq!(a[3], 2, "not a bulk endpoint");
    assert_eq!(b[3], 2, "not a bulk endpoint");
}

/// A descriptor request is answered short, because the host asks for
/// eight bytes first to find out how long the answer really is.
#[test]
fn a_short_descriptor_request_is_answered_short() {
    let mut disk = UsbDisk::blank(1);
    let setup = [0x80, 0x06, 0x00, 0x01, 0, 0, 8, 0];
    let d = disk.control(&setup, &[]).unwrap();
    assert_eq!(d.len(), 8);
    assert_eq!(d[0], 18, "the length byte should still say 18");
}

#[test]
fn set_address_is_remembered() {
    let mut disk = UsbDisk::blank(1);
    assert_eq!(disk.address(), 0);
    disk.control(&[0x00, 0x05, 7, 0, 0, 0, 0, 0], &[]);
    assert_eq!(disk.address(), 7);
}

/// One drive, so the maximum logical unit number is zero. A driver that
/// gets no answer at all may give up on the device.
#[test]
fn it_reports_one_logical_unit() {
    let mut disk = UsbDisk::blank(1);
    let d = disk.control(&[0xA1, 0xFE, 0, 0, 0, 0, 1, 0], &[]).unwrap();
    assert_eq!(d, vec![0]);
}

/// The whole exchange, in the order a driver does it.
#[test]
fn inquiry_comes_back_with_a_status() {
    let mut disk = UsbDisk::blank(1);
    disk.bulk_out(2, &cbw(0x1234, 36, true, &[0x12, 0, 0, 0, 36, 0]));
    let data = disk.bulk_in(1, 64);
    assert_eq!(data.len(), 36);
    assert_eq!(&data[8..16], b"Fractal ");

    let csw = disk.bulk_in(1, 13);
    assert_eq!(&csw[0..4], &CSW_SIGNATURE.to_le_bytes());
    assert_eq!(u32::from_le_bytes(csw[4..8].try_into().unwrap()), 0x1234);
    assert_eq!(csw[12], STATUS_GOOD);
}

/// READ CAPACITY reports the last sector's address, not the count. One
/// out here is a disk a sector too large and a fault that only appears
/// when something reads the very end.
#[test]
fn read_capacity_reports_the_last_sector_not_the_count() {
    let mut disk = UsbDisk::blank(1);
    let sectors = disk.sectors();
    disk.bulk_out(2, &cbw(1, 8, true, &[0x25, 0, 0, 0, 0, 0, 0, 0, 0, 0]));
    let d = disk.bulk_in(1, 8);
    assert_eq!(u32::from_be_bytes(d[0..4].try_into().unwrap()), sectors - 1);
    assert_eq!(u32::from_be_bytes(d[4..8].try_into().unwrap()), SECTOR as u32);
}

#[test]
fn usbdisk_a_sector_written_reads_back() {
    let mut disk = UsbDisk::blank(1);
    let payload: Vec<u8> = (0..SECTOR).map(|i| (i % 251) as u8).collect();

    let write = [0x2A, 0, 0, 0, 0, 9, 0, 0, 1, 0];
    disk.bulk_out(2, &cbw(2, SECTOR as u32, false, &write));
    disk.bulk_out(2, &payload);
    assert_eq!(disk.bulk_in(1, 13)[12], STATUS_GOOD);

    let read = [0x28, 0, 0, 0, 0, 9, 0, 0, 1, 0];
    disk.bulk_out(2, &cbw(3, SECTOR as u32, true, &read));
    let got = disk.bulk_in(1, SECTOR);
    assert_eq!(got, payload);
    assert_eq!(disk.store.read(9 * SECTOR as u64, SECTOR), payload);
}

/// Reading past the end fails rather than returning zeroes, and the
/// failure is legible: sense key 5, "logical block address out of range".
#[test]
fn reading_off_the_end_fails_and_says_why() {
    let mut disk = UsbDisk::blank(1);
    let far = disk.sectors() + 10;
    let mut cb = [0u8; 10];
    cb[0] = 0x28;
    cb[2..6].copy_from_slice(&far.to_be_bytes());
    cb[8] = 1;
    disk.bulk_out(2, &cbw(4, SECTOR as u32, true, &cb));
    // The host still asks for its data, and gets a zero-length packet
    // because there is none, before collecting the status.
    assert!(disk.bulk_in(1, SECTOR).is_empty());
    assert_eq!(disk.bulk_in(1, 13)[12], STATUS_FAILED);

    disk.bulk_out(2, &cbw(5, 18, true, &[0x03, 0, 0, 0, 18, 0]));
    let sense = disk.bulk_in(1, 18);
    assert_eq!(sense[2], 5, "not an illegal-request sense key");
    assert_eq!(sense[12], 0x21, "not 'address out of range'");
}

/// The residue is what was asked for and did not arrive. Reporting the
/// bytes that *did* is the classic way round to get this wrong.
#[test]
fn the_residue_counts_what_did_not_arrive() {
    let mut disk = UsbDisk::blank(1);
    // Ask for 64 bytes of an inquiry that is only 36 long.
    disk.bulk_out(2, &cbw(6, 64, true, &[0x12, 0, 0, 0, 36, 0]));
    let data = disk.bulk_in(1, 64);
    assert_eq!(data.len(), 36);
    let csw = disk.bulk_in(1, 13);
    // Bytes 4 to 8 are the tag; the residue is the word after it.
    let residue = u32::from_le_bytes(csw[8..12].try_into().unwrap());
    assert_eq!(residue, 64 - 36);
}

/// An unknown command is refused. Succeeding would leave the driver
/// believing something happened.
#[test]
fn an_unknown_command_is_refused() {
    let mut disk = UsbDisk::blank(1);
    disk.bulk_out(2, &cbw(7, 0, false, &[0xFF, 0, 0, 0, 0, 0]));
    assert_eq!(disk.bulk_in(1, 13)[12], STATUS_FAILED);
}

/// Rubbish where a wrapper should be must not be taken as a command.
#[test]
fn a_broken_wrapper_is_not_obeyed() {
    let mut disk = UsbDisk::blank(1);
    disk.bulk_out(2, &[0u8; 31]);
    assert_eq!(disk.bulk_in(1, 13)[12], STATUS_FAILED);
}

/// Test unit ready is the first thing a driver asks, and it must succeed
/// or the disk is treated as having no medium.
#[test]
fn test_unit_ready_succeeds() {
    let mut disk = UsbDisk::blank(1);
    disk.bulk_out(2, &cbw(8, 0, false, &[0x00, 0, 0, 0, 0, 0]));
    assert_eq!(disk.bulk_in(1, 13)[12], STATUS_GOOD);
}
