use vbnote::gandalf::usb::{service, Device, Port, MAX_TDS};
use vbnote::gandalf::usbdisk::{UsbDisk, CBW_SIGNATURE, CSW_SIGNATURE};
use vbnote::gandalf::{Gandalf, SDRAM_BASE};
use vbnote::pxa270::ohci::INT_WRITEBACK_DONE;

const HCCA: u32 = SDRAM_BASE + 0x1_0000;
const ED: u32 = SDRAM_BASE + 0x2_0000;
const TDS: u32 = SDRAM_BASE + 0x3_0000;
const BUFFER: u32 = SDRAM_BASE + 0x4_0000;

const SETUP: u32 = 0;
const OUT: u32 = 1;
const IN: u32 = 2;

fn running() -> (Gandalf, Port<UsbDisk>) {
    let mut b = Gandalf::new();
    b.soc.ohci.control = 0x80 | 0x10 | 0x20;
    b.soc.ohci.hcca = HCCA;
    (b, Port::new(Some(UsbDisk::blank(1))))
}

/// Queue transfers on an endpoint: which way, where, and how many bytes.
fn queue(b: &mut Gandalf, endpoint: u32, transfers: &[(u32, u32, u32)]) {
    for (i, (pid, at, len)) in transfers.iter().enumerate() {
        let td = TDS + 16 * i as u32;
        b.write32(td, 0xF000_0000 | (pid << 19));
        b.write32(td + 4, if *len == 0 { 0 } else { *at });
        b.write32(td + 8, td + 16);
        b.write32(td + 12, if *len == 0 { 0 } else { at + len - 1 });
    }
    b.write32(ED, endpoint << 7);
    b.write32(ED + 4, TDS + 16 * transfers.len() as u32);
    b.write32(ED + 8, TDS | 2);
    b.write32(ED + 12, 0);
}

fn put(b: &mut Gandalf, at: u32, bytes: &[u8]) {
    for (i, v) in bytes.iter().enumerate() {
        b.write8(at + i as u32, *v);
    }
}

fn get(b: &mut Gandalf, at: u32, n: u32) -> Vec<u8> {
    (0..n).map(|i| b.read8(at + i)).collect()
}

#[test]
fn a_descriptor_is_asked_for_and_handed_over() {
    let (mut b, mut p) = running();
    put(&mut b, BUFFER, &[0x80, 0x06, 0x00, 0x01, 0, 0, 18, 0]);
    queue(&mut b, 0, &[(SETUP, BUFFER, 8), (IN, BUFFER + 0x100, 8), (IN, BUFFER + 0x108, 10), (OUT, 0, 0)]);
    b.soc.ohci.control_head_ed = ED;
    b.soc.ohci.command_status = 0x6;

    assert!(service(&mut b, &mut p));
    let want = p.usb.as_ref().unwrap().descriptor(1, 0).unwrap();
    assert_eq!(get(&mut b, BUFFER + 0x100, 18), want, "a packet at a time");

    // Unlinked, with the toggle carry kept and no halt.
    assert_eq!(b.read32(ED + 8), (TDS + 64) | 2);
    // Every result says no error, and no bytes left over.
    for i in 0..4 {
        assert_eq!(b.read32(TDS + 16 * i) >> 28, 0);
        assert_eq!(b.read32(TDS + 16 * i + 4), 0);
    }
    // The queue comes out in reverse.
    assert_eq!(b.read32(HCCA + 0x84), TDS + 48);
    assert_eq!(b.read32(TDS + 48 + 8), TDS + 32);
    assert_eq!(b.read32(TDS + 32 + 8), TDS + 16);
    assert_eq!(b.read32(TDS + 16 + 8), TDS);
    assert_eq!(b.read32(TDS + 8), 0);
    assert_eq!(b.soc.ohci.done_head, 0);
    assert_ne!(b.soc.ohci.interrupt_status & INT_WRITEBACK_DONE, 0);
    assert_eq!(b.soc.ohci.command_status, 0, "the doorbells are acknowledged");
    assert_eq!(b.read32(HCCA + 0x80), 1, "and a frame has gone by");
    assert!(p.setup.is_none(), "the status stage ended it");

    assert!(!service(&mut b, &mut p), "nothing is left");
    assert_eq!(b.read32(HCCA + 0x80), 2);
}

#[test]
fn an_address_is_given_with_an_empty_status_stage() {
    let (mut b, mut p) = running();
    put(&mut b, BUFFER, &[0x00, 0x05, 7, 0, 0, 0, 0, 0]);
    queue(&mut b, 0, &[(SETUP, BUFFER, 8), (IN, 0, 0)]);
    b.soc.ohci.control_head_ed = ED;
    assert!(service(&mut b, &mut p));
    assert_eq!(p.usb.as_ref().unwrap().address(), 7);
    assert_eq!(b.read32(ED + 8) & 1, 0);
}

#[test]
fn a_request_the_device_refuses_halts_the_endpoint() {
    let (mut b, mut p) = running();
    put(&mut b, BUFFER, &[0x80, 0x77, 0, 0, 0, 0, 8, 0]);
    queue(&mut b, 0, &[(SETUP, BUFFER, 8), (IN, BUFFER + 0x100, 8), (OUT, 0, 0)]);
    b.soc.ohci.control_head_ed = ED;
    assert!(service(&mut b, &mut p));
    assert_eq!(b.read32(TDS + 16) >> 28, 4, "stalled");
    assert_eq!(b.read32(ED + 8), (TDS + 32) | 2 | 1, "halted at the transfer behind it");
    assert!(!service(&mut b, &mut p), "and it stays halted");
}

/// Data for a control write is kept until its status stage.
#[test]
fn a_control_write_is_delivered_whole() {
    let (mut b, mut p) = running();
    put(&mut b, BUFFER, &[0x00, 0x09, 1, 0, 0, 0, 2, 0, 0xAA, 0xBB]);
    queue(&mut b, 0, &[(SETUP, BUFFER, 8), (OUT, BUFFER + 8, 2)]);
    b.soc.ohci.control_head_ed = ED;
    assert!(service(&mut b, &mut p));
    assert_eq!(p.data_out, vec![0xAA, 0xBB]);
    assert!(!p.usb.as_ref().unwrap().configured, "not asked yet");
    queue(&mut b, 0, &[(IN, 0, 0)]);
    // Nothing was answered, so the status stage reports a stall; the data has
    // been delivered all the same.
    assert!(service(&mut b, &mut p));
    assert!(p.usb.as_ref().unwrap().configured);
    assert!(p.data_out.is_empty());
}

#[test]
fn a_command_goes_over_the_bulk_endpoints() {
    let (mut b, mut p) = running();
    let mut cbw = CBW_SIGNATURE.to_le_bytes().to_vec();
    cbw.extend_from_slice(&0x55u32.to_le_bytes());
    cbw.extend_from_slice(&36u32.to_le_bytes());
    cbw.extend_from_slice(&[0x80, 0, 6, 0x12, 0, 0, 0, 36, 0]);
    cbw.resize(31, 0);
    put(&mut b, BUFFER, &cbw);
    queue(&mut b, 2, &[(OUT, BUFFER, 31)]);
    b.soc.ohci.bulk_head_ed = ED;
    assert!(service(&mut b, &mut p));
    assert_eq!(p.usb.as_ref().unwrap().commands(), 1);

    // The data straddles a page: the rest of one, and the start of another.
    queue(&mut b, 1, &[(IN, BUFFER + 0x1FF0, 36), (IN, BUFFER + 0x100, 13)]);
    assert!(service(&mut b, &mut p));
    let data = get(&mut b, BUFFER + 0x1FF0, 36);
    assert_eq!(&data[8..16], b"Fractal ");
    let csw = get(&mut b, BUFFER + 0x100, 13);
    assert_eq!(csw[0..4], CSW_SIGNATURE.to_le_bytes());
    assert_eq!(csw[4..8], 0x55u32.to_le_bytes());
    assert_eq!(csw[12], 0);
}

#[test]
fn nothing_happens_without_a_device_or_a_running_controller() {
    let (mut b, mut p) = running();
    put(&mut b, BUFFER, &[0x80, 0x06, 0x00, 0x01, 0, 0, 18, 0]);
    queue(&mut b, 0, &[(SETUP, BUFFER, 8)]);
    b.soc.ohci.control_head_ed = ED;
    b.soc.ohci.control = 0xC0 | 0x10;
    assert!(!service(&mut b, &mut p));
    b.soc.ohci.control = 0x80 | 0x10;
    let mut empty: Port<UsbDisk> = Port::new(None);
    assert!(!service(&mut b, &mut empty));
    assert_eq!(b.soc.ohci.fm_number, 0);
    assert_eq!(b.read32(ED + 8), TDS | 2, "the transfer is still there");
    assert!(service(&mut b, &mut p));
}

#[test]
fn a_skipped_endpoint_is_passed_over() {
    let (mut b, mut p) = running();
    put(&mut b, BUFFER, &[0x80, 0x06, 0x00, 0x01, 0, 0, 18, 0]);
    queue(&mut b, 0, &[(SETUP, BUFFER, 8)]);
    b.write32(ED, 1 << 14);
    // A list that is a circle of one.
    b.write32(ED + 12, ED);
    b.soc.ohci.control_head_ed = ED;
    assert!(!service(&mut b, &mut p));
    b.write32(ED, 0);
    assert!(service(&mut b, &mut p));
}

/// A transfer that points at itself uses up its share and no more.
#[test]
fn a_circle_of_transfers_does_not_run_for_ever() {
    let (mut b, mut p) = running();
    b.write32(TDS, 3 << 19);
    b.write32(TDS + 4, 0);
    b.write32(TDS + 8, TDS);
    b.write32(TDS + 12, 0);
    b.write32(ED, 0);
    b.write32(ED + 4, TDS + 0x100);
    b.write32(ED + 8, TDS);
    b.write32(ED + 12, 0);
    b.soc.ohci.control_head_ed = ED;
    b.soc.ohci.hcca = 0;
    assert!(service(&mut b, &mut p));
    assert_eq!(b.soc.ohci.fm_number, 1);
    assert_eq!(MAX_TDS, 64);
}
