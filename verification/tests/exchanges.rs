use vbnote::gandalf::braille::{BrailleDisplay, CLOCK, DATA};
use vbnote::gandalf::dma;
use vbnote::gandalf::modem::Modem;
use vbnote::gandalf::onewire::{rom_id, OneWire, CMD_READ_MEMORY, CMD_SKIP_ROM, RESET_PULL, SLOT_GAP, SLOT_PULL, ZERO_PULL};
use vbnote::gandalf::usb::{self, Port};
use vbnote::gandalf::usbdisk::UsbDisk;
use vbnote::gandalf::{access_fits, Gandalf, SDRAM_BASE, SDRAM_SIZE};
use vbnote::pxa270::dma::{DCMD_INCSRCADDR, DCMD_INCTRGADDR, DCSR_NODESC, DCSR_RUN, DDADR_STOP};
use vbnote::pxa270::i2c::{I2c, ISR_ACKNAK, ISR_IRF, ISR_RWM, SBS_DEVICE_NAME, START_TRANSFER, TRANSFER};
use vbnote::pxa270::intc::Intc;
use vbnote::pxa270::mmc::{Mmc, STAT_DATA_TRAN_DONE, STAT_PRG_DONE};
use vbnote::pxa270::ohci::{Ohci, HC_BULK_HEAD_ED, HC_COMMAND_STATUS, HC_CONTROL_HEAD_ED, HC_RH_PORT_STATUS, PORT_CONNECTED, PORT_ENABLED, PORT_RESET, PORT_RESET_CHANGE};
use vbnote::pxa270::ost::Ost;
use vbnote::pxa270::power::rtc_count_for;
use vbnote::pxa270::sdcard::SdCard;

const END: u32 = SDRAM_BASE + SDRAM_SIZE as u32;

#[test]
fn a_dump_of_eight_bytes_is_an_identity() {
    let id = rom_id(0x2D, [9, 8, 7, 6, 5, 4]);
    let d = OneWire::from_dump(&id);
    assert_eq!(d.rom, id);
    assert_eq!(d.data, [0xFF; 128]);
    let short = OneWire::from_dump(&id[..7]);
    assert_eq!(&short.data[..7], &id[..7], "and seven are memory");
    assert_eq!(short.rom, rom_id(0x2D, [0; 6]));
}

/// A whole exchange on the wire, from an address to past the end of memory.
#[test]
fn memory_is_read_from_an_address_on() {
    let mut contents = [0u8; 128];
    for (i, b) in contents.iter_mut().enumerate() {
        *b = i as u8 ^ 0xA5;
    }
    let mut d = OneWire::with_contents(&contents);
    let mut now = u32::MAX - 5_000;
    let mut pull = |d: &mut OneWire, held: u32| {
        d.update(true, now);
        let level = d.update(false, now.wrapping_add(held));
        now = now.wrapping_add(held + SLOT_GAP);
        level
    };
    assert!(!pull(&mut d, RESET_PULL), "a presence pulse");
    for byte in [CMD_SKIP_ROM, CMD_READ_MEMORY, 126, 0] {
        for i in 0..8 {
            pull(&mut d, if byte >> i & 1 != 0 { SLOT_PULL } else { ZERO_PULL });
        }
    }
    let mut got = Vec::new();
    for _ in 0..4 {
        let mut byte = 0u8;
        for i in 0..8 {
            byte |= (pull(&mut d, SLOT_PULL) as u8) << i;
        }
        got.push(byte);
    }
    assert_eq!(got, vec![126 ^ 0xA5, 127 ^ 0xA5, 0xFF, 0xFF]);
}

fn said(m: &mut Modem, line: &str) -> String {
    for b in line.bytes() {
        m.write(0, b as u16);
    }
    let mut out = String::new();
    while m.read(10) & 1 != 0 {
        out.push(m.read(0) as u8 as char);
    }
    out
}

#[test]
fn a_bare_ati_gets_the_identity() {
    let mut m = Modem::default();
    for line in ["ATI\r", "ati\r", "  ATI \r", "ATI3\r", "ATE0I0\r"] {
        assert_eq!(said(&mut m, line), "\r\nTL16C V.90\r\n", "{line:?}");
    }
    for line in ["AT\r", "ATZ\r", "ATIX\r", "ATZI\r"] {
        assert_eq!(said(&mut m, line), "\r\nOK\r\n", "{line:?}");
    }
    assert_eq!(said(&mut m, "I\r"), "");
    assert_eq!(m.commands, 9, "what was not answered is not counted");
}

/// A data command starts with its transfer not done, whatever was done before
/// it.
#[test]
fn a_transfer_is_done_when_its_last_byte_has_moved() {
    let mut m = Mmc { card: Some(SdCard::new(1 << 20)), ..Default::default() };
    let mut intc = Intc::default();
    m.write(0x00, 2, &mut intc);
    m.write(0x30, 55, &mut intc);
    m.write(0x10, 1, &mut intc);
    let done = STAT_DATA_TRAN_DONE | STAT_PRG_DONE;
    assert_eq!(m.read(0x04, &mut intc) & done, done, "no data, so done at once");
    m.write(0x1C, 64, &mut intc);
    m.write(0x20, 1, &mut intc);
    m.write(0x30, 13, &mut intc);
    m.write(0x10, 5, &mut intc);
    assert_eq!(m.read(0x04, &mut intc) & done, STAT_PRG_DONE);
    for _ in 0..15 {
        m.read(0x40, &mut intc);
        assert_eq!(m.read(0x04, &mut intc) & STAT_DATA_TRAN_DONE, 0);
    }
    m.read(0x40, &mut intc);
    assert_ne!(m.read(0x04, &mut intc) & STAT_DATA_TRAN_DONE, 0);
}

#[test]
fn going_idle_resets_everything_but_the_contents() {
    let mut c = SdCard::from_image(vec![7; 1024]);
    for (cmd, arg) in [(1, 0), (1, 0), (2, 0), (3, 0x1234_0000), (7, 0x1234_0000), (18, 0)] {
        c.command(cmd, arg);
    }
    assert!(c.multi_block && c.init_polls > 0 && c.rca == 0x1234 && c.has_data());
    assert_eq!(c.command(0, 0), None);
    assert!(!c.multi_block && c.init_polls == 0 && c.rca == 0 && c.position == 0);
    assert!(!c.has_data());
    assert_eq!(c.data, vec![7; 1024]);
}

#[test]
fn a_controller_reset_clears_the_lists() {
    let mut h = Ohci::new();
    let mut intc = Intc::default();
    h.set_connected(0, true, &mut intc);
    h.write(HC_CONTROL_HEAD_ED, 0x1000, &mut intc);
    h.write(HC_BULK_HEAD_ED, 0x2000, &mut intc);
    h.write(HC_COMMAND_STATUS, 0x6, &mut intc);
    assert_eq!(h.read(HC_COMMAND_STATUS, &mut intc), 0, "the doorbells do not read back");
    assert_eq!(h.read(HC_BULK_HEAD_ED, &mut intc), 0x2000);
    h.write(HC_COMMAND_STATUS, 1, &mut intc);
    assert_eq!(h.read(HC_CONTROL_HEAD_ED, &mut intc), 0);
    assert_eq!(h.read(HC_BULK_HEAD_ED, &mut intc), 0);
    assert!(h.connected(0));
}

/// Whatever is written to a port, an enabled one is a connected one.
#[test]
fn an_enabled_port_is_a_connected_one() {
    let mut h = Ohci::new();
    let mut intc = Intc::default();
    let mut x = 1u32;
    for step in 0..4_000 {
        x = x.wrapping_mul(1_664_525).wrapping_add(1_013_904_223);
        let n = (x >> 31) as usize;
        match step % 7 {
            0 => h.set_connected(n, x & 2 != 0, &mut intc),
            1 => h.write(0x50, x >> 15, &mut intc),
            _ => h.write(HC_RH_PORT_STATUS + 4 * n as u32, x >> 10, &mut intc),
        }
        for p in 0..2 {
            let s = h.read(HC_RH_PORT_STATUS + 4 * p, &mut intc);
            assert!(s & PORT_ENABLED == 0 || s & PORT_CONNECTED != 0);
        }
    }
    let mut h = Ohci::new();
    h.write(HC_RH_PORT_STATUS, PORT_RESET, &mut intc);
    assert_eq!(h.read(HC_RH_PORT_STATUS, &mut intc), 0, "nothing to reset");
    h.set_connected(0, true, &mut intc);
    h.write(HC_RH_PORT_STATUS, PORT_RESET, &mut intc);
    let s = h.read(HC_RH_PORT_STATUS, &mut intc);
    assert_eq!(s & (PORT_RESET | PORT_ENABLED | PORT_RESET_CHANGE), PORT_ENABLED | PORT_RESET_CHANGE);
}

/// A whole exchange with the battery, on to the NAK behind its answer.
#[test]
fn a_command_reads_its_answer_and_then_ones() {
    let mut i = I2c::default();
    let mut intc = Intc::default();
    let answer = i.battery.response(SBS_DEVICE_NAME);
    assert_eq!(answer, b"\x06PD2500");
    i.write(0x08, 0x16, &mut intc);
    i.write(0x10, START_TRANSFER, &mut intc);
    i.write(0x08, SBS_DEVICE_NAME as u32, &mut intc);
    i.write(0x10, TRANSFER, &mut intc);
    i.write(0x08, 0x17, &mut intc);
    i.write(0x10, START_TRANSFER, &mut intc);
    for k in 0..answer.len() + 3 {
        i.write(0x10, TRANSFER, &mut intc);
        let isr = i.read(0x18);
        assert_eq!(isr & (ISR_IRF | ISR_RWM), ISR_IRF | ISR_RWM);
        if k < answer.len() {
            assert_eq!((i.read(0x08), isr & ISR_ACKNAK), (answer[k] as u32, 0));
        } else {
            assert_eq!((i.read(0x08), isr & ISR_ACKNAK), (0xFF, ISR_ACKNAK));
        }
    }
}

/// The end of the chain shows the data bit of so many rising edges ago.
#[test]
fn the_end_of_the_chain_shows_an_earlier_edge() {
    let mut d = BrailleDisplay::with_chain(2);
    let mut last = 0u16;
    let mut edges: Vec<u16> = Vec::new();
    let mut x = 7u32;
    for _ in 0..500 {
        x = x.wrapping_mul(1_664_525).wrapping_add(1_013_904_223);
        let v = (x >> 16) as u16 & (CLOCK | DATA | 3);
        d.write(v);
        if v & CLOCK != 0 && last & CLOCK == 0 {
            edges.push(v);
        }
        last = v;
        let k = edges.len();
        assert_eq!(d.bits_shifted, k as u64);
        assert_eq!(d.end_of_chain(), k >= 16 && edges[k - 16] & DATA != 0);
    }
    let mut none = BrailleDisplay::with_chain(2);
    none.present = false;
    for _ in 0..40 {
        none.write(DATA);
        none.write(DATA | CLOCK);
    }
    assert_eq!((none.end_of_chain(), none.bits_shifted), (false, 0));
}

/// How time is cut up makes no difference to the timer.
#[test]
fn ticks_add_up() {
    let mut intc = Intc::default();
    let mut whole = Ost::new(13_000_000);
    let mut parts = Ost::new(13_000_000);
    for t in [&mut whole, &mut parts] {
        t.write(0x00, 1_000, &mut intc);
        t.write(0x04, 100_000, &mut intc);
        t.write(0x10, 10, &mut intc);
    }
    whole.tick(5_001, &mut intc);
    for cycles in [1, 0, 3_999, 1_000, 1] {
        parts.tick(cycles, &mut intc);
    }
    assert_eq!((whole.oscr, whole.ossr, whole.frac), (parts.oscr, parts.ossr, parts.frac));
    assert_eq!((whole.oscr, whole.ossr), (10 + 1_250, 1));
}

/// However long the run, the counter goes by all the time that has passed.
#[test]
fn a_long_run_of_ticks_keeps_time() {
    let mut intc = Intc::default();
    let mut t = Ost::new(13_000_000);
    t.write(0x00, 1_073_741_821, &mut intc);
    t.write(0x04, 1_073_741_823, &mut intc);
    for _ in 0..5 {
        t.tick(u32::MAX, &mut intc);
    }
    let total = 5 * u32::MAX as u64 * 3_250_000;
    assert_eq!(t.oscr as u64, total / 13_000_000 % (1 << 32));
    assert_eq!(t.frac, total % 13_000_000);
    assert_eq!(t.oscr, 1_073_741_822, "a turn of the counter and a quarter");
    assert_eq!(t.ossr & 3, 3, "both were met on the first turn");
}

#[test]
fn any_time_has_a_count() {
    assert_eq!(rtc_count_for(1980, 1, 1, 0, 0, 1_000_000_000_000), u32::MAX);
    assert_eq!(rtc_count_for(1980, 1, 1, 0, 0, i64::MIN), 0);
    assert_eq!(rtc_count_for(i64::MAX, 1, 1, i64::MAX, i64::MAX, i64::MAX), u32::MAX);
    assert_eq!(rtc_count_for(i64::MIN, i64::MIN, i64::MIN, 0, 0, 0), 0);
    assert_eq!(rtc_count_for(1980, 1, 1, 0, 100_000_000_000, -5_999_999_999_999), 1);
}

#[test]
fn an_access_fits_or_runs_off_the_end() {
    assert!(access_fits(END - 4, 4) && !access_fits(END - 3, 4) && access_fits(END - 1, 1));
    assert!(access_fits(END, 4), "there is nothing there to run off");
    assert!(access_fits(0x5C03_FFFC, 4) && !access_fits(0x5C03_FFFE, 4));
}

/// A transfer that would run off the end of memory is not begun.
#[test]
fn a_transfer_off_the_end_of_memory_is_refused() {
    let mut b = Gandalf::new();
    assert_eq!(dma::try_service(&mut b), Some(false));
    assert!(b.try_tick(100));
    let c = &mut b.soc.dma.channels[2];
    c.dcsr = DCSR_RUN | DCSR_NODESC;
    c.dsadr = SDRAM_BASE;
    c.dtadr = END - 6;
    c.ddadr = DDADR_STOP;
    c.dcmd = DCMD_INCSRCADDR | DCMD_INCTRGADDR | (3 << 14) | 8;
    assert_eq!(dma::try_service(&mut b), None);
    assert!(!b.try_tick(100));
    assert_eq!(b.soc.dma.bytes_moved, 0);
    b.soc.dma.channels[2].dtadr = END - 8;
    assert!(b.try_tick(100));
    assert_eq!(b.soc.dma.bytes_moved, 8);
}

/// A controller that is pointed off the end of memory is left where it stands.
#[test]
fn a_list_off_the_end_of_memory_is_refused() {
    let mut b = Gandalf::new();
    let mut p = Port::new(Some(UsbDisk::blank(1)));
    b.soc.ohci.control_head_ed = END - 2;
    assert_eq!(usb::try_service(&mut b, &mut p), Some(false), "not running");
    b.soc.ohci.control = 0x80;
    assert_eq!(usb::try_service(&mut b, &mut p), Some(false), "and the list is not enabled");
    b.soc.ohci.control = 0x80 | 0x10;
    assert_eq!(usb::try_service(&mut b, &mut p), None);
    b.soc.ohci.control_head_ed = 0;
    b.soc.ohci.hcca = END - 0x82;
    assert_eq!(usb::try_service(&mut b, &mut p), None);
}
