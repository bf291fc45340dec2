use vbnote::gandalf::cpld::{Cpld, BOARD_ID_REG};
use vbnote::gandalf::flash::{NorFlash, SR_PROGRAM_ERROR};
use vbnote::gandalf::keyboard::{Keyboard, COLUMN_PARK};
use vbnote::gandalf::modem::{Modem, LCR_DLAB, REG_DATA, REG_IER, REG_LCR, REG_SCRATCH};
use vbnote::gandalf::onewire::{crc8, OneWire};
use vbnote::pxa270::ac97::Ac97;
use vbnote::pxa270::dma::{Dma, DCSR_RUN};
use vbnote::pxa270::gpio::Gpio;
use vbnote::pxa270::i2c::{I2c, ICR_IUE, ICR_TB};
use vbnote::pxa270::intc::{Intc, ICHP_IDLE, ICHP_VAL_FIQ, ICHP_VAL_IRQ};
use vbnote::pxa270::mmc::{Mmc, STRPCL_START_CLOCK};
use vbnote::pxa270::ohci::{Ohci, HC_RH_PORT_STATUS, PORT_CONNECTED};
use vbnote::pxa270::ost::{Ost, OST_HZ};
use vbnote::pxa270::power::{days_from_civil, MemoryController, Rtc};
use vbnote::pxa270::sdcard::SdCard;
use vbnote::pxa270::uart::Uart;
use vbnote::pxa270::Pxa270;

#[test]
fn an_erased_block_takes_what_is_programmed() {
    let mut f = NorFlash::new(1 << 20);
    f.write(0x4_0000, 0x0020_0020, 4);
    f.write(0x4_0000, 0x00D0_00D0, 4);
    f.write(0x4_0010, 0x0040_0040, 4);
    f.write(0x4_0010, 0x1357_9BDF, 4);
    assert_eq!(f.read_array_direct(0x4_0010, 4), 0x1357_9BDF);
    // Programming again can only clear bits.
    f.write(0x4_0010, 0x0040_0040, 4);
    f.write(0x4_0010, 0xFFFF_00FF, 4);
    assert_eq!(f.read_array_direct(0x4_0010, 4), 0x1357_00DF);
    assert_eq!(f.read_array_direct(0x4_0014, 4), 0xFFFF_FFFF);
    assert_eq!(f.read_array_direct((1 << 20) - 2, 4), 0xFFFF_FFFF, "past the end");
}

#[test]
fn a_locked_block_refuses_to_be_programmed() {
    let mut f = NorFlash::new(1 << 20);
    f.write(0, 0x0060_0060, 4);
    f.write(0, 0x0001_0001, 4);
    f.write(0, 0x0040_0040, 4);
    f.write(0, 0, 4);
    assert_ne!(f.status & SR_PROGRAM_ERROR, 0);
    assert_eq!(f.read_array_direct(0, 4), 0xFFFF_FFFF);
    f.write(0, 0x0050_0050, 4);
    f.write(0, 0x0060_0060, 4);
    f.write(0, 0x00D0_00D0, 4);
    f.write(0, 0x0040_0040, 4);
    f.write(0, 0, 4);
    assert_eq!(f.status & SR_PROGRAM_ERROR, 0, "unlocked");
    assert_eq!(f.read_array_direct(0, 4), 0);
}

/// The source that is named is active; with none there is nothing to name.
#[test]
fn only_active_sources_are_named() {
    let mut c = Intc::default();
    c.set(5, true);
    c.set(40, true);
    assert_eq!(c.ichp(), ICHP_IDLE);
    c.mask = [1 << 5, 1 << 8];
    assert_eq!(c.ichp() & ICHP_VAL_IRQ, ICHP_VAL_IRQ);
    assert_eq!((c.ichp() >> 16) & 0x3F, 5);
    c.level[1] = 1 << 8;
    assert_eq!(c.ichp() & ICHP_VAL_FIQ, ICHP_VAL_FIQ);
    assert_eq!(c.ichp() & 0x3F, 40);
    assert!(c.irq_line() && c.fiq_line());
    c.set(5, false);
    assert!(!c.is_pending(5) && c.is_pending(40));
}

#[test]
fn one_pin_is_driven_and_the_others_are_left() {
    let mut g = Gpio::default();
    let mut intc = Intc::default();
    g.set_input(70, true, &mut intc);
    assert_eq!(g.level(2), 1 << 6);
    assert_eq!((g.level(0), g.level(1), g.level(3)), (0, 0, 0));
    g.set_input(70, false, &mut intc);
    assert_eq!(g.level(2), 0);
}

#[test]
fn no_time_is_lost_between_slices() {
    let mut intc = Intc::default();
    let mut one = Ost::new(10 * OST_HZ);
    one.tick(95, &mut intc);
    let mut many = Ost::new(10 * OST_HZ);
    for _ in 0..19 {
        many.tick(5, &mut intc);
    }
    assert_eq!(one.oscr, 9);
    assert_eq!(many.oscr, one.oscr);
    many.tick(5, &mut intc);
    assert_eq!(many.oscr, 10);
}

#[test]
fn bytes_are_received_in_order() {
    let mut u = Uart::new(22);
    let mut intc = Intc::default();
    for b in b"abc" {
        u.feed(*b, &mut intc);
    }
    let got: Vec<u32> = (0..4).map(|_| u.read(0, &mut intc)).collect();
    assert_eq!(got, vec![0x61, 0x62, 0x63, 0]);
}

#[test]
fn a_channel_runs_while_it_is_told_to() {
    let mut d = Dma::default();
    let mut intc = Intc::default();
    d.write(9 * 4, DCSR_RUN, &mut intc);
    assert_eq!(d.next_runnable(), Some(9));
    d.write(9 * 4, 0, &mut intc);
    assert_eq!(d.next_runnable(), None);
}

#[test]
fn the_transfer_bit_is_gone_after_any_transfer() {
    let mut i = I2c::default();
    let mut intc = Intc::default();
    for val in [0u32, 1, 2, 3] {
        i.write(0x10, ICR_IUE | ICR_TB | val, &mut intc);
        assert_eq!(i.read(0x10) & (ICR_TB | 3), 0);
    }
}

#[test]
fn credit_does_not_pile_up_without_end() {
    let mut a = Ac97::default();
    for _ in 0..100 {
        a.tick(1_000_000_000, 1_000_000_000);
    }
    let got = a.take_credit(u32::MAX);
    assert!(got > 0 && got <= 48_000);
    assert_eq!(a.take_credit(1), 0, "it is spent");
}

#[test]
fn an_interrupt_register_reads_once() {
    let mut m = Mmc::default();
    let mut intc = Intc::default();
    m.write(0x00, STRPCL_START_CLOCK, &mut intc);
    m.write(0x10, 0, &mut intc);
    assert_ne!(m.read(0x2C, &mut intc), 0);
    assert_eq!(m.read(0x2C, &mut intc), 0);
}

#[test]
fn no_write_to_a_port_unplugs_what_is_in_it() {
    let mut intc = Intc::default();
    for bit in 0..32 {
        let mut hc = Ohci::new();
        hc.set_connected(1, true, &mut intc);
        hc.write(HC_RH_PORT_STATUS + 4, 1 << bit, &mut intc);
        assert_ne!(hc.read(HC_RH_PORT_STATUS + 4, &mut intc) & PORT_CONNECTED, 0, "bit {bit}");
    }
}

#[test]
fn days_follow_one_another() {
    assert_eq!(days_from_civil(1970, 1, 1), 0);
    assert_eq!(days_from_civil(2000, 3, 1) - days_from_civil(2000, 2, 28), 2);
    assert_eq!(days_from_civil(1900, 3, 1) - days_from_civil(1900, 2, 28), 1);
    assert_eq!(days_from_civil(1969, 12, 31), -1);
    let mut r = Rtc::new(10);
    let mut intc = Intc::default();
    r.tick(25, &mut intc);
    assert_eq!(r.rcnr, 2);
    r.tick(5, &mut intc);
    assert_eq!(r.rcnr, 3);
}

#[test]
fn the_memory_controller_is_configured() {
    let mut m = MemoryController::default();
    assert_eq!(m.read(0), 0x0300_0AC9);
    assert_eq!(m.read(0x10), 0x7FF0_7FF0);
    assert_eq!(m.read(0x14), 0);
    m.write(0x14, 3);
    assert_eq!(m.read(0x14), 3);
    assert_eq!(m.read(0x1000), 0);
}

#[test]
fn the_internal_memory_repeats() {
    let mut s = Pxa270::new(1_000_000);
    s.write32(0x5C00_0010, 0x1234_5678);
    assert_eq!(s.read32(0x5C00_0010), 0x1234_5678);
    assert_eq!(s.read32(0x5C04_0010), 0x1234_5678);
    s.write8(0x5C00_0011, 0xAA);
    assert_eq!(s.read16(0x5C00_0010), 0xAA78);
    assert!(s.owns(0x4000_0000));
}

#[test]
fn a_card_of_whole_units_says_its_size() {
    for units in [1usize, 2, 3, 400] {
        assert_eq!(SdCard::new(units << 18).csd_capacity(), (units as u64) << 18);
    }
}

#[test]
fn a_parked_selector_counts_whatever_is_down() {
    let mut k = Keyboard::default();
    k.set_key(0x41, true);
    k.set_key(0x42, true);
    let _ = k.read_rows();
    assert_eq!(k.sweeps, 0);
    k.write_select(COLUMN_PARK | 0x1200);
    assert_eq!(k.sweeps, 1, "only the low byte selects");
    k.set_key(0x41, false);
    k.set_key(0x42, false);
    assert!(!k.any_down());
}

#[test]
fn a_modem_keeps_its_divisor_in_two_halves() {
    let mut m = Modem::default();
    m.write(REG_LCR * 2, LCR_DLAB);
    m.write(REG_IER * 2, 0x1FF);
    m.write(REG_DATA * 2, 0x2AB);
    assert_eq!((m.read(REG_DATA * 2), m.read(REG_IER * 2)), (0xAB, 0xFF));
    m.write(REG_SCRATCH * 2, 0x3C7);
    assert_eq!(m.read(REG_SCRATCH * 2), 0xC7);
    m.write(REG_LCR * 2, 0);
    for b in b"  at\r" {
        m.write(REG_DATA * 2, *b as u16);
    }
    assert_eq!(m.take_tx(), b"  at\r");
    assert_eq!(m.rx.len(), 6, "OK, whatever its case and white space");
    for b in b"no\r\r" {
        m.write(REG_DATA * 2, *b as u16);
    }
    assert_eq!((m.rx.len(), m.commands), (6, 1), "a line that is no command gets no answer");
}

#[test]
fn a_plain_register_reads_back_and_is_reported() {
    let mut c = Cpld::default();
    c.write(0x20, 0xBEEF, 0x55);
    assert_eq!(c.read(0x20, 0x66), 0xBEEF);
    assert!(!c.board_id_was_read());
    let _ = c.read(BOARD_ID_REG, 0x77);
    assert!(c.board_id_was_read());
    let report = c.report();
    assert_eq!(report.len(), 2);
    assert_eq!(report[0].0, BOARD_ID_REG);
    assert_eq!((report[1].0, report[1].1.reads, report[1].1.writes), (0x20, 1, 1));
    assert_eq!((report[1].1.first_pc, report[1].1.last_written), (0x55, 0xBEEF));
}

#[test]
fn a_checksum_at_the_end_sums_to_zero() {
    let mut s = b"anything at all".to_vec();
    s.push(crc8(&s));
    assert_eq!(crc8(&s), 0);
    assert_eq!(crc8(&[]), 0);
    assert_eq!(crc8(&[1]), 0x5E);
    assert!(OneWire::default().line(0), "the bus idles high");
}

#[test]
fn the_priority_table_is_read_out_in_order() {
    let mut intc = Intc::default();
    assert!(intc.programmed_sources().is_empty());
    intc.priority[3] = 0x8000_0000 | 22;
    intc.priority[7] = 9;
    intc.priority[39] = 0x8000_0000 | 0x40 | 25;
    assert_eq!(intc.programmed_sources(), vec![22, 25], "an entry counts if it says so");
}

#[test]
fn a_source_that_does_not_exist_is_not_masked() {
    let mut intc = Intc::default();
    intc.mask = [1 << 22, 1 << 1];
    assert!(!intc.is_masked(22) && intc.is_masked(23));
    assert!(!intc.is_masked(33) && intc.is_masked(63));
    assert!(!intc.is_masked(64));
}

#[test]
fn a_card_is_cut_to_whole_blocks() {
    let card = SdCard::from_image(vec![0x5A; 1300]);
    assert_eq!(card.blocks(), 2);
    assert_eq!(card.data, vec![0x5A; 1024]);
    assert!(!card.has_data());
    assert_eq!(SdCard::from_image(vec![1; 511]).blocks(), 0);
}

#[test]
fn every_key_goes_up_at_once() {
    let mut k = Keyboard::default();
    assert!(k.set_key(0x41, true) && k.set_key(0x42, true));
    assert!(k.any_down());
    k.release_all();
    assert!(!k.any_down());
}
