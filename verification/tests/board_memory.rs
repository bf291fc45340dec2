use vbnote::gandalf::braille::{CLOCK, DATA};
use vbnote::gandalf::cpld::{BRAILLE_REG, KEYBOARD_REG};
use vbnote::gandalf::image::{CeImage, ImageRecord};
use vbnote::gandalf::{
    kernel_va_to_pa, Gandalf, CPLD_BASE, CPU_HZ_DEFAULT, DOC_NCS1_BASE, DOC_NCS3_BASE, FLASH_SIZE, SDRAM_BASE,
    SDRAM_SIZE,
};
use vbnote::pxa270::dma::{DCMD_INCSRCADDR, DCMD_INCTRGADDR, DCSR_NODESC, DCSR_RUN};
use vbnote::pxa270::intc::IRQ_OST0;

fn record(addr: u32, data: &[u8]) -> ImageRecord {
    ImageRecord { addr, data: data.to_vec() }
}

#[test]
fn every_width_reads_back_from_sdram() {
    let mut b = Gandalf::new();
    b.write8(SDRAM_BASE + 1, 0x5A);
    b.write16(SDRAM_BASE + 2, 0x1234);
    b.write32(SDRAM_BASE + 4, 0xCAFE_F00D);
    assert_eq!(b.read8(SDRAM_BASE + 1), 0x5A);
    assert_eq!(b.read16(SDRAM_BASE + 2), 0x1234);
    assert_eq!(b.read32(SDRAM_BASE + 4), 0xCAFE_F00D);
    assert_eq!(b.read32(SDRAM_BASE), 0x1234_5A00, "and the neighbours are where they were");
    assert_eq!(b.read32(SDRAM_BASE + 8), 0);
    let last = SDRAM_BASE + SDRAM_SIZE as u32 - 4;
    b.write32(last, 7);
    assert_eq!(b.read32(last), 7);
}

#[test]
fn an_empty_disk_socket_reads_as_ones() {
    let mut b = Gandalf::new();
    for base in [DOC_NCS1_BASE, DOC_NCS3_BASE] {
        assert_eq!(b.read8(base + 3), 0xFF);
        assert_eq!(b.read16(base + 2), 0xFFFF);
        assert_eq!(b.read32(base + 0x1000), 0xFFFF_FFFF);
    }
    assert!(b.unmapped.is_empty(), "and nothing notices");
}

/// An instruction is the array's, whatever the part was last asked for.
#[test]
fn a_fetch_ignores_what_the_flash_is_doing() {
    let mut b = Gandalf::new();
    b.flash.data[0x40..0x44].copy_from_slice(&0xE1A0_0000u32.to_le_bytes());
    assert_eq!(b.read32(0x40), 0xE1A0_0000);
    assert_eq!(b.fetch32(0x40), 0xE1A0_0000);
    b.write32(0, 0x0098_0098);
    assert_ne!(b.read32(0x40), 0xE1A0_0000, "a query is being answered");
    assert_eq!(b.fetch32(0x40), 0xE1A0_0000);
    assert_eq!(b.fetch16(0x42), 0xE1A0);
    b.write32(SDRAM_BASE, 0x1122_3344);
    assert_eq!(b.fetch32(SDRAM_BASE), 0x1122_3344);
    assert_eq!(b.fetch16(SDRAM_BASE), 0x3344);
}

#[test]
fn an_access_to_nothing_is_noted() {
    let mut b = Gandalf::new();
    b.pc = 0x1234;
    assert_eq!(b.read32(0xC000_0000), 0);
    b.write8(0xC000_0000, 9);
    b.write16(0xC000_0000, 10);
    assert_eq!((b.read8(0xC000_0000), b.read16(0xC000_0000)), (0, 0));
    let stat = b.unmapped.get(&0xC000_0000).unwrap();
    assert_eq!((stat.reads, stat.writes), (3, 2), "at every width");
    assert_eq!((stat.first_pc, stat.last_value), (0x1234, 10));
}

#[test]
fn a_board_powers_up_with_nothing_pressed_and_nothing_counted() {
    let b = Gandalf::new();
    let k = &b.cpld.keyboard;
    assert_eq!((k.columns, k.selected, k.scans_by_column), ([0; 12], None, [0; 12]));
    assert_eq!((k.scans_seen, k.sweeps, k.reads), (0, 0, 0));
    assert_eq!(k.layout, vbnote::gandalf::keyboard::VOICENOTE_LAYOUT);
    assert_eq!((b.cpld.regs, b.cpld.board_id), ([0; 256], 0));
    assert!(b.cpld.report().is_empty());
    assert_eq!(b.soc.rtc.accesses, [(0, 0); 16]);
}

/// The modem's scratch register reaches up to where the board id would be.
#[test]
fn the_scratch_register_answers_for_the_board_id() {
    let mut b = Gandalf::new();
    b.cpld.board_id = 7;
    b.write16(CPLD_BASE + 0x0E, 0x5A);
    assert_eq!(b.read16(CPLD_BASE + 0x0E), 0x5A);
    assert!(b.cpld.board_id_was_read());
}

/// The part on the pin sees the line let go by a narrow write too.
#[test]
fn a_narrow_write_moves_the_serial_number_pin() {
    let mut b = Gandalf::new();
    let gpdr = 0x40E0_000C;
    b.write32(gpdr, 1 << 22);
    assert!(b.onewire.master_low, "an output with a zero in its latch pulls");
    b.soc.ost.oscr = b.soc.ost.oscr.wrapping_add(1920);
    b.write16(gpdr, 0);
    assert!(!b.onewire.master_low);
    assert!(b.onewire.started && b.onewire.pulling, "a reset, and it is answered");
    b.write32(gpdr, 1 << 22);
    b.write8(gpdr, 0);
    assert!(!b.onewire.master_low);
    assert_eq!(b.onewire.in_count, 1, "one bit");
}

#[test]
fn a_reset_keeps_memory_and_lets_go_of_the_keys() {
    let mut b = Gandalf::new();
    b.write32(SDRAM_BASE, 99);
    b.flash.data[0] = 0x12;
    b.write32(0, 0x0090_0090);
    b.cpld.keyboard.set_key(0x41, true);
    b.reset();
    assert_eq!(b.read32(SDRAM_BASE), 99);
    assert_eq!(b.read8(0), 0x12, "the array again");
    assert!(!b.cpld.keyboard.any_down());
}

#[test]
fn an_image_is_loaded_where_the_static_map_puts_it() {
    let mut b = Gandalf::with_clock(CPU_HZ_DEFAULT);
    let image = CeImage {
        base: 0x96C7_8000,
        launch: 0x96C7_9000,
        records: vec![record(0x96C7_9000, &[1, 2, 3, 4]), record(0x8000_0010, &[9, 8])],
    };
    assert_eq!(b.load_image(&image), Ok(0xA007_9000));
    assert_eq!(b.read32(0xA007_9000), 0x0403_0201);
    assert_eq!(b.flash.data[0x10..0x12], [9, 8]);
}

#[test]
fn an_image_that_does_not_fit_says_why() {
    let mut b = Gandalf::new();
    let mut load = |launch: u32, addr: u32, len: usize| {
        let image = CeImage { base: 0, launch, records: vec![record(addr, &vec![0u8; len])] };
        b.load_image(&image)
    };
    assert_eq!(load(0, 0xC000_0000, 4), Err("record at 0xc0000000 is outside the static map".into()));
    assert_eq!(load(0xD000_0000, 0x1000, 4), Err("launch address 0xd0000000 is outside the static map".into()));
    assert_eq!(load(0, 0xA3FF_FFFE, 4), Err("block at 0xa3fffffe runs past the end of memory".into()));
    assert_eq!(load(0, 0x83FF_FFFE, 4), Err("block at 0x03fffffe runs past the end of memory".into()));
    assert_eq!(load(0, 0x5000_0000, 4), Err("no memory at 0x50000000".into()));
}

/// Records in front of one that is refused have been copied.
#[test]
fn loading_stops_at_the_first_record_that_does_not_fit() {
    let mut b = Gandalf::new();
    let image = CeImage {
        base: 0,
        launch: 0,
        records: vec![record(0xA000_0000, &[1]), record(0xFFFF_0000, &[2]), record(0xA000_0001, &[3])],
    };
    assert!(b.load_image(&image).is_err());
    assert_eq!(b.read16(0xA000_0000), 0x0001);
}

#[test]
fn a_bootloader_goes_into_flash_from_its_own_base() {
    let mut b = Gandalf::new();
    let image = CeImage {
        base: 0x96C7_8000,
        launch: 0x96C7_9000,
        records: vec![record(0x96C7_8000, &[0xEA, 0, 0, 1]), record(0x96C7_9000, &[7])],
    };
    assert_eq!(b.load_flash_image(&image), Ok(0), "the reset vector");
    assert_eq!(b.flash.data[0..4], [0xEA, 0, 0, 1]);
    assert_eq!(b.flash.data[0x1000], 7);

    let below = CeImage { base: 0x96C7_8000, launch: 0, records: vec![record(0x96C7_7FFF, &[1])] };
    assert_eq!(
        b.load_flash_image(&below),
        Err("record at 0x96c77fff maps to flash offset 0xffffffff, past the end of the device".into())
    );
}

#[test]
fn a_flash_image_is_padded_with_erased_bytes_and_may_not_be_too_large() {
    let mut b = Gandalf::new();
    b.flash.data[100] = 0;
    assert_eq!(b.load_raw_flash(&[1, 2, 3]), Ok(()));
    assert_eq!(b.flash.data[0..4], [1, 2, 3, 0xFF]);
    assert_eq!(b.flash.data[100], 0xFF);
    assert_eq!(b.flash.data.len(), FLASH_SIZE);
    let big = vec![0u8; FLASH_SIZE + 1];
    assert_eq!(b.load_raw_flash(&big), Err("flash image is 64 MB, larger than the 64 MB device".into()));
    assert_eq!(b.flash.data[0], 1, "and nothing was touched");
}

#[test]
fn the_edges_of_the_static_map() {
    assert_eq!(kernel_va_to_pa(0x9660_0000), Some(0x9FA0_0000));
    assert_eq!(kernel_va_to_pa(0x9AC0_0000), Some(0xA400_0000));
    assert_eq!(kernel_va_to_pa(0x9AC0_0001), None);
    assert_eq!(kernel_va_to_pa(0x83FF_FFFF), Some(0x03FF_FFFF));
    assert_eq!(kernel_va_to_pa(0x8400_0000), None);
    assert_eq!(kernel_va_to_pa(0x5FFF_FFFF), Some(0x5FFF_FFFF));
    assert_eq!(kernel_va_to_pa(0x6000_0000), None);
    assert_eq!(kernel_va_to_pa(0xA400_0000), None);
}

#[test]
fn time_passes_for_the_timers() {
    let mut b = Gandalf::with_clock(3_250_000);
    b.soc.intc.mask[0] = 1 << IRQ_OST0;
    b.write32(0x40A0_0000, 50); // OSMR0
    b.write32(0x40A0_001C, 1); // OIER
    b.tick(40);
    assert_eq!(b.elapsed, 40);
    assert!(!b.irq_pending());
    b.tick(20);
    assert!(b.irq_pending());
    assert!(!b.fiq_pending());
    assert_eq!(b.soc.ost.oscr, 60);
}

/// The far end of the braille chain is a GPIO, and follows every write.
#[test]
fn the_braille_chain_drives_its_pin() {
    let mut b = Gandalf::new();
    let end = |b: &Gandalf| b.soc.gpio.level(3) & (1 << (103 - 96)) != 0;
    assert!(!end(&b));
    for _ in 0..32 * 8 {
        b.write16(CPLD_BASE + BRAILLE_REG, DATA);
        b.write16(CPLD_BASE + BRAILLE_REG, DATA | CLOCK);
    }
    assert!(end(&b), "the ones have come through");
}

#[test]
fn a_key_is_scanned_through_the_board() {
    let mut b = Gandalf::new();
    let (column, row) = b.cpld.keyboard.position_of(0x41).unwrap();
    b.cpld.keyboard.set_key(0x41, true);
    b.write16(CPLD_BASE + KEYBOARD_REG, (column ^ 1) as u16);
    assert_eq!(b.read16(CPLD_BASE + KEYBOARD_REG), 1 << row);
}

/// Bytes, halfwords and words copy alike.
#[test]
fn a_transfer_copies_at_every_width() {
    for (code, width) in [(1u32, 1u32), (2, 2), (3, 4)] {
        let mut b = Gandalf::new();
        for i in 0..8 {
            b.write8(SDRAM_BASE + 0x100 + i, 0x40 + i as u8);
        }
        b.soc.dma.channels[5].dsadr = SDRAM_BASE + 0x100;
        b.soc.dma.channels[5].dtadr = SDRAM_BASE + 0x200;
        b.soc.dma.channels[5].dcmd = DCMD_INCSRCADDR | DCMD_INCTRGADDR | (code << 14) | 8;
        b.soc.dma.channels[5].dcsr = DCSR_RUN | DCSR_NODESC;
        assert!(vbnote::gandalf::dma::service(&mut b));
        for i in 0..8 {
            assert_eq!(b.read8(SDRAM_BASE + 0x200 + i), 0x40 + i as u8, "width {width}");
        }
        assert_eq!(b.read8(SDRAM_BASE + 0x208), 0);
        assert_eq!(b.soc.dma.channels[5].dsadr, SDRAM_BASE + 0x108);
        assert!(!vbnote::gandalf::dma::service(&mut b), "and then the channel is done");
    }
}

#[test]
fn an_idle_engine_changes_nothing() {
    let mut b = Gandalf::new();
    assert!(!vbnote::gandalf::dma::service(&mut b));
    assert_eq!(b.soc.dma.bytes_moved, 0);
}
