use vbnote::pxa270::sdcard::{BLOCK, OCR_READY, SdCard, State};

/// Writing marks the block, so the runner knows what to write out without
/// comparing the whole image.
#[test]
fn a_write_marks_its_own_block() {
    let mut c = SdCard::new(64 * 1024);
    assert!(!c.has_unflushed());
    c.command(24, 0);
    for b in 0..4u8 {
        c.write_byte(b);
    }
    assert!(c.has_unflushed());
    assert_eq!(c.take_dirty_runs(), vec![(0, 1)]);
    assert!(!c.has_unflushed(), "asking clears them");
}

/// Consecutive blocks come back as one run, because a file lands on a
/// stretch of the card and one write beats five hundred.
#[test]
fn consecutive_blocks_coalesce() {
    let mut c = SdCard::new(64 * 1024);
    let block = c.block_size();
    c.command(24, 0);
    // Three blocks in a row, then a gap, then one more.
    for i in 0..(block * 3) {
        c.position = i;
        c.write_byte(0xAB);
    }
    c.position = block * 10;
    c.write_byte(0xCD);
    assert_eq!(c.take_dirty_runs(), vec![(0, 3), (10, 1)]);
}

/// A run has to hand back exactly the bytes it names, or a flush writes
/// the wrong part of the image -- which would corrupt a card rather than
/// merely fail to save it.
#[test]
fn a_run_hands_back_its_own_bytes() {
    let mut c = SdCard::new(64 * 1024);
    let block = c.block_size();
    c.command(24, 0);
    c.position = block * 2;
    c.write_byte(0x5A);
    let runs = c.take_dirty_runs();
    assert_eq!(runs, vec![(2, 1)]);
    let bytes = c.block_bytes(2, 1);
    assert_eq!(bytes.len(), block);
    assert_eq!(bytes[0], 0x5A);
}

/// Asking for more than the card has must not run off the end.
#[test]
fn a_run_past_the_end_is_clamped() {
    let c = SdCard::new(64 * 1024);
    let blocks = c.blocks();
    assert!(c.block_bytes(blocks - 1, 4).len() <= 4 * c.block_size());
    assert!(c.block_bytes(blocks, 1).is_empty());
}

/// Walk the identification sequence a host actually performs, and check
/// the card ends up somewhere it can be read from.
fn bring_up(c: &mut SdCard) {
    c.command(0, 0);
    c.command(8, 0x1AA);
    loop {
        c.command(55, 0);
        let r = c.command(41, 0x4030_0000).unwrap();
        let ocr = u32::from_be_bytes([r[1], r[2], r[3], r[4]]);
        if ocr & OCR_READY != 0 {
            break;
        }
    }
    c.command(2, 0);
    c.command(3, 0);
    c.command(9, (c.rca as u32) << 16);
    c.command(7, (c.rca as u32) << 16);
    c.command(16, BLOCK as u32);
}

#[test]
fn a_host_can_bring_the_card_up_to_transfer_state() {
    let mut c = SdCard::new(1 << 20);
    bring_up(&mut c);
    assert_eq!(c.state, State::Transfer);
    assert_eq!(c.rca, 1, "the card has an address to be selected by");
}

/// The host spins on bit 31 of the OCR, so a card that is ready on the
/// very first ask never exercises that loop.
#[test]
fn the_card_reports_busy_before_it_reports_ready() {
    let mut c = SdCard::new(1 << 20);
    c.command(0, 0);
    c.command(55, 0);
    let first = c.command(41, 0).unwrap();
    assert_eq!(u32::from_be_bytes([first[1], first[2], first[3], first[4]]) & OCR_READY, 0);
    c.command(55, 0);
    let then = c.command(41, 0).unwrap();
    assert_ne!(u32::from_be_bytes([then[1], then[2], then[3], then[4]]) & OCR_READY, 0);
}

/// MMC assigns the address from the host side; SD has the card pick one.
/// Answering the MMC form with SD's response leaves the host waiting.
#[test]
fn the_relative_address_command_follows_whichever_protocol_asked() {
    let mut mmc = SdCard::new(1 << 20);
    mmc.command(3, 0x0007_0000);
    assert_eq!(mmc.rca, 7, "MMC names the address and the card takes it");

    let mut sd = SdCard::new(1 << 20);
    let r = sd.command(3, 0).unwrap();
    assert_eq!(sd.rca, 1, "SD has the card choose");
    assert_eq!(u16::from_be_bytes([r[1], r[2]]), 1, "and report it back");
}

#[test]
fn a_block_written_reads_back() {
    let mut c = SdCard::new(1 << 20);
    bring_up(&mut c);
    c.command(24, 3 * BLOCK as u32);
    for i in 0..BLOCK {
        c.write_byte((i % 251) as u8);
    }
    c.command(17, 3 * BLOCK as u32);
    let got: Vec<u8> = (0..BLOCK).map(|_| c.read_byte()).collect();
    assert_eq!(got, (0..BLOCK).map(|i| (i % 251) as u8).collect::<Vec<_>>());
    assert!(c.dirty);
}

/// A card without the high-capacity bit is addressed in bytes. Treating
/// the argument as a block number puts every access 512 times too far in.
#[test]
fn addresses_are_bytes_rather_than_blocks() {
    let mut c = SdCard::new(1 << 20);
    bring_up(&mut c);
    c.command(17, 2 * BLOCK as u32);
    assert_eq!(c.position, 2 * BLOCK);
}

/// The capacity the host reads out of the CSD has to be the capacity the
/// card has, or the file system is built to the wrong size. This runs the
/// arithmetic a host does against the bytes it reads.
#[test]
fn the_csd_reports_the_real_capacity() {
    for mb in [16usize, 64, 128, 256] {
        let c = SdCard::new(mb * 1024 * 1024);
        assert_eq!(c.csd_capacity(), c.data.len() as u64, "{mb} MB");
    }
}

/// A 2003 driver predates SDHC by three years. Announcing a version 2 CSD,
/// or the high-capacity bit that goes with it, describes a card it cannot
/// parse - and it formatted a 128 MB card as a 96 KB one.
#[test]
fn the_card_describes_itself_the_way_a_2003_host_expects() {
    let mut c = SdCard::new(128 * 1024 * 1024);
    assert_eq!(c.csd()[0] >> 6, 0, "CSD version 1");
    c.command(55, 0);
    let r = c.command(41, 0).unwrap();
    let ocr = u32::from_be_bytes([r[1], r[2], r[3], r[4]]);
    assert_eq!(ocr & 0x4000_0000, 0, "not a high capacity card");
}

#[test]
fn a_long_response_carries_a_whole_register() {
    let mut c = SdCard::new(1 << 20);
    let r = c.command(2, 0).unwrap();
    assert_eq!(r.len(), 17, "one lead byte and sixteen of register");
    assert_eq!(r[0], 0x3F, "a long response has no command index");
}

/// A host that asked for data waits for data, however good the response
/// was. SEND_SCR answers with both.
#[test]
fn the_configuration_register_comes_back_over_the_data_lines() {
    let mut c = SdCard::new(1 << 20);
    bring_up(&mut c);
    c.command(55, 0);
    c.command(51, 0);
    let got: Vec<u8> = (0..8).map(|_| c.read_byte()).collect();
    assert_eq!(got[0], 0x02, "SD specification version 2");
    assert_ne!(got[1] & 0x04, 0, "and a four-bit bus on offer");
}

#[test]
fn reading_without_a_read_command_does_not_hand_out_data() {
    let mut c = SdCard::new(1 << 20);
    bring_up(&mut c);
    assert_eq!(c.read_byte(), 0xFF, "the data lines are idle");
}
/// After a single-block write the card must find its own way back to
/// `tran`, because nothing else will take it there: the driver does not
/// send `CMD12` after `CMD24`, it polls `CMD13` until the card says it is
/// ready. This is the hang that stopped KeySoft ever saving a setting.
#[test]
fn a_single_block_write_leaves_the_card_ready_again() {
    let mut c = SdCard::new(64 * 1024);
    c.state = State::Transfer;
    c.command(24, 0);
    assert_eq!(c.state, State::ReceivingData, "the data phase has started");
    c.transfer_finished();
    assert_eq!(c.state, State::Transfer, "and the card is ready for the next command");
    // Which is what the driver actually looks at.
    let status = c.status();
    assert_eq!((status >> 9) & 0xF, 4, "CURRENT_STATE reads as tran");
}

/// A multi-block transfer is the other way round: it runs until `CMD12`
/// stops it, so finishing a block must not end it early.
#[test]
fn a_multi_block_write_runs_until_it_is_stopped() {
    let mut c = SdCard::new(64 * 1024);
    c.state = State::Transfer;
    c.command(25, 0);
    c.transfer_finished();
    assert_eq!(c.state, State::ReceivingData, "still receiving");
    c.command(12, 0);
    assert_eq!(c.state, State::Transfer, "CMD12 is what ends it");
}

/// The same for reads, which have the same shape.
#[test]
fn a_single_block_read_leaves_the_card_ready_again() {
    let mut c = SdCard::new(64 * 1024);
    c.state = State::Transfer;
    c.command(17, 0);
    assert_eq!(c.state, State::SendingData);
    c.transfer_finished();
    assert_eq!(c.state, State::Transfer);
}
