use vbnote::gandalf::braille::{BrailleDisplay, CHAIN_BYTES_18_CELL, CHAIN_BYTES_32_CELL, CLOCK, DATA};

/// Clock one byte through, the way `FUN_8007c044` does.
fn shift_byte(d: &mut BrailleDisplay, byte: u8) {
    for bit in 0..8 {
        let data = if byte >> bit & 1 != 0 { DATA } else { 0 };
        d.write(data);
        d.write(data | CLOCK);
        d.write(data);
    }
}

/// The OAL's detection loop, returning the count it would arrive at.
fn probe(d: &mut BrailleDisplay) -> u16 {
    for _ in 0..32 {
        shift_byte(d, 0x00);
    }
    let mut count = 0u16;
    while count < 0x21 {
        if d.end_of_chain() {
            break;
        }
        shift_byte(d, 0xFF);
        count += 1;
    }
    count
}

#[test]
fn a_thirty_two_cell_display_is_counted_correctly() {
    let mut d = BrailleDisplay::with_chain(CHAIN_BYTES_32_CELL);
    assert_eq!(probe(&mut d), 0x20, "the OAL wants exactly 32 here");
    assert_eq!(d.cells(), 32);
}

#[test]
fn an_eighteen_cell_display_is_counted_correctly() {
    let mut d = BrailleDisplay::with_chain(CHAIN_BYTES_18_CELL);
    assert_eq!(probe(&mut d), 0x18, "the OAL wants exactly 24 here");
    assert_eq!(d.cells(), 18);
}

#[test]
fn both_counts_land_in_the_range_keysoft_accepts() {
    // FUN_00023284 in KeySoft: 5 < cells < 0x29.
    for chain in [CHAIN_BYTES_32_CELL, CHAIN_BYTES_18_CELL] {
        let cells = BrailleDisplay::with_chain(chain).cells();
        assert!((6..=40).contains(&cells), "{cells} cells would be rejected");
    }
}

#[test]
fn no_display_never_answers_and_the_count_runs_out() {
    let mut d = BrailleDisplay { present: false, ..Default::default() };
    assert_eq!(probe(&mut d), 0x21, "the loop should give up, not break");
    assert!(!d.end_of_chain());
}

#[test]
fn only_the_rising_clock_edge_shifts() {
    let mut d = BrailleDisplay::with_chain(1);
    for _ in 0..8 {
        d.write(DATA);
        d.write(DATA | CLOCK);
        d.write(DATA | CLOCK); // held high, must not shift again
        d.write(DATA);
    }
    assert_eq!(d.bits_shifted, 8);
}
