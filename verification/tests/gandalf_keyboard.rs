use vbnote::gandalf::keyboard::{COLUMNS, COLUMN_IDLE, COLUMN_PARK, Keyboard, NAMED_CONTROL, NAMED_DELETE, NAMED_DOWN, NAMED_FUNCTION, NAMED_HELP, NAMED_LEFT, NAMED_MENU, NAMED_READ, NAMED_REPEAT, NAMED_RIGHT, NAMED_SHIFT, NAMED_UP, ROWS, VOICENOTE_LAYOUT};

const VK_SPACE: u8 = 0x20;
const VK_A: u8 = 0x41;
const VK_RETURN: u8 = 0x0D;

#[test]
fn every_layout_column_holds_eight_entries() {
    assert_eq!(VOICENOTE_LAYOUT.len(), COLUMNS);
    assert_eq!(VOICENOTE_LAYOUT.iter().flatten().count(), COLUMNS * ROWS);
}

#[test]
fn the_table_covers_a_qwerty_keyboard() {
    let kb = Keyboard::default();
    for vk in b"QWERTYUIOPASDFGHJKL1234567890" {
        assert!(kb.position_of(*vk).is_some(), "missing key {}", *vk as char);
    }
    for vk in [VK_SPACE, VK_RETURN, 0x08, 0x09, 0x1B, 0xA0, 0xA1] {
        assert!(kb.position_of(vk).is_some(), "missing control key {vk:#04x}");
    }
}

#[test]
fn a_pressed_key_appears_only_in_its_own_column() {
    let mut kb = Keyboard::default();
    let (col, row) = kb.position_of(VK_A).unwrap();
    assert!(kb.set_key(VK_A, true));

    // The hardware column is the table column with the low bit flipped.
    kb.write_select((col ^ 1) as u16);
    assert_eq!(kb.read_rows(), 1 << row);

    for other in 0..COLUMNS {
        if other == col ^ 1 {
            continue;
        }
        kb.write_select(other as u16);
        assert_eq!(kb.read_rows(), 0, "column {other} should be clear");
    }
}

/// Press every key and read it back the way the guest does, which is the
/// test that would have caught the pairs being swapped.
///
/// The driver scans a hardware column, finds a row bit, and looks the key
/// up in its table — and the column it indexes the table by is not the one
/// it drove. Anything that gets that wrong still types: every letter lands
/// on some other key, so the keyboard looks like it works right up until
/// somebody presses Enter and gets an apostrophe.
#[test]
fn every_key_reads_back_as_itself() {
    let mut seen_vks: Vec<u8> = Vec::new();
    for col in VOICENOTE_LAYOUT.iter() {
        for &vk in col.iter() {
            if vk == 0 || seen_vks.contains(&vk) {
                continue;
            }
            seen_vks.push(vk);
            let mut kb = Keyboard::default();
            assert!(kb.set_key(vk, true), "{vk:#04x} is not on the matrix");
            // Where it actually went; F2 appears twice and `set_key` takes
            // the first.
            let (c, r) = kb.position_of(vk).unwrap();

            // Scan as the driver does, and see which column reports it.
            let mut seen = None;
            for hw in 0..COLUMNS {
                kb.write_select(hw as u16);
                let rows = kb.read_rows();
                if rows != 0 {
                    assert!(seen.is_none(), "{vk:#04x} answered on two columns");
                    assert_eq!(rows, 1 << r, "{vk:#04x} reported the wrong row");
                    seen = Some(hw);
                }
            }
            let hw = seen.unwrap_or_else(|| panic!("{vk:#04x} answered on no column"));

            // The driver then indexes its table by the paired column.
            let got = VOICENOTE_LAYOUT[hw ^ 1][r];
            assert_eq!(
                got, vk,
                "key at table ({c}, {r}) drove column {hw} and read back as {got:#04x}"
            );
        }
    }
}

/// The three keys that were unreachable until the ROM said what they
/// were, plus the ones beside them. A layout that loses one of these
/// loses a whole class of KeySoft commands, silently, because everything
/// that types still types.
#[test]
fn the_named_keys_are_all_on_the_matrix() {
    let kb = Keyboard::default();
    for (what, vk) in [
        ("READ", NAMED_READ),
        ("FUNCTION", NAMED_FUNCTION),
        ("CONTROL", NAMED_CONTROL),
        ("SHIFT", NAMED_SHIFT),
        ("HELP", NAMED_HELP),
        ("REPEAT", NAMED_REPEAT),
        ("MENU", NAMED_MENU),
        ("DELETE", NAMED_DELETE),
        ("LEFT", NAMED_LEFT),
        ("UP", NAMED_UP),
        ("RIGHT", NAMED_RIGHT),
        ("DOWN", NAMED_DOWN),
    ] {
        assert!(kb.position_of(vk).is_some(), "{what} ({vk:#04x}) is not on the matrix");
    }
}

/// READ and FUNCTION are distinct keys in distinct places. Having them
/// the same, or the same as Alt, would make every chord land on the
/// wrong command.
#[test]
fn read_and_function_are_not_the_same_key() {
    let kb = Keyboard::default();
    assert_ne!(NAMED_READ, NAMED_FUNCTION);
    assert_ne!(kb.position_of(NAMED_READ), kb.position_of(NAMED_FUNCTION));
}

/// The driver parks the selector at the end of a sweep, and that is what
/// says it has finished looking. Counting them is how a chord and a
/// single key can be waited on with the same rule.
#[test]
fn parking_the_selector_ends_a_sweep() {
    let mut kb = Keyboard::default();
    assert_eq!(kb.sweeps, 0);
    for c in 0..COLUMNS {
        kb.write_select(COLUMN_IDLE);
        let _ = kb.read_rows();
        kb.write_select(c as u16);
        let _ = kb.read_rows();
    }
    assert_eq!(kb.sweeps, 0, "not until it parks");
    kb.write_select(COLUMN_PARK);
    assert_eq!(kb.sweeps, 1);
}

/// However many keys are down, a sweep is one sweep. This is the property
/// that makes the rule work for a chord: holding READ with a letter must
/// not look like twice as much looking as the letter alone.
#[test]
fn a_chord_does_not_inflate_the_sweep_count() {
    let mut alone = Keyboard::default();
    alone.set_key(VK_A, true);
    let mut chord = Keyboard::default();
    chord.set_key(VK_A, true);
    chord.set_key(NAMED_READ, true);

    for kb in [&mut alone, &mut chord] {
        for c in 0..COLUMNS {
            kb.write_select(c as u16);
            let _ = kb.read_rows();
        }
        kb.write_select(COLUMN_PARK);
    }
    assert_eq!(alone.sweeps, chord.sweeps);
    assert!(chord.scans_seen > alone.scans_seen, "but more keys did answer");
}

/// A modifier held down in another column must not make the key it
/// modifies look as though the guest has seen it. This is the whole
/// reason the count is per column.
#[test]
fn a_held_modifier_does_not_count_as_seeing_the_key() {
    let mut kb = Keyboard::default();
    kb.set_key(NAMED_READ, true);
    kb.set_key(VK_A, true);
    let (read_col, _) = kb.position_of(NAMED_READ).unwrap();
    let before = kb.scans_of(VK_A).unwrap();

    // Scan only the modifier's column, over and over.
    for _ in 0..10 {
        kb.write_select((read_col ^ 1) as u16);
        assert_ne!(kb.read_rows(), 0, "the modifier is down and should answer");
    }
    assert!(kb.scans_seen >= 10, "the total climbs");
    assert_eq!(kb.scans_of(VK_A).unwrap(), before, "but not for A");

    // Looking at A's column is what counts for A.
    let (a_col, _) = kb.position_of(VK_A).unwrap();
    kb.write_select((a_col ^ 1) as u16);
    assert_ne!(kb.read_rows(), 0);
    assert_eq!(kb.scans_of(VK_A).unwrap(), before + 1);
}

#[test]
fn idle_and_park_selections_read_as_nothing_pressed() {
    let mut kb = Keyboard::default();
    kb.set_key(VK_SPACE, true);
    kb.write_select(COLUMN_IDLE);
    assert_eq!(kb.read_rows(), 0);
    kb.write_select(COLUMN_PARK);
    assert_eq!(kb.read_rows(), 0);
}

#[test]
fn releasing_clears_the_bit() {
    let mut kb = Keyboard::default();
    let (col, _) = kb.position_of(VK_SPACE).unwrap();
    kb.set_key(VK_SPACE, true);
    kb.write_select((col ^ 1) as u16);
    assert_ne!(kb.read_rows(), 0);
    kb.set_key(VK_SPACE, false);
    assert_eq!(kb.read_rows(), 0);
    assert!(!kb.any_down());
}

#[test]
fn an_unmapped_key_is_rejected_rather_than_silently_lost() {
    let mut kb = Keyboard::default();
    assert!(!kb.set_key(0xF5, false), "F5 is not on this keyboard");
    assert!(!kb.any_down());
}

/// Walk the matrix exactly as the driver does and reassemble its six
/// words, checking a key lands in the bit position the driver will read.
#[test]
fn a_full_scan_reproduces_the_drivers_packing() {
    let mut kb = Keyboard::default();
    kb.set_key(VK_A, true);
    let (col, row) = kb.position_of(VK_A).unwrap();

    let mut words = [0u16; 6];
    for c in 0..COLUMNS {
        kb.write_select(COLUMN_IDLE);
        let _ = kb.read_rows();
        kb.write_select(c as u16);
        let _ = kb.read_rows();
        let rows = kb.read_rows();
        if c % 2 == 0 {
            words[c / 2] = rows << 8;
        } else {
            words[c / 2] |= rows & 0xFF;
        }
    }

    // A key at an even *table* column answers on an odd *hardware*
    // column, which is the half the driver reads back first. Having this
    // the other way round is precisely the bug that made Enter type an
    // apostrophe.
    let expected_bit = if col % 2 == 0 { row } else { 8 + row };
    assert_eq!(words[col / 2], 1 << expected_bit);
    assert_eq!(words.iter().filter(|w| **w != 0).count(), 1);
}
