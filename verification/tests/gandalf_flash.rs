use vbnote::gandalf::flash::{CMD_READ_ID, DEVICE_SIZE, INTERLEAVE, NorFlash, SR_ERASE_ERROR, SR_READY};

/// After the guest has used the part it is not in read-array mode, and a
/// processor reset alone would fetch nonsense from it. Resetting the part
/// is what makes the first instruction after a reset a real instruction.
#[test]
fn a_reset_puts_the_part_back_in_read_array_mode() {
    let mut f = NorFlash::new(1024);
    let instruction = f.read(0, 4);

    // Whatever the guest last asked it for -- a status read, an identify.
    f.write(0, CMD_READ_ID as u32, 2);
    assert_ne!(f.read(0, 4), instruction, "not the array any more");

    f.reset();
    assert_eq!(f.read(0, 4), instruction, "the array again, and unchanged");
}

fn flash() -> NorFlash {
    NorFlash::new(64 * 1024 * 1024)
}

#[test]
fn reads_the_array_by_default() {
    let mut f = flash();
    f.data[0..4].copy_from_slice(&0x1234_5678u32.to_le_bytes());
    assert_eq!(f.read(0, 4), 0x1234_5678);
}

#[test]
fn cfi_query_returns_qry_replicated_across_both_devices() {
    let mut f = flash();
    f.write(0, 0x0098_0098, 4);
    // Device-word 0x10 is four bytes per word on this bus.
    assert_eq!(f.read(0x10 * 4, 4), 0x0051_0051, "Q");
    assert_eq!(f.read(0x11 * 4, 4), 0x0052_0052, "R");
    assert_eq!(f.read(0x12 * 4, 4), 0x0059_0059, "Y");
}

#[test]
fn cfi_reports_a_geometry_that_covers_the_whole_bank() {
    let mut f = flash();
    f.write(0, 0x0098_0098, 4);
    let size_exp = f.read(0x27 * 4, 4) & 0xFFFF;
    let blocks = (f.read(0x2D * 4, 4) & 0xFF) | ((f.read(0x2E * 4, 4) & 0xFF) << 8);
    let units = (f.read(0x2F * 4, 4) & 0xFF) | ((f.read(0x30 * 4, 4) & 0xFF) << 8);
    let device_size = 1usize << size_exp;
    let block_size = units as usize * 256;
    assert_eq!(device_size, DEVICE_SIZE);
    assert_eq!((blocks as usize + 1) * block_size, DEVICE_SIZE);
    assert_eq!(device_size * INTERLEAVE as usize, f.data.len());
}

#[test]
fn read_array_command_leaves_query_mode() {
    let mut f = flash();
    f.write(0, 0x0098_0098, 4);
    f.write(0, 0x00FF_00FF, 4);
    f.data[0x40..0x44].copy_from_slice(&0xAABB_CCDDu32.to_le_bytes());
    assert_eq!(f.read(0x40, 4), 0xAABB_CCDD);
}

#[test]
fn identifier_mode_reports_intel() {
    let mut f = flash();
    f.write(0, 0x0090_0090, 4);
    assert_eq!(f.read(0, 4) & 0xFFFF, 0x0089);
    assert_eq!(f.read(4, 4) & 0xFFFF, 0x001D);
}

#[test]
fn program_clears_bits_and_erase_restores_them() {
    let mut f = flash();
    f.write(0x1000, 0x0040_0040, 4); // program setup
    f.write(0x1000, 0x1234_5678, 4); // data

    // A program leaves the device reporting status, not the array.
    assert_eq!(f.read(0x1000, 4) & 0xFF, SR_READY as u32);
    f.write(0x1000, 0x00FF_00FF, 4);
    assert_eq!(f.read(0x1000, 4), 0x1234_5678);

    f.write(0x1000, 0x0020_0020, 4); // erase setup
    f.write(0x1000, 0x00D0_00D0, 4); // confirm
    f.write(0x1000, 0x00FF_00FF, 4); // back to array
    assert_eq!(f.read(0x1000, 4), 0xFFFF_FFFF);
}

#[test]
fn erase_only_touches_its_own_block() {
    let mut f = flash();
    let next = NorFlash::bus_block_size() as u32;
    f.data[next as usize..next as usize + 4].copy_from_slice(&[0x11; 4]);
    f.write(0, 0x0020_0020, 4);
    f.write(0, 0x00D0_00D0, 4);
    f.write(0, 0x00FF_00FF, 4);
    assert_eq!(f.read(next, 4), 0x1111_1111, "neighbouring block untouched");
}

#[test]
fn a_locked_block_refuses_to_erase() {
    let mut f = flash();
    f.data[0..4].copy_from_slice(&[0x00; 4]);
    f.write(0, 0x0060_0060, 4); // lock setup
    f.write(0, 0x0001_0001, 4); // lock
    f.write(0, 0x0020_0020, 4);
    f.write(0, 0x00D0_00D0, 4);
    assert_ne!(f.status & SR_ERASE_ERROR, 0);
    f.write(0, 0x00FF_00FF, 4);
    assert_eq!(f.read(0, 4), 0);
}
