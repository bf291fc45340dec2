use vbnote::pxa270::i2c::{I2c, ICR_ITEIE, ICR_IUE, ICR_START, ICR_TB, ICR_UR, ISR_ACKNAK, ISR_IRF, ISR_ITE, ISR_W1C, SBS_DEVICE_NAME, SBS_VOLTAGE, SMART_BATTERY_ADDRESS, Transfer};
use vbnote::pxa270::intc::{IRQ_I2C, Intc};

fn addressed(i2c: &mut I2c, intc: &mut Intc, address: u8, read: bool) {
    i2c.write(0x20, 0x32, intc); // our own slave address, as the OAL sets
    i2c.write(0x08, ((address << 1) | read as u8) as u32, intc);
    i2c.write(0x10, ICR_IUE | ICR_START | ICR_TB, intc);
}

#[test]
fn a_transfer_reports_transmit_empty_so_the_poll_ends() {
    let mut i2c = I2c::default();
    let mut intc = Intc::default();
    assert_eq!(i2c.read(0x18) & ISR_ITE, 0);
    addressed(&mut i2c, &mut intc, 0x50, false);
    assert_ne!(i2c.read(0x18) & ISR_ITE, 0, "the OAL polls this bit");
}

#[test]
fn an_empty_bus_answers_with_a_nak() {
    let mut i2c = I2c::default();
    let mut intc = Intc::default();
    addressed(&mut i2c, &mut intc, 0x50, false);
    assert_ne!(i2c.read(0x18) & ISR_ACKNAK, 0, "nothing at 0x50 acknowledged");
    addressed(&mut i2c, &mut intc, SMART_BATTERY_ADDRESS, false);
    assert_eq!(i2c.read(0x18) & ISR_ACKNAK, 0, "the battery does");
}

#[test]
fn the_addressed_slave_is_recorded() {
    let mut i2c = I2c::default();
    let mut intc = Intc::default();
    addressed(&mut i2c, &mut intc, 0x50, false);
    addressed(&mut i2c, &mut intc, 0x50, true);
    addressed(&mut i2c, &mut intc, 0x1A, false);
    assert_eq!(i2c.addresses.get(&0x50), Some(&2));
    assert_eq!(i2c.addresses.get(&0x1A), Some(&1));
    assert_eq!(i2c.log[0], Transfer { address: 0x50, read: false, data: 0xA0, is_address: true });
    assert!(i2c.log[1].read, "bit 0 of the address byte selects a read");
}

#[test]
fn transfer_bit_clears_itself() {
    let mut i2c = I2c::default();
    let mut intc = Intc::default();
    addressed(&mut i2c, &mut intc, 0x50, false);
    assert_eq!(i2c.read(0x10) & ICR_TB, 0, "the controller clears TB");
}

#[test]
fn status_bits_are_write_one_to_clear() {
    let mut i2c = I2c::default();
    let mut intc = Intc::default();
    addressed(&mut i2c, &mut intc, 0x50, false);
    i2c.write(0x18, ISR_ITE | ISR_ACKNAK, &mut intc);
    assert_eq!(i2c.read(0x18) & (ISR_ITE | ISR_ACKNAK), 0);
}

/// Read a Smart Battery command the way the OAL does: address for write,
/// send the command, repeated start into a read, then clock bytes out.
fn sbs_read(i2c: &mut I2c, intc: &mut Intc, command: u8, count: usize) -> Vec<u8> {
    addressed(i2c, intc, SMART_BATTERY_ADDRESS, false);
    i2c.write(0x08, command as u32, intc);
    i2c.write(0x10, ICR_IUE | ICR_TB, intc);
    addressed(i2c, intc, SMART_BATTERY_ADDRESS, true);
    let mut out = Vec::new();
    for _ in 0..count {
        i2c.write(0x10, ICR_IUE | ICR_TB, intc);
        out.push(i2c.read(0x08) as u8);
    }
    out
}

#[test]
fn the_battery_reports_its_voltage_low_byte_first() {
    let mut i2c = I2c::default();
    let mut intc = Intc::default();
    let got = sbs_read(&mut i2c, &mut intc, SBS_VOLTAGE, 2);
    let v = u16::from_le_bytes([got[0], got[1]]);
    assert_eq!(v, i2c.battery.voltage_mv);
}

#[test]
fn device_name_is_length_prefixed_and_battdrvr_will_accept_it() {
    let mut i2c = I2c::default();
    let mut intc = Intc::default();
    let got = sbs_read(&mut i2c, &mut intc, SBS_DEVICE_NAME, 8);
    let len = got[0] as usize;
    // battdrvr rejects a length outside one to seven.
    assert!((1..=7).contains(&len), "length {len} is outside what battdrvr accepts");
    let name = &got[1..1 + len];
    // It then takes a scaling factor from four trailing digits.
    let digits = name.iter().rev().take_while(|c| c.is_ascii_digit()).count();
    assert_eq!(digits, 4, "battdrvr wants exactly four trailing digits");
}

#[test]
fn a_removed_battery_does_not_acknowledge() {
    let mut i2c = I2c::default();
    let mut intc = Intc::default();
    i2c.battery.present = false;
    addressed(&mut i2c, &mut intc, SMART_BATTERY_ADDRESS, false);
    assert_ne!(i2c.read(0x18) & ISR_ACKNAK, 0);
}

#[test]
fn a_read_after_addressing_returns_an_idle_bus() {
    let mut i2c = I2c::default();
    let mut intc = Intc::default();
    addressed(&mut i2c, &mut intc, 0x50, true);
    i2c.write(0x18, ISR_W1C, &mut intc);
    i2c.write(0x10, ICR_IUE | ICR_TB, &mut intc); // read the data byte
    assert_eq!(i2c.read(0x08), 0xFF, "an undriven bus reads as ones");
    assert_ne!(i2c.read(0x18) & ISR_IRF, 0);
}

#[test]
fn a_unit_reset_clears_state_but_keeps_the_record() {
    let mut i2c = I2c::default();
    let mut intc = Intc::default();
    addressed(&mut i2c, &mut intc, 0x50, false);
    i2c.write(0x10, ICR_UR, &mut intc);
    assert_eq!(i2c.read(0x18), 0);
    assert_eq!(i2c.addresses.get(&0x50), Some(&1), "diagnostics survive");
}

#[test]
fn interrupts_follow_the_enable_bits() {
    let mut i2c = I2c::default();
    let mut intc = Intc::default();
    intc.mask[0] = 1 << IRQ_I2C;
    i2c.write(0x08, 0xA0, &mut intc);
    i2c.write(0x10, ICR_IUE | ICR_START | ICR_TB, &mut intc);
    assert!(!intc.irq_line(), "not enabled yet");
    i2c.write(0x10, ICR_IUE | ICR_ITEIE, &mut intc);
    assert!(intc.irq_line(), "transmit-empty interrupt enabled");
}
