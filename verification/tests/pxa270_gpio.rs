use vbnote::pxa270::gpio::{Gpio, Reg, decode};
use vbnote::pxa270::intc::{IRQ_GPIO_X, Intc};

#[test]
fn set_and_clear_drive_the_output_latch() {
    let mut gpio = Gpio::default();
    let mut intc = Intc::default();
    gpio.write(0x0C, 0xFFFF_FFFF, &mut intc); // GPDR0: all outputs
    gpio.write(0x18, 0x0000_00F0, &mut intc); // GPSR0
    assert_eq!(gpio.read(0x00) & 0xFF, 0xF0);
    gpio.write(0x24, 0x0000_0050, &mut intc); // GPCR0
    assert_eq!(gpio.read(0x00) & 0xFF, 0xA0);
}

#[test]
fn bank_three_decodes_to_the_high_block() {
    assert_eq!(decode(0x118).map(|(b, r)| (b, r == Reg::SetLatch)), Some((3, true)));
    assert_eq!(decode(0x20).map(|(b, r)| (b, r == Reg::SetLatch)), Some((2, true)));
}

#[test]
fn rising_edge_latches_and_raises_the_shared_interrupt() {
    let mut gpio = Gpio::default();
    let mut intc = Intc::default();
    intc.mask[0] = 1 << IRQ_GPIO_X;
    gpio.rising[1] = 1 << 5; // GPIO 37
    gpio.set_input(37, true, &mut intc);
    assert!(intc.irq_line());
    gpio.write(0x4C, 1 << 5, &mut intc); // clear GEDR1
    assert!(!intc.irq_line());
}
