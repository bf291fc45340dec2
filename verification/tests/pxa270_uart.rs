use vbnote::pxa270::intc::Intc;
use vbnote::pxa270::uart::{IER_RAVIE, IER_UUE, LSR_DR, Uart};

#[test]
fn transmitted_bytes_are_captured() {
    let mut u = Uart::new(22);
    let mut intc = Intc::default();
    for b in b"OK\r\n" {
        u.write(0x00, *b as u32, &mut intc);
    }
    assert_eq!(u.drain_tx(), b"OK\r\n");
}

#[test]
fn divisor_latch_switches_the_first_two_registers() {
    let mut u = Uart::new(22);
    let mut intc = Intc::default();
    u.write(0x0C, 0x83, &mut intc); // LCR: DLAB + 8N1
    u.write(0x00, 0x18, &mut intc);
    u.write(0x04, 0x00, &mut intc);
    assert_eq!(u.divisor, 0x18); // 96 -> 9600 baud at 14.7456 MHz
    u.write(0x0C, 0x03, &mut intc); // clear DLAB
    u.write(0x00, b'A' as u32, &mut intc);
    assert_eq!(u.drain_tx(), b"A");
}

#[test]
fn receive_sets_data_ready_and_interrupts_when_enabled() {
    let mut u = Uart::new(22);
    let mut intc = Intc::default();
    intc.mask[0] = 1 << 22;
    u.write(0x04, IER_UUE | IER_RAVIE, &mut intc);
    assert!(!intc.irq_line());
    u.feed(b'x', &mut intc);
    assert!(u.read(0x14, &mut intc) & LSR_DR != 0);
    assert!(intc.irq_line());
    assert_eq!(u.read(0x00, &mut intc), b'x' as u32);
    assert!(!intc.irq_line());
}
