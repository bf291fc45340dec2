use vbnote::pxa270::intc::{ICHP_IDLE, ICHP_VAL_FIQ, ICHP_VAL_IRQ, IPR_VALID, IRQ_FFUART, IRQ_OST0, Intc};

#[test]
fn ichp_reports_nothing_when_idle() {
    let intc = Intc::default();
    assert_eq!(intc.ichp(), ICHP_IDLE, "both source ids invalid");
}

#[test]
fn ichp_names_the_pending_source() {
    let mut intc = Intc::default();
    intc.mask[0] = 1 << IRQ_OST0;
    intc.set(IRQ_OST0, true);
    let ichp = intc.ichp();
    assert_ne!(ichp & ICHP_VAL_IRQ, 0, "an IRQ is pending");
    assert_eq!((ichp >> 16) & 0x7FFF, IRQ_OST0, "and it is the OS timer");
}

#[test]
fn a_masked_source_is_not_reported() {
    let mut intc = Intc::default();
    intc.set(IRQ_OST0, true);
    assert_eq!(intc.ichp(), ICHP_IDLE, "masked sources stay invisible");
}

#[test]
fn fiq_routing_uses_the_low_half() {
    let mut intc = Intc::default();
    intc.mask[0] = 1 << IRQ_FFUART;
    intc.level[0] = 1 << IRQ_FFUART;
    intc.set(IRQ_FFUART, true);
    let ichp = intc.ichp();
    assert_eq!(ichp & ICHP_VAL_IRQ, 0, "not an IRQ");
    assert_ne!(ichp & ICHP_VAL_FIQ, 0, "an FIQ");
    assert_eq!(ichp & 0x7FFF, IRQ_FFUART);
}

#[test]
fn a_programmed_priority_table_decides_the_order() {
    let mut intc = Intc::default();
    intc.mask[0] = (1 << IRQ_OST0) | (1 << IRQ_FFUART);
    intc.set(IRQ_OST0, true);
    intc.set(IRQ_FFUART, true);
    // Without a table, the lowest source number wins.
    assert_eq!((intc.ichp() >> 16) & 0x7FFF, IRQ_FFUART);
    // Programme the timer as top priority and it takes over.
    intc.write(0x1C, IPR_VALID | IRQ_OST0);
    assert_eq!((intc.ichp() >> 16) & 0x7FFF, IRQ_OST0);
}

#[test]
fn priority_registers_map_across_both_blocks() {
    assert_eq!(Intc::priority_index(0x1C), Some(0));
    assert_eq!(Intc::priority_index(0x98), Some(31));
    assert_eq!(Intc::priority_index(0xB0), Some(32));
    assert_eq!(Intc::priority_index(0xCC), Some(39));
    // The second bank's control registers must not be mistaken for IPRs.
    assert_eq!(Intc::priority_index(0xA0), None);
    assert_eq!(Intc::priority_index(0xAC), None);
}

#[test]
fn ichp_is_read_only() {
    let mut intc = Intc::default();
    intc.mask[0] = 1 << IRQ_OST0;
    intc.set(IRQ_OST0, true);
    intc.write(0x18, 0);
    assert_ne!(intc.ichp() & ICHP_VAL_IRQ, 0);
}
