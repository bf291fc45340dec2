use vbnote::gandalf::{Gandalf, SDRAM_BASE, kernel_va_to_pa};

#[test]
fn kernel_addresses_map_to_physical() {
    assert_eq!(kernel_va_to_pa(0x96C7_9000), Some(0xA007_9000));
    assert_eq!(kernel_va_to_pa(0x8004_1000), Some(0x0004_1000));
    assert_eq!(kernel_va_to_pa(0xA000_0000), Some(0xA000_0000));
    assert_eq!(kernel_va_to_pa(0xC000_0000), None);
}

#[test]
fn sdram_round_trips() {
    let mut b = Gandalf::new();
    b.write32(SDRAM_BASE + 0x1000, 0xDEAD_BEEF);
    assert_eq!(b.read32(SDRAM_BASE + 0x1000), 0xDEAD_BEEF);
    assert_eq!(b.read8(SDRAM_BASE + 0x1000), 0xEF);
    assert_eq!(b.read16(SDRAM_BASE + 0x1002), 0xDEAD);
}

#[test]
fn erased_flash_reads_as_ones() {
    let mut b = Gandalf::new();
    assert_eq!(b.read32(0x1000), 0xFFFF_FFFF);
}

#[test]
fn flash_answers_a_cfi_query_through_the_bus() {
    let mut b = Gandalf::new();
    b.write32(0, 0x0098_0098);
    assert_eq!(b.read32(0x10 * 4), 0x0051_0051);
    b.write32(0, 0x00FF_00FF);
}

#[test]
fn uart_writes_reach_the_soc() {
    let mut b = Gandalf::new();
    b.write32(vbnote::pxa270::uart::FFUART, b'Z' as u32);
    assert_eq!(b.soc.ffuart.drain_tx(), b"Z");
}
