use vbnote::pxa270::intc::{IRQ_OST0, Intc};
use vbnote::pxa270::ost::{OST_HZ, Ost, crossed};

#[test]
fn counter_advances_at_the_timer_rate() {
    let cpu_hz = 520_000_000u64;
    let mut ost = Ost::new(cpu_hz);
    let mut intc = Intc::default();
    // One second of CPU cycles, fed in realistic slices.
    let slice = 1000u32;
    for _ in 0..(cpu_hz / slice as u64) {
        ost.tick(slice, &mut intc);
    }
    let drift = (ost.oscr as i64 - OST_HZ as i64).abs();
    assert!(drift < 10, "OSCR was {} after a second", ost.oscr);
}

#[test]
fn match_raises_and_clears_its_interrupt() {
    // A CPU clock equal to the timer's gives one OSCR tick per cycle,
    // whatever the timer's rate is.
    let mut ost = Ost::new(OST_HZ);
    let mut intc = Intc::default();
    ost.write(0x00, 100, &mut intc); // OSMR0
    ost.write(0x1C, 1, &mut intc); // OIER channel 0
    intc.mask[0] = 1 << IRQ_OST0;

    ost.tick(50, &mut intc);
    assert!(!intc.irq_line());
    ost.tick(60, &mut intc);
    assert!(intc.irq_line(), "match should have fired");

    ost.write(0x14, 1, &mut intc); // clear OSSR bit 0
    assert!(!intc.irq_line());
}

/// The rate is the PXA27x's, not the PXA25x's, and this pins it.
///
/// Three sources agree: the PXA27x manual gives a 308 ns period, QEMU's
/// `pxa27x-timer` defaults to 3,250,000 where its `pxa25x-timer` defaults
/// to 3,686,400, and this machine's own `sdmmc.dll` multiplies a
/// millisecond by 3250 before spinning on OSCR. The older rate is 13.4%
/// fast, which shortens every driver delay and gains the guest time.
#[test]
fn the_rate_is_the_pxa27x_one() {
    assert_eq!(OST_HZ, 3_250_000, "3.6864 MHz is the PXA25x");
    assert_eq!(1_000_000_000 / OST_HZ, 307, "308 ns a tick, near enough");
}

#[test]
fn crossing_handles_wraparound() {
    assert!(crossed(0xFFFF_FFF0, 0x0000_0010, 0));
    assert!(crossed(0xFFFF_FFF0, 0x0000_0010, 0xFFFF_FFFF));
    assert!(!crossed(0xFFFF_FFF0, 0x0000_0010, 0x8000_0000));
}
