use vbnote::pxa270::dma::{Channel, DCMD_ENDIRQEN, DCSR_ENDINTR, DCSR_RUN, DCSR_STOPSTATE, Dma};
use vbnote::pxa270::intc::{IRQ_DMA, Intc};

fn dcsr_off(ch: usize) -> u32 {
    (ch * 4) as u32
}
fn desc_off(ch: usize, field: u32) -> u32 {
    0x200 + (ch as u32) * 16 + field
}

#[test]
fn starting_a_channel_clears_its_stop_state() {
    let mut d = Dma::default();
    let mut intc = Intc::default();
    assert!(d.next_runnable().is_none());
    d.write(dcsr_off(1), DCSR_RUN, &mut intc);
    assert_eq!(d.next_runnable(), Some(1));
    assert_eq!(d.read(dcsr_off(1)) & DCSR_STOPSTATE, 0);
}

#[test]
fn descriptor_registers_round_trip_per_channel() {
    let mut d = Dma::default();
    let mut intc = Intc::default();
    d.write(desc_off(3, 0), 0xA000_1000, &mut intc);
    d.write(desc_off(3, 4), 0xA000_2000, &mut intc);
    d.write(desc_off(3, 8), 0x4050_0040, &mut intc);
    d.write(desc_off(3, 12), DCMD_ENDIRQEN | 0x40, &mut intc);
    assert_eq!(d.read(desc_off(3, 0)), 0xA000_1000);
    assert_eq!(d.read(desc_off(3, 4)), 0xA000_2000);
    assert_eq!(d.read(desc_off(3, 8)), 0x4050_0040);
    assert_eq!(d.channels[3].length(), 0x40);
    // A different channel is untouched.
    assert_eq!(d.read(desc_off(4, 0)), 0);
}

#[test]
fn completion_raises_the_dma_interrupt_and_the_guest_clears_it() {
    let mut d = Dma::default();
    let mut intc = Intc::default();
    intc.mask[0] = 1 << IRQ_DMA;
    d.write(desc_off(2, 12), DCMD_ENDIRQEN | 0x20, &mut intc);
    d.write(dcsr_off(2), DCSR_RUN, &mut intc);
    assert!(!intc.irq_line());

    d.complete(2, true, &mut intc);
    assert_ne!(d.dint() & (1 << 2), 0, "DINT names the channel");
    assert!(intc.irq_line());

    d.write(dcsr_off(2), DCSR_ENDINTR, &mut intc);
    assert!(!intc.irq_line(), "write-one-to-clear releases it");
    assert_eq!(d.dint(), 0);
}

#[test]
fn a_stopping_descriptor_takes_the_channel_out_of_run() {
    let mut d = Dma::default();
    let mut intc = Intc::default();
    d.write(dcsr_off(0), DCSR_RUN, &mut intc);
    d.complete(0, true, &mut intc);
    assert_eq!(d.read(dcsr_off(0)) & DCSR_RUN, 0);
    assert_ne!(d.read(dcsr_off(0)) & DCSR_STOPSTATE, 0);
    assert!(d.next_runnable().is_none());
}

#[test]
fn transfer_width_decodes_from_dcmd() {
    let mut c = Channel { dcmd: 1 << 14, ..Default::default() };
    assert_eq!(c.width(), 1);
    c.dcmd = 2 << 14;
    assert_eq!(c.width(), 2);
    c.dcmd = 3 << 14;
    assert_eq!(c.width(), 4);
}

#[test]
fn request_map_registers_are_independent() {
    let mut d = Dma::default();
    let mut intc = Intc::default();
    // DRCMR12 is the AC97 PCM-out request on this SoC.
    d.write(0x100 + 12 * 4, 0x80 | 1, &mut intc);
    assert_eq!(d.read(0x100 + 12 * 4), 0x81);
    assert_eq!(d.read(0x100 + 13 * 4), 0);
}
