use vbnote::gandalf::dma::service;
use vbnote::gandalf::{CPU_HZ_EFFECTIVE, Gandalf, SDRAM_BASE};
use vbnote::pxa270::dma::{DCMD_ENDIRQEN, DCMD_INCSRCADDR, DCMD_INCTRGADDR, DCSR_ENDINTR, DCSR_RUN, DDADR_STOP};
use vbnote::pxa270::intc::IRQ_DMA;

const SDRAM: u32 = SDRAM_BASE;

/// Build a descriptor in SDRAM and point channel `ch` at it.
fn arm_channel(board: &mut Gandalf, ch: usize, desc: u32, next: u32, src: u32, dst: u32, cmd: u32) {
    board.write32(desc, next);
    board.write32(desc + 4, src);
    board.write32(desc + 8, dst);
    board.write32(desc + 12, cmd);
    let mut intc = std::mem::take(&mut board.soc.intc);
    board.soc.dma.write(0x200 + (ch as u32) * 16, desc, &mut intc);
    board.soc.dma.write((ch * 4) as u32, DCSR_RUN, &mut intc);
    board.soc.intc = intc;
}

#[test]
fn feeding_the_codec_is_paced_by_its_sample_rate() {
    let mut board = Gandalf::new();
    let (desc, src) = (SDRAM + 0x1000, SDRAM + 0x2000);
    let pcdr = vbnote::pxa270::ac97::BASE + 0x40;
    // A large transfer with no credit available makes no progress.
    arm_channel(&mut board, 3, desc, DDADR_STOP, src, pcdr,
        DCMD_INCSRCADDR | (3 << 14) | 0x1000);
    assert!(!service(&mut board), "no credit, no transfer");

    // Two milliseconds of guest time buys about a hundred frames, far
    // short of the 1024 this descriptor wants.
    board.soc.ac97.tick((CPU_HZ_EFFECTIVE / 500) as u32, CPU_HZ_EFFECTIVE);
    assert!(service(&mut board));
    let after = board.soc.dma.channels[3].length();
    assert!(after > 0, "a paced descriptor resumes rather than completing");
    assert!(board.soc.dma.bytes_moved > 0, "but it does make progress");
}

#[test]
fn a_descriptor_moves_memory_to_memory() {
    let mut board = Gandalf::new();
    let (desc, src, dst) = (SDRAM + 0x1000, SDRAM + 0x2000, SDRAM + 0x3000);
    for i in 0..8u32 {
        board.write32(src + i * 4, 0x1000 + i);
    }
    // Increment both ends, 4-byte width, 32 bytes, stop after one.
    arm_channel(&mut board, 1, desc, DDADR_STOP, src, dst,
        DCMD_INCSRCADDR | DCMD_INCTRGADDR | (3 << 14) | DCMD_ENDIRQEN | 32);

    assert!(service(&mut board));
    for i in 0..8u32 {
        assert_eq!(board.read32(dst + i * 4), 0x1000 + i, "word {i}");
    }
    assert_eq!(board.soc.dma.bytes_moved, 32);
}

#[test]
fn a_completed_chain_stops_and_interrupts() {
    let mut board = Gandalf::new();
    board.soc.intc.mask[0] = 1 << IRQ_DMA;
    let (desc, src, dst) = (SDRAM + 0x1000, SDRAM + 0x2000, SDRAM + 0x3000);
    arm_channel(&mut board, 2, desc, DDADR_STOP, src, dst,
        DCMD_INCSRCADDR | DCMD_INCTRGADDR | (3 << 14) | DCMD_ENDIRQEN | 16);

    assert!(service(&mut board));
    assert!(board.soc.intc.irq_line(), "completion raises the DMA interrupt");
    assert_ne!(board.soc.dma.read(2 * 4) & DCSR_ENDINTR, 0);
    assert!(!service(&mut board), "a stopped channel has no more work");
}

#[test]
fn a_chain_of_two_descriptors_runs_both() {
    let mut board = Gandalf::new();
    let (d0, d1) = (SDRAM + 0x1000, SDRAM + 0x1010);
    let (src, dst) = (SDRAM + 0x2000, SDRAM + 0x3000);
    board.write32(src, 0xAAAA_AAAA);
    board.write32(src + 4, 0xBBBB_BBBB);
    // First descriptor points at the second; the second stops.
    board.write32(d1, DDADR_STOP);
    board.write32(d1 + 4, src + 4);
    board.write32(d1 + 8, dst + 4);
    board.write32(d1 + 12, DCMD_INCSRCADDR | DCMD_INCTRGADDR | (3 << 14) | 4);
    arm_channel(&mut board, 0, d0, d1, src, dst,
        DCMD_INCSRCADDR | DCMD_INCTRGADDR | (3 << 14) | 4);

    assert!(service(&mut board));
    assert!(service(&mut board), "the chain continues to the second descriptor");
    assert!(!service(&mut board));
    assert_eq!(board.read32(dst), 0xAAAA_AAAA);
    assert_eq!(board.read32(dst + 4), 0xBBBB_BBBB);
}

#[test]
fn a_fixed_target_feeds_a_peripheral_fifo() {
    // This is the audio case: source increments through a buffer, target
    // stays on the AC97 PCM data register.
    let mut board = Gandalf::new();
    let (desc, src) = (SDRAM + 0x1000, SDRAM + 0x2000);
    let pcdr = vbnote::pxa270::ac97::BASE + 0x40;
    for i in 0..4u32 {
        board.write32(src + i * 4, 0x0100_0200 + i);
    }
    arm_channel(&mut board, 3, desc, DDADR_STOP, src, pcdr,
        DCMD_INCSRCADDR | (3 << 14) | DCMD_ENDIRQEN | 16);

    // The codec only accepts samples as fast as it plays them, so let
    // enough guest time pass for four frames of credit.
    board.soc.ac97.tick(1_000_000, CPU_HZ_EFFECTIVE);
    assert!(service(&mut board));
    let pcm = board.soc.ac97.drain_pcm();
    assert_eq!(pcm.len(), 4, "four words reached the codec");
    assert_eq!(pcm[0], 0x0100_0200);
    assert_eq!(pcm[3], 0x0100_0203);
}
