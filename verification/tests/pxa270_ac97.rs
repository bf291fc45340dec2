use vbnote::pxa270::ac97::{Ac97, CODEC_EXT_AUDIO_CTRL, CODEC_PCM_DAC_RATE, CODEC_PC_BEEP, CODEC_POWERDOWN, CODEC_WINDOW, GCR_COLD_RST, GSR_CDONE, GSR_PCR, LINK_RATE, PRIMARY_CODEC, codec_index, codec_reg};
use vbnote::pxa270::intc::Intc;

#[test]
fn codec_reports_ready_after_cold_reset() {
    let mut a = Ac97::default();
    let mut intc = Intc::default();
    assert_eq!(a.read(0x1C, &mut intc) & GSR_PCR, 0);
    a.write(0x0C, GCR_COLD_RST, &mut intc);
    assert_eq!(a.read(0x1C, &mut intc) & GSR_PCR, GSR_PCR, "firmware polls for this");
}

#[test]
fn primary_codec_ready_survives_status_clears() {
    let mut a = Ac97::default();
    let mut intc = Intc::default();
    a.write(0x0C, GCR_COLD_RST, &mut intc);
    // Firmware clears CDONE by writing it back; PCR must not be lost.
    a.write(0x1C, 0xFFFF_FFFF, &mut intc);
    assert_eq!(a.read(0x1C, &mut intc) & GSR_PCR, GSR_PCR);
}

#[test]
fn codec_register_write_signals_command_done() {
    let mut a = Ac97::default();
    let mut intc = Intc::default();
    a.write(PRIMARY_CODEC + CODEC_PC_BEEP * 2, 0x0800, &mut intc);
    assert_eq!(a.read(0x1C, &mut intc) & GSR_CDONE, GSR_CDONE);
    assert_eq!(a.beep_register(), 0x0800);
}

#[test]
fn powerdown_status_bits_stay_ready() {
    let mut a = Ac97::default();
    let mut intc = Intc::default();
    a.write(PRIMARY_CODEC + CODEC_POWERDOWN * 2, 0x0000, &mut intc);
    assert_eq!(a.read(PRIMARY_CODEC + CODEC_POWERDOWN * 2, &mut intc) & 0xF, 0xF);
}

#[test]
fn codec_registers_are_two_bytes_apart_in_the_controller_map() {
    // AC'97 register 0x2C is the PCM front DAC rate, and the driver
    // writes 44100 to it. It must appear at controller offset 0x58.
    let mut a = Ac97::default();
    let mut intc = Intc::default();
    a.write(PRIMARY_CODEC + 0x58, 0xAC44, &mut intc);
    assert_eq!(a.read(PRIMARY_CODEC + 0x58, &mut intc), 0xAC44);
    assert_eq!(codec_reg(PRIMARY_CODEC + 0x58), 0x2C);
    // And the whole 64-register file fits the 256-byte window.
    assert_eq!(codec_reg(PRIMARY_CODEC + CODEC_WINDOW - 4), 0x7E);
    assert_eq!(codec_index(0x7E), 63);
}

#[test]
fn the_dac_rate_register_sets_the_pcm_rate() {
    let mut a = Ac97::default();
    let mut intc = Intc::default();
    // Without variable-rate audio the link rate stands.
    assert_eq!(a.pcm_rate(), LINK_RATE);
    // The driver enables VRA and asks for 44100.
    a.write(PRIMARY_CODEC + CODEC_EXT_AUDIO_CTRL * 2, 0x0001, &mut intc);
    a.write(PRIMARY_CODEC + CODEC_PCM_DAC_RATE * 2, 44_100, &mut intc);
    assert_eq!(a.pcm_rate(), 44_100);
    // A nonsense rate falls back rather than dividing by something silly.
    a.write(PRIMARY_CODEC + CODEC_PCM_DAC_RATE * 2, 0, &mut intc);
    assert_eq!(a.pcm_rate(), LINK_RATE);
}

#[test]
fn credit_accrues_at_the_codec_rate() {
    let mut a = Ac97::default();
    let mut intc = Intc::default();
    a.write(PRIMARY_CODEC + CODEC_EXT_AUDIO_CTRL * 2, 0x0001, &mut intc);
    a.write(PRIMARY_CODEC + CODEC_PCM_DAC_RATE * 2, 44_100, &mut intc);
    let cpu_hz = 1_200_000_000u64;
    // Ten milliseconds should buy about 441 frames, not 480.
    a.tick((cpu_hz / 100) as u32, cpu_hz);
    let got = a.take_credit(100_000);
    assert!((430..=450).contains(&got), "got {got} frames, expected about 441");
}

#[test]
fn pcm_writes_are_captured_for_playback() {
    let mut a = Ac97::default();
    let mut intc = Intc::default();
    a.write(0x40, 0x1234_5678, &mut intc);
    assert_eq!(a.drain_pcm(), vec![0x1234_5678]);
}
