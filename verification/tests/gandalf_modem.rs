use vbnote::gandalf::cpld::{BRAILLE_REG, KEYBOARD_REG};
use vbnote::gandalf::modem::{IIR_FIFOS_ENABLED, IIR_NONE, IIR_RECEIVED_DATA, IIR_TRANSMITTER_EMPTY, LCR_DLAB, LSR_DATA_READY, LSR_THR_EMPTY, LSR_TRANSMITTER_IDLE, MSR_CARRIER_DETECT, MSR_CTS, MSR_DSR, Modem, REG_DATA, REG_IER, REG_IIR, REG_LCR, REG_LSR, REG_MCR, REG_MSR, REG_SCRATCH};

/// Set the part up the way the measured driver does, so the tests are
/// about the same machine the firmware met.
fn as_the_driver_opens_it(m: &mut Modem) {
    m.write(REG_LCR * 2, 0x03); // 8N1
    m.write(REG_IIR * 2, 0x83); // FIFOs on, trigger at 14
    m.write(REG_MCR * 2, 0x0b); // DTR, RTS, OUT2
    m.write(REG_IER * 2, 0x0f); // every source enabled
}

fn send(m: &mut Modem, text: &str) {
    for b in text.bytes() {
        m.write(REG_DATA * 2, b as u16);
    }
}

fn read_reply(m: &mut Modem) -> String {
    let mut out = String::new();
    while m.read(REG_LSR * 2) & LSR_DATA_READY != 0 {
        out.push(m.read(REG_DATA * 2) as u8 as char);
    }
    out
}

/// A driver will not transmit until the line status says the transmitter
/// is free. Saying so always is what makes it possible to talk at all.
#[test]
fn the_transmitter_is_always_ready() {
    let mut m = Modem::default();
    let s = m.read(REG_LSR * 2);
    assert_ne!(s & LSR_THR_EMPTY, 0);
    assert_ne!(s & LSR_TRANSMITTER_IDLE, 0);
    assert_eq!(s & LSR_DATA_READY, 0, "and nothing to read yet");
}

#[test]
fn an_at_command_is_answered_with_ok() {
    let mut m = Modem::default();
    send(&mut m, "ATZ\r");
    assert_eq!(read_reply(&mut m), "\r\nOK\r\n");
    assert_eq!(m.commands, 1);
}

/// The country setting is the command this was built for: it is what
/// KeySoft asks about during its first-run setup.
#[test]
fn the_country_command_is_answered() {
    let mut m = Modem::default();
    send(&mut m, "AT+GCI=B5\r");
    assert_eq!(read_reply(&mut m), "\r\nOK\r\n");
}

/// Asking who it is talking to should get a name rather than `OK`.
#[test]
fn asking_what_it_is_gets_an_identity() {
    let mut m = Modem::default();
    send(&mut m, "ATI3\r");
    assert!(read_reply(&mut m).contains("TL16C"));
}

/// The divisor latch swaps the first two registers, and a driver that
/// writes a baud rate and reads it back has to get the same number.
#[test]
fn the_baud_divisor_reads_back_as_written() {
    let mut m = Modem::default();
    m.write(REG_LCR * 2, LCR_DLAB);
    m.write(REG_DATA * 2, 0x34);
    m.write(REG_IER * 2, 0x12);
    assert_eq!(m.read(REG_DATA * 2), 0x34);
    assert_eq!(m.read(REG_IER * 2), 0x12);
    // With the latch closed the same offsets are data and the interrupt
    // enable again, not the divisor.
    m.write(REG_LCR * 2, 0);
    m.write(REG_IER * 2, 0x0F);
    assert_eq!(m.read(REG_IER * 2), 0x0F);
    assert_eq!(m.read(REG_DATA * 2), 0, "no data waiting");
}

/// The scratch register is a driver's usual way of asking whether a
/// 16550 is there at all: write a byte, read it back.
#[test]
fn the_scratch_register_holds_what_it_is_given() {
    let mut m = Modem::default();
    m.write(REG_SCRATCH * 2, 0xA5);
    assert_eq!(m.read(REG_SCRATCH * 2), 0xA5);
}

/// The modem reports itself plugged in and ready. A driver that sees no
/// CTS will not send.
#[test]
fn the_line_looks_connected() {
    let mut m = Modem::default();
    let s = m.read(REG_MSR * 2);
    for bit in [MSR_CTS, MSR_DSR, MSR_CARRIER_DETECT] {
        assert_ne!(s & bit, 0);
    }
}

/// The hang this was written for: the driver enables the transmit
/// interrupt and waits to be told the line is free, rather than polling.
/// A part that never interrupts leaves it waiting after one byte.
#[test]
fn enabling_the_transmit_interrupt_interrupts() {
    let mut m = Modem::default();
    assert!(!m.interrupting(), "quiet until it is asked to speak");
    as_the_driver_opens_it(&mut m);
    assert!(m.interrupting(), "the transmitter is empty and that is news");
    assert_eq!(m.read(REG_IIR * 2) & 0x0f, IIR_TRANSMITTER_EMPTY);
}

/// Reading which interrupt it was is the acknowledgement. Without it the
/// driver would be interrupted for ever and get nothing else done.
#[test]
fn reading_why_it_interrupted_stops_it() {
    let mut m = Modem::default();
    as_the_driver_opens_it(&mut m);
    m.read(REG_IIR * 2);
    assert!(!m.interrupting());
    assert_eq!(m.read(REG_IIR * 2) & 0x0f, IIR_NONE);
}

/// And every byte handed over drains again, which is what carries a whole
/// command out one interrupt at a time.
#[test]
fn each_byte_sent_asks_for_the_next() {
    let mut m = Modem::default();
    as_the_driver_opens_it(&mut m);
    m.read(REG_IIR * 2);
    for byte in b"AT" {
        m.write(REG_DATA * 2, *byte as u16);
        assert!(m.interrupting(), "wants the next byte");
        assert_eq!(m.read(REG_IIR * 2) & 0x0f, IIR_TRANSMITTER_EMPTY);
    }
    assert_eq!(m.tx, b"AT");
}

/// An answer waiting to be read interrupts too, and outranks the
/// transmitter: a driver told only that it may send would never collect
/// the `OK`.
#[test]
fn an_answer_waiting_interrupts_first() {
    let mut m = Modem::default();
    as_the_driver_opens_it(&mut m);
    send(&mut m, "ATZ\r");
    assert_eq!(m.read(REG_IIR * 2) & 0x0f, IIR_RECEIVED_DATA);
    assert_eq!(read_reply(&mut m), "\r\nOK\r\n");
    // Drained, so it falls back to the transmitter having room.
    assert_eq!(m.read(REG_IIR * 2) & 0x0f, IIR_TRANSMITTER_EMPTY);
}

/// A driver that has enabled nothing is not interrupted, whatever the
/// part has to say.
#[test]
fn nothing_enabled_means_nothing_reported() {
    let mut m = Modem::default();
    m.feed(b"RING\r\n");
    assert!(!m.interrupting());
    assert_eq!(m.read(REG_IIR * 2) & 0x0f, IIR_NONE);
}

/// Turning the FIFOs on shows up in `IIR`'s top bits, which is how a
/// driver tells this part from a 16450 that has none.
#[test]
fn the_fifos_report_themselves() {
    let mut m = Modem::default();
    assert_eq!(m.read(REG_IIR * 2) & IIR_FIFOS_ENABLED, 0);
    m.write(REG_IIR * 2, 0x83);
    assert_eq!(m.read(REG_IIR * 2) & IIR_FIFOS_ENABLED, IIR_FIFOS_ENABLED);
}

/// Only the eight registers belong to it; the keyboard and the braille
/// display live further up the same window and must not be swallowed.
#[test]
fn it_claims_only_its_own_registers() {
    assert!(Modem::owns(0));
    assert!(Modem::owns(0x0e));
    assert!(!Modem::owns(0x10));
    assert!(!Modem::owns(BRAILLE_REG));
    assert!(!Modem::owns(KEYBOARD_REG));
}
