use vbnote::pxa270::intc::Intc;
use vbnote::pxa270::mmc::{INT_END_CMD_RES, INT_TXFIFO_REQ, Mmc, STAT_CLK_EN, STAT_END_CMD_RES, STAT_TIME_OUT_RESPONSE, STAT_XMIT_FIFO_EMPTY, STRPCL_START_CLOCK, STRPCL_STOP_CLOCK};
use vbnote::pxa270::sdcard::SdCard;

#[test]
fn a_command_with_no_card_times_out_rather_than_hanging() {
    let mut m = Mmc::default();
    let mut intc = Intc::default();
    m.write(0x00, STRPCL_START_CLOCK, &mut intc);
    m.write(0x30, 1, &mut intc); // CMD1
    m.write(0x10, 1, &mut intc); // CMDAT last: expecting a short response
    let stat = m.read(0x04, &mut intc);
    assert_ne!(stat & STAT_END_CMD_RES, 0, "command must complete");
    assert_ne!(stat & STAT_TIME_OUT_RESPONSE, 0, "and report no response");
}

/// The command is issued by writing CMDAT, not by starting the clock.
/// The guest stages CMD, ARGH and ARGL and writes CMDAT last, and once
/// the clock is running it never touches STRPCL again.
/// CMD carries flags above the command index, so only its bottom six
/// bits name the command. Dispatching on the whole register turns CMD55
/// into 119 and the card stops recognising APP_CMD.
#[test]
fn only_the_bottom_six_bits_of_cmd_name_the_command() {
    let mut m = Mmc { card: Some(SdCard::new(1 << 20)), ..Default::default() };
    let mut intc = Intc::default();
    m.write(0x00, STRPCL_START_CLOCK, &mut intc);
    m.write(0x30, 0x177, &mut intc); // CMD55 with flags above it
    m.write(0x10, 1, &mut intc);
    let first = m.read(0x3C, &mut intc);
    assert_eq!(first >> 8, 55, "the card answered APP_CMD");
}

#[test]
fn writing_cmdat_is_what_issues_the_command() {
    let mut m = Mmc { card: Some(SdCard::new(1 << 20)), ..Default::default() };
    let mut intc = Intc::default();
    m.write(0x00, STRPCL_START_CLOCK, &mut intc);
    m.write(0x30, 1, &mut intc); // CMD1, SEND_OP_COND
    m.write(0x34, 0x0002, &mut intc);
    m.write(0x38, 0x0000, &mut intc);
    assert_eq!(m.read(0x3C, &mut intc), 0, "nothing has been issued yet");
    m.write(0x10, 3, &mut intc); // CMDAT last
    assert_ne!(m.read(0x3C, &mut intc), 0, "and now the card has answered");
}

/// GO_IDLE_STATE asks for no response, so getting none is not a
/// timeout. Reporting one tells the driver the slot is empty.
#[test]
fn a_command_that_expects_no_response_does_not_time_out() {
    let mut m = Mmc { card: Some(SdCard::new(1 << 20)), ..Default::default() };
    let mut intc = Intc::default();
    m.write(0x00, STRPCL_START_CLOCK, &mut intc);
    m.write(0x30, 0, &mut intc); // CMD0
    m.write(0x10, 0, &mut intc); // CMDAT last: no response expected
    assert_eq!(m.read(0x04, &mut intc) & STAT_TIME_OUT_RESPONSE, 0);
}

#[test]
fn interrupt_register_clears_on_read() {
    let mut m = Mmc::default();
    let mut intc = Intc::default();
    m.write(0x28, !INT_END_CMD_RES, &mut intc);
    m.write(0x00, STRPCL_START_CLOCK, &mut intc);
    m.write(0x10, 0, &mut intc); // CMDAT issues the command
    assert!(intc.irq_line() || m.i_reg & INT_END_CMD_RES != 0);
    assert_ne!(m.read(0x2C, &mut intc) & INT_END_CMD_RES, 0);
    assert_eq!(m.read(0x2C, &mut intc), 0);
}

#[test]
fn clock_enable_is_reported() {
    let mut m = Mmc::default();
    let mut intc = Intc::default();
    assert_eq!(m.read(0x04, &mut intc) & STAT_CLK_EN, 0);
    m.write(0x00, STRPCL_START_CLOCK, &mut intc);
    assert_ne!(m.read(0x04, &mut intc) & STAT_CLK_EN, 0);
    m.write(0x00, STRPCL_STOP_CLOCK, &mut intc);
    assert_eq!(m.read(0x04, &mut intc) & STAT_CLK_EN, 0);
}

/// With a card fitted the host must get a response rather than a
/// timeout, or it will decide the slot is empty and stop asking.
#[test]
fn a_command_to_a_fitted_card_is_answered() {
    let mut m = Mmc { card: Some(SdCard::new(1 << 20)), ..Default::default() };
    let mut intc = Intc::default();
    m.write(0x00, STRPCL_START_CLOCK, &mut intc);
    m.write(0x30, 8, &mut intc); // CMD8, SEND_IF_COND
    m.write(0x34, 0, &mut intc);
    m.write(0x38, 0x1AA, &mut intc);
    m.write(0x10, 1, &mut intc); // CMDAT last
    let stat = m.read(0x04, &mut intc);
    assert_eq!(stat & STAT_TIME_OUT_RESPONSE, 0, "a fitted card answers");
    let first = m.read(0x3C, &mut intc);
    assert_eq!(first & 0xFF00, 0x0800, "the response leads with the command index");
}

#[test]
fn transmit_fifo_always_reports_room() {
    let mut m = Mmc::default();
    let mut intc = Intc::default();
    assert_ne!(m.read(0x04, &mut intc) & STAT_XMIT_FIFO_EMPTY, 0);
    let _ = INT_TXFIFO_REQ;
}
