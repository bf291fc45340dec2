use vbnote::pxa270::intc::Intc;
use vbnote::pxa270::power::{ClockManager, EPOCH_IN_UNIX_TIME, Pmu, RCSR_HARDWARE, Rtc, rtc_count_for};

/// The counter is zero at the machine's own epoch, which the OAL says is
/// 1980 and not the 2010 the machine announces when it has no clock.
#[test]
fn the_epoch_itself_is_zero() {
    assert_eq!(rtc_count_for(1980, 1, 1, 0, 0, 0), 0);
}

#[test]
fn a_day_and_a_year_are_the_right_length() {
    assert_eq!(rtc_count_for(1980, 1, 2, 0, 0, 0), 86_400);
    assert_eq!(rtc_count_for(1981, 1, 1, 0, 0, 0), 366 * 86_400, "1980 was a leap year");
    assert_eq!(rtc_count_for(1980, 1, 1, 1, 2, 3), 3_600 + 120 + 3);
}

/// The two epochs differ by a whole number of days, which is exactly why
/// using the wrong one produced a convincing time and a date thirty years
/// out. Pinned so that mistake cannot come back quietly.
#[test]
fn the_date_the_machine_offers_when_it_has_no_clock_is_not_the_epoch() {
    let announced = rtc_count_for(2010, 1, 1, 0, 0, 0);
    assert_ne!(announced, 0);
    assert_eq!(announced % 86_400, 0, "a whole number of days apart");
    assert_eq!(announced / 86_400, 10_958, "thirty years, eight of them leap");
}

/// 2012 is a leap year and 2100 is not, which is the case a naive
/// every-fourth-year rule gets wrong.
#[test]
fn leap_years_are_counted_properly() {
    let day = 86_400;
    assert_eq!(
        rtc_count_for(2013, 1, 1, 0, 0, 0) - rtc_count_for(2012, 1, 1, 0, 0, 0),
        366 * day
    );
    assert_eq!(
        rtc_count_for(2101, 1, 1, 0, 0, 0) - rtc_count_for(2100, 1, 1, 0, 0, 0),
        365 * day
    );
}

/// It agrees with Unix time, which is the other clock in the room.
#[test]
fn it_agrees_with_unix_time() {
    let unix_2020 = 1_577_836_800u64; // 2020-01-01T00:00:00Z
    assert_eq!(
        rtc_count_for(2020, 1, 1, 0, 0, 0) as u64,
        unix_2020 - EPOCH_IN_UNIX_TIME
    );
}

/// A date the machine cannot represent clamps rather than wrapping round
/// to a confident and completely wrong answer.
#[test]
fn dates_before_the_epoch_clamp_to_it() {
    assert_eq!(rtc_count_for(1979, 12, 31, 23, 59, 59), 0);
}

/// The day of the week has to come out right too, because the OAL derives
/// it from the same count: `(days + 2) mod 7`, Sunday being zero. A
/// Thursday that reads as a Wednesday means the epoch is a day out.
#[test]
fn the_day_of_the_week_follows_from_the_count() {
    let dow = |y, m, d| (rtc_count_for(y, m, d, 0, 0, 0) / 86_400 + 2) % 7;
    assert_eq!(dow(1980, 1, 1), 2, "a Tuesday");
    assert_eq!(dow(2010, 1, 1), 5, "a Friday");
    assert_eq!(dow(2000, 2, 29), 2, "a Tuesday, and a leap day");
}

/// Setting the clock is what a backup cell does for a real one.
#[test]
fn the_count_can_be_set() {
    let mut rtc = Rtc::new(1000);
    assert_eq!(rtc.rcnr, 0);
    rtc.set_count(rtc_count_for(2026, 8, 10, 14, 30, 0));
    assert_ne!(rtc.rcnr, 0);
    let count = rtc.rcnr;
    assert_eq!(rtc.read(0x00), count, "and the guest can read it back");
}

#[test]
fn oscillator_reports_ready_once_requested() {
    let mut c = ClockManager::default();
    assert_eq!(c.read(0x08) & 1, 0);
    c.write(0x08, 0x2);
    assert_eq!(c.read(0x08) & 1, 1, "firmware spins on OOK");
}

#[test]
fn rcsr_reports_cold_boot_and_clears_on_write() {
    let mut p = Pmu::default();
    assert_eq!(p.read(0x30), RCSR_HARDWARE);
    p.write(0x30, RCSR_HARDWARE);
    assert_eq!(p.read(0x30), 0);
}

#[test]
fn rtc_counts_seconds() {
    let mut rtc = Rtc::new(1000);
    let mut intc = Intc::default();
    for _ in 0..3 {
        rtc.tick(1000, &mut intc);
    }
    assert_eq!(rtc.rcnr, 3);
}
