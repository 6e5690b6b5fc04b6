//! Times of the day, and the daily flush.
use mirror_v3::config::{AtUtcError, DailyFlush};
use mirror_v3::schedule::{
    advance_daily, schedule_fits, schedule_next_daily, schedule_next_daily_public,
};

fn d(s: &str) -> DailyFlush {
    DailyFlush { at_utc: s.into() }
}

#[test]
fn parses_hh_mm_ss() {
    assert_eq!(d("00:00:00").parse_at_utc().unwrap(), 0);
    assert_eq!(d("00:00:01").parse_at_utc().unwrap(), 1);
    assert_eq!(d("01:02:03").parse_at_utc().unwrap(), 3723);
    assert_eq!(d("23:59:59").parse_at_utc().unwrap(), 86399);
}

#[test]
fn parses_hh_mm() {
    assert_eq!(d("00:00").parse_at_utc().unwrap(), 0);
    assert_eq!(d("12:34").parse_at_utc().unwrap(), 45240);
    assert_eq!(d("23:59").parse_at_utc().unwrap(), 86340);
}

#[test]
fn rejects_out_of_range() {
    assert!(matches!(
        d("24:00").parse_at_utc(),
        Err(AtUtcError::Range(_))
    ));
    assert!(matches!(
        d("00:60").parse_at_utc(),
        Err(AtUtcError::Range(_))
    ));
    assert!(matches!(
        d("00:00:60").parse_at_utc(),
        Err(AtUtcError::Range(_))
    ));
    assert!(matches!(
        d("99:99:99").parse_at_utc(),
        Err(AtUtcError::Range(_))
    ));
}

#[test]
fn rejects_garbage() {
    assert!(matches!(d("").parse_at_utc(), Err(AtUtcError::Format(_))));
    assert!(matches!(
        d("abc").parse_at_utc(),
        Err(AtUtcError::Format(_))
    ));
    assert!(matches!(d("12").parse_at_utc(), Err(AtUtcError::Format(_))));
    assert!(matches!(
        d("1:2:3:4").parse_at_utc(),
        Err(AtUtcError::Format(_))
    ));
    assert!(matches!(
        d("12:").parse_at_utc(),
        Err(AtUtcError::Format(_))
    ));
}

#[test]
fn errors_of_times_have_a_text() {
    assert_eq!(
        d("25:00").parse_at_utc().unwrap_err().message(),
        "at-utc out of range (HH 0-23, MM 0-59, SS 0-59), got \"25:00\""
    );
    assert_eq!(
        d("noon").parse_at_utc().unwrap_err().message(),
        "at-utc must be HH:MM or HH:MM:SS, got \"noon\""
    );
}

#[test]
fn the_next_boundary_is_today_or_tomorrow() {
    let day = 86_400;
    assert!(schedule_fits(3600, 10 * day));
    assert_eq!(schedule_next_daily(3600, 10 * day), 10 * day + 3600);
    assert_eq!(
        schedule_next_daily(3600, 10 * day + 3600),
        11 * day + 3600,
        "a boundary that is now is the next day's"
    );
    assert_eq!(
        schedule_next_daily_public(3600, 10 * day + 3601),
        11 * day + 3600
    );
    assert!(!schedule_fits(0, u64::MAX));
}

#[test]
fn a_passed_boundary_moves_by_whole_days() {
    let day = 86_400;
    assert_eq!(advance_daily(100, 100), 100 + day);
    assert_eq!(advance_daily(100, 100 + 3 * day), 100 + 4 * day);
    assert_eq!(advance_daily(100, 99), 100);
}
