use edge_analytics::time::{date, date_at, date_hour, date_hour_at, is_leap};

#[test]
fn date_hour_format() {
    let result = date_hour();
    assert_eq!(result.len(), 13);
    assert_eq!(&result[4..5], "-");
    assert_eq!(&result[7..8], "-");
    assert_eq!(&result[10..11], "T");
}

#[test]
fn date_format() {
    let result = date();
    assert_eq!(result.len(), 10);
    assert_eq!(&result[4..5], "-");
    assert_eq!(&result[7..8], "-");
}

#[test]
fn leap_years() {
    assert!(is_leap(2000));
    assert!(is_leap(2024));
    assert!(!is_leap(1900));
    assert!(!is_leap(2023));
}

#[test]
fn leap_years_before_the_common_era() {
    assert!(is_leap(0));
    assert!(is_leap(-4));
    assert!(!is_leap(-100));
    assert!(is_leap(-400));
    assert!(!is_leap(-1));
}

#[test]
fn the_first_hour() {
    assert_eq!(date_hour_at(0), "1970-01-01T00");
    assert_eq!(date_hour_at(3599), "1970-01-01T00");
    assert_eq!(date_hour_at(3600), "1970-01-01T01");
    assert_eq!(date_hour_at(86399), "1970-01-01T23");
    assert_eq!(date_hour_at(86400), "1970-01-02T00");
}

#[test]
fn known_hours() {
    assert_eq!(date_hour_at(1_000_000_000), "2001-09-09T01");
    assert_eq!(date_hour_at(1_709_164_800), "2024-02-29T00");
    assert_eq!(date_hour_at(1_709_251_200), "2024-03-01T00");
    assert_eq!(date_hour_at(951_782_400), "2000-02-29T00");
    assert_eq!(date_hour_at(4_107_542_400), "2100-03-01T00");
    assert_eq!(date_hour_at(1_776_780_000), "2026-04-21T14");
    assert_eq!(date_hour_at(1_735_689_599), "2024-12-31T23");
}

#[test]
fn days_of_known_hours() {
    assert_eq!(date_at(1_776_780_000), "2026-04-21");
    assert_eq!(date_at(0), "1970-01-01");
}

#[test]
fn the_last_year_of_four_digits() {
    assert_eq!(date_hour_at(253_402_300_799), "9999-12-31T23");
    assert_eq!(date_hour_at(253_402_300_800), "10000-01-01T00");
    assert_eq!(date_at(253_402_300_800), "10000-01-0");
}

#[test]
fn an_hour_starts_with_its_day_only() {
    let secs = 1_776_780_000;
    assert!(date_hour_at(secs).starts_with(&date_at(secs)));
    assert!(date_hour_at(secs + 9 * 3600).starts_with(&date_at(secs)));
    assert!(!date_hour_at(secs + 10 * 3600).starts_with(&date_at(secs)));
}

#[test]
fn moments_of_an_hour_share_their_text() {
    assert_eq!(date_hour_at(7200), date_hour_at(10799));
    assert_ne!(date_hour_at(7200), date_hour_at(10800));
}

#[test]
fn hours_sort_as_they_follow_each_other() {
    let moments = [0, 3600, 36000, 86400, 2678400, 31536000, 951782400, 1776780000, 253402300799];
    for pair in moments.windows(2) {
        assert!(date_hour_at(pair[0]) < date_hour_at(pair[1]));
    }
    assert!(!(date_hour_at(7200) < date_hour_at(7201)));
}
