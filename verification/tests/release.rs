use dash::release::release_date_to_timestamp_millis;
use time::{Date, Month};

fn midnight_millis(year: i32, month: Month, day: u8) -> i64 {
    Date::from_calendar_date(year, month, day)
        .unwrap()
        .with_hms(0, 0, 0)
        .unwrap()
        .assume_utc()
        .unix_timestamp()
        * 1000
}

#[test]
fn full_dates_are_midnight_utc() {
    assert_eq!(release_date_to_timestamp_millis("2024-03-17", None), Some(1_710_633_600_000));
    assert_eq!(release_date_to_timestamp_millis("2024-03-17", Some("day")), Some(1_710_633_600_000));
}

#[test]
fn years_and_months_start_on_the_first() {
    assert_eq!(release_date_to_timestamp_millis("2020", None), Some(1_577_836_800_000));
    assert_eq!(release_date_to_timestamp_millis("2024-02", None), Some(midnight_millis(2024, Month::February, 1)));
    assert_eq!(release_date_to_timestamp_millis("2024-03-17", Some("year")), Some(midnight_millis(2024, Month::January, 1)));
    assert_eq!(release_date_to_timestamp_millis("2024-03-17", Some("month")), Some(midnight_millis(2024, Month::March, 1)));
}

#[test]
fn dates_before_the_epoch_are_negative() {
    assert_eq!(release_date_to_timestamp_millis("0999", None), Some(midnight_millis(999, Month::January, 1)));
    assert_eq!(release_date_to_timestamp_millis("1969-12-31", None), Some(-86_400_000));
}

#[test]
fn leap_days_are_checked() {
    assert_eq!(release_date_to_timestamp_millis("2000-02-29", None), Some(midnight_millis(2000, Month::February, 29)));
    assert_eq!(release_date_to_timestamp_millis("1900-02-29", None), None);
    assert_eq!(release_date_to_timestamp_millis("2023-04-31", None), None);
}

#[test]
fn malformed_dates_are_rejected() {
    assert_eq!(release_date_to_timestamp_millis("2024-3", None), None);
    assert_eq!(release_date_to_timestamp_millis("24-03-2017", None), None);
    assert_eq!(release_date_to_timestamp_millis("2024-13", None), None);
    assert_eq!(release_date_to_timestamp_millis("2024-00-10", None), None);
    assert_eq!(release_date_to_timestamp_millis("2024-03-17", Some("week")), None);
    assert_eq!(release_date_to_timestamp_millis("2024", Some("day")), None);
    assert_eq!(release_date_to_timestamp_millis("abcd", None), None);
    assert_eq!(release_date_to_timestamp_millis("", None), None);
}

#[test]
fn signs_are_accepted_where_integer_parsing_accepts_them() {
    assert_eq!(release_date_to_timestamp_millis("+999", None), Some(midnight_millis(999, Month::January, 1)));
    assert_eq!(release_date_to_timestamp_millis("2024-+3", None), Some(midnight_millis(2024, Month::March, 1)));
    // the minus sign separates pieces, so the year piece is empty
    assert_eq!(release_date_to_timestamp_millis("-999", None), None);
}
