//! Album release dates as Spotify reports them ("2024", "2024-03",
//! "2024-03-17"), turned into Unix timestamps in milliseconds.
use vstd::prelude::*;
use crate::text::{chars_of, parse_i32, parse_unsigned, parsed_signed, parsed_unsigned, split_chars, split_on, split_on_is_nonempty, same_chars};

verus! {

/// How precisely a release date is given.
#[derive(Debug, Clone, Copy, PartialEq, Eq, Structural)]
pub enum DatePrecision {
    Year,
    Month,
    Day,
}

/// The precision that Spotify names `name`.
pub open spec fn precision_named(name: Seq<char>) -> Option<DatePrecision> {
    if name == seq!['y', 'e', 'a', 'r'] {
        Some(DatePrecision::Year)
    } else if name == seq!['m', 'o', 'n', 't', 'h'] {
        Some(DatePrecision::Month)
    } else if name == seq!['d', 'a', 'y'] {
        Some(DatePrecision::Day)
    } else {
        None
    }
}

/// The precision a date string of `byte_len` bytes is taken to have.
pub open spec fn precision_of_length(byte_len: int) -> Option<DatePrecision> {
    if byte_len == 4 {
        Some(DatePrecision::Year)
    } else if byte_len == 7 {
        Some(DatePrecision::Month)
    } else if byte_len == 10 {
        Some(DatePrecision::Day)
    } else {
        None
    }
}

pub open spec fn is_leap_year(year: int) -> bool {
    (year % 4 == 0 && year % 100 != 0) || year % 400 == 0
}

pub open spec fn days_in_month(year: int, month: int) -> int {
    if month == 2 {
        if is_leap_year(year) {
            29
        } else {
            28
        }
    } else if month == 4 || month == 6 || month == 9 || month == 11 {
        30
    } else {
        31
    }
}

/// A day of the proleptic Gregorian calendar within the years that the
/// `time` crate represents (-9999 to 9999).
pub open spec fn valid_calendar_date(year: int, month: int, day: int) -> bool {
    &&& -9999 <= year <= 9999
    &&& 1 <= month <= 12
    &&& 1 <= day <= days_in_month(year, month)
}

/// Days in the months of `year` before `month`.
pub open spec fn days_before_month(year: int, month: int) -> int {
    let common: int = if month == 1 {
        0
    } else if month == 2 {
        31
    } else if month == 3 {
        59
    } else if month == 4 {
        90
    } else if month == 5 {
        120
    } else if month == 6 {
        151
    } else if month == 7 {
        181
    } else if month == 8 {
        212
    } else if month == 9 {
        243
    } else if month == 10 {
        273
    } else if month == 11 {
        304
    } else {
        334
    };
    if month > 2 && is_leap_year(year) {
        common + 1
    } else {
        common
    }
}

/// Days from the first of January of year 1 to the first of January of `year`.
pub open spec fn days_before_year(year: int) -> int {
    let p = year - 1;
    365 * p + p / 4 - p / 100 + p / 400
}

/// Days from 1970-01-01 to the given day.
pub open spec fn days_since_epoch(year: int, month: int, day: int) -> int {
    days_before_year(year) + days_before_month(year, month) + day - 1 - 719162
}

/// `time::Date::from_calendar_date` at midnight UTC, as a Unix timestamp in
/// seconds: the month number goes through `time::Month::try_from`, and the
/// date through `with_hms(0, 0, 0)`, `assume_utc` and `unix_timestamp`.
/// Claims: a date exactly when the day is a valid calendar day in years
/// -9999..=9999, and then the seconds from the epoch to its midnight.
#[verifier::external_body]
fn midnight_utc_timestamp(year: i32, month: u8, day: u8) -> (t: Option<i64>)
    ensures
        t is Some <==> valid_calendar_date(year as int, month as int, day as int),
        t matches Some(secs) ==> secs == 86400 * days_since_epoch(
            year as int,
            month as int,
            day as int,
        ),
{
    let month = time::Month::try_from(month).ok()?;
    let date = time::Date::from_calendar_date(year, month, day).ok()?;
    Some(date.with_hms(0, 0, 0).ok()?.assume_utc().unix_timestamp())
}

/// The timestamp, in milliseconds, of midnight UTC on the release day.
/// The precision is the one given, else inferred from the date's byte
/// length (4, 7 or 10); the date's `-`-separated pieces are the year, the
/// month (taken as January for a year) and the day (taken as the first for
/// a year or a month).
pub open spec fn release_timestamp_millis(
    date: Seq<char>,
    byte_len: int,
    precision: Option<Seq<char>>,
) -> Option<int> {
    match precision_of_length(byte_len) {
        None => None,
        Some(inferred) => {
            let named = match precision {
                Some(name) => precision_named(name),
                None => Some(inferred),
            };
            let parts = split_on(date, '-');
            match named {
                None => None,
                Some(p) => {
                    let year = parsed_signed(parts[0], i32::MIN as int, i32::MAX as int);
                    let month = match p {
                        DatePrecision::Year => Some(1int),
                        _ => if parts.len() > 1 {
                            parsed_unsigned(parts[1], 255)
                        } else {
                            None
                        },
                    };
                    let day = match p {
                        DatePrecision::Day => if parts.len() > 2 {
                            parsed_unsigned(parts[2], 255)
                        } else {
                            None
                        },
                        _ => Some(1int),
                    };
                    if year is Some && month is Some && day is Some && valid_calendar_date(
                        year->0,
                        month->0,
                        day->0,
                    ) {
                        Some(86_400_000 * days_since_epoch(year->0, month->0, day->0))
                    } else {
                        None
                    }
                },
            }
        },
    }
}

/// The precision named by the characters, if Spotify uses the name.
fn precision_from_name(name: &Vec<char>) -> (p: Option<DatePrecision>)
    ensures
        p == precision_named(name@),
{
    let year = ['y', 'e', 'a', 'r'];
    let month = ['m', 'o', 'n', 't', 'h'];
    let day = ['d', 'a', 'y'];
    assert(year@ =~= seq!['y', 'e', 'a', 'r']);
    assert(month@ =~= seq!['m', 'o', 'n', 't', 'h']);
    assert(day@ =~= seq!['d', 'a', 'y']);
    if same_chars(name, &year) {
        Some(DatePrecision::Year)
    } else if same_chars(name, &month) {
        Some(DatePrecision::Month)
    } else if same_chars(name, &day) {
        Some(DatePrecision::Day)
    } else {
        None
    }
}

proof fn lemma_days_since_epoch_bounds(year: int, month: int, day: int)
    requires
        valid_calendar_date(year, month, day),
    ensures
        -5000000 <= days_since_epoch(year, month, day) <= 5000000,
{
    let p = year - 1;
    assert(-10000 <= p <= 9998);
    assert(-2500 <= p / 4 <= 2500);
    assert(-100 <= p / 100 <= 100);
    assert(-25 <= p / 400 <= 25);
}

/// Midnight UTC of a release day, in milliseconds since the Unix epoch, or
/// `None` when the date does not have the expected shape or is no valid
/// day.
pub fn release_date_to_timestamp_millis(release_date: &str, release_date_precision: Option<&str>) -> (t:
    Option<i64>)
    ensures
        t matches Some(ms) ==> release_timestamp_millis(
            release_date@,
            release_date.len() as int,
            match release_date_precision {
                Some(p) => Some(p@),
                None => None,
            },
        ) == Some(ms as int),
        t is None ==> release_timestamp_millis(
            release_date@,
            release_date.len() as int,
            match release_date_precision {
                Some(p) => Some(p@),
                None => None,
            },
        ) is None,
{
    let byte_len = release_date.len();
    let inferred = if byte_len == 4 {
        DatePrecision::Year
    } else if byte_len == 7 {
        DatePrecision::Month
    } else if byte_len == 10 {
        DatePrecision::Day
    } else {
        return None;
    };
    let precision = match release_date_precision {
        Some(name) => match precision_from_name(&chars_of(name)) {
            Some(p) => p,
            None => return None,
        },
        None => inferred,
    };
    let parts = split_chars(&chars_of(release_date), '-');
    proof {
        split_on_is_nonempty(release_date@, '-');
        assert(parts@.map_values(|p: Vec<char>| p@)[0] == parts@[0]@);
    }
    let year = match parse_i32(&parts[0]) {
        Some(y) => y,
        None => return None,
    };
    let month: u8 = match precision {
        DatePrecision::Year => 1,
        _ => {
            if parts.len() <= 1 {
                return None;
            }
            assert(parts@.map_values(|p: Vec<char>| p@)[1] == parts@[1]@);
            match parse_unsigned(&parts[1], 255) {
                Some(m) => m as u8,
                None => return None,
            }
        },
    };
    let day: u8 = match precision {
        DatePrecision::Day => {
            if parts.len() <= 2 {
                return None;
            }
            assert(parts@.map_values(|p: Vec<char>| p@)[2] == parts@[2]@);
            match parse_unsigned(&parts[2], 255) {
                Some(d) => d as u8,
                None => return None,
            }
        },
        _ => 1,
    };
    match midnight_utc_timestamp(year, month, day) {
        Some(secs) => {
            proof {
                lemma_days_since_epoch_bounds(year as int, month as int, day as int);
                let ghost parts_spec = split_on(release_date@, '-');
                assert(parsed_signed(parts_spec[0], i32::MIN as int, i32::MAX as int) == Some(year as int));
                let ghost days = days_since_epoch(year as int, month as int, day as int);
                assert(secs == 86400 * days);
                assert(secs * 1000 == 86_400_000 * days);
            }
            Some(secs * 1000)
        },
        None => None,
    }
}

} // verus!
