use dash::text::{chars_of, parse_i32, parse_u64, parse_unsigned, string_from_chars};

#[test]
fn parse_u64_agrees_with_std() {
    for s in ["0", "7", "+7", "007", "", "+", "-", "-0", "1a", " 1", "18446744073709551615", "18446744073709551616", "99999999999999999999", "+18446744073709551615"] {
        assert_eq!(parse_u64(s), s.parse::<u64>().ok(), "{s:?}");
    }
}

#[test]
fn parse_i32_agrees_with_std() {
    for s in ["0", "-0", "+5", "-2147483648", "2147483647", "2147483648", "-2147483649", "-", "+", "", "12x", "--1"] {
        assert_eq!(parse_i32(&chars_of(s)), s.parse::<i32>().ok(), "{s:?}");
    }
}

#[test]
fn parse_u8_agrees_with_std() {
    for s in ["255", "256", "+1", "0", "00012"] {
        assert_eq!(parse_unsigned(&chars_of(s), 255).map(|v| v as u8), s.parse::<u8>().ok(), "{s:?}");
    }
}

#[test]
fn strings_round_trip_through_chars() {
    let s = "ünïcode ✓";
    assert_eq!(string_from_chars(&chars_of(s)), s);
}
