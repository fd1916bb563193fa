use l4_filter::date::{parse_date, parse_unsigned};

#[test]
fn date_in_leap_year_january() {
    assert_eq!(parse_date("2024-01-10"), Some(45301));
    assert_eq!(parse_date("2024-01-20"), Some(45311));
}

#[test]
fn date_epoch_start_is_two() {
    assert_eq!(parse_date("1900-01-01"), Some(2));
    assert_eq!(parse_date("1900-03-01"), Some(61));
}

#[test]
fn date_leap_day() {
    assert_eq!(parse_date("2024-02-29"), Some(45351));
    assert_eq!(parse_date("2023-02-29"), None);
}

#[test]
fn date_single_digit_fields_and_plus_sign() {
    assert_eq!(parse_date("2024-1-5"), Some(45296));
    assert_eq!(parse_date("+2024-01-10"), Some(45301));
}

#[test]
fn date_last_year_of_range() {
    assert_eq!(parse_date("262142-12-31"), Some(95051805));
}

#[test]
fn date_far_from_epoch() {
    assert_eq!(parse_date("9999-12-31"), Some(2958465));
    assert_eq!(parse_date("0001-01-01"), Some(-693593));
    assert_eq!(parse_date("0000-01-01"), Some(-693959));
}

#[test]
fn date_rejects_malformed_text() {
    assert_eq!(parse_date(""), None);
    assert_eq!(parse_date("2024/01/10"), None);
    assert_eq!(parse_date("2024-01"), None);
    assert_eq!(parse_date("2024-01-10-1"), None);
    assert_eq!(parse_date("a-b-c"), None);
    assert_eq!(parse_date("2024-13-01"), None);
    assert_eq!(parse_date("2024-00-01"), None);
    assert_eq!(parse_date("2024-01-32"), None);
    assert_eq!(parse_date(" 2024-01-10"), None);
    assert_eq!(parse_date("-2024-01-10"), None);
    assert_eq!(parse_date("262144-01-01"), None);
    assert_eq!(parse_date("262143-01-01"), None);
    assert_eq!(parse_date("4294967296-01-01"), None);
}

#[test]
fn unsigned_numbers() {
    assert_eq!(parse_unsigned("0"), Some(0));
    assert_eq!(parse_unsigned("+7"), Some(7));
    assert_eq!(parse_unsigned("007"), Some(7));
    assert_eq!(parse_unsigned("4294967295"), Some(4294967295));
    assert_eq!(parse_unsigned("4294967296"), None);
    assert_eq!(parse_unsigned(""), None);
    assert_eq!(parse_unsigned("+"), None);
    assert_eq!(parse_unsigned("-1"), None);
    assert_eq!(parse_unsigned("1a"), None);
}
