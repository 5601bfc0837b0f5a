use chrono::{DateTime, NaiveDate};
use rust_decimal::Decimal;

use dozer_cache::field::{field_test_cases, Date, Field};

#[test]
fn decimal_cases_hold_the_serialised_form() {
    let cases = field_test_cases();
    match (&cases[14], &cases[15]) {
        (Field::Decimal(zero), Field::Decimal(one)) => {
            assert_eq!(zero.as_slice(), &Decimal::new(0, 0).serialize());
            assert_eq!(one.as_slice(), &Decimal::new(1, 0).serialize());
        }
        _ => panic!("unexpected test cases"),
    }
}

#[test]
fn timestamp_and_float_cases() {
    let cases = field_test_cases();
    let t = DateTime::parse_from_rfc3339("2020-01-01T00:00:00Z").unwrap();
    assert!(matches!(cases[17], Field::Timestamp(ms) if ms == t.timestamp_millis()));
    assert!(matches!(cases[5], Field::Float(bits) if bits == 1.0f64.to_bits()));
}

#[test]
fn date_encoding_matches_calendar_text() {
    for (y, m, d) in [(1970u16, 1u8, 1u8), (2020, 2, 29), (9999, 12, 31), (5, 6, 7)] {
        let text = NaiveDate::from_ymd_opt(y as i32, m as u32, d as u32).unwrap().to_string();
        let encoded = Field::Date(Date { year: y, month: m, day: d }).encode();
        assert_eq!(&encoded[1..], text.as_bytes());
    }
}
