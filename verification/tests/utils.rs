use firewalleye::decimal::decimal_text;
use firewalleye::utils::{magnitude, units_text, Magnitude};

#[test]
fn magnitude_hundreds() {
    let m = magnitude(123);
    assert_eq!(m, Magnitude::Units);
    assert_eq!(m.divisor(), 1);
    assert_eq!(m.suffix(), "");
}

#[test]
fn magnitude_thousands() {
    let m = magnitude(123456);
    assert_eq!(m, Magnitude::Thousands);
    assert_eq!(m.divisor(), 1000);
    assert_eq!(m.suffix(), "k");
}

#[test]
fn magnitude_millions() {
    let m = magnitude(123456789);
    assert_eq!(m, Magnitude::Millions);
    assert_eq!(m.divisor(), 1000000);
    assert_eq!(m.suffix(), "M");
}

#[test]
fn magnitude_billions() {
    let m = magnitude(123456789012);
    assert_eq!(m, Magnitude::Billions);
    assert_eq!(m.divisor(), 1000000000);
    assert_eq!(m.suffix(), "B");
}

#[test]
fn magnitude_trillions() {
    let m = magnitude(123456789012345);
    assert_eq!(m, Magnitude::Trillions);
    assert_eq!(m.divisor(), 1000000000000);
    assert_eq!(m.suffix(), "T");
}

#[test]
fn magnitude_boundaries() {
    assert_eq!(magnitude(0), Magnitude::Units);
    assert_eq!(magnitude(999), Magnitude::Units);
    assert_eq!(magnitude(1000), Magnitude::Thousands);
    assert_eq!(magnitude(999_999), Magnitude::Thousands);
    assert_eq!(magnitude(1_000_000), Magnitude::Millions);
    assert_eq!(magnitude(999_999_999), Magnitude::Millions);
    assert_eq!(magnitude(1_000_000_000), Magnitude::Billions);
    assert_eq!(magnitude(999_999_999_999), Magnitude::Billions);
    assert_eq!(magnitude(1_000_000_000_000), Magnitude::Trillions);
    assert_eq!(magnitude(u64::MAX), Magnitude::Trillions);
}

#[test]
fn humanize_hundreds_text() {
    assert_eq!(units_text(123), Some("123".to_string()));
    assert_eq!(units_text(0), Some("0".to_string()));
    assert_eq!(units_text(999), Some("999".to_string()));
    assert_eq!(units_text(1000), None);
    assert_eq!(units_text(123456), None);
}

#[test]
fn decimal_text_digits() {
    assert_eq!(decimal_text(0), "0");
    assert_eq!(decimal_text(7), "7");
    assert_eq!(decimal_text(10), "10");
    assert_eq!(decimal_text(17910), "17910");
    assert_eq!(decimal_text(u64::MAX), u64::MAX.to_string());
}
