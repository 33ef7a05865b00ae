// Tests for the exact decimal cell reader.
use datastory::decimal::parse_cell;
use datastory::diagnose::NumCell;
use datastory::fixed::Fx;

fn value(milli: i64) -> Option<NumCell> {
    Some(NumCell::Value(Fx::new(milli)))
}

#[test]
fn test_parse_cell_plain_numbers() {
    assert_eq!(parse_cell("2.5"), value(2500));
    assert_eq!(parse_cell("-2.5"), value(-2500));
    assert_eq!(parse_cell("+2.5"), value(2500));
    assert_eq!(parse_cell("100"), value(100_000));
    assert_eq!(parse_cell("0"), value(0));
    assert_eq!(parse_cell(".5"), value(500));
    assert_eq!(parse_cell("5."), value(5000));
    assert_eq!(parse_cell("007"), value(7000));
}

#[test]
fn test_parse_cell_exponents() {
    assert_eq!(parse_cell("1e3"), value(1_000_000));
    assert_eq!(parse_cell("2.5E-2"), value(25));
    assert_eq!(parse_cell("12e-4"), value(1));
    assert_eq!(parse_cell("1e-10"), value(0));
    assert_eq!(parse_cell("0e99999999999999999999999999"), value(0));
    assert_eq!(parse_cell("1e-99999999999999999999999999"), value(0));
}

#[test]
fn test_parse_cell_truncates_towards_zero() {
    assert_eq!(parse_cell("1.2345"), value(1234));
    assert_eq!(parse_cell("-1.2345"), value(-1234));
    assert_eq!(parse_cell("0.0005"), value(0));
    assert_eq!(parse_cell("-0.0005"), value(0));
    assert_eq!(parse_cell("0.9999"), value(999));
}

#[test]
fn test_parse_cell_missing_and_rejected() {
    // Special words follow the grammar but carry no finite amount.
    assert_eq!(parse_cell("nan"), Some(NumCell::Missing));
    assert_eq!(parse_cell("NaN"), Some(NumCell::Missing));
    assert_eq!(parse_cell("inf"), Some(NumCell::Missing));
    assert_eq!(parse_cell("-Infinity"), Some(NumCell::Missing));
    // Amounts beyond the engine's range become missing entries.
    assert_eq!(parse_cell("1e999"), Some(NumCell::Missing));
    assert_eq!(parse_cell("2000000000"), Some(NumCell::Missing));
    assert_eq!(parse_cell("1000000000"), value(1_000_000_000_000));
    // Text outside the grammar is no numeric cell at all.
    assert_eq!(parse_cell("abc"), None);
    assert_eq!(parse_cell(""), None);
    assert_eq!(parse_cell("1.2.3"), None);
    assert_eq!(parse_cell("1e"), None);
    assert_eq!(parse_cell("."), None);
    assert_eq!(parse_cell("--1"), None);
}
