// Unit tests for the analysis functions.
use datastory::classify::detect_column_type;
use datastory::correlate::pearson_correlation;
use datastory::diagnose::{NumCell, cleaning_suggestions, diagnose};
use datastory::fixed::Fx;
use datastory::stats::{mean, median, mode, quartiles, unique_count, value_count};

fn units(vals: &[i64]) -> Vec<Fx> {
    vals.iter().map(|&v| Fx::from_units(v)).collect()
}

fn cells(vals: &[i64]) -> Vec<NumCell> {
    vals.iter().map(|&v| NumCell::Value(Fx::from_units(v))).collect()
}

fn strings(vals: &[&str]) -> Vec<String> {
    vals.iter().map(|s| s.to_string()).collect()
}

#[test]
fn test_mean() {
    let data = units(&[1, 2, 3, 4]);
    assert_eq!(mean(&data), Some(Fx::new(2500)));
}

#[test]
fn test_median_even() {
    let data = units(&[1, 2, 3, 4]);
    assert_eq!(median(&data), Some(Fx::new(2500)));
}

#[test]
fn test_median_odd() {
    let data = units(&[1, 2, 3]);
    assert_eq!(median(&data), Some(Fx::new(2000)));
}

#[test]
fn test_mode() {
    let data = strings(&["a", "b", "a"]);
    assert_eq!(mode(&data), "a");
}

#[test]
fn test_quartiles() {
    let data = units(&[1, 2, 3, 4, 5]);
    let (q1, q3) = quartiles(&data).unwrap();
    assert_eq!(q1, Fx::from_units(2));
    assert_eq!(q3, Fx::from_units(4));
}

#[test]
fn test_detect_column_type_numeric() {
    let data = strings(&["1.0", "2.0"]);
    assert_eq!(detect_column_type(&data).as_str(), "numeric");
}

#[test]
fn test_detect_column_type_categorical() {
    let data = strings(&["apple", "banana"]);
    assert_eq!(detect_column_type(&data).as_str(), "categorical");
}

#[test]
fn test_pearson_correlation() {
    let x = units(&[1, 2, 3, 4]);
    let y = units(&[2, 4, 6, 8]);
    let parts = pearson_correlation(&x, &y).unwrap();
    let corr = parts.numerator as f64 / ((parts.den_x as f64) * (parts.den_y as f64)).sqrt();
    assert!((corr - 1.0).abs() < 1e-6);
}

#[test]
fn test_mean_empty_is_absent() {
    let data: Vec<Fx> = Vec::new();
    assert_eq!(mean(&data), None);
    assert_eq!(median(&data), None);
    assert_eq!(quartiles(&data), None);
}

#[test]
fn test_mode_tie_breaks_first_seen() {
    let data = strings(&["a", "b"]);
    assert_eq!(mode(&data), "a");
    let data2 = strings(&["b", "a", "a", "b"]);
    assert_eq!(mode(&data2), "b");
    let empty: Vec<String> = Vec::new();
    assert_eq!(mode(&empty), "");
}

#[test]
fn test_pearson_correlation_absent_on_length_mismatch() {
    let x = units(&[1, 2]);
    let y = units(&[1, 2, 3]);
    assert_eq!(pearson_correlation(&x, &y), None);
}

#[test]
fn test_pearson_correlation_absent_on_zero_variance() {
    let x = units(&[5, 5, 5]);
    let y = units(&[1, 2, 3]);
    assert_eq!(pearson_correlation(&x, &y), None);
}

#[test]
fn test_pearson_correlation_negative() {
    let x = units(&[1, 2, 3]);
    let y = units(&[6, 4, 2]);
    let parts = pearson_correlation(&x, &y).unwrap();
    let corr = parts.numerator as f64 / ((parts.den_x as f64) * (parts.den_y as f64)).sqrt();
    assert!((corr + 1.0).abs() < 1e-6);
}

#[test]
fn test_detect_column_type_boolean() {
    let data = strings(&["true", "false"]);
    assert_eq!(detect_column_type(&data).as_str(), "boolean");
    let mixed_case = strings(&["True", "FALSE"]);
    assert_eq!(detect_column_type(&mixed_case).as_str(), "boolean");
}

#[test]
fn test_detect_column_type_empty_is_numeric() {
    let data: Vec<String> = Vec::new();
    assert_eq!(detect_column_type(&data).as_str(), "numeric");
}

#[test]
fn test_detect_column_type_date() {
    let data = strings(&["2020-01-02", "1999-12-31"]);
    assert_eq!(detect_column_type(&data).as_str(), "date");
    // An impossible month must fall back to categorical: the date check
    // accepts only real calendar dates.
    let bad = strings(&["2020-13-40", "1999-12-31"]);
    assert_eq!(detect_column_type(&bad).as_str(), "categorical");
}

#[test]
fn test_detect_column_type_precedence_and_grammar() {
    // Numeric literals in several shapes.
    let data = strings(&["-1.5", "+.5", "3.", "1e3", "2.5E-2"]);
    assert_eq!(detect_column_type(&data).as_str(), "numeric");
    // Special words follow the grammar but are not finite numbers.
    let inf = strings(&["inf", "nan"]);
    assert_eq!(detect_column_type(&inf).as_str(), "categorical");
    // Booleans win over anything else.
    let boolish = strings(&["true", "true"]);
    assert_eq!(detect_column_type(&boolish).as_str(), "boolean");
}

#[test]
fn test_diagnose_counts_and_fences() {
    // [1, 2, 3, 4, 5, 100]: q1 = 2, q3 = 5 (index 4 of 6), iqr = 3,
    // fences at -2.5 and 9.5, so only 100 lies outside.
    let data = cells(&[1, 2, 3, 4, 5, 100]);
    let d = diagnose(&data);
    assert_eq!(d.missing_count, 0);
    assert_eq!(d.outlier_count, 1);
    assert_eq!(d.outlier_values, vec![Fx::from_units(100)]);
    assert_eq!(d.suggestions, vec!["1 outliers detected".to_string()]);
}

#[test]
fn test_diagnose_missing_cells() {
    let mut data = cells(&[1, 2, 3]);
    data.push(NumCell::Missing);
    data.push(NumCell::Missing);
    let d = diagnose(&data);
    assert_eq!(d.missing_count, 2);
    assert_eq!(d.outlier_count, 0);
    assert_eq!(d.suggestions, vec!["2 missing values detected".to_string()]);
}

#[test]
fn test_cleaning_suggestions_no_cleaning_needed() {
    let data = cells(&[1, 2, 3]);
    let s = cleaning_suggestions(&data);
    assert_eq!(s, vec!["No cleaning needed".to_string()]);
}

#[test]
fn test_cleaning_suggestions_both_messages() {
    let mut data = cells(&[1, 2, 3, 4, 5, 100]);
    data.push(NumCell::Missing);
    let s = cleaning_suggestions(&data);
    assert_eq!(
        s,
        vec!["1 missing values detected".to_string(), "1 outliers detected".to_string()]
    );
}

#[test]
fn test_unique_and_value_count() {
    let data = strings(&["x", "y", "x", "z"]);
    assert_eq!(unique_count(&data), 3);
    assert_eq!(value_count(&data, &"x".to_string()), 2);
    assert_eq!(value_count(&data, &"w".to_string()), 0);
}

#[test]
fn test_mean_rounds_towards_zero() {
    // (1 + 2) / 2 = 1.5 stays exact in thousandths; thirds truncate.
    let data = units(&[1, 1, 2]);
    // sum = 4000 milli, / 3 = 1333.33.. -> 1333
    assert_eq!(mean(&data), Some(Fx::new(1333)));
    let neg = units(&[-1, -1, -2]);
    assert_eq!(mean(&neg), Some(Fx::new(-1333)));
}
