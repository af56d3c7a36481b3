//! Tests for the comparison contract semantics: last-resort behaviour,
//! numeric and case-folding rules, key extraction and separators.

use rsort::compare::compare_records;
use rsort::config::Config;
use rsort::key::KeySpec;
use std::cmp::Ordering;

/// Create a default test configuration
fn default_config() -> Config {
    Config {
        reverse: false,
        numeric: false,
        fold_case: false,
        unique: false,
        stable: false,
        debug: false,
        record_delimiter: b'\n',
        field_separator: None,
        keys: vec![],
        output_file: None,
        input_files: vec![],
    }
}

#[test]
fn test_last_resort_is_bytewise() {
    let config = default_config();
    assert_eq!(compare_records(b"A", b"a", &config), Ordering::Less);
}

#[test]
fn test_last_resort_uses_unsigned_bytes() {
    let config = default_config();
    assert_eq!(compare_records(b"\x7f", b"\x80", &config), Ordering::Less);
    assert_eq!(compare_records(b"\xff", b"\x00", &config), Ordering::Greater);
}

#[test]
fn test_last_resort_ignores_fold_case() {
    let mut config = default_config();
    config.fold_case = true;
    assert_eq!(compare_records(b"A", b"a", &config), Ordering::Less);
}

#[test]
fn semantics_test_last_resort_ignores_numeric() {
    let mut config = default_config();
    config.numeric = true;
    assert_eq!(compare_records(b"010", b"10", &config), Ordering::Less);
}

#[test]
fn test_last_resort_applies_reverse() {
    let mut config = default_config();
    config.reverse = true;
    assert_eq!(compare_records(b"A", b"a", &config), Ordering::Greater);
}

#[test]
fn test_last_resort_reverse_with_fold() {
    let mut config = default_config();
    config.fold_case = true;
    config.reverse = true;
    assert_eq!(compare_records(b"A", b"a", &config), Ordering::Greater);
}

#[test]
fn semantics_test_stable_disables_last_resort() {
    let mut config = default_config();
    config.fold_case = true;
    config.stable = true;
    assert_eq!(compare_records(b"A", b"a", &config), Ordering::Equal);
}

#[test]
fn semantics_test_unique_disables_last_resort() {
    let mut config = default_config();
    config.fold_case = true;
    config.unique = true;
    assert_eq!(compare_records(b"A", b"a", &config), Ordering::Equal);
}

#[test]
fn test_stable_numeric_no_last_resort() {
    let mut config = default_config();
    config.numeric = true;
    config.stable = true;
    assert_eq!(compare_records(b"010", b"10", &config), Ordering::Equal);
}

#[test]
fn test_numeric_basic_order() {
    let mut config = default_config();
    config.numeric = true;
    assert_eq!(compare_records(b"1", b"2", &config), Ordering::Less);
    assert_eq!(compare_records(b"10", b"2", &config), Ordering::Greater);
}

#[test]
fn test_numeric_negative_numbers() {
    let mut config = default_config();
    config.numeric = true;
    assert_eq!(compare_records(b"-5", b"0", &config), Ordering::Less);
    assert_eq!(compare_records(b"-5", b"-3", &config), Ordering::Less);
    assert_eq!(compare_records(b"-5", b"-10", &config), Ordering::Greater);
}

#[test]
fn test_numeric_decimals() {
    let mut config = default_config();
    config.numeric = true;
    assert_eq!(compare_records(b"1.5", b"1.6", &config), Ordering::Less);
    assert_eq!(compare_records(b"1.10", b"1.5", &config), Ordering::Less);
}

#[test]
fn test_numeric_leading_whitespace() {
    let mut config = default_config();
    config.numeric = true;
    config.stable = true;
    assert_eq!(compare_records(b"  5", b"5", &config), Ordering::Equal);
    assert_eq!(compare_records(b"\t10", b"10", &config), Ordering::Equal);
}

#[test]
fn test_numeric_non_numeric_is_zero() {
    let mut config = default_config();
    config.numeric = true;
    config.stable = true;
    assert_eq!(compare_records(b"abc", b"0", &config), Ordering::Equal);
    assert_eq!(compare_records(b"xyz", b"1", &config), Ordering::Less);
}

#[test]
fn semantics_test_numeric_empty_is_zero() {
    let mut config = default_config();
    config.numeric = true;
    config.stable = true;
    assert_eq!(compare_records(b"", b"0", &config), Ordering::Equal);
    assert_eq!(compare_records(b"   ", b"0", &config), Ordering::Equal);
}

#[test]
fn test_fold_case_ascii_only() {
    let mut config = default_config();
    config.fold_case = true;
    assert_eq!(compare_records(b"ABC", b"abc", &config), Ordering::Less);
}

#[test]
fn semantics_test_fold_case_mixed() {
    let mut config = default_config();
    config.fold_case = true;
    assert_eq!(compare_records(b"Apple", b"apple", &config), Ordering::Less);
}

#[test]
fn test_fold_case_non_ascii_unchanged() {
    let mut config = default_config();
    config.fold_case = true;
    config.stable = true;
    assert_eq!(compare_records(b"\xe0", b"\xc0", &config), Ordering::Greater);
}

#[test]
fn test_key_extracts_correct_field() {
    let mut config = default_config();
    config.numeric = true;
    config.keys = vec![KeySpec::parse("2,2").unwrap()];
    assert_eq!(compare_records(b"a 10", b"b 2", &config), Ordering::Greater);
}

#[test]
fn test_key_missing_field_is_empty() {
    let mut config = default_config();
    config.stable = true;
    config.keys = vec![KeySpec::parse("5,5").unwrap()];
    assert_eq!(compare_records(b"a b c", b"x y z", &config), Ordering::Equal);
}

#[test]
fn test_multiple_keys_first_wins() {
    let mut config = default_config();
    config.stable = true;
    config.keys = vec![KeySpec::parse("1,1").unwrap(), KeySpec::parse("2,2").unwrap()];
    assert_eq!(compare_records(b"a 1", b"b 2", &config), Ordering::Less);
}

#[test]
fn test_multiple_keys_fallback() {
    let mut config = default_config();
    config.stable = true;
    config.numeric = true;
    config.keys = vec![KeySpec::parse("1,1").unwrap(), KeySpec::parse("2,2").unwrap()];
    assert_eq!(compare_records(b"a 10", b"a 2", &config), Ordering::Greater);
}

#[test]
fn test_custom_separator() {
    let mut config = default_config();
    config.numeric = true;
    config.field_separator = Some(b':');
    config.keys = vec![KeySpec::parse("2,2").unwrap()];
    assert_eq!(compare_records(b"a:10", b"b:2", &config), Ordering::Greater);
}

#[test]
fn test_consecutive_separators() {
    let mut config = default_config();
    config.stable = true;
    config.field_separator = Some(b':');
    config.keys = vec![KeySpec::parse("2,2").unwrap()];
    assert_eq!(compare_records(b"a::c", b"a:b:c", &config), Ordering::Less);
}

#[test]
fn test_full_flow_with_last_resort() {
    let config = default_config();
    assert_eq!(compare_records(b"apple", b"banana", &config), Ordering::Less);
    assert_eq!(compare_records(b"APPLE", b"apple", &config), Ordering::Less);
}

#[test]
fn test_full_flow_numeric_last_resort() {
    let mut config = default_config();
    config.numeric = true;
    assert_eq!(compare_records(b"01", b"1", &config), Ordering::Less);
}

#[test]
fn test_full_flow_key_then_last_resort() {
    let mut config = default_config();
    config.keys = vec![KeySpec::parse("1,1").unwrap()];
    assert_eq!(compare_records(b"a x", b"a y", &config), Ordering::Less);
}

#[test]
fn test_empty_vs_empty() {
    let config = default_config();
    assert_eq!(compare_records(b"", b"", &config), Ordering::Equal);
}

#[test]
fn test_empty_vs_nonempty() {
    let config = default_config();
    assert_eq!(compare_records(b"", b"a", &config), Ordering::Less);
}

#[test]
fn test_prefix_comparison() {
    let config = default_config();
    assert_eq!(compare_records(b"ab", b"abc", &config), Ordering::Less);
}

#[test]
fn test_same_length_different_content() {
    let config = default_config();
    assert_eq!(compare_records(b"abc", b"abd", &config), Ordering::Less);
}
