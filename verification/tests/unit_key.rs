//! Unit tests of key-descriptor parsing and key extraction.

use rsort::key::{extract_key, KeySpec};

#[test]
fn test_parse_simple_field() {
    let spec = KeySpec::parse("2").unwrap();
    assert_eq!(spec.start_field, 2);
    assert_eq!(spec.start_char, None);
    assert_eq!(spec.end_field, None);
}

#[test]
fn test_parse_field_range() {
    let spec = KeySpec::parse("1,2").unwrap();
    assert_eq!(spec.start_field, 1);
    assert_eq!(spec.end_field, Some(2));
}

#[test]
fn test_parse_with_chars() {
    let spec = KeySpec::parse("2.3,2.5").unwrap();
    assert_eq!(spec.start_field, 2);
    assert_eq!(spec.start_char, Some(3));
    assert_eq!(spec.end_field, Some(2));
    assert_eq!(spec.end_char, Some(5));
}

#[test]
fn test_extract_key_whitespace() {
    let record = b"apple banana cherry";
    let spec = KeySpec::parse("2,2").unwrap();
    let key = extract_key(record, &spec, None);
    assert_eq!(key, b"banana");
}

#[test]
fn test_extract_key_delimiter() {
    let record = b"a:b:c";
    let spec = KeySpec::parse("2,2").unwrap();
    let key = extract_key(record, &spec, Some(b':'));
    assert_eq!(key, b"b");
}

#[test]
fn test_extract_key_beyond_end() {
    let record = b"a b";
    let spec = KeySpec::parse("5,5").unwrap();
    let key = extract_key(record, &spec, None);
    assert_eq!(key, b"");
}

#[test]
fn test_extract_key_char_range() {
    let record = b"abcdef";
    let spec = KeySpec::parse("1.2,1.4").unwrap();
    let key = extract_key(record, &spec, None);
    assert_eq!(key, b"bcd");
}
