//! Further behaviour tests: numeric equivalence classes, key clamping,
//! configuration errors, option interpretation, and the smaller pipeline
//! pieces.

use rsort::arena::Arena;
use rsort::cli::Args;
use rsort::compare::{compare_numeric, compare_records};
use rsort::config::Config;
use rsort::debug::{debug_input, debug_line};
use rsort::error::RsortError;
use rsort::input::RecordReader;
use rsort::key::{extract_key, KeySpec};
use rsort::output::write_records;
use rsort::sort::sort_records;
use std::cmp::Ordering;

fn default_config() -> Config {
    Config {
        reverse: false,
        numeric: false,
        fold_case: false,
        unique: false,
        stable: false,
        debug: false,
        record_delimiter: b'\n',
        field_separator: None,
        keys: vec![],
        output_file: None,
        input_files: vec![],
    }
}

fn default_args() -> Args {
    Args {
        reverse: false,
        numeric: false,
        fold_case: false,
        unique: false,
        stable: false,
        output: None,
        delimiter: None,
        keys: vec![],
        zero_terminated: false,
        debug: false,
        files: vec![],
    }
}

// ============================================================
// Unsigned byte order on one-byte records
// ============================================================

#[test]
fn test_one_byte_records_unsigned_order() {
    let config = default_config();
    assert_eq!(compare_records(b"\x7f", b"\x80", &config), Ordering::Less);
    assert_eq!(compare_records(b"\x80", b"\xff", &config), Ordering::Less);
    assert_eq!(compare_records(b"\x00", b"\xff", &config), Ordering::Less);
    assert_eq!(compare_records(b"\x41", b"\x61", &config), Ordering::Less);
}

// ============================================================
// Last-resort totality and suppression on concrete records
// ============================================================

#[test]
fn test_distinct_records_never_equal_by_default() {
    let mut config = default_config();
    config.numeric = true;
    // numerically tied, still never Equal while the last resort is active
    assert_ne!(compare_records(b"007", b"7", &config), Ordering::Equal);
    assert_ne!(compare_records(b"abc", b"xyz", &config), Ordering::Equal);
    config.numeric = false;
    config.fold_case = true;
    assert_ne!(compare_records(b"HELLO", b"hello", &config), Ordering::Equal);
}

#[test]
fn test_numeric_tie_breaks_bytewise() {
    let mut config = default_config();
    config.numeric = true;
    // equal numeric values, decided by the bytewise last resort
    assert_eq!(compare_records(b"007", b"7", &config), Ordering::Less);
}

#[test]
fn test_suppressed_tie_is_equal() {
    let mut config = default_config();
    config.numeric = true;
    config.stable = true;
    assert_eq!(compare_records(b"007", b"7", &config), Ordering::Equal);
    config.stable = false;
    config.unique = true;
    assert_eq!(compare_records(b"007", b"7", &config), Ordering::Equal);
}

// ============================================================
// Reverse is the exact opposite of forward
// ============================================================

#[test]
fn test_reverse_is_opposite() {
    let forward = default_config();
    let mut backward = default_config();
    backward.reverse = true;
    let cases: [(&[u8], &[u8]); 4] =
        [(b"a", b"b"), (b"b", b"a"), (b"abc", b"abd"), (b"\x01", b"\xfe")];
    for (x, y) in cases {
        let f = compare_records(x, y, &forward);
        let b = compare_records(x, y, &backward);
        assert_eq!(b, f.reverse());
    }
}

// ============================================================
// Numeric equivalence classes
// ============================================================

#[test]
fn test_numeric_equivalence_classes() {
    for a in [&b"7"[..], b"007", b"+7", b" 7"] {
        for b in [&b"7"[..], b"007", b"+7", b" 7"] {
            assert_eq!(compare_numeric(a, b), Ordering::Equal);
        }
    }
    for a in [&b"abc"[..], b"", b"   "] {
        assert_eq!(compare_numeric(a, b"0"), Ordering::Equal);
        assert_eq!(compare_numeric(a, b"0.0"), Ordering::Equal);
    }
}

#[test]
fn test_numeric_signed_zero_equal() {
    assert_eq!(compare_numeric(b"-0", b"0"), Ordering::Equal);
    assert_eq!(compare_numeric(b"+0", b"-0"), Ordering::Equal);
    assert_eq!(compare_numeric(b"-0.00", b"0"), Ordering::Equal);
}

#[test]
fn test_numeric_prefix_rules() {
    // a bare sign or dot counts as zero
    assert_eq!(compare_numeric(b"-", b"0"), Ordering::Equal);
    assert_eq!(compare_numeric(b"+", b"0"), Ordering::Equal);
    assert_eq!(compare_numeric(b".", b"0"), Ordering::Equal);
    // a fraction without an integer part still counts
    assert_eq!(compare_numeric(b".5", b"0.5"), Ordering::Equal);
    // the second dot terminates parsing
    assert_eq!(compare_numeric(b"1.2.3", b"1.2"), Ordering::Equal);
    // trailing junk is not consumed
    assert_eq!(compare_numeric(b"42abc", b"42"), Ordering::Equal);
    // long digit strings compare exactly
    assert_eq!(
        compare_numeric(b"123456789012345678901234567890", b"123456789012345678901234567891"),
        Ordering::Less
    );
}

// ============================================================
// Key clamping
// ============================================================

#[test]
fn test_key_clamping() {
    let spec5 = KeySpec::parse("5").unwrap();
    assert_eq!(extract_key(b"a b", &spec5, None), b"");
    let spec_chars = KeySpec::parse("1.10,1.20").unwrap();
    assert_eq!(extract_key(b"ab", &spec_chars, None), b"");
    // end field past the last clamps to the last field
    let spec_range = KeySpec::parse("2,9").unwrap();
    assert_eq!(extract_key(b"a b c", &spec_range, None), b"b c");
    // multi-field keys keep the separators verbatim
    let spec_multi = KeySpec::parse("1,2").unwrap();
    assert_eq!(extract_key(b"a:b:c", &spec_multi, Some(b':')), b"a:b");
}

#[test]
fn test_extract_key_whole_record_default_end() {
    let spec = KeySpec::parse("2").unwrap();
    assert_eq!(extract_key(b"a b c", &spec, None), b"b c");
}

#[test]
fn test_extract_key_empty_record() {
    let spec = KeySpec::parse("1").unwrap();
    assert_eq!(extract_key(b"", &spec, None), b"");
}

// ============================================================
// Key descriptor errors
// ============================================================

#[test]
fn test_keyspec_rejects_bad_descriptors() {
    for bad in ["1,2,3", "0", "a", "2,1", "1.0", "1.5,1.2", "", "1.", ".5", "1,0"] {
        let r = KeySpec::parse(bad);
        match r {
            Err(RsortError::InvalidKey(_)) => {}
            other => panic!("descriptor {:?} gave {:?}", bad, other),
        }
    }
}

#[test]
fn test_keyspec_tolerates_modifier_letters() {
    let spec = KeySpec::parse("2n,3r").unwrap();
    assert_eq!(spec.start_field, 2);
    assert_eq!(spec.end_field, Some(3));
    let spec = KeySpec::parse("1b").unwrap();
    assert_eq!(spec.start_field, 1);
}

#[test]
fn test_keyspec_char_order_only_within_same_field() {
    // end char before start char is fine across different fields
    let spec = KeySpec::parse("1.5,2.2").unwrap();
    assert_eq!(spec.start_char, Some(5));
    assert_eq!(spec.end_char, Some(2));
}

// ============================================================
// Separator flag interpretation
// ============================================================

#[test]
fn test_field_separator_escapes() {
    let mut args = default_args();
    args.delimiter = Some(":".to_string());
    assert_eq!(args.field_separator().unwrap(), Some(b':'));
    args.delimiter = Some("\\t".to_string());
    assert_eq!(args.field_separator().unwrap(), Some(b'\t'));
    args.delimiter = Some("\\n".to_string());
    assert_eq!(args.field_separator().unwrap(), Some(b'\n'));
    args.delimiter = Some("\\\\".to_string());
    assert_eq!(args.field_separator().unwrap(), Some(b'\\'));
    args.delimiter = Some("\\0".to_string());
    assert_eq!(args.field_separator().unwrap(), Some(0u8));
    args.delimiter = Some("\0".to_string());
    assert_eq!(args.field_separator().unwrap(), Some(0u8));
    args.delimiter = None;
    assert_eq!(args.field_separator().unwrap(), None);
}

#[test]
fn test_field_separator_rejects_multibyte() {
    let mut args = default_args();
    for bad in ["ab", "\\x", "", ":::"] {
        args.delimiter = Some(bad.to_string());
        match args.field_separator() {
            Err(RsortError::InvalidDelimiter) => {}
            other => panic!("separator {:?} gave {:?}", bad, other),
        }
    }
}

#[test]
fn test_record_delimiter_selection() {
    let mut args = default_args();
    assert_eq!(args.record_delimiter(), b'\n');
    args.zero_terminated = true;
    assert_eq!(args.record_delimiter(), 0u8);
}

// ============================================================
// Configuration construction
// ============================================================

#[test]
fn test_config_from_args() {
    let mut args = default_args();
    args.reverse = true;
    args.numeric = true;
    args.keys = vec!["2,2".to_string()];
    args.delimiter = Some(":".to_string());
    let config = Config::from_args(&args).unwrap();
    assert!(config.reverse);
    assert!(config.numeric);
    assert_eq!(config.field_separator, Some(b':'));
    assert_eq!(config.keys.len(), 1);
    assert_eq!(config.keys[0].start_field, 2);
    assert!(config.use_last_resort());
    assert!(!config.use_stable_sort());
}

#[test]
fn test_config_error_precedence() {
    let mut args = default_args();
    args.keys = vec!["0".to_string()];
    args.delimiter = Some("ab".to_string());
    // a bad separator is reported before a bad key
    match Config::from_args(&args) {
        Err(RsortError::InvalidDelimiter) => {}
        other => panic!("got {:?}", other),
    }
    args.delimiter = None;
    match Config::from_args(&args) {
        Err(RsortError::InvalidKey(_)) => {}
        other => panic!("got {:?}", other),
    }
}

#[test]
fn test_config_last_resort_switches() {
    let mut config = default_config();
    assert!(config.use_last_resort());
    config.stable = true;
    assert!(!config.use_last_resort());
    assert!(config.use_stable_sort());
    config.stable = false;
    config.unique = true;
    assert!(!config.use_last_resort());
    assert!(config.use_stable_sort());
}

// ============================================================
// Arena
// ============================================================

#[test]
fn test_arena_accounting() {
    let mut arena = Arena::new();
    assert!(arena.is_empty());
    assert_eq!(arena.len(), 0);
    assert_eq!(arena.bytes_used(), 0);
    arena.push(b"hello".to_vec());
    arena.push(b"hi".to_vec());
    assert!(!arena.is_empty());
    assert_eq!(arena.len(), 2);
    assert_eq!(arena.bytes_used(), 7);
    let records = arena.into_records();
    assert_eq!(records, vec![b"hello".to_vec(), b"hi".to_vec()]);
}

#[test]
fn test_arena_records_mut_sortable() {
    let mut arena = Arena::new();
    arena.push(b"b".to_vec());
    arena.push(b"a".to_vec());
    let config = default_config();
    sort_records(arena.records_mut(), &config);
    assert_eq!(arena.into_records(), vec![b"a".to_vec(), b"b".to_vec()]);
}

// ============================================================
// Record reader
// ============================================================

#[test]
fn test_record_reader_stepwise() {
    let mut reader = RecordReader::new(b"a\nbc".to_vec(), b'\n');
    assert!(reader.last_had_delimiter());
    let first = reader.read_record().unwrap();
    assert_eq!(first, b"a".to_vec());
    assert!(reader.last_had_delimiter());
    let second = reader.read_record().unwrap();
    assert_eq!(second, b"bc".to_vec());
    assert!(!reader.last_had_delimiter());
    assert_eq!(reader.read_record(), None);
}

// ============================================================
// Debug renderer
// ============================================================

#[test]
fn test_debug_line_no_match_marker() {
    let mut config = default_config();
    config.keys = vec![KeySpec::parse("5,5").unwrap()];
    let out = debug_line(b"a b", &config);
    assert_eq!(out.len(), 2);
    assert_eq!(out[0], b"a b".to_vec());
    assert_eq!(out[1], b"^ no match for key".to_vec());
}

#[test]
fn test_debug_line_key_span_alignment() {
    let mut config = default_config();
    config.keys = vec![KeySpec::parse("2,2").unwrap()];
    let out = debug_line(b"foo bar baz", &config);
    assert_eq!(out.len(), 2);
    assert_eq!(out[0], b"foo bar baz".to_vec());
    // "bar" spans columns 4..7
    assert_eq!(out[1], b"    ___".to_vec());
}

#[test]
fn test_debug_line_clamped_start_char() {
    let mut config = default_config();
    // start char past the first field's end: the key starts at the
    // clamped offset, and the underline starts at the same column
    config.keys = vec![KeySpec::parse("1.4").unwrap()];
    let key = extract_key(b"ab cd", &config.keys[0], None);
    assert_eq!(key, b" cd");
    let out = debug_line(b"ab cd", &config);
    assert_eq!(out.len(), 2);
    assert_eq!(out[0], b"ab cd".to_vec());
    // the key is bytes 2..5 of the record, so two spaces, three underscores
    assert_eq!(out[1], b"  ___".to_vec());
}

#[test]
fn test_debug_line_whole_record_underline() {
    let config = default_config();
    let out = debug_line(b"abc", &config);
    assert_eq!(out, vec![b"abc".to_vec(), b"___".to_vec()]);
    // an empty record still gets a one-column underline
    let out = debug_line(b"", &config);
    assert_eq!(out, vec![b"".to_vec(), b"_".to_vec()]);
}

#[test]
fn test_debug_input_concatenates_blocks() {
    let config = default_config();
    let records = vec![b"x".to_vec(), b"yz".to_vec()];
    let out = debug_input(&records, &config);
    assert_eq!(
        out,
        vec![b"x".to_vec(), b"_".to_vec(), b"yz".to_vec(), b"__".to_vec()]
    );
}

// ============================================================
// Output without trailing delimiter
// ============================================================

#[test]
fn test_write_records_no_trailing() {
    let records: Vec<Vec<u8>> = vec![b"a".to_vec(), b"b".to_vec()];
    let config = default_config();
    assert_eq!(write_records(&records, &config, false), b"a\nb");
    assert_eq!(write_records(&records, &config, true), b"a\nb\n");
}
