//! End-to-end tests of the whole pipeline, checked against the exact
//! byte output the reference Unix tool produces under the C locale for
//! the same input and flags.

use rsort::config::Config;
use rsort::input::read_all_records;
use rsort::output::write_records;
use rsort::sort::sort_records;

/// Run the full pipeline with flag-style arguments, as the command-line
/// front end would.
fn run_sort(input: &[u8], args: &[&str]) -> Vec<u8> {
    let mut a = rsort::cli::Args {
        reverse: false,
        numeric: false,
        fold_case: false,
        unique: false,
        stable: false,
        output: None,
        delimiter: None,
        keys: vec![],
        zero_terminated: false,
        debug: false,
        files: vec![],
    };
    for arg in args {
        match *arg {
            "-r" => a.reverse = true,
            "-n" => a.numeric = true,
            "-f" => a.fold_case = true,
            "-u" => a.unique = true,
            "-s" => a.stable = true,
            "-z" => a.zero_terminated = true,
            s if s.starts_with("-t") => a.delimiter = Some(s[2..].to_string()),
            s if s.starts_with("-k") => a.keys.push(s[2..].to_string()),
            other => panic!("unsupported flag in test: {}", other),
        }
    }
    let config = Config::from_args(&a).unwrap();
    let (mut records, had_trailing) = read_all_records(input, config.record_delimiter);
    sort_records(&mut records, &config);
    write_records(&records, &config, had_trailing)
}

fn check(input: &[u8], args: &[&str], expected: &[u8]) {
    let got = run_sort(input, args);
    assert_eq!(
        got,
        expected,
        "args {:?}: got {:?}, expected {:?}",
        args,
        String::from_utf8_lossy(&got),
        String::from_utf8_lossy(expected)
    );
}

// ============================================================
// Basic functionality
// ============================================================

#[test]
fn differential_test_basic_sort() {
    check(b"c\nb\na\n", &[], b"a\nb\nc\n");
}

#[test]
fn test_already_sorted() {
    check(b"a\nb\nc\n", &[], b"a\nb\nc\n");
}

#[test]
fn test_reverse_sorted() {
    check(b"c\nb\na\n", &[], b"a\nb\nc\n");
}

#[test]
fn test_single_line() {
    check(b"hello\n", &[], b"hello\n");
}

#[test]
fn test_empty_input() {
    check(b"", &[], b"");
}

// ============================================================
// Reverse
// ============================================================

#[test]
fn test_reverse() {
    check(b"a\nb\nc\n", &["-r"], b"c\nb\na\n");
}

#[test]
fn test_reverse_with_duplicates() {
    check(b"a\nb\na\nc\nb\n", &["-r"], b"c\nb\nb\na\na\n");
}

// ============================================================
// Numeric
// ============================================================

#[test]
fn test_numeric() {
    check(b"10\n2\n1\n", &["-n"], b"1\n2\n10\n");
}

#[test]
fn differential_test_numeric_negative() {
    check(b"5\n-3\n0\n-10\n3\n", &["-n"], b"-10\n-3\n0\n3\n5\n");
}

#[test]
fn differential_test_numeric_leading_zeros() {
    // equal values fall to the bytewise last resort: "007" < "7"
    check(b"007\n7\n08\n8\n", &["-n"], b"007\n7\n08\n8\n");
}

#[test]
fn test_numeric_negative_zero() {
    // all three are numerically zero; last resort orders '+' < '-' < '0'
    check(b"-0\n0\n+0\n", &["-n"], b"+0\n-0\n0\n");
}

#[test]
fn test_numeric_decimal() {
    check(b"1.5\n1.10\n1.9\n", &["-n"], b"1.10\n1.5\n1.9\n");
}

#[test]
fn test_numeric_scientific_not_supported() {
    // "1e5" parses as 1: the exponent marker terminates parsing
    check(b"1e5\n100\n1000\n", &["-n"], b"1e5\n100\n1000\n");
}

#[test]
fn differential_test_numeric_empty_is_zero() {
    check(b"\n5\n-3\n\n", &["-n"], b"-3\n\n\n5\n");
}

#[test]
fn test_numeric_non_numeric_prefix() {
    // all zero-valued lines tie, then sort bytewise: "0" < "abc" < "xyz"
    check(b"abc\n5\nxyz\n0\n", &["-n"], b"0\nabc\nxyz\n5\n");
}

#[test]
fn test_numeric_whitespace_prefix() {
    check(b"  10\n2\n   1\n", &["-n"], b"   1\n2\n  10\n");
}

#[test]
fn test_numeric_reverse() {
    check(b"1\n10\n2\n", &["-n", "-r"], b"10\n2\n1\n");
}

// ============================================================
// Case folding
// ============================================================

#[test]
fn differential_test_fold_case() {
    check(b"B\na\nA\nb\n", &["-f"], b"A\na\nB\nb\n");
}

#[test]
fn differential_test_fold_case_mixed() {
    check(
        b"Apple\napple\nAPPLE\nBanana\nbanana\n",
        &["-f"],
        b"APPLE\nApple\napple\nBanana\nbanana\n",
    );
}

#[test]
fn test_fold_case_reverse() {
    check(b"a\nA\nb\nB\n", &["-f", "-r"], b"b\nB\na\nA\n");
}

// ============================================================
// Unique
// ============================================================

#[test]
fn test_unique() {
    check(b"a\na\nb\n", &["-u"], b"a\nb\n");
}

#[test]
fn test_unique_by_key_not_line() {
    check(b"a 1\na 2\nb 1\n", &["-u", "-k1,1"], b"a 1\nb 1\n");
}

#[test]
fn test_unique_preserves_first() {
    // first in sorted order survives; the sort is stable under -u
    check(b"B\nb\nA\na\n", &["-u", "-f"], b"A\nB\n");
}

#[test]
fn test_unique_with_numeric() {
    check(b"7\n007\n7\n", &["-u", "-n"], b"7\n");
}

#[test]
fn test_unique_consecutive_only() {
    check(b"a\nb\na\nb\na\n", &["-u"], b"a\nb\n");
}

// ============================================================
// Stable sort
// ============================================================

#[test]
fn test_stable() {
    check(b"b 1\na 2\nb 2\na 1\n", &["-s", "-k1,1"], b"a 2\na 1\nb 1\nb 2\n");
}

#[test]
fn test_stable_preserves_input_order() {
    check(b"b X\na Y\nb Z\na W\n", &["-s", "-k1,1"], b"a Y\na W\nb X\nb Z\n");
}

#[test]
fn test_stable_with_fold() {
    check(b"B\na\nb\nA\n", &["-s", "-f"], b"a\nA\nB\nb\n");
}

#[test]
fn test_stable_with_numeric() {
    check(
        b"10 a\n10 b\n2 c\n2 d\n",
        &["-s", "-k1,1", "-n"],
        b"2 c\n2 d\n10 a\n10 b\n",
    );
}

// ============================================================
// Key specifications
// ============================================================

#[test]
fn test_key_single_field() {
    check(b"x 3\ny 1\nz 2\n", &["-k2,2", "-n"], b"y 1\nz 2\nx 3\n");
}

#[test]
fn test_key_field_range() {
    check(b"a b c\nd e f\ng h i\n", &["-k2,3"], b"a b c\nd e f\ng h i\n");
}

#[test]
fn test_key_field_beyond_end() {
    check(b"a\na b\na b c\n", &["-k3,3"], b"a\na b\na b c\n");
}

#[test]
fn test_key_char_beyond_end() {
    check(b"ab\nabc\nabcd\n", &["-k1.10,1.20"], b"ab\nabc\nabcd\n");
}

#[test]
fn test_key_multiple_keys() {
    // with -n both keys parse numerically; "a" and "b" both count as 0,
    // so the second key decides, and full ties fall to the last resort
    check(b"a 2\na 1\nb 1\n", &["-k1,1", "-k2,2", "-n"], b"a 1\nb 1\na 2\n");
}

#[test]
fn test_key_overlapping() {
    check(b"abc\nbcd\nabc\n", &["-k1.1,1.2", "-k1.2,1.3"], b"abc\nabc\nbcd\n");
}

#[test]
fn test_key_char_positions() {
    check(b"xabc\nxdef\nxghi\n", &["-k1.2,1.4"], b"xabc\nxdef\nxghi\n");
}

// ============================================================
// Field delimiters
// ============================================================

#[test]
fn test_delimiter_colon() {
    check(b"a:3\nb:1\nc:2\n", &["-t:", "-k2,2", "-n"], b"b:1\nc:2\na:3\n");
}

#[test]
fn test_delimiter_tab() {
    check(b"a\t3\nb\t1\nc\t2\n", &["-t\t", "-k2,2", "-n"], b"b\t1\nc\t2\na\t3\n");
}

#[test]
fn test_delimiter_consecutive() {
    check(b"a::c\na:b:c\n", &["-t:", "-k2,2"], b"a::c\na:b:c\n");
}

#[test]
fn test_delimiter_at_end() {
    check(b"a:b:\na:b:c\n", &["-t:", "-k3,3"], b"a:b:\na:b:c\n");
}

#[test]
fn test_delimiter_at_start() {
    check(b":a:b\nc:d:e\n", &["-t:", "-k1,1"], b":a:b\nc:d:e\n");
}

// ============================================================
// NUL record delimiter
// ============================================================

#[test]
fn test_zero_terminated() {
    check(b"c\0b\0a\0", &["-z"], b"a\0b\0c\0");
}

#[test]
fn test_zero_terminated_with_newlines() {
    check(b"c\nd\0a\nb\0", &["-z"], b"a\nb\0c\nd\0");
}

#[test]
fn test_zero_terminated_numeric() {
    check(b"10\x002\x001\x00", &["-z", "-n"], b"1\x002\x0010\x00");
}

// ============================================================
// Last-resort edge cases
// ============================================================

#[test]
fn differential_test_last_resort_ignores_numeric() {
    check(b"10\n010\n", &["-n"], b"010\n10\n");
}

#[test]
fn differential_test_last_resort_ignores_fold() {
    check(b"a\nA\n", &["-f"], b"A\na\n");
    check(b"A\na\n", &["-f"], b"A\na\n");
}

#[test]
fn differential_test_last_resort_with_reverse() {
    check(b"a\nA\n", &["-f", "-r"], b"a\nA\n");
    check(b"A\na\n", &["-f", "-r"], b"a\nA\n");
}

#[test]
fn test_last_resort_numeric_ties() {
    check(
        b"1 apple\n1 banana\n01 cherry\n",
        &["-n", "-k1,1"],
        b"01 cherry\n1 apple\n1 banana\n",
    );
}

// ============================================================
// Empty and whitespace edge cases
// ============================================================

#[test]
fn test_empty_lines() {
    check(b"\n\na\n\nb\n\n", &[], b"\n\n\n\na\nb\n");
}

#[test]
fn test_only_empty_lines() {
    check(b"\n\n\n", &[], b"\n\n\n");
}

#[test]
fn test_whitespace_only_lines() {
    check(b"   \n\t\n  \t  \n", &[], b"\t\n  \t  \n   \n");
}

#[test]
fn test_mixed_empty_and_content() {
    check(b"\na\n\nb\n\nc\n\n", &[], b"\n\n\n\na\nb\nc\n");
}

// ============================================================
// Binary and high-byte edge cases
// ============================================================

#[test]
fn test_binary_bytes() {
    check(b"\xff\n\x80\n\x00\n\x7f\n", &[], b"\x00\n\x7f\n\x80\n\xff\n");
}

#[test]
fn test_embedded_nul() {
    check(b"a\x00z\na\x00a\nb\n", &[], b"a\x00a\na\x00z\nb\n");
}

#[test]
fn test_high_bytes_order() {
    check(b"\x7f\n\x80\n\xff\n", &[], b"\x7f\n\x80\n\xff\n");
}

#[test]
fn test_all_byte_values() {
    let mut input = Vec::new();
    for b in [0x00u8, 0x01, 0x7e, 0x7f, 0x80, 0x81, 0xfe, 0xff] {
        input.push(b);
        input.push(b'\n');
    }
    // the byte values are already in unsigned order
    check(&input, &[], &input);
}

// ============================================================
// No trailing newline
// ============================================================

#[test]
fn test_no_trailing_newline() {
    // the reference tool always ends its output with the delimiter
    check(b"b\na", &[], b"a\nb\n");
}

#[test]
fn test_no_trailing_newline_single() {
    check(b"hello", &[], b"hello\n");
}

#[test]
fn test_no_trailing_newline_empty() {
    check(b"", &[], b"");
}

// ============================================================
// Reverse with other options
// ============================================================

#[test]
fn test_reverse_stable() {
    check(b"a\nb\na\n", &["-r", "-s"], b"b\na\na\n");
}

#[test]
fn test_reverse_unique() {
    check(b"a\nb\na\nb\n", &["-r", "-u"], b"b\na\n");
}

#[test]
fn test_reverse_numeric_unique() {
    check(b"1\n2\n1\n2\n", &["-r", "-n", "-u"], b"2\n1\n");
}

// ============================================================
// Long inputs
// ============================================================

#[test]
fn test_very_long_line() {
    let long = "x".repeat(100000);
    let input = format!("{}\nshort\n", long);
    let expected = format!("short\n{}\n", long);
    check(input.as_bytes(), &[], expected.as_bytes());
}

#[test]
fn test_many_short_lines() {
    let mut input = String::new();
    for i in 0..1000 {
        input.push_str(&format!("line{}\n", i));
    }
    let mut lines: Vec<String> = (0..1000).map(|i| format!("line{}", i)).collect();
    lines.sort();
    let mut expected = String::new();
    for line in lines {
        expected.push_str(&line);
        expected.push('\n');
    }
    check(input.as_bytes(), &[], expected.as_bytes());
}

// ============================================================
// Combined flags
// ============================================================

#[test]
fn test_numeric_reverse_unique() {
    check(b"1\n2\n1\n3\n2\n", &["-n", "-r", "-u"], b"3\n2\n1\n");
}

#[test]
fn test_fold_stable_key() {
    check(
        b"Apple 1\napple 2\nBANANA 3\nbanana 4\n",
        &["-f", "-s", "-k1,1"],
        b"Apple 1\napple 2\nBANANA 3\nbanana 4\n",
    );
}

#[test]
fn test_numeric_key_unique() {
    check(b"x 10\ny 2\nz 10\nw 2\n", &["-n", "-k2,2", "-u"], b"y 2\nx 10\n");
}

#[test]
fn test_delimiter_numeric_reverse() {
    check(b"a:10\nb:2\nc:1\n", &["-t:", "-k2,2", "-n", "-r"], b"a:10\nb:2\nc:1\n");
}

// ============================================================
// Special characters
// ============================================================

#[test]
fn test_spaces_in_data() {
    check(b"  a\n a\na\n", &[], b"  a\n a\na\n");
}

#[test]
fn test_tabs_in_data() {
    check(b"\ta\n\t\ta\na\n", &[], b"\t\ta\n\ta\na\n");
}

#[test]
fn test_mixed_whitespace() {
    check(b" \ta\n\t a\n  a\n", &[], b"\t a\n \ta\n  a\n");
}

// ============================================================
// Duplicates
// ============================================================

#[test]
fn test_all_duplicates() {
    check(b"a\na\na\na\n", &[], b"a\na\na\na\n");
}

#[test]
fn test_all_duplicates_unique() {
    check(b"a\na\na\na\n", &["-u"], b"a\n");
}

#[test]
fn test_alternating_duplicates() {
    check(b"a\nb\na\nb\na\nb\n", &[], b"a\na\na\nb\nb\nb\n");
}

#[test]
fn test_alternating_duplicates_unique() {
    check(b"a\nb\na\nb\na\nb\n", &["-u"], b"a\nb\n");
}
