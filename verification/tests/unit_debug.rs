//! Unit tests of the debug span renderer.

use rsort::config::Config;
use rsort::debug::debug_line;
use rsort::key::KeySpec;

fn test_config() -> Config {
    Config {
        reverse: false,
        numeric: false,
        fold_case: false,
        unique: false,
        stable: false,
        debug: true,
        record_delimiter: b'\n',
        field_separator: None,
        keys: vec![],
        output_file: None,
        input_files: vec![],
    }
}

fn lines_to_string(lines: &[Vec<u8>]) -> String {
    let mut s = String::new();
    for line in lines {
        s.push_str(&String::from_utf8_lossy(line));
        s.push('\n');
    }
    s
}

#[test]
fn test_debug_whole_line() {
    let config = test_config();
    let output = debug_line(b"hello", &config);
    let output_str = lines_to_string(&output);
    assert!(output_str.contains("hello"));
    assert!(output_str.contains("_____"));
}

#[test]
fn test_debug_with_key() {
    let mut config = test_config();
    config.keys = vec![KeySpec::parse("2,2").unwrap()];
    let output = debug_line(b"foo bar baz", &config);
    let output_str = lines_to_string(&output);
    assert!(output_str.contains("foo bar baz"));
    // underscores must mark "bar"
    assert!(output_str.contains("___"));
}
