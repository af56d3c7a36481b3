//! Unit tests of output serialization and deduplication.

use rsort::config::Config;
use rsort::key::KeySpec;
use rsort::output::write_records;

fn test_config() -> Config {
    Config {
        reverse: false,
        numeric: false,
        fold_case: false,
        unique: false,
        stable: false,
        debug: false,
        record_delimiter: b'\n',
        field_separator: None,
        keys: vec![],
        output_file: None,
        input_files: vec![],
    }
}

#[test]
fn test_write_all() {
    let records: Vec<Vec<u8>> = vec![b"a".to_vec(), b"b".to_vec(), b"c".to_vec()];
    let config = test_config();
    let output = write_records(&records, &config, true);
    assert_eq!(output, b"a\nb\nc\n");
}

#[test]
fn test_write_unique() {
    let records: Vec<Vec<u8>> = vec![
        b"a".to_vec(),
        b"a".to_vec(),
        b"b".to_vec(),
        b"b".to_vec(),
        b"c".to_vec(),
    ];
    let mut config = test_config();
    config.unique = true;
    let output = write_records(&records, &config, true);
    assert_eq!(output, b"a\nb\nc\n");
}

#[test]
fn test_write_unique_by_key() {
    // With unique mode and a key on field 1, records sharing the first
    // field are duplicates.
    let records: Vec<Vec<u8>> = vec![b"a 1".to_vec(), b"a 2".to_vec(), b"b 1".to_vec()];
    let mut config = test_config();
    config.unique = true;
    config.keys = vec![KeySpec::parse("1,1").unwrap()];
    let output = write_records(&records, &config, true);
    assert_eq!(output, b"a 1\nb 1\n");
}

#[test]
fn test_write_nul_delimiter() {
    let records: Vec<Vec<u8>> = vec![b"a".to_vec(), b"b".to_vec()];
    let mut config = test_config();
    config.record_delimiter = 0u8;
    let output = write_records(&records, &config, true);
    assert_eq!(output, b"a\0b\0");
}
