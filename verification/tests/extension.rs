use rust_csv_parser::error::{check_extension, is_csv_extension};
use rust_csv_parser::CsvError;

#[test]
fn the_extension_csv_is_accepted() {
    assert_eq!(check_extension(Some("csv")), Ok(()));
    assert!(is_csv_extension("csv"));
}

#[test]
fn another_extension_is_refused() {
    for ext in ["txt", "CSV", "csvx", "cs", "", "c\u{e9}v", "tsv"] {
        assert_eq!(check_extension(Some(ext)), Err(CsvError::InvalidInput));
        assert!(!is_csv_extension(ext));
    }
}

#[test]
fn a_missing_extension_is_refused() {
    assert_eq!(check_extension(None), Err(CsvError::InvalidInput));
}
