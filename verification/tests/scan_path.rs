//! Reading the scan-path setting.

use bqlite_operators::scan::path::ScanPath;

#[test]
fn scan_path_default_is_auto() {
    assert_eq!(ScanPath::default(), ScanPath::Auto);
}

#[test]
fn scan_path_parse_accepts_all_variants_case_insensitive() {
    assert_eq!(ScanPath::parse("materialized"), Some(ScanPath::Materialized));
    assert_eq!(ScanPath::parse("MATERIALIZED"), Some(ScanPath::Materialized));
    assert_eq!(ScanPath::parse("encoded"), Some(ScanPath::Encoded));
    assert_eq!(ScanPath::parse("  Auto  "), Some(ScanPath::Auto));
}

#[test]
fn scan_path_parse_rejects_unknown() {
    assert_eq!(ScanPath::parse("nope"), None);
    assert_eq!(ScanPath::parse(""), None);
}

#[test]
fn only_ascii_letters_are_folded() {
    assert_eq!(ScanPath::parse("\tENCODED\n"), Some(ScanPath::Encoded));
    assert_eq!(ScanPath::parse("\u{3000}auto\u{a0}"), Some(ScanPath::Auto));
    assert_eq!(ScanPath::parse("en coded"), None);
    assert_eq!(ScanPath::parse("\u{212a}"), None);
}
