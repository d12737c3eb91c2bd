use gpat::archive::{check_ext, parse_patch_name, patch_file_name, validate_listing, ArchiveEntry};
use gpat::errors::SyncError;

fn file(name: &str) -> ArchiveEntry {
    ArchiveEntry { name: name.as_bytes().to_vec(), is_file: true }
}

fn dir(name: &str) -> ArchiveEntry {
    ArchiveEntry { name: name.as_bytes().to_vec(), is_file: false }
}

#[test]
fn check_ext_accepts_patch_names() {
    assert!(check_ext(b"10.patch"));
    assert!(check_ext(b"-5.patch"));
    assert!(check_ext(b"a.b.patch"));
    assert!(check_ext(b"..patch"));
}

#[test]
fn check_ext_rejects_other_names() {
    assert!(!check_ext(b"notes.txt"));
    assert!(!check_ext(b".patch"));
    assert!(!check_ext(b"patch"));
    assert!(!check_ext(b"10patch"));
    assert!(!check_ext(b""));
    assert!(!check_ext(b"10.patch.bak"));
}

#[test]
fn parse_accepts_well_formed_names() {
    assert_eq!(parse_patch_name(b"0.patch"), Some(0));
    assert_eq!(parse_patch_name(b"10.patch"), Some(10));
    assert_eq!(parse_patch_name(b"-5.patch"), Some(-5));
    assert_eq!(parse_patch_name(b"007.patch"), Some(7));
    assert_eq!(parse_patch_name(b"-0.patch"), Some(0));
    assert_eq!(parse_patch_name(b"1700000000.patch"), Some(1_700_000_000));
}

#[test]
fn parse_handles_the_64_bit_bounds() {
    assert_eq!(parse_patch_name(b"9223372036854775807.patch"), Some(i64::MAX));
    assert_eq!(parse_patch_name(b"-9223372036854775808.patch"), Some(i64::MIN));
    assert_eq!(parse_patch_name(b"9223372036854775808.patch"), None);
    assert_eq!(parse_patch_name(b"-9223372036854775809.patch"), None);
    assert_eq!(parse_patch_name(b"99999999999999999999.patch"), None);
}

#[test]
fn parse_rejects_malformed_names() {
    assert_eq!(parse_patch_name(b"notes.txt"), None);
    assert_eq!(parse_patch_name(b".patch"), None);
    assert_eq!(parse_patch_name(b"-.patch"), None);
    assert_eq!(parse_patch_name(b"1 0.patch"), None);
    assert_eq!(parse_patch_name(b"a10.patch"), None);
    assert_eq!(parse_patch_name(b"10a.patch"), None);
    assert_eq!(parse_patch_name(b"10.patch.bak"), None);
    assert_eq!(parse_patch_name(b"10.Patch"), None);
    assert_eq!(parse_patch_name(b""), None);
}

#[test]
fn format_renders_canonical_names() {
    assert_eq!(patch_file_name(0), b"0.patch".to_vec());
    assert_eq!(patch_file_name(7), b"7.patch".to_vec());
    assert_eq!(patch_file_name(1234567890), b"1234567890.patch".to_vec());
    assert_eq!(patch_file_name(-123), b"-123.patch".to_vec());
    assert_eq!(patch_file_name(i64::MAX), b"9223372036854775807.patch".to_vec());
    assert_eq!(patch_file_name(i64::MIN), b"-9223372036854775808.patch".to_vec());
}

#[test]
fn format_then_parse_gives_the_timestamp_back() {
    for &t in &[0i64, 1, -1, 10, 99, -100, 1_700_000_000, i64::MAX, i64::MIN] {
        let name = patch_file_name(t);
        assert_eq!(parse_patch_name(&name), Some(t));
    }
}

#[test]
fn listing_sorts_by_numeric_timestamp() {
    let entries = vec![file("30.patch"), file("10.patch"), file("20.patch"), file("-1.patch")];
    assert_eq!(validate_listing(&entries), Ok(vec![-1, 10, 20, 30]));
}

#[test]
fn listing_of_an_empty_archive_is_empty() {
    let entries: Vec<ArchiveEntry> = Vec::new();
    assert_eq!(validate_listing(&entries), Ok(Vec::new()));
}

#[test]
fn listing_fails_on_a_foreign_file() {
    let entries = vec![file("10.patch"), file("notes.txt"), file("20.patch")];
    assert_eq!(
        validate_listing(&entries),
        Err(SyncError::MalformedArchiveEntry { position: 1 })
    );
}

#[test]
fn listing_fails_on_a_non_regular_entry() {
    let entries = vec![dir("10.patch")];
    assert_eq!(
        validate_listing(&entries),
        Err(SyncError::MalformedArchiveEntry { position: 0 })
    );
}

#[test]
fn listing_reports_the_first_bad_position() {
    let entries = vec![file("x"), file("notes.txt")];
    assert_eq!(
        validate_listing(&entries),
        Err(SyncError::MalformedArchiveEntry { position: 0 })
    );
}

#[test]
fn listing_fails_on_a_duplicated_timestamp() {
    let entries = vec![file("10.patch"), file("010.patch")];
    assert_eq!(validate_listing(&entries), Err(SyncError::DuplicateTimestamp { timestamp: 10 }));
}

#[test]
fn listing_reports_the_smallest_duplicated_timestamp() {
    let entries = vec![file("20.patch"), file("020.patch"), file("10.patch"), file("010.patch")];
    assert_eq!(validate_listing(&entries), Err(SyncError::DuplicateTimestamp { timestamp: 10 }));
}
