use bk_over_ssh::manifest::{format_manifest_line, parse_manifest_line, ManifestError};
use bk_over_ssh::transfer::RemoteFileItem;

fn item(path: &str, len: u64, sha1: Option<&str>, modified: Option<&str>) -> RemoteFileItem {
    RemoteFileItem {
        path: path.to_string(),
        len,
        sha1: sha1.map(|s| s.to_string()),
        modified: modified.map(|s| s.to_string()),
    }
}

#[test]
fn manifest_line_of_fresh_pull_files() {
    let a = item("a.txt", 5, Some("AAF4C61DDCC5E8A2DABEDE0F3B482CD9AEA9434D"), None);
    assert_eq!(format_manifest_line(&a), "a.txt\t5\tAAF4C61DDCC5E8A2DABEDE0F3B482CD9AEA9434D\t-");
    let b = item("sub/b.bin", 1024, None, Some("2019-05-01T10:00:00+00:00"));
    assert_eq!(format_manifest_line(&b), "sub/b.bin\t1024\t-\t2019-05-01T10:00:00+00:00");
}

#[test]
fn manifest_escapes_tabs_newlines_and_percent() {
    let a = item("we\tird\n100%", 0, None, None);
    let line = format_manifest_line(&a);
    assert_eq!(line, "we%09ird%0A100%25\t0\t-\t-");
    let back = parse_manifest_line(&line).unwrap();
    assert_eq!(back.path, "we\tird\n100%");
    assert_eq!(back.len, 0);
    assert!(back.sha1.is_none() && back.modified.is_none());
}

#[test]
fn manifest_round_trip_large_length() {
    let a = item("x", u64::MAX, Some("ab"), Some("t"));
    let back = parse_manifest_line(&format_manifest_line(&a)).unwrap();
    assert_eq!(back.len, u64::MAX);
    assert_eq!(back.sha1.as_deref(), Some("ab"));
    assert_eq!(back.modified.as_deref(), Some("t"));
}

#[test]
fn manifest_errors() {
    assert_eq!(parse_manifest_line("a\t5\t-").err(), Some(ManifestError::FieldCount));
    assert_eq!(parse_manifest_line("a\t5\t-\t-\tx").err(), Some(ManifestError::FieldCount));
    assert_eq!(parse_manifest_line("a\t05\t-\t-").err(), Some(ManifestError::BadLength));
    assert_eq!(parse_manifest_line("a\t\t-\t-").err(), Some(ManifestError::BadLength));
    assert_eq!(parse_manifest_line("a\t18446744073709551616\t-\t-").err(), Some(ManifestError::BadLength));
    assert_eq!(parse_manifest_line("a%2\t5\t-\t-").err(), Some(ManifestError::BadEscape));
    assert_eq!(parse_manifest_line("a%41\t5\t-\t-").err(), Some(ManifestError::BadEscape));
    assert_eq!(parse_manifest_line("a\n\t5\t-\t-").err(), Some(ManifestError::BadEscape));
}
