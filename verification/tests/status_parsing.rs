use git_ai::status::{parse_porcelain_v2, EntryKind, StatusCode, StatusError};
use git_ai::status::status;
use git_ai::status::{checkpoint_candidates, is_text_content, StatusEntry};

#[test]
fn parse_varied_porcelain_v2_records() {
    let mut raw = Vec::new();
    raw.extend_from_slice(b"1 MM N... 100644 100644 100644 1111111111111111111111111111111111111111 2222222222222222222222222222222222222222 src/lib.rs\0");
    raw.extend_from_slice(b"1 AM N... 100644 100755 100755 3333333333333333333333333333333333333333 4444444444444444444444444444444444444444 src/bin/cli.rs\0");
    raw.extend_from_slice(b"1 .U N... 100644 100644 100644 5555555555555555555555555555555555555555 6666666666666666666666666666666666666666 src/conflict.rs\0");
    raw.extend_from_slice(b"2 R. N... 100644 100644 100644 7777777777777777777777777777777777777777 8888888888888888888888888888888888888888 80 src/utils/helpers.rs\0old utils/helpers.rs\0");
    raw.extend_from_slice(b"2 C. N... 100644 100644 100644 9999999999999999999999999999999999999999 0000000000000000000000000000000000000000 60 scripts/setup.sh\0scripts/setup-old.sh\0");
    raw.extend_from_slice(b"1 D. N... 100644 000000 000000 aaaaaaaaaaaaaaaaaaaaaaaaaaaaaaaaaaaaaaaa 0000000000000000000000000000000000000000 docs/README.md\0");
    raw.extend_from_slice(b"1 A. N... 000000 100644 100644 0000000000000000000000000000000000000000 bbbbbbbbbbbbbbbbbbbbbbbbbbbbbbbbbbbbbbbb \"space dir\"/new file.txt\0");
    raw.extend_from_slice(b"1 M. N... 100644 100644 100644 cccccccccccccccccccccccccccccccccccccccc dddddddddddddddddddddddddddddddddddddddd path/with->symbol.rs\0");
    raw.extend_from_slice(b"? assets/logo (1).svg\0");
    raw.extend_from_slice(b"? dir with spaces/file name [draft].md\0");
    raw.extend_from_slice(b"! target/.keep\0");
    raw.extend_from_slice(b"u UU N... 100644 100644 100644 eeeeeeeeeeeeeeeeeeeeeeeeeeeeeeeeeeeeeeee ffffffffffffffffffffffffffffffffffffffff 1 2 3 some unmerged/path.txt\0");

    let entries = parse_porcelain_v2(&raw).expect("parse succeeds");

    assert_eq!(entries.len(), 12);
    assert!(entries
        .iter()
        .any(|e| e.path == "src/lib.rs" && e.staged == StatusCode::Modified));
    assert!(entries
        .iter()
        .any(|e| e.kind == EntryKind::Rename && e.orig_path.as_deref() == Some("old utils/helpers.rs")));
    assert!(entries
        .iter()
        .any(|e| e.kind == EntryKind::Copy && e.orig_path.as_deref() == Some("scripts/setup-old.sh")));
    assert!(entries.iter().any(|e| e.kind == EntryKind::Unmerged));
    assert!(entries.iter().any(|e| matches!(e.unstaged, StatusCode::Untracked)));
    assert!(entries.iter().any(|e| matches!(e.unstaged, StatusCode::Ignored)));

    // Paths keep their spaces; the unmerged record's path is everything after its fields.
    assert_eq!(entries[6].path, "\"space dir\"/new file.txt");
    assert_eq!(entries[8].path, "assets/logo (1).svg");
    assert_eq!(entries[10].path, "target/.keep");
    assert_eq!(entries[11].path, "1 2 3 some unmerged/path.txt");
    assert_eq!(entries[11].kind, EntryKind::Unmerged);
    assert_eq!(entries[2].unstaged, StatusCode::Unmerged);
    assert_eq!(entries[3].path, "src/utils/helpers.rs");
}

#[test]
fn status_code_from_char() {
    assert_eq!(StatusCode::from('M'), StatusCode::Modified);
    assert_eq!(StatusCode::from('.'), StatusCode::Unmodified);
    assert_eq!(StatusCode::from('?'), StatusCode::Untracked);
    assert_eq!(StatusCode::from('X'), StatusCode::Unknown('X'));
}

#[test]
fn empty_output_has_no_entries() {
    assert_eq!(parse_porcelain_v2(b"").unwrap().len(), 0);
    assert_eq!(parse_porcelain_v2(b"\0\0").unwrap().len(), 0);
}

#[test]
fn rename_without_original_path_is_refused() {
    let raw = b"2 R. N... 100644 100644 100644 7777 8888 80 new.rs\0";
    assert_eq!(parse_porcelain_v2(raw).unwrap_err(), StatusError::MissingOrigPath);
}

#[test]
fn unknown_tag_is_refused() {
    assert!(parse_porcelain_v2(b"# branch.oid abc\0").is_err());
}

#[test]
fn invalid_utf8_is_refused() {
    assert_eq!(parse_porcelain_v2(b"? \xff\xfe\0").unwrap_err(), StatusError::InvalidUtf8);
}

#[test]
fn missing_path_is_refused() {
    assert_eq!(
        parse_porcelain_v2(b"1 MM N... 100644 100644 100644 1111 2222\0").unwrap_err(),
        StatusError::MissingPath
    );
}

#[test]
fn wrong_xy_length_is_refused() {
    assert_eq!(
        parse_porcelain_v2(b"1 MMM N... 100644 100644 100644 1111 2222 a.rs\0").unwrap_err(),
        StatusError::BadXyLength
    );
}

#[test]
fn failed_git_status_is_an_error() {
    assert_eq!(status(false, b"? a\0").unwrap_err(), StatusError::GitFailed);
    assert_eq!(status(true, b"? a\0").unwrap()[0].path, "a");
}

fn entry(path: &str, staged: StatusCode, unstaged: StatusCode, kind: EntryKind) -> StatusEntry {
    StatusEntry { path: path.to_string(), staged, unstaged, kind, orig_path: None }
}

#[test]
fn checkpoints_look_at_changed_paths() {
    let entries = vec![
        entry("a.rs", StatusCode::Modified, StatusCode::Unmodified, EntryKind::Ordinary),
        entry("same.rs", StatusCode::Unmodified, StatusCode::Unmodified, EntryKind::Ordinary),
        entry("gone.rs", StatusCode::Unmodified, StatusCode::Deleted, EntryKind::Ordinary),
        entry("new.rs", StatusCode::Untracked, StatusCode::Untracked, EntryKind::Untracked),
        entry("x.log", StatusCode::Ignored, StatusCode::Ignored, EntryKind::Ignored),
        entry("c.rs", StatusCode::Unmerged, StatusCode::Unmerged, EntryKind::Unmerged),
        entry("d.rs", StatusCode::Deleted, StatusCode::Unmodified, EntryKind::Ordinary),
    ];
    assert_eq!(
        checkpoint_candidates(&entries),
        vec![
            ("a.rs".to_string(), false),
            ("gone.rs".to_string(), true),
            ("new.rs".to_string(), false),
            ("d.rs".to_string(), true)
        ]
    );
}

#[test]
fn text_content_has_no_zero_byte() {
    assert!(is_text_content(b"fn main() {}\n"));
    assert!(is_text_content(b""));
    assert!(!is_text_content(b"PNG\0\x01"));
}

#[test]
fn short_xy_field_is_found_before_parsing() {
    let plain = b"1 .M N... 100644 100644 100644 1111111111111111111111111111111111111111 2222222222222222222222222222222222222222 file.txt\0";
    assert!(!git_ai::status::reaches_short_xy_field(plain));
    let short = "1 \u{e9} N... 100644 100644 100644 1111111111111111111111111111111111111111 2222222222222222222222222222222222222222 file.txt\0";
    assert!(git_ai::status::reaches_short_xy_field(short.as_bytes()));
    assert!(!git_ai::status::reaches_short_xy_field(b""));
}
