use git_ai::line_stats::{compute_line_stats, tally_fits, tally_line_changes, LineChange, LineChangeKind, LineStats};

fn zero() -> LineStats {
    LineStats { additions: 0, deletions: 0, additions_sloc: 0, deletions_sloc: 0 }
}

fn change(kind: LineChangeKind, value: &str) -> LineChange {
    LineChange { kind, value: value.to_string() }
}

#[test]
fn line_diff_counts_added_and_deleted_lines() {
    let files = vec![("a\nb\nc\n".to_string(), "a\nB\nc\n  \nd\n".to_string())];
    let st = compute_line_stats(&files).unwrap();
    assert_eq!(st, LineStats { additions: 3, deletions: 1, additions_sloc: 2, deletions_sloc: 1 });
}

#[test]
fn line_stats_sum_over_files() {
    let files = vec![
        ("".to_string(), "x\ny\n".to_string()),
        ("old\n\t\n".to_string(), "".to_string()),
        ("same\n".to_string(), "same\n".to_string()),
    ];
    let st = compute_line_stats(&files).unwrap();
    assert_eq!(st, LineStats { additions: 2, deletions: 2, additions_sloc: 2, deletions_sloc: 1 });
    assert_eq!(compute_line_stats(&[]).unwrap(), zero());
}

#[test]
fn tallies_count_lines_by_change_kind() {
    let changes = vec![
        change(LineChangeKind::Insert, "x\n"),
        change(LineChangeKind::Delete, " \u{3000}\n"),
        change(LineChangeKind::Equal, "y"),
        change(LineChangeKind::Insert, "z"),
    ];
    let start = LineStats { additions: 10, deletions: 0, additions_sloc: 0, deletions_sloc: 0 };
    assert!(tally_fits(start, &changes));
    assert_eq!(
        tally_line_changes(start, &changes),
        LineStats { additions: 12, deletions: 1, additions_sloc: 2, deletions_sloc: 0 }
    );
    let full = LineStats { additions: u32::MAX, deletions: 0, additions_sloc: 0, deletions_sloc: 0 };
    assert!(!tally_fits(full, &changes));
}
