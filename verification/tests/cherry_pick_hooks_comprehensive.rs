use git_ai::rewrite_args::{
    parse_amend_authorship_args, parse_cherry_pick_authorship_args, parse_rebase_authorship_args,
    RewriteArgsError,
};

#[test]
fn test_parse_single_commit() {
    let args = vec!["abc123".to_string()];

    // Simulate commit parsing
    let commits: Vec<String> = args
        .iter()
        .filter(|a| !a.starts_with('-'))
        .cloned()
        .collect();

    assert_eq!(commits.len(), 1);
    assert_eq!(commits[0], "abc123");
}

#[test]
fn test_parse_multiple_commits() {
    let args = vec![
        "commit1".to_string(),
        "commit2".to_string(),
        "commit3".to_string(),
    ];

    let commits: Vec<String> = args
        .iter()
        .filter(|a| !a.starts_with('-'))
        .cloned()
        .collect();

    assert_eq!(commits.len(), 3);
    assert_eq!(commits[0], "commit1");
    assert_eq!(commits[1], "commit2");
    assert_eq!(commits[2], "commit3");
}

#[test]
fn test_parse_commits_with_flags() {
    let args = vec![
        "-x".to_string(),
        "commit1".to_string(),
        "--edit".to_string(),
        "commit2".to_string(),
    ];

    let commits: Vec<String> = args
        .iter()
        .filter(|a| !a.starts_with('-'))
        .cloned()
        .collect();

    assert_eq!(commits.len(), 2);
    assert_eq!(commits[0], "commit1");
    assert_eq!(commits[1], "commit2");
}

#[test]
fn test_filter_flag_with_value() {
    let args = vec!["-m".to_string(), "1".to_string(), "commit1".to_string()];

    // Simulate filtering -m and its value
    let mut filtered = Vec::new();
    let mut i = 0;
    while i < args.len() {
        if args[i] == "-m" || args[i] == "--mainline" {
            i += 2; // Skip flag and value
        } else if args[i].starts_with('-') {
            i += 1; // Skip flag
        } else {
            filtered.push(args[i].clone());
            i += 1;
        }
    }

    assert_eq!(filtered.len(), 1);
    assert_eq!(filtered[0], "commit1");
}

#[test]
fn test_filter_special_keywords() {
    let args = vec![
        "continue".to_string(),
        "abort".to_string(),
        "quit".to_string(),
        "skip".to_string(),
        "commit1".to_string(),
    ];

    let keywords = vec!["continue", "abort", "quit", "skip"];
    let commits: Vec<String> = args
        .iter()
        .filter(|a| !keywords.contains(&a.as_str()))
        .cloned()
        .collect();

    assert_eq!(commits.len(), 1);
    assert_eq!(commits[0], "commit1");
}

#[test]
fn test_detect_commit_range() {
    let ref1 = "commit1..commit2";
    let ref2 = "commit1^..commit2";
    let ref3 = "commit1";

    assert!(ref1.contains(".."));
    assert!(ref2.contains(".."));
    assert!(!ref3.contains(".."));
}

#[test]
fn test_range_expansion_format() {
    // Test the expected format for git rev-list
    let range = "A..B";
    let reverse_flag = "--reverse";

    let expected_args = vec!["rev-list", reverse_flag, range];

    assert_eq!(expected_args.len(), 3);
    assert_eq!(expected_args[0], "rev-list");
    assert_eq!(expected_args[1], "--reverse");
    assert_eq!(expected_args[2], "A..B");
}

#[test]
fn test_commit_mapping_reversal() {
    let mut commits = vec![
        "commit3".to_string(),
        "commit2".to_string(),
        "commit1".to_string(),
    ];

    // Reverse to get chronological order
    commits.reverse();

    assert_eq!(commits[0], "commit1");
    assert_eq!(commits[1], "commit2");
    assert_eq!(commits[2], "commit3");
}

#[test]
fn test_empty_commit_mapping() {
    let commits: Vec<String> = vec![];

    assert_eq!(commits.len(), 0);
    // Should handle empty case gracefully
}

#[test]
fn test_dry_run_detection() {
    let args1 = vec![
        "cherry-pick".to_string(),
        "--dry-run".to_string(),
        "commit".to_string(),
    ];
    let args2 = vec!["cherry-pick".to_string(), "commit".to_string()];

    let is_dry_run_1 = args1.iter().any(|a| a == "--dry-run");
    let is_dry_run_2 = args2.iter().any(|a| a == "--dry-run");

    assert!(is_dry_run_1);
    assert!(!is_dry_run_2);
}

#[test]
fn test_dry_run_skips_post_hook() {
    let args = vec!["--dry-run".to_string()];

    if args.iter().any(|a| a == "--dry-run") {
        // Should return early
        assert!(true);
    } else {
        panic!("Should have detected dry-run");
    }
}

#[test]
fn test_head_unchanged_detection() {
    let original_head = "abc123";
    let new_head = "abc123";

    if original_head == new_head {
        // Cherry-pick resulted in no changes
        assert!(true);
    } else {
        panic!("Heads should be equal");
    }
}

#[test]
fn test_head_changed_detection() {
    let original_head = "abc123";
    let new_head = "def456";

    if original_head == new_head {
        panic!("Heads should differ");
    } else {
        // Cherry-pick created new commits
        assert!(true);
    }
}

#[test]
fn test_strategy_flag_filtering() {
    let args = vec![
        "-s".to_string(),
        "recursive".to_string(),
        "commit1".to_string(),
    ];

    // Filter -s and its value
    let mut filtered = Vec::new();
    let mut i = 0;
    while i < args.len() {
        if args[i] == "-s" || args[i] == "--strategy" {
            i += 2;
        } else if args[i].starts_with('-') {
            i += 1;
        } else {
            filtered.push(args[i].clone());
            i += 1;
        }
    }

    assert_eq!(filtered.len(), 1);
    assert_eq!(filtered[0], "commit1");
}

#[test]
fn test_mainline_flag_filtering() {
    let args = vec![
        "--mainline".to_string(),
        "1".to_string(),
        "commit1".to_string(),
    ];

    // Filter --mainline and its value
    let mut filtered = Vec::new();
    let mut i = 0;
    while i < args.len() {
        if args[i] == "-m" || args[i] == "--mainline" {
            i += 2;
        } else if args[i].starts_with('-') {
            i += 1;
        } else {
            filtered.push(args[i].clone());
            i += 1;
        }
    }

    assert_eq!(filtered.len(), 1);
    assert_eq!(filtered[0], "commit1");
}

#[test]
fn test_resolve_commit_sha_format() {
    // Test rev-parse argument format
    let commit_ref = "HEAD~1";
    let args = vec!["rev-parse".to_string(), commit_ref.to_string()];

    assert_eq!(args[0], "rev-parse");
    assert_eq!(args[1], "HEAD~1");
}

#[test]
fn test_resolve_symbolic_refs() {
    let refs = vec!["HEAD", "main", "feature", "HEAD~1", "abc123"];

    for ref_str in refs {
        // Each would be resolved via git rev-parse
        assert!(!ref_str.is_empty());
    }
}

fn strings(v: &[&str]) -> Vec<String> {
    v.iter().map(|s| s.to_string()).collect()
}

#[test]
fn cherry_pick_authorship_args() {
    let a = parse_cherry_pick_authorship_args(&strings(&[
        "--source-commits", "a1", "a2", "--new-commits", "b1", "b2", "--dry-run",
    ]))
    .unwrap();
    assert_eq!(a.source_commits, strings(&["a1", "a2"]));
    assert_eq!(a.new_commits, strings(&["b1", "b2"]));
    assert!(a.dry_run);

    assert_eq!(
        parse_cherry_pick_authorship_args(&strings(&["--new-commits", "b1"])).unwrap_err(),
        RewriteArgsError::MissingSourceCommits
    );
    assert_eq!(
        parse_cherry_pick_authorship_args(&strings(&["--source-commits", "a1"])).unwrap_err(),
        RewriteArgsError::MissingNewCommits
    );
    assert_eq!(
        parse_cherry_pick_authorship_args(&strings(&["a1"])).unwrap_err(),
        RewriteArgsError::UnexpectedArgument("a1".to_string())
    );
    assert_eq!(
        parse_cherry_pick_authorship_args(&strings(&["--source-commits", "a", "--bogus"])).unwrap_err(),
        RewriteArgsError::UnknownFlag("--bogus".to_string())
    );
}

#[test]
fn rebase_authorship_args() {
    let a = parse_rebase_authorship_args(&strings(&[
        "head0", "--original-commits", "o1", "o2", "--new-commits", "n1",
    ]))
    .unwrap();
    assert_eq!(a.original_head, "head0");
    assert_eq!(a.original_commits, strings(&["o1", "o2"]));
    assert_eq!(a.new_commits, strings(&["n1"]));
    assert!(!a.dry_run);

    assert_eq!(
        parse_rebase_authorship_args(&strings(&["--original-commits", "o1", "--new-commits", "n1"]))
            .unwrap_err(),
        RewriteArgsError::MissingOriginalHead
    );
    assert_eq!(
        parse_rebase_authorship_args(&strings(&["h", "x"])).unwrap_err(),
        RewriteArgsError::UnexpectedArgument("x".to_string())
    );
}

#[test]
fn amend_authorship_args() {
    let a = parse_amend_authorship_args(&strings(&["--dry-run", "old", "new"])).unwrap();
    assert_eq!(a.old_sha, "old");
    assert_eq!(a.new_sha, "new");
    assert!(a.dry_run);
    assert_eq!(parse_amend_authorship_args(&strings(&[])).unwrap_err(), RewriteArgsError::MissingOldSha);
    assert_eq!(
        parse_amend_authorship_args(&strings(&["old"])).unwrap_err(),
        RewriteArgsError::MissingNewSha
    );
    assert_eq!(
        parse_amend_authorship_args(&strings(&["a", "b", "c"])).unwrap_err(),
        RewriteArgsError::UnexpectedArgument("c".to_string())
    );
    assert_eq!(
        parse_amend_authorship_args(&strings(&["--force"])).unwrap_err(),
        RewriteArgsError::UnknownFlag("--force".to_string())
    );
}
