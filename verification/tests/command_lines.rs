use git_ai::blame_args::{parse_blame_args, parse_line_range, BlameArgsError, GitAiBlameOptions};
use git_ai::config::{is_allowed_repository, valid_patterns, FeatureFlags, FileFeatureFlags, UpdateChannel};
use git_ai::hooks::{
    post_command_action, PostCommandAction,
    extract_remote_from_push_args, is_push_option_with_inline_value, option_consumes_separate_value,
    pre_stash_hook, push_notes_remote, push_pre_command_hook, should_push_authorship, status_args,
};
use git_ai::share_args::{bundle_title, parse_args};
use git_ai::config::{build_config, FileConfig};

fn strings(v: &[&str]) -> Vec<String> {
    v.iter().map(|s| s.to_string()).collect()
}

#[test]
fn blame_line_range_forms() {
    assert_eq!(parse_line_range("10"), Some((10, 10)));
    assert_eq!(parse_line_range("3,7"), Some((3, 7)));
    assert_eq!(parse_line_range("3,"), None);
    assert_eq!(parse_line_range("x"), None);
}

#[test]
fn blame_args_fill_options() {
    let (file, o) = parse_blame_args(&strings(&[
        "-L", "1,5", "--line-porcelain", "-C", "-C", "40", "-M", "--abbrev", "8", "--date", "iso",
        "src/a.rs",
    ]))
    .unwrap();
    assert_eq!(file, "src/a.rs");
    assert_eq!(o.line_ranges, vec![(1, 5)]);
    assert!(o.porcelain && o.line_porcelain);
    assert_eq!(o.detect_copies, 2);
    assert_eq!(o.move_threshold, Some(40));
    assert!(o.detect_moves);
    assert_eq!(o.abbrev, Some(8));
    assert_eq!(o.date_format, Some("iso".to_string()));
    assert!(!o.show_email);
}

#[test]
fn blame_copies_are_capped_at_three() {
    let (_, o) = parse_blame_args(&strings(&["-C", "-C", "-C", "-C", "f"])).unwrap();
    assert_eq!(o.detect_copies, 3);
}

#[test]
fn blame_args_errors() {
    assert!(matches!(parse_blame_args(&strings(&["-L"])), Err(BlameArgsError::MissingArgument(_))));
    assert!(matches!(
        parse_blame_args(&strings(&["-L", "a", "f"])),
        Err(BlameArgsError::InvalidLineRange(_))
    ));
    assert!(matches!(
        parse_blame_args(&strings(&["--abbrev", "x", "f"])),
        Err(BlameArgsError::InvalidAbbrev)
    ));
    assert!(matches!(
        parse_blame_args(&strings(&["a", "b"])),
        Err(BlameArgsError::MultipleFilePaths)
    ));
    assert!(matches!(
        parse_blame_args(&strings(&["--what", "f"])),
        Err(BlameArgsError::UnknownOption(_))
    ));
    assert!(matches!(parse_blame_args(&strings(&["-s"])), Err(BlameArgsError::NoFilePath)));
}

#[test]
fn blame_default_options() {
    let o = GitAiBlameOptions::default();
    assert!(o.line_ranges.is_empty());
    assert_eq!(o.detect_copies, 0);
    assert!(!o.porcelain);
    assert!(o.abbrev.is_none());
}

#[test]
fn share_args_forms() {
    let p = parse_args(&strings(&["abc", "--title", "My title"])).unwrap();
    assert_eq!(p.prompt_id, "abc");
    assert_eq!(p.title, Some("My title".to_string()));
    assert_eq!(parse_args(&strings(&[])).unwrap_err(), "share requires a prompt ID");
    assert_eq!(parse_args(&strings(&["--title"])).unwrap_err(), "--title requires a value");
    assert_eq!(parse_args(&strings(&["-x"])).unwrap_err(), "Unknown option: -x");
    assert_eq!(
        parse_args(&strings(&["a", "b"])).unwrap_err(),
        "Only one prompt ID can be specified"
    );
}

#[test]
fn push_remote_is_found() {
    let remotes = strings(&["origin", "upstream"]);
    assert_eq!(
        extract_remote_from_push_args(&strings(&["upstream", "main"]), &remotes),
        Some("upstream".to_string())
    );
    assert_eq!(
        extract_remote_from_push_args(&strings(&["--repo=fork", "main"]), &remotes),
        Some("fork".to_string())
    );
    assert_eq!(
        extract_remote_from_push_args(&strings(&["-o", "ci.skip", "origin"]), &remotes),
        Some("origin".to_string())
    );
    assert_eq!(extract_remote_from_push_args(&strings(&["--force"]), &remotes), None);
    assert_eq!(
        extract_remote_from_push_args(&strings(&["--", "upstream"]), &remotes),
        Some("upstream".to_string())
    );
}

#[test]
fn push_option_forms() {
    assert_eq!(
        is_push_option_with_inline_value("--repo=x"),
        Some(("--repo".to_string(), "x".to_string()))
    );
    assert_eq!(
        is_push_option_with_inline_value("-Cdir"),
        Some(("-C".to_string(), "dir".to_string()))
    );
    assert_eq!(is_push_option_with_inline_value("--force"), None);
    assert!(option_consumes_separate_value("--push-option"));
    assert!(!option_consumes_separate_value("--force"));
}

#[test]
fn push_notes_decisions() {
    assert!(should_push_authorship(&strings(&["origin", "main"]), false));
    assert!(!should_push_authorship(&strings(&["origin", "main"]), true));
    assert!(!should_push_authorship(&strings(&["--delete", "origin", "x"]), false));
    assert!(!should_push_authorship(&strings(&["--mirror"]), false));
    assert_eq!(
        push_notes_remote(&strings(&["--force", "upstream"]), &strings(&["origin", "upstream"])),
        Some("upstream".to_string())
    );
}

#[test]
fn pre_push_decision() {
    let remotes = strings(&["origin", "upstream"]);
    assert_eq!(push_pre_command_hook(&strings(&["upstream"]), false, &remotes), Some(Some("upstream".to_string())));
    assert_eq!(push_pre_command_hook(&strings(&["--force"]), false, &remotes), Some(None));
    assert_eq!(push_pre_command_hook(&strings(&["-d", "origin", "b"]), false, &remotes), None);
    assert_eq!(push_pre_command_hook(&strings(&["origin"]), true, &remotes), None);
}

#[test]
fn stash_ref_choice() {
    assert_eq!(pre_stash_hook(Some("pop"), None), Some("stash@{0}".to_string()));
    assert_eq!(
        pre_stash_hook(Some("apply"), Some("stash@{2}")),
        Some("stash@{2}".to_string())
    );
    assert_eq!(pre_stash_hook(Some("push"), None), None);
    assert_eq!(pre_stash_hook(None, None), None);
}

#[test]
fn git_status_arguments() {
    assert_eq!(
        status_args(&strings(&["-C", "/repo"]), Some(&strings(&["a.rs"]))),
        strings(&["-C", "/repo", "status", "--porcelain=v2", "-z", "--", "a.rs"])
    );
    assert_eq!(status_args(&[], None), strings(&["status", "--porcelain=v2", "-z"]));
}

fn remotes(urls: &[&str]) -> Option<Option<Vec<(String, String)>>> {
    Some(Some(urls.iter().map(|u| ("origin".to_string(), u.to_string())).collect()))
}

#[test]
fn test_exclusion_takes_precedence_over_allow() {
    let allow = strings(&["https://github.com/allowed/repo"]);
    let exclude = strings(&["https://github.com/allowed/repo"]);
    assert!(!is_allowed_repository(&allow, &exclude, &None));
    assert!(!is_allowed_repository(&allow, &exclude, &remotes(&["https://github.com/allowed/repo"])));
}

#[test]
fn test_empty_allowlist_allows_everything() {
    assert!(is_allowed_repository(&[], &[], &None));
}

#[test]
fn test_exclude_without_allow() {
    let exclude = strings(&["https://github.com/excluded/repo"]);
    assert!(is_allowed_repository(&[], &exclude, &None));
    assert!(!is_allowed_repository(&[], &exclude, &remotes(&["https://github.com/excluded/repo"])));
}

#[test]
fn test_allow_without_exclude() {
    let allow = strings(&["https://github.com/allowed/repo"]);
    assert!(!is_allowed_repository(&allow, &[], &None));
}

#[test]
fn test_glob_pattern_wildcard_in_allow() {
    let allow = strings(&["https://github.com/myorg/*"]);
    assert!(is_allowed_repository(&allow, &[], &remotes(&["https://github.com/myorg/repo1"])));
    assert!(is_allowed_repository(&allow, &[], &remotes(&["https://github.com/myorg/repo2"])));
    assert!(!is_allowed_repository(&allow, &[], &remotes(&["https://github.com/other/repo"])));
}

#[test]
fn test_glob_pattern_wildcard_in_exclude() {
    let exclude = strings(&["https://github.com/private/*"]);
    assert!(!is_allowed_repository(&[], &exclude, &remotes(&["https://github.com/private/repo1"])));
    assert!(is_allowed_repository(&[], &exclude, &remotes(&["https://github.com/public/repo"])));
}

#[test]
fn test_exact_match_still_works() {
    let allow = strings(&["https://github.com/exact/match"]);
    assert!(is_allowed_repository(&allow, &[], &remotes(&["https://github.com/exact/match"])));
    assert!(!is_allowed_repository(&allow, &[], &remotes(&["https://github.com/exact/other"])));
}

#[test]
fn test_complex_glob_patterns() {
    let allow = strings(&["*@github.com:company/*"]);
    assert!(is_allowed_repository(&allow, &[], &remotes(&["git@github.com:company/repo"])));
    assert!(is_allowed_repository(&allow, &[], &remotes(&["user@github.com:company/project"])));
    assert!(!is_allowed_repository(&allow, &[], &remotes(&["git@github.com:other/repo"])));
}

#[test]
fn invalid_patterns_are_dropped() {
    assert_eq!(valid_patterns(&strings(&["a/*", "[", "b"])), strings(&["a/*", "b"]));
}

#[test]
fn update_channel_names() {
    assert_eq!(UpdateChannel::from_str(" LATEST "), Some(UpdateChannel::Latest));
    assert_eq!(UpdateChannel::from_str("next"), Some(UpdateChannel::Next));
    assert_eq!(UpdateChannel::from_str("beta"), None);
    assert_eq!(UpdateChannel::Next.as_str(), "next");
    assert_eq!(UpdateChannel::default(), UpdateChannel::Latest);
}

#[test]
fn feature_flags_from_file() {
    assert_eq!(
        FeatureFlags::from_file_config(None, true),
        FeatureFlags { rewrite_stash: true, inter_commit_move: true }
    );
    assert_eq!(
        FeatureFlags::from_file_config(
            Some(FileFeatureFlags { rewrite_stash: Some(false), inter_commit_move: None }),
            true
        ),
        FeatureFlags { rewrite_stash: false, inter_commit_move: true }
    );
    assert_eq!(
        FeatureFlags::defaults(false),
        FeatureFlags { rewrite_stash: false, inter_commit_move: false }
    );
}

#[test]
fn configuration_from_file_values() {
    let file = FileConfig {
        ignore_prompts: Some(true),
        allow_repositories: Some(vec!["https://github.com/org/*".to_string(), "[".to_string()]),
        telemetry_oss: Some("off".to_string()),
        telemetry_enterprise_dsn: Some("".to_string()),
        update_channel: Some(" Next ".to_string()),
        feature_flags: Some(FileFeatureFlags { rewrite_stash: None, inter_commit_move: Some(true) }),
        ..FileConfig::default()
    };
    let c = build_config(&Some(file), "/usr/bin/git".to_string(), false, true);
    assert_eq!(c.git_cmd(), "/usr/bin/git");
    assert!(c.get_ignore_prompts());
    assert_eq!(c.allow_repositories, vec!["https://github.com/org/*".to_string()]);
    assert!(c.is_telemetry_oss_disabled());
    assert_eq!(c.telemetry_enterprise_dsn(), None);
    assert!(c.version_checks_disabled());
    assert!(c.auto_updates_disabled());
    assert_eq!(c.update_channel(), UpdateChannel::Next);
    assert_eq!(c.get_feature_flags(), FeatureFlags { rewrite_stash: true, inter_commit_move: true });
    assert!(c.is_allowed_repository(&remotes(&["https://github.com/org/x"])));
    assert!(!c.is_allowed_repository(&None));

    let d = build_config(&None, "git".to_string(), true, false);
    assert!(!d.get_ignore_prompts());
    assert!(!d.version_checks_disabled());
    assert_eq!(d.update_channel(), UpdateChannel::Latest);
    assert!(d.is_allowed_repository(&None));
}

#[test]
fn post_command_actions_follow_the_command() {
    let args = |v: &[&str]| v.iter().map(|s| s.to_string()).collect::<Vec<String>>();
    assert_eq!(
        post_command_action(Some("commit"), &args(&["-m", "x"]), true, None, false, None),
        PostCommandAction::CommitHook { suppress_output: false }
    );
    assert_eq!(
        post_command_action(Some("commit"), &args(&["-q"]), true, Some(true), false, None),
        PostCommandAction::CommitHook { suppress_output: true }
    );
    assert_eq!(post_command_action(Some("commit"), &args(&[]), true, Some(false), false, None), PostCommandAction::Nothing);
    assert_eq!(post_command_action(Some("fetch"), &args(&[]), false, None, false, None), PostCommandAction::FetchHook);
    assert_eq!(post_command_action(Some("push"), &args(&[]), true, None, false, None), PostCommandAction::PushHook);
    assert_eq!(
        post_command_action(Some("reset"), &args(&["--hard", "HEAD~1"]), false, None, false, None),
        PostCommandAction::DropHeadWorkingLog
    );
    assert_eq!(post_command_action(Some("reset"), &args(&["--soft"]), true, None, false, None), PostCommandAction::Nothing);
    assert_eq!(
        post_command_action(Some("merge"), &args(&["--squash", "feature"]), true, None, false, Some("feature")),
        PostCommandAction::RecordMergeSquash { source_branch: "feature".to_string() }
    );
    assert_eq!(
        post_command_action(Some("merge"), &args(&["--squash", "feature"]), true, None, true, Some("feature")),
        PostCommandAction::Nothing
    );
    assert_eq!(post_command_action(Some("merge"), &args(&["feature"]), true, None, false, Some("feature")), PostCommandAction::Nothing);
    assert_eq!(post_command_action(Some("status"), &args(&[]), true, None, false, None), PostCommandAction::Nothing);
    assert_eq!(post_command_action(None, &args(&[]), true, None, false, None), PostCommandAction::Nothing);
}

#[test]
fn shared_prompts_get_a_default_title() {
    assert_eq!(bundle_title(&None, "abc1234", "cursor"), "Prompt abc1234 (cursor)");
    assert_eq!(bundle_title(&Some("Mine".to_string()), "abc1234", "cursor"), "Mine");
}

#[test]
fn test_feature_flag_override() {
    let mut config = build_config(&None, "git".to_string(), false, true);
    config.clear_test_feature_flags();
    let test_flags = FeatureFlags { rewrite_stash: true, inter_commit_move: false };
    config.set_test_feature_flags(test_flags);
    let flags = config.get_feature_flags();
    assert_eq!(flags.rewrite_stash, true);
    assert_eq!(flags.inter_commit_move, false);
    config.clear_test_feature_flags();
    let flags = config.get_feature_flags();
    assert_eq!(flags.rewrite_stash, true);
    assert_eq!(flags.inter_commit_move, true);
}

#[test]
fn channel_names_read_back() {
    assert_eq!(UpdateChannel::from_lowercase_name(UpdateChannel::Latest.as_str()), Some(UpdateChannel::Latest));
    assert_eq!(UpdateChannel::from_lowercase_name(UpdateChannel::Next.as_str()), Some(UpdateChannel::Next));
    assert_eq!(UpdateChannel::from_lowercase_name("Next"), None);
    assert_eq!(UpdateChannel::from_str("  NEXT "), Some(UpdateChannel::Next));
}
