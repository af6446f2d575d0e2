use git_ai::blame_args::GitAiBlameOptions;
use git_ai::blame_output::{
    default_format_text, format_blame_date_at, output_default_format, output_incremental_format,
    output_porcelain_format,
};
use git_ai::blame_porcelain::{blame_hunks, blame_hunks_args, BlameOutputError};
use git_ai::blame_summary::blame_summary_counts;

const SHA1: &str = "1234567890abcdef1234567890abcdef12345678";
const SHA2: &str = "fedcba0987654321fedcba0987654321fedcba09";

fn sample() -> String {
    let mut s = String::new();
    s.push_str(&format!("{} 1 1 2\n", SHA1));
    s.push_str("author Alice Smith\n");
    s.push_str("author-mail <alice@example.com>\n");
    s.push_str("author-time 1700000000\n");
    s.push_str("author-tz +0100\n");
    s.push_str("committer Bob\n");
    s.push_str("committer-mail <bob@example.com>\n");
    s.push_str("committer-time 1700000100\n");
    s.push_str("committer-tz -0500\n");
    s.push_str("summary init\n");
    s.push_str("boundary\n");
    s.push_str("filename a.rs\n");
    s.push_str("\tfn main() {\n");
    s.push_str(&format!("{} 2 2\n", SHA1));
    s.push_str("author Alice Smith\n");
    s.push_str("author-mail <alice@example.com>\n");
    s.push_str("filename a.rs\n");
    s.push_str("\t    ff 4294967295 4294967295 9\n");
    s.push_str(&format!("{} 5 3 1\n", SHA2));
    s.push_str("author Carol\n");
    s.push_str("author-mail <carol@example.com>\n");
    s.push_str("author-time -12\n");
    s.push_str("committer-time notanumber\n");
    s.push_str("filename a.rs\n");
    s.push_str("\t}\n");
    s
}

#[test]
fn porcelain_output_reads_as_hunks() {
    let opts = GitAiBlameOptions::default();
    let hunks = blame_hunks(sample().as_bytes(), &opts).unwrap();
    assert_eq!(hunks.len(), 2);
    let h = &hunks[0];
    assert_eq!(h.range, (1, 2));
    assert_eq!(h.orig_range, (1, 2));
    assert_eq!(h.commit_sha, SHA1);
    assert_eq!(h.abbrev_sha, "1234567");
    assert_eq!(h.original_author, "Alice Smith");
    assert_eq!(h.author_email, "alice@example.com");
    assert_eq!(h.author_time, 1700000000);
    assert_eq!(h.author_tz, "+0100");
    assert_eq!(h.committer, "Bob");
    assert_eq!(h.committer_email, "bob@example.com");
    assert_eq!(h.committer_time, 1700000100);
    assert_eq!(h.committer_tz, "-0500");
    assert!(h.is_boundary);
    let g = &hunks[1];
    assert_eq!(g.range, (3, 3));
    assert_eq!(g.orig_range, (5, 5));
    assert_eq!(g.commit_sha, SHA2);
    assert_eq!(g.original_author, "Carol");
    assert_eq!(g.author_time, -12);
    assert_eq!(g.committer_time, 0);
    assert!(!g.is_boundary);
    assert_eq!(g.committer, "");
}

#[test]
fn abbreviation_follows_options() {
    let mut opts = GitAiBlameOptions::default();
    opts.abbrev = Some(10);
    let hunks = blame_hunks(sample().as_bytes(), &opts).unwrap();
    assert_eq!(hunks[0].abbrev_sha, "1234567890");
    opts.long_rev = true;
    let hunks = blame_hunks(sample().as_bytes(), &opts).unwrap();
    assert_eq!(hunks[0].abbrev_sha, SHA1);
}

#[test]
fn empty_blame_output_has_no_hunks() {
    let hunks = blame_hunks(b"", &GitAiBlameOptions::default()).unwrap();
    assert!(hunks.is_empty());
}

#[test]
fn non_utf8_blame_output_is_refused() {
    assert_eq!(
        blame_hunks(b"\xff\xfe 1 1 1\n", &GitAiBlameOptions::default()).unwrap_err(),
        BlameOutputError::InvalidUtf8
    );
}

#[test]
fn blame_command_arguments() {
    let mut opts = GitAiBlameOptions::default();
    opts.ignore_revs = vec!["abc".to_string()];
    opts.newest_commit = Some("HEAD~2".to_string());
    let args = blame_hunks_args(&["-C".to_string(), "/repo".to_string()], "src/a.rs", 3, 17, &opts);
    assert_eq!(
        args,
        vec![
            "-C", "/repo", "blame", "--line-porcelain", "-w", "--ignore-rev", "abc", "-L", "3,17",
            "HEAD~2", "--", "src/a.rs"
        ]
        .into_iter()
        .map(String::from)
        .collect::<Vec<_>>()
    );
}

fn file_lines() -> Vec<String> {
    vec!["fn main() {".to_string(), "    ff".to_string(), "}".to_string()]
}

fn render(opts: &GitAiBlameOptions, ranges: &[(u32, u32)], now: i64) -> String {
    let hunks = blame_hunks(sample().as_bytes(), opts).unwrap();
    let authors = vec![(2u32, "ai-agent".to_string())];
    default_format_text(&hunks, &authors, "a.rs", &file_lines(), ranges, opts, now)
}

#[test]
fn iso_dates_follow_the_time_zone() {
    assert_eq!(format_blame_date_at(1700000000, "+0100", &None, 0), "2023-11-14 23:13:20 +0100");
    assert_eq!(
        format_blame_date_at(1700000000, "-0530", &Some("iso".to_string()), 0),
        "2023-11-14 16:43:20 -0530"
    );
    assert_eq!(format_blame_date_at(0, "", &None, 0), "1970-01-01 00:00:00 +0000");
}

#[test]
fn out_of_range_time_zone_counts_as_utc() {
    assert_eq!(format_blame_date_at(1700000000, "+2500", &None, 0), "2023-11-14 22:13:20 +0000");
    assert_eq!(format_blame_date_at(1700000000, "+xx00", &None, 0), "2023-11-14 22:13:20 +0000");
}

#[test]
fn short_and_relative_dates() {
    assert_eq!(format_blame_date_at(1700000000, "+0100", &Some("short".to_string()), 0), "2023-11-14");
    assert_eq!(
        format_blame_date_at(1700000000, "+0100", &Some("relative".to_string()), 1700000100),
        "100 seconds ago"
    );
    assert_eq!(
        format_blame_date_at(1700000000, "+0100", &Some("relative".to_string()), 1699999990),
        "-10 seconds ago"
    );
}

#[test]
fn default_blame_lines() {
    let out = render(&GitAiBlameOptions::default(), &[(1, 3)], 0);
    assert_eq!(
        out,
        "1234567 (Alice Smith 2023-11-14 23:13:20 +0100    1) fn main() {\n\
         1234567 (ai-agent 2023-11-14 23:13:20 +0100    2)     ff\n\
         fedcba0 (Carol 1969-12-31 23:59:48 +0000    3) }\n"
    );
}

#[test]
fn lines_without_a_hunk_are_unknown() {
    let out = render(&GitAiBlameOptions::default(), &[(4, 4)], 0);
    assert_eq!(out, "???????? (unknown        1970-01-01 00:00:00 +0000       4) \n");
}

#[test]
fn suppressed_author_and_blank_boundary() {
    let mut opts = GitAiBlameOptions::default();
    opts.suppress_author = true;
    opts.blank_boundary = true;
    let out = render(&opts, &[(1, 1), (3, 3)], 0);
    assert_eq!(out, "^         1) fn main() {\nfedcba0 3) }\n");
}

#[test]
fn email_name_and_number_columns() {
    let mut opts = GitAiBlameOptions::default();
    opts.show_email = true;
    let out = render(&opts, &[(3, 3)], 0);
    assert_eq!(out, "fedcba0 (Carol <carol@example.com> 1969-12-31 23:59:48 +0000    3) }\n");
    let mut opts = GitAiBlameOptions::default();
    opts.show_name = true;
    opts.date_format = Some("short".to_string());
    let out = render(&opts, &[(1, 1)], 0);
    assert_eq!(out, "1234567 a.rs (Alice Smith 2023-11-14    1) fn main() {\n");
    let mut opts = GitAiBlameOptions::default();
    opts.show_number = true;
    opts.long_rev = true;
    let out = render(&opts, &[(2, 2)], 0);
    assert_eq!(out, format!("{} 2 (ai-agent 2023-11-14 23:13:20 +0100    2)     ff\n", SHA1));
}

#[test]
fn statistics_follow_the_lines() {
    let mut opts = GitAiBlameOptions::default();
    opts.show_stats = true;
    opts.date_format = Some("relative".to_string());
    let out = render(&opts, &[(3, 3)], 88);
    assert_eq!(
        out,
        "fedcba0 (Carol 100 seconds ago    3) }\nnum read blob: 1\nnum get patch: 0\nnum commits: 0\n"
    );
}

#[test]
fn empty_and_reversed_ranges_print_nothing() {
    assert_eq!(render(&GitAiBlameOptions::default(), &[], 0), "");
    assert_eq!(render(&GitAiBlameOptions::default(), &[(3, 2)], 0), "");
}

#[test]
fn clock_dated_output_has_the_same_shape() {
    let opts = GitAiBlameOptions::default();
    let hunks = blame_hunks(sample().as_bytes(), &opts).unwrap();
    let out = output_default_format(&hunks, &[], "a.rs", &file_lines(), &[(1, 1)], &opts);
    assert_eq!(out, "1234567 (Alice Smith 2023-11-14 23:13:20 +0100    1) fn main() {\n");
}

fn alice_meta(summary: &str) -> String {
    format!(
        "author Alice Smith\nauthor-mail <alice@example.com>\nauthor-time 1700000000\nauthor-tz +0100\n\
         committer Bob\ncommitter-mail <bob@example.com>\ncommitter-time 1700000100\ncommitter-tz -0500\n\
         summary {}\nboundary\nfilename a.rs\n",
        summary
    )
}

fn carol_meta(summary: &str) -> String {
    format!(
        "author Carol\nauthor-mail <carol@example.com>\nauthor-time -12\nauthor-tz \n\
         committer \ncommitter-mail <>\ncommitter-time 0\ncommitter-tz \n\
         summary {}\nfilename a.rs\n",
        summary
    )
}

fn porcelain(opts: &GitAiBlameOptions, ranges: &[(u32, u32)]) -> String {
    let hunks = blame_hunks(sample().as_bytes(), opts).unwrap();
    let summaries = vec!["init".to_string(), "fix".to_string()];
    output_porcelain_format(&hunks, &summaries, "a.rs", &file_lines(), ranges, opts)
}

#[test]
fn porcelain_writes_metadata_once_per_hunk() {
    let mut opts = GitAiBlameOptions::default();
    opts.porcelain = true;
    let expected = format!(
        "{} 1 1 2\n{}\tfn main() {{\n{} 2 2\n\t    ff\n{} 3 3 1\n{}\t}}\n",
        SHA1,
        alice_meta("init"),
        SHA1,
        SHA2,
        carol_meta("fix")
    );
    assert_eq!(porcelain(&opts, &[(1, 3)]), expected);
}

#[test]
fn line_porcelain_writes_metadata_for_every_line() {
    let mut opts = GitAiBlameOptions::default();
    opts.line_porcelain = true;
    let expected = format!(
        "{} 1 1 2\n{}\tfn main() {{\n{} 2 2\n{}\t    ff\n",
        SHA1,
        alice_meta("init"),
        SHA1,
        alice_meta("init")
    );
    assert_eq!(porcelain(&opts, &[(1, 2)]), expected);
}

#[test]
fn porcelain_leaves_out_unblamed_lines() {
    let mut opts = GitAiBlameOptions::default();
    opts.porcelain = true;
    assert_eq!(porcelain(&opts, &[(4, 5)]), "");
    let expected = format!("{} 2 2 2\n{}\t    ff\n", SHA1, alice_meta("init"));
    assert_eq!(porcelain(&opts, &[(2, 2), (9, 9)]), expected);
}

#[test]
fn incremental_records_hunks_and_unknown_lines() {
    let opts = GitAiBlameOptions::default();
    let hunks = blame_hunks(sample().as_bytes(), &opts).unwrap();
    let out = output_incremental_format(&hunks, "a.rs", &[(1, 4)], &opts);
    let expected = format!(
        "{} 1 1 2\n{}{} 3 3 1\n{}\
         0000000000000000000000000000000000000000 4 4 1\nauthor unknown\nauthor-mail <unknown@example.com>\n\
         author-time 0\nauthor-tz +0000\ncommitter unknown\ncommitter-mail <unknown@example.com>\n\
         committer-time 0\ncommitter-tz +0000\nsummary unknown\nfilename a.rs\n",
        SHA1,
        alice_meta("Initial commit"),
        SHA2,
        carol_meta("Initial commit")
    );
    assert_eq!(out, expected);
}

#[test]
fn summary_counts_lines_per_author_most_first() {
    let authors = vec![(1u32, "a".to_string()), (2, "b".to_string()), (3, "a".to_string())];
    assert_eq!(
        blame_summary_counts(&authors, 1, 5),
        vec![("a".to_string(), 2), ("unknown".to_string(), 2), ("b".to_string(), 1)]
    );
    assert_eq!(blame_summary_counts(&authors, 4, 3), vec![]);
    assert_eq!(blame_summary_counts(&authors, 2, 2), vec![("b".to_string(), 1)]);
}

#[test]
fn blame_headers_fit_checks_run_ends() {
    let fits = format!("{} 1 1 2\nauthor A\n\tline one\n{} 2 2\n\tline two\n", SHA1, SHA1);
    assert!(git_ai::blame_porcelain::blame_headers_fit(fits.as_bytes()));
    let past_end = format!("{} 1 4294967295 2\nauthor A\n\tline\n", SHA1);
    assert!(!git_ai::blame_porcelain::blame_headers_fit(past_end.as_bytes()));
    let orig_past_end = format!("{} 4294967295 1 2\n\tline\n", SHA1);
    assert!(!git_ai::blame_porcelain::blame_headers_fit(orig_past_end.as_bytes()));
    assert!(git_ai::blame_porcelain::blame_headers_fit(&[0xff, 0xfe, b'\n']));
}
