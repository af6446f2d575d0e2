use git_ai::authorship_log::{AttestationEntry, AuthorshipLog, FileAttestation, PromptRecord};
use git_ai::line_range::LineRange;
use git_ai::queries::compress_lines_to_working_log_format;
use git_ai::working_log::{AgentId, Checkpoint, Line, WorkingLogEntry};
use git_ai::repo_storage::InMemoryWorkingLog;
use git_ai::apply::generate_short_hash;
use git_ai::internal_db::PromptDbRecord;
use git_ai::post_commit::{diff_base_for_parent, hunks_from_added_lines, post_commit_log};
use git_ai::transcript::{AiTranscript, Message};

#[test]
fn test_line_contains() {
    let single = Line::Single(5);
    let range = Line::Range(10, 15);

    assert!(single.contains(5));
    assert!(!single.contains(6));

    assert!(range.contains(10));
    assert!(range.contains(12));
    assert!(range.contains(15));
    assert!(!range.contains(9));
    assert!(!range.contains(16));
}

#[test]
fn test_working_log_entry_covers_line() {
    let entry = WorkingLogEntry::new(
        "src/xyz.rs".to_string(),
        "test_sha".to_string(),
        vec![Line::Single(1), Line::Range(2, 5), Line::Single(10)],
        vec![],
    );

    assert!(entry.covers_line(1));
    assert!(entry.covers_line(2));
    assert!(entry.covers_line(5));
    assert!(entry.covers_line(10));
    assert!(!entry.covers_line(6));
    assert!(!entry.covers_line(11));
}

#[test]
fn line_display_text() {
    assert_eq!(Line::Single(7).display_text(), "7");
    assert_eq!(Line::Range(3, 9).display_text(), "[3, 9]");
}

#[test]
fn checkpoints_are_stamped_and_flagged() {
    let c = Checkpoint::new("d".to_string(), "human".to_string(), vec![]);
    assert!(c.timestamp > 0);
    assert!(!c.pass_through_attribution_checkpoint);
    let p = Checkpoint::new_passthrough("".to_string(), "human".to_string(), vec![]);
    assert!(p.pass_through_attribution_checkpoint);
    assert!(p.timestamp >= c.timestamp);
}

#[test]
fn compress_to_working_log_lines() {
    assert_eq!(
        compress_lines_to_working_log_format(&[1, 2, 3, 5, 7, 8]),
        vec![Line::Range(1, 3), Line::Single(5), Line::Range(7, 8)]
    );
    assert_eq!(compress_lines_to_working_log_format(&[]), Vec::<Line>::new());
}

#[test]
fn compress_lines_into_ranges() {
    assert_eq!(
        LineRange::compress_lines(&[1, 2, 3, 7, 9]),
        vec![LineRange::Range(1, 3), LineRange::Single(7), LineRange::Single(9)]
    );
}

#[test]
fn line_range_remove_and_shift() {
    assert_eq!(
        LineRange::Range(2, 10).remove(&LineRange::Range(5, 7)),
        vec![LineRange::Range(2, 4), LineRange::Range(8, 10)]
    );
    assert_eq!(LineRange::Single(4).remove(&LineRange::Single(4)), vec![]);
    assert_eq!(LineRange::Range(5, 8).shift(3, 2), Some(LineRange::Range(7, 10)));
    assert_eq!(LineRange::Range(5, 8).shift(10, 2), Some(LineRange::Range(5, 8)));
    assert_eq!(LineRange::Single(2).shift(1, -5), None);
}

fn agent(id: &str) -> AgentId {
    AgentId { tool: "cursor".to_string(), id: id.to_string(), model: "m".to_string() }
}

#[test]
fn line_attribution_names_the_last_covering_session() {
    let mut log = AuthorshipLog::new();
    log.metadata.prompts.insert(
        "aaaaaaa".to_string(),
        PromptRecord {
            agent_id: agent("s1"),
            human_author: None,
            messages: vec![],
            total_additions: 0,
            total_deletions: 0,
            accepted_lines: 0,
            overriden_lines: 0,
        },
    );
    let mut f = FileAttestation::new("a.rs".to_string());
    f.add_entry(AttestationEntry::new("aaaaaaa".to_string(), vec![LineRange::Range(1, 4)]));
    f.add_entry(AttestationEntry::new("unknown".to_string(), vec![LineRange::Range(1, 4)]));
    log.attestations.push(f);

    let (author, prompt) = log.get_line_attribution("a.rs", 3).unwrap();
    assert_eq!(author.username, "cursor");
    assert_eq!(prompt.unwrap().agent_id.id, "s1");
    assert!(log.get_line_attribution("a.rs", 5).is_none());
    assert!(log.get_line_attribution("b.rs", 1).is_none());
}

#[test]
fn committed_coordinates_shift_past_unstaged_lines() {
    let mut log = AuthorshipLog::new();
    let mut f = FileAttestation::new("a.rs".to_string());
    f.add_entry(AttestationEntry::new("h".to_string(), vec![LineRange::Range(5, 6)]));
    log.attestations.push(f);
    // Lines 2 and 3 of the working copy were not committed.
    log.convert_authorship_log_to_commit_coordinates(&[(
        "a.rs".to_string(),
        vec![LineRange::Range(2, 3)],
    )]);
    assert_eq!(log.attestations[0].entries[0].line_ranges, vec![LineRange::Range(3, 4)]);
}

#[test]
fn cleanup_drops_unreferenced_prompts() {
    let mut log = AuthorshipLog::new();
    log.metadata.prompts.insert(
        "aaaaaaa".to_string(),
        PromptRecord {
            agent_id: agent("s1"),
            human_author: None,
            messages: vec![],
            total_additions: 0,
            total_deletions: 0,
            accepted_lines: 0,
            overriden_lines: 0,
        },
    );
    let mut f = FileAttestation::new("a.rs".to_string());
    f.add_entry(AttestationEntry::new("bbbbbbb".to_string(), vec![LineRange::Single(1)]));
    log.attestations.push(f);
    log.cleanup_unused_prompts();
    assert_eq!(log.metadata.prompts.len(), 0);

    let mut g = FileAttestation::new("b.rs".to_string());
    g.add_entry(AttestationEntry::new("ccccccc".to_string(), vec![]));
    log.attestations.push(g);
    log.metadata.prompts.insert(
        "ccccccc".to_string(),
        PromptRecord {
            agent_id: agent("s2"),
            human_author: None,
            messages: vec![],
            total_additions: 0,
            total_deletions: 0,
            accepted_lines: 0,
            overriden_lines: 0,
        },
    );
    log.cleanup_unused_prompts();
    assert!(log.metadata.prompts.contains_key("ccccccc"));
}

#[test]
fn in_memory_working_log_lists_edited_files_once() {
    let e1 = WorkingLogEntry::new("a.rs".to_string(), "s".to_string(), vec![Line::Single(1)], vec![]);
    let e2 = WorkingLogEntry::new("b.rs".to_string(), "s".to_string(), vec![], vec![]);
    let e3 = WorkingLogEntry::new("a.rs".to_string(), "t".to_string(), vec![], vec![]);
    let c1 = Checkpoint::new("".to_string(), "human".to_string(), vec![e1, e2]);
    let c2 = Checkpoint::new("".to_string(), "human".to_string(), vec![e3]);
    let log = InMemoryWorkingLog::new(vec![c1, c2]);
    assert_eq!(log.checkpoints.len(), 2);
    assert_eq!(log.edited_files, vec!["a.rs".to_string(), "b.rs".to_string()]);
}

#[test]
fn prompt_db_record_from_ai_checkpoint() {
    let mut c = Checkpoint::new_at("".to_string(), "alice".to_string(), vec![], 1234);
    assert!(PromptDbRecord::from_checkpoint(&c, None, None, 1, 2).is_none());
    c.agent_id = Some(agent("sess"));
    assert!(PromptDbRecord::from_checkpoint(&c, None, None, 1, 2).is_none());
    let mut t = AiTranscript::new();
    t.add_message(Message::user("hi".to_string()));
    c.transcript = Some(t);
    let r = PromptDbRecord::from_checkpoint(&c, Some("/w".to_string()), Some("abc".to_string()), 3, 4).unwrap();
    assert_eq!(r.id, generate_short_hash("sess", "cursor"));
    assert_eq!(r.tool, "cursor");
    assert_eq!(r.external_thread_id, "sess");
    assert_eq!(r.created_at, 1234);
    assert_eq!(r.human_author, Some("alice".to_string()));
    assert_eq!(r.total_additions, Some(3));
    assert_eq!(r.total_deletions, Some(4));
    assert_eq!(r.messages.messages().len(), 1);
    assert!(r.accepted_lines.is_none());
}

#[test]
fn file_versions_are_named_by_their_sha256() {
    assert_eq!(
        git_ai::repo_storage::file_version_hash(""),
        "e3b0c44298fc1c149afbf4c8996fb92427ae41e4649b934ca495991b7852b855"
    );
    assert_eq!(
        git_ai::repo_storage::file_version_hash("hello"),
        "2cf24dba5fb0a30e26e83b2ac5b9e29e1b161e5c1fa7425e73043362938b9824"
    );
}

#[test]
fn added_lines_become_hunks() {
    let added = vec![
        ("a.rs".to_string(), vec![1u32, 2, 3, 7]),
        ("b.rs".to_string(), vec![]),
        ("c.rs".to_string(), vec![5u32]),
    ];
    assert_eq!(
        hunks_from_added_lines(&added),
        vec![
            ("a.rs".to_string(), vec![LineRange::Range(1, 3), LineRange::Single(7)]),
            ("c.rs".to_string(), vec![LineRange::Single(5)])
        ]
    );
    assert!(hunks_from_added_lines(&[]).is_empty());
}

#[test]
fn first_commits_diff_against_the_empty_tree() {
    assert_eq!(diff_base_for_parent("initial"), "4b825dc642cb6eb9a060e54bf8d69288fbee4904");
    assert_eq!(diff_base_for_parent("abc123"), "abc123");
}

#[test]
fn unstaged_ai_lines_need_an_agent_checkpoint() {
    use_checkpoints_for_unstaged_lines();
}

fn use_checkpoints_for_unstaged_lines() {
    let human = Checkpoint::new("".to_string(), "human".to_string(), vec![]);
    let mut ai = Checkpoint::new("".to_string(), "ai".to_string(), vec![]);
    ai.agent_id = Some(AgentId { tool: "cursor".to_string(), id: "s".to_string(), model: "m".to_string() });
    assert!(!git_ai::post_commit::has_unstaged_ai_lines(true, &[human.clone()]));
    assert!(git_ai::post_commit::has_unstaged_ai_lines(true, &[human.clone(), ai.clone()]));
    assert!(!git_ai::post_commit::has_unstaged_ai_lines(false, &[ai]));
    assert!(!git_ai::post_commit::has_unstaged_ai_lines(true, &[]));
}

#[test]
fn checkpoint_hash_digests_paths_and_hashes_in_path_order() {
    let pairs = vec![("b.rs".to_string(), "222".to_string()), ("a.rs".to_string(), "111".to_string())];
    assert_eq!(
        git_ai::repo_storage::combined_content_hash(&pairs),
        "070dea204d3a72eab205813eb1213fc81ff5bb42eb9f62984c42187253b21477"
    );
    assert_eq!(
        git_ai::repo_storage::combined_content_hash(&[]),
        "e3b0c44298fc1c149afbf4c8996fb92427ae41e4649b934ca495991b7852b855"
    );
}

#[test]
fn short_hashes_are_lowercase_hex() {
    let h = generate_short_hash("session", "cursor");
    assert_eq!(h.len(), 7);
    assert!(h.chars().all(|c| c.is_ascii_digit() || ('a'..='f').contains(&c)));
}

fn ai_checkpoint_for(files: &[&str], lines: Line) -> (Checkpoint, String) {
    let agent_id = AgentId {
        tool: "cursor".to_string(),
        id: "commit_session".to_string(),
        model: "sonnet-3".to_string(),
    };
    let mut transcript = AiTranscript::new();
    transcript.add_message(Message::user("Write it".to_string()));
    let entries = files
        .iter()
        .map(|f| WorkingLogEntry::new(f.to_string(), format!("blob_{}", f), vec![lines.clone()], vec![]))
        .collect();
    let mut cp = Checkpoint::new("".to_string(), "ai".to_string(), entries);
    cp.agent_id = Some(agent_id.clone());
    cp.transcript = Some(transcript);
    (cp, generate_short_hash(&agent_id.id, &agent_id.tool))
}

#[test]
fn post_commit_log_keeps_committed_lines_of_committed_files() {
    let (cp, hash) = ai_checkpoint_for(&["a.rs", "b.rs"], Line::Range(1, 4));
    let committed_files = vec!["a.rs".to_string()];
    let committed = vec![("a.rs".to_string(), vec![LineRange::Range(1, 4)])];
    let (log, moves_on) = post_commit_log(&[cp], &committed_files, Some("parent1"), "Ada", &committed, &[]);
    assert!(!moves_on);
    assert_eq!(log.metadata.base_commit_sha, "parent1");
    assert_eq!(log.attestations.len(), 1);
    assert_eq!(log.attestations[0].file_path, "a.rs");
    assert_eq!(log.attestations[0].entries.len(), 1);
    assert_eq!(log.attestations[0].entries[0].hash, hash);
    assert_eq!(log.attestations[0].entries[0].line_ranges, vec![LineRange::Range(1, 4)]);
    assert!(log.metadata.prompts.get(&hash).is_some());
}

#[test]
fn post_commit_log_drops_uncommitted_lines_and_keeps_the_working_log() {
    let (cp, hash) = ai_checkpoint_for(&["a.rs"], Line::Range(1, 4));
    let committed_files = vec!["a.rs".to_string()];
    let committed = vec![("a.rs".to_string(), vec![LineRange::Range(1, 2)])];
    let unstaged = vec![("a.rs".to_string(), vec![LineRange::Single(4)])];
    let (log, moves_on) = post_commit_log(&[cp], &committed_files, None, "Ada", &committed, &unstaged);
    assert!(moves_on);
    assert_eq!(log.metadata.base_commit_sha, "initial");
    assert_eq!(log.attestations[0].entries[0].hash, hash);
    assert_eq!(log.attestations[0].entries[0].line_ranges, vec![LineRange::Range(1, 2)]);
}

#[test]
fn post_commit_log_with_nothing_committed_has_no_prompts() {
    let (cp, _hash) = ai_checkpoint_for(&["a.rs"], Line::Range(1, 4));
    let (log, moves_on) = post_commit_log(&[cp], &[], Some("p"), "Ada", &[], &[]);
    assert!(!moves_on);
    assert!(log.attestations.is_empty());
    assert_eq!(log.metadata.prompts.len(), 0);
}

#[test]
fn checkpoint_step_records_agent_checkpoint_and_summary() {
    let agent_id = AgentId { tool: "cursor".to_string(), id: "s1".to_string(), model: "m".to_string() };
    let entry = WorkingLogEntry::new("a.rs".to_string(), "blob".to_string(), vec![Line::Range(1, 3)], vec![]);
    let step = git_ai::checkpoint_command::checkpoint_step(
        false,
        "ai_agent",
        "Ada",
        Some(git_ai::checkpoint_command::AgentRun { agent_id: agent_id.clone(), transcript: None }),
        "abc",
        vec![entry],
        42,
        3,
        5,
        false,
    );
    let cp = step.checkpoint.unwrap();
    assert_eq!(cp.diff, "abc");
    assert_eq!(cp.author, "Ada");
    assert_eq!(cp.timestamp, 42);
    assert_eq!(cp.agent_id, Some(agent_id));
    assert_eq!(cp.transcript.unwrap().messages.len(), 0);
    assert_eq!(
        step.summary.unwrap(),
        "ai_agent cursor changed 1 of the 3 file(s) that have changed since the last commit (2 already checkpointed)"
    );
    assert_eq!((step.entries_len, step.files_len, step.working_log_len), (1, 3, 6));
}

#[test]
fn checkpoint_step_human_and_empty_cases() {
    let e1 = WorkingLogEntry::new("a.rs".to_string(), "b1".to_string(), vec![Line::Single(1)], vec![]);
    let e2 = WorkingLogEntry::new("b.rs".to_string(), "b2".to_string(), vec![Line::Single(2)], vec![]);
    let step = git_ai::checkpoint_command::checkpoint_step(
        true, "human", "Ada", None, "h", vec![e1, e2], 7, 2, 0, false,
    );
    let cp = step.checkpoint.unwrap();
    assert!(cp.agent_id.is_none() && cp.transcript.is_none());
    assert_eq!(step.summary.unwrap(), "human Ada changed 2 file(s) that have changed since the last checkpoint");
    assert_eq!(step.working_log_len, 1);

    let none = git_ai::checkpoint_command::checkpoint_step(true, "human", "Ada", None, "h", vec![], 7, 0, 4, true);
    assert!(none.checkpoint.is_none());
    assert!(none.summary.is_none());
    assert_eq!((none.entries_len, none.files_len, none.working_log_len), (0, 0, 4));
}

#[test]
fn initial_attributions_win_over_blame_and_the_rest_goes_to_the_author() {
    let blames = vec![(1, "human".to_string()), (2, "x".to_string()), (4, "ai1".to_string())];
    let merged = git_ai::checkpoint_command::merge_initial_and_blame(
        vec![la(2, 3, "init")], &blames, "human", false, "me", 5,
    );
    assert_eq!(merged, vec![la(2, 3, "init"), la(4, 4, "ai1"), la(5, 5, "me")]);
    let human = git_ai::checkpoint_command::merge_initial_and_blame(
        vec![la(2, 3, "init")], &blames, "human", true, "me", 5,
    );
    assert_eq!(human, vec![la(2, 3, "init"), la(4, 4, "ai1")]);
}

fn la(s: u32, e: u32, a: &str) -> git_ai::virtual_attribution::LineAttribution {
    git_ai::virtual_attribution::LineAttribution { start_line: s, end_line: e, author_id: a.to_string(), overridden: false }
}

