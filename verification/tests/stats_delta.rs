use git_ai::stats_delta::{
    classify_landed_commit, stats_range_spec, LandedCommit, StatsDeltaLog, StatsDeltaLogEntry,
};

type Entry = StatsDeltaLogEntry<u32, i64>;

fn editing(sha: &str, first: i64, last: i64) -> Entry {
    StatsDeltaLogEntry::Editing { working_log_base_sha: sha.to_string(), first_seen: first, last_seen: last }
}

fn bases(log: &StatsDeltaLog<u32, i64>) -> Vec<String> {
    log.entries().iter().map(|e| e.working_log_base_sha().to_string()).collect()
}

#[test]
fn entries_are_found_by_their_base_commit() {
    let mut log: StatsDeltaLog<u32, i64> = StatsDeltaLog::empty();
    assert!(log.find_by_sha("a").is_none());
    log.add(editing("a", 1, 1));
    log.add(StatsDeltaLogEntry::LandedCommitHueristic { working_log_base_sha: "b".to_string(), stats: 7, processed_at: 2 });
    assert_eq!(log.find_by_sha("b").unwrap().working_log_base_sha(), "b");
    assert!(log.find_by_sha("c").is_none());
    assert_eq!(bases(&log), vec!["a", "b"]);
}

#[test]
fn replace_and_upsert_keep_positions() {
    let mut log: StatsDeltaLog<u32, i64> = StatsDeltaLog::empty();
    log.add(editing("a", 1, 1));
    log.add(editing("b", 2, 2));
    assert!(log.replace(StatsDeltaLogEntry::LandedCommitHueristic {
        working_log_base_sha: "a".to_string(),
        stats: 3,
        processed_at: 4
    }));
    assert!(!log.replace(editing("z", 0, 0)));
    assert_eq!(bases(&log), vec!["a", "b"]);
    assert!(matches!(log.entries()[0], StatsDeltaLogEntry::LandedCommitHueristic { stats: 3, .. }));
    log.upsert(editing("b", 9, 9));
    log.upsert(editing("c", 5, 5));
    assert_eq!(bases(&log), vec!["a", "b", "c"]);
    assert!(matches!(log.find_by_sha("b"), Some(StatsDeltaLogEntry::Editing { first_seen: 9, .. })));
}

#[test]
fn delete_and_touch() {
    let mut log: StatsDeltaLog<u32, i64> = StatsDeltaLog::empty();
    log.add(editing("a", 1, 1));
    log.add(editing("b", 2, 2));
    assert!(log.touch("a", 10));
    assert!(matches!(log.entries()[0], StatsDeltaLogEntry::Editing { first_seen: 1, last_seen: 10, .. }));
    assert!(!log.touch("z", 10));
    assert!(log.delete("a"));
    assert!(!log.delete("a"));
    assert_eq!(bases(&log), vec!["b"]);
}

#[test]
fn touching_a_landed_entry_keeps_it() {
    let e: Entry = StatsDeltaLogEntry::LandedGitAIPostCommit {
        working_log_base_sha: "p".to_string(),
        commit_sha: "c".to_string(),
        stats: 1,
        processed_at: 5,
    };
    assert!(matches!(e.touch(99), StatsDeltaLogEntry::LandedGitAIPostCommit { processed_at: 5, .. }));
}

#[test]
fn delete_where_counts_removed_entries() {
    let mut log: StatsDeltaLog<u32, i64> = StatsDeltaLog::empty();
    log.add(editing("a", 1, 1));
    log.add(StatsDeltaLogEntry::LandedCommitHueristic { working_log_base_sha: "b".to_string(), stats: 3, processed_at: 4 });
    log.add(editing("c", 1, 1));
    let n = log.delete_where(|e| matches!(e, StatsDeltaLogEntry::Editing { .. }));
    assert_eq!(n, 2);
    assert_eq!(bases(&log), vec!["b"]);
}

#[test]
fn last_indexed_commit_is_recorded() {
    let mut log: StatsDeltaLog<u32, i64> = StatsDeltaLog::empty();
    assert_eq!(log.last_indexed_commit(), None);
    log.set_last_indexed_commit("head".to_string(), 42);
    assert_eq!(log.last_indexed_commit(), Some("head"));
    assert_eq!(log.last_indexed_timestamp(), Some(42));
    log.set_last_indexed_commit_at("next".to_string(), 43);
    assert_eq!(log.last_indexed_commit(), Some("next"));
    let data = log.into_data();
    assert_eq!(data.last_indexed_timestamp, Some(43));
    let back: StatsDeltaLog<u32, i64> = StatsDeltaLog::from_data(data);
    assert_eq!(back.last_indexed_commit(), Some("next"));
}

#[test]
fn editing_sessions_are_noted_once() {
    let mut log: StatsDeltaLog<u32, i64> = StatsDeltaLog::empty();
    log.note_editing("h", 1);
    log.note_editing("h", 5);
    assert_eq!(log.entries().len(), 1);
    assert!(matches!(log.entries()[0], StatsDeltaLogEntry::Editing { first_seen: 1, last_seen: 5, .. }));
}

#[test]
fn landed_commits_replace_their_parent_entry() {
    let mut log: StatsDeltaLog<u32, i64> = StatsDeltaLog::empty();
    log.note_editing("p", 1);
    log.note_editing("q", 1);
    log.record_post_commit("p".to_string(), "c".to_string(), 8, 2);
    assert_eq!(bases(&log), vec!["q", "p"]);
    assert!(matches!(log.entries()[1], StatsDeltaLogEntry::LandedGitAIPostCommit { stats: 8, processed_at: 2, .. }));
    log.record_heuristic("q".to_string(), 4, 3);
    assert_eq!(bases(&log), vec!["p", "q"]);
    assert!(matches!(log.entries()[1], StatsDeltaLogEntry::LandedCommitHueristic { stats: 4, .. }));
}

#[test]
fn commits_are_classified() {
    let mut log: StatsDeltaLog<u32, i64> = StatsDeltaLog::empty();
    log.note_editing("seen", 1);
    let p = Some("parent".to_string());
    assert_eq!(classify_landed_commit(&log, "c", false, true, &p, Some(1), true), LandedCommit::Skip);
    assert_eq!(classify_landed_commit(&log, "seen", true, true, &p, Some(1), true), LandedCommit::Skip);
    assert_eq!(
        classify_landed_commit(&log, "c", true, true, &p, Some(2), false),
        LandedCommit::PostCommit { parent_sha: "parent".to_string() }
    );
    assert_eq!(classify_landed_commit(&log, "c", true, true, &None, Some(0), false), LandedCommit::Skip);
    assert_eq!(
        classify_landed_commit(&log, "c", true, false, &p, Some(1), true),
        LandedCommit::Heuristic { parent_sha: "parent".to_string() }
    );
    assert_eq!(classify_landed_commit(&log, "c", true, false, &p, Some(2), true), LandedCommit::Skip);
    assert_eq!(classify_landed_commit(&log, "c", true, false, &p, Some(1), false), LandedCommit::Skip);
}

#[test]
fn indexed_range_starts_after_the_last_indexed_commit() {
    assert_eq!(stats_range_spec("h", Some("l"), true), "l..h");
    assert_eq!(stats_range_spec("h", Some("l"), false), "h~1..h");
    assert_eq!(stats_range_spec("h", None, true), "h~1..h");
}
