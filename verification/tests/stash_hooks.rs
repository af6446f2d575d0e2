use git_ai::authorship_log::{AttestationEntry, AuthorshipLog, FileAttestation, PromptRecord};
use git_ai::line_range::LineRange;
use git_ai::stash::{initial_attributions_from_stash, post_stash_hook, StashAction};
use git_ai::virtual_attribution::LineAttribution;
use git_ai::working_log::AgentId;

fn la(s: u32, e: u32, who: &str) -> LineAttribution {
    LineAttribution { start_line: s, end_line: e, author_id: who.to_string(), overridden: false }
}

fn prompt(id: &str) -> PromptRecord {
    PromptRecord {
        agent_id: AgentId { tool: "cursor".to_string(), id: id.to_string(), model: "m".to_string() },
        human_author: None,
        messages: vec![],
        total_additions: 0,
        total_deletions: 0,
        accepted_lines: 0,
        overriden_lines: 0,
    }
}

fn stashed_log() -> AuthorshipLog {
    let mut log = AuthorshipLog::new();
    log.metadata.prompts.insert("h1".to_string(), prompt("s1"));
    let mut a = FileAttestation::new("a.rs".to_string());
    a.add_entry(AttestationEntry::new("h1".to_string(), vec![LineRange::Single(3), LineRange::Range(7, 9)]));
    a.add_entry(AttestationEntry::new("h2".to_string(), vec![LineRange::Range(1, 2)]));
    let empty = FileAttestation::new("empty.rs".to_string());
    let mut b = FileAttestation::new("b.rs".to_string());
    b.add_entry(AttestationEntry::new("h1".to_string(), vec![LineRange::Single(4)]));
    let mut a_again = FileAttestation::new("a.rs".to_string());
    a_again.add_entry(AttestationEntry::new("h3".to_string(), vec![LineRange::Single(10)]));
    let mut a_empty = FileAttestation::new("a.rs".to_string());
    a_empty.add_entry(AttestationEntry::new("h4".to_string(), vec![]));
    log.attestations = vec![a, empty, b, a_again, a_empty];
    log
}

#[test]
fn stashed_ranges_become_initial_attributions() {
    let mut log = AuthorshipLog::new();
    let mut a = FileAttestation::new("a.rs".to_string());
    a.add_entry(AttestationEntry::new("h1".to_string(), vec![LineRange::Single(3), LineRange::Range(7, 9)]));
    a.add_entry(AttestationEntry::new("h2".to_string(), vec![LineRange::Range(1, 2)]));
    log.attestations = vec![a];
    let init = initial_attributions_from_stash(&log);
    assert_eq!(init.files.len(), 1);
    assert_eq!(init.files[0].0, "a.rs");
    assert_eq!(init.files[0].1, vec![la(3, 3, "h1"), la(7, 9, "h1"), la(1, 2, "h2")]);
    assert_eq!(init.prompts.len(), 0);
}

#[test]
fn later_stashed_file_replaces_earlier_and_empty_ones_are_skipped() {
    let init = initial_attributions_from_stash(&stashed_log());
    assert_eq!(init.files.len(), 2);
    assert_eq!(init.files[0].0, "a.rs");
    assert_eq!(init.files[0].1, vec![la(10, 10, "h3")]);
    assert_eq!(init.files[1].0, "b.rs");
    assert_eq!(init.files[1].1, vec![la(4, 4, "h1")]);
    assert_eq!(init.prompts.len(), 1);
    assert!(init.prompts.get("h1").is_some());
}

#[test]
fn stash_actions_follow_the_subcommand() {
    let sha = Some("abc".to_string());
    assert_eq!(post_stash_hook(false, None, &sha), StashAction::Nothing);
    assert_eq!(post_stash_hook(true, None, &sha), StashAction::SaveAuthorship);
    assert_eq!(post_stash_hook(true, Some("push"), &None), StashAction::SaveAuthorship);
    assert_eq!(post_stash_hook(true, Some("save"), &None), StashAction::SaveAuthorship);
    assert_eq!(post_stash_hook(true, Some("pop"), &sha), StashAction::RestoreAuthorship("abc".to_string()));
    assert_eq!(post_stash_hook(true, Some("apply"), &None), StashAction::NoCapturedStash);
    assert_eq!(post_stash_hook(true, Some("list"), &sha), StashAction::Nothing);
    assert_eq!(post_stash_hook(false, Some("pop"), &sha), StashAction::Nothing);
}
