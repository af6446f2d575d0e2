use git_ai::authorship_log::PromptRecord;
use git_ai::line_range::LineRange;
use git_ai::str_map::StrMap;
use git_ai::virtual_attribution::{Attribution, FileAttributions, LineAttribution, VirtualAttributions};
use git_ai::working_log::AgentId;

fn la(s: u32, e: u32, who: &str) -> LineAttribution {
    LineAttribution { start_line: s, end_line: e, author_id: who.to_string(), overridden: false }
}

fn prompt(id: &str) -> PromptRecord {
    PromptRecord {
        agent_id: AgentId { tool: "cursor".to_string(), id: id.to_string(), model: "m".to_string() },
        human_author: None,
        messages: vec![],
        total_additions: 0,
        total_deletions: 0,
        accepted_lines: 0,
        overriden_lines: 0,
    }
}

fn va(files: Vec<FileAttributions>, contents: Vec<(String, String)>) -> VirtualAttributions {
    let mut prompts = StrMap::new();
    prompts.insert("p1".to_string(), prompt("s1"));
    prompts.insert("p2".to_string(), prompt("s2"));
    VirtualAttributions::new_with_prompts("base".to_string(), files, contents, prompts, 7)
}

#[test]
fn authorship_log_groups_lines_by_author() {
    let v = va(
        vec![
            FileAttributions {
                path: "a.rs".to_string(),
                char_attributions: vec![Attribution::new(0, 4, "p1".to_string(), 7)],
                line_attributions: vec![la(1, 3, "p1"), la(5, 5, "p2"), la(4, 4, "p1")],
            },
            FileAttributions { path: "empty.rs".to_string(), char_attributions: vec![], line_attributions: vec![] },
        ],
        vec![],
    );
    let log = v.to_authorship_log();
    assert_eq!(log.metadata.base_commit_sha, "base");
    assert_eq!(log.metadata.prompts.len(), 2);
    assert_eq!(log.attestations.len(), 1);
    let f = &log.attestations[0];
    assert_eq!(f.file_path, "a.rs");
    assert_eq!(f.entries.len(), 2);
    assert_eq!(f.entries[0].hash, "p1");
    assert_eq!(f.entries[0].line_ranges, vec![LineRange::Range(1, 4)]);
    assert_eq!(f.entries[1].hash, "p2");
    assert_eq!(f.entries[1].line_ranges, vec![LineRange::Single(5)]);
}

#[test]
fn getters_find_files() {
    let v = va(
        vec![FileAttributions {
            path: "a.rs".to_string(),
            char_attributions: vec![Attribution::new(0, 4, "p1".to_string(), 7)],
            line_attributions: vec![la(1, 1, "p1")],
        }],
        vec![("a.rs".to_string(), "one\n".to_string())],
    );
    assert_eq!(v.files(), vec!["a.rs".to_string()]);
    assert_eq!(v.base_commit(), "base");
    assert_eq!(v.timestamp(), 7);
    assert_eq!(v.get_char_attributions("a.rs").unwrap().len(), 1);
    assert_eq!(v.get_line_attributions("a.rs").unwrap()[0], la(1, 1, "p1"));
    assert!(v.get_line_attributions("b.rs").is_none());
    assert_eq!(v.get_file_content("a.rs").unwrap(), "one\n");
    assert!(v.get_file_content("b.rs").is_none());
    assert!(v.prompts().contains_key("p2"));
}

#[test]
fn committed_lines_are_matched_by_content() {
    let v = va(
        vec![FileAttributions {
            path: "a.rs".to_string(),
            char_attributions: vec![],
            line_attributions: vec![la(1, 4, "p1")],
        }],
        vec![("a.rs".to_string(), "a\nb\nc\nd\n".to_string())],
    );
    let (log, initial) =
        v.to_authorship_log_and_initial_working_log(&[("a.rs".to_string(), "a\nc\nx\n".to_string())]);
    assert_eq!(log.attestations.len(), 1);
    assert_eq!(log.attestations[0].entries[0].hash, "p1");
    // Working lines 1 and 3 are committed lines 1 and 2.
    assert_eq!(log.attestations[0].entries[0].line_ranges, vec![LineRange::Range(1, 2)]);
    assert_eq!(initial.files.len(), 1);
    assert_eq!(initial.files[0].0, "a.rs");
    assert_eq!(initial.files[0].1, vec![la(2, 2, "p1"), la(4, 4, "p1")]);
    assert!(initial.prompts.contains_key("p1"));
    assert!(!initial.prompts.contains_key("p2"));
}

#[test]
fn each_committed_line_is_matched_once() {
    let v = va(
        vec![FileAttributions {
            path: "a.rs".to_string(),
            char_attributions: vec![],
            line_attributions: vec![la(1, 2, "p2")],
        }],
        vec![("a.rs".to_string(), "x\nx\n".to_string())],
    );
    let (log, initial) = v.to_authorship_log_and_initial_working_log(&[("a.rs".to_string(), "x\n".to_string())]);
    assert_eq!(log.attestations[0].entries[0].line_ranges, vec![LineRange::Single(1)]);
    assert_eq!(initial.files[0].1, vec![la(2, 2, "p2")]);
    assert!(initial.prompts.contains_key("p2"));
}

#[test]
fn file_missing_from_commit_keeps_all_attributions() {
    let v = va(
        vec![FileAttributions {
            path: "new.rs".to_string(),
            char_attributions: vec![],
            line_attributions: vec![la(1, 2, "p1"), la(3, 3, "p2")],
        }],
        vec![("new.rs".to_string(), "a\nb\nc\n".to_string())],
    );
    let (log, initial) = v.to_authorship_log_and_initial_working_log(&[]);
    assert!(log.attestations.is_empty());
    assert_eq!(initial.files[0].1, vec![la(1, 2, "p1"), la(3, 3, "p2")]);
    assert_eq!(initial.prompts.len(), 2);
}

#[test]
fn missing_prompts_are_found_once_each() {
    let v = va(
        vec![
            FileAttributions {
                path: "a.rs".to_string(),
                char_attributions: vec![
                    Attribution::new(0, 4, "p1".to_string(), 7),
                    Attribution::new(4, 6, "p3".to_string(), 7),
                    Attribution::new(6, 8, "p3".to_string(), 7),
                ],
                line_attributions: vec![],
            },
            FileAttributions {
                path: "b.rs".to_string(),
                char_attributions: vec![Attribution::new(0, 1, "x".to_string(), 7)],
                line_attributions: vec![],
            },
        ],
        vec![],
    );
    let mut missing = v.missing_prompt_ids();
    missing.sort();
    assert_eq!(missing, vec!["p3".to_string(), "x".to_string()]);
}

#[test]
fn loaded_prompts_are_added_later_winning() {
    let mut v = va(vec![], vec![]);
    assert!(v.missing_prompt_ids().is_empty());
    v.add_loaded_prompts(vec![("p3".to_string(), prompt("first")), ("p3".to_string(), prompt("second"))]);
    assert_eq!(v.prompts.len(), 3);
    assert_eq!(v.prompts.get("p3").unwrap().agent_id.id, "second");
}
