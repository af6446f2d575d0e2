use git_ai::apply::generate_short_hash;
use git_ai::authorship_log::{AttestationEntry, AuthorshipLog, FileAttestation, PromptRecord};
use git_ai::line_range::LineRange;
use git_ai::log_format::{format_line_ranges, parse_authorship_text, parse_line_ranges, LogFormatError};
use git_ai::transcript::{AiTranscript, Message};
use git_ai::str_map::StrMap;
use git_ai::working_log::{AgentId, Checkpoint, Line, WorkingLogEntry};

#[test]
fn test_format_line_ranges() {
    let ranges = vec![
        LineRange::Range(19, 222),
        LineRange::Single(1),
        LineRange::Single(2),
    ];

    assert_eq!(format_line_ranges(&ranges), "1,2,19-222");
}

#[test]
fn test_parse_line_ranges() {
    let ranges = parse_line_ranges("1,2,19-222").unwrap();
    assert_eq!(
        ranges,
        vec![LineRange::Single(1), LineRange::Single(2), LineRange::Range(19, 222)]
    );
}

#[test]
fn test_line_range_sorting() {
    let ranges = vec![
        LineRange::Range(100, 200),
        LineRange::Single(5),
        LineRange::Range(10, 15),
        LineRange::Single(50),
        LineRange::Single(1),
        LineRange::Range(25, 30),
    ];

    let formatted = format_line_ranges(&ranges);
    assert_eq!(formatted, "1,5,10-15,25-30,50,100-200");
}

#[test]
fn test_remove_line_ranges_complete_removal() {
    let mut entry = AttestationEntry::new("test_hash".to_string(), vec![LineRange::Range(2, 5)]);

    // Remove the exact same range
    entry.remove_line_ranges(&[LineRange::Range(2, 5)]);

    // Should be empty after removing the exact range
    assert!(
        entry.line_ranges.is_empty(),
        "Expected empty line_ranges after complete removal, got: {:?}",
        entry.line_ranges
    );
}

#[test]
fn test_remove_line_ranges_partial_removal() {
    let mut entry = AttestationEntry::new("test_hash".to_string(), vec![LineRange::Range(2, 10)]);

    // Remove middle part
    entry.remove_line_ranges(&[LineRange::Range(5, 7)]);

    // Should have two ranges: [2-4] and [8-10]
    assert_eq!(entry.line_ranges.len(), 2);
    assert_eq!(entry.line_ranges[0], LineRange::Range(2, 4));
    assert_eq!(entry.line_ranges[1], LineRange::Range(8, 10));
}

#[test]
fn test_metrics_calculation() {
    let agent_id = AgentId {
        tool: "cursor".to_string(),
        id: "test_session".to_string(),
        model: "sonnet-3".to_string(),
    };

    let mut transcript = AiTranscript::new();
    transcript.add_message(Message::user("Add a function".to_string()));
    transcript.add_message(Message::assistant("Here's the function".to_string()));

    // First checkpoint: add 10 lines
    let entry1 = WorkingLogEntry::new(
        "src/test.rs".to_string(),
        "blob_sha_1".to_string(),
        vec![Line::Range(1, 10)],
        vec![],
    );
    let mut checkpoint1 = Checkpoint::new("".to_string(), "ai".to_string(), vec![entry1]);
    checkpoint1.agent_id = Some(agent_id.clone());
    checkpoint1.transcript = Some(transcript.clone());

    // Second checkpoint: delete 3 lines, add 5 lines
    let entry2 = WorkingLogEntry::new(
        "src/test.rs".to_string(),
        "blob_sha_2".to_string(),
        vec![Line::Range(5, 9)],
        vec![Line::Range(5, 7)],
    );
    let mut checkpoint2 = Checkpoint::new("".to_string(), "ai".to_string(), vec![entry2]);
    checkpoint2.agent_id = Some(agent_id.clone());
    checkpoint2.transcript = Some(transcript);

    let authorship_log = AuthorshipLog::from_working_log_with_base_commit_and_human_author(
        &[checkpoint1, checkpoint2],
        "base123",
        None,
        false,
    );

    let session_hash = generate_short_hash(&agent_id.id, &agent_id.tool);
    let prompt_record = authorship_log.metadata.prompts.get(&session_hash).unwrap();

    assert_eq!(prompt_record.total_additions, 15);
    assert_eq!(prompt_record.total_deletions, 3);
    // AI owns 1-4, 5-9, 10-12 = 12 lines
    assert_eq!(prompt_record.accepted_lines, 12);
}

#[test]
fn test_convert_authorship_log_to_checkpoints() {
    let mut log = AuthorshipLog::new();
    log.metadata.base_commit_sha = "base123".to_string();

    let agent_id = AgentId {
        tool: "cursor".to_string(),
        id: "session_abc".to_string(),
        model: "sonnet-3".to_string(),
    };
    let mut transcript = AiTranscript::new();
    transcript.add_message(Message::user("Add error handling".to_string()));
    transcript.add_message(Message::assistant("Added error handling".to_string()));

    let session_hash = generate_short_hash(&agent_id.id, &agent_id.tool);
    log.metadata.prompts.insert(
        session_hash.clone(),
        PromptRecord {
            agent_id: agent_id.clone(),
            human_author: Some("alice@example.com".to_string()),
            messages: transcript.messages().to_vec(),
            total_additions: 15,
            total_deletions: 3,
            accepted_lines: 12,
            overriden_lines: 0,
        },
    );

    // AI owns lines 1-5, 10-15
    let mut file1 = FileAttestation::new("src/main.rs".to_string());
    file1.add_entry(AttestationEntry::new(
        session_hash.clone(),
        vec![LineRange::Range(1, 5), LineRange::Range(10, 15)],
    ));
    log.attestations.push(file1);

    let result = log.convert_to_checkpoints_for_squash("alice@example.com");
    assert!(result.is_ok());
    let checkpoints = result.unwrap();

    // 1 human + 1 AI
    assert_eq!(checkpoints.len(), 2);

    let human_checkpoint = &checkpoints[0];
    assert_eq!(human_checkpoint.author, "alice@example.com");
    assert!(human_checkpoint.agent_id.is_none());
    assert!(human_checkpoint.transcript.is_none());
    assert_eq!(human_checkpoint.entries.len(), 1);
    let human_entry = &human_checkpoint.entries[0];
    assert_eq!(human_entry.file, "src/main.rs");
    assert_eq!(human_entry.added_lines, vec![Line::Range(6, 9)]);
    assert!(human_entry.deleted_lines.is_empty());

    let ai_checkpoint = &checkpoints[1];
    assert_eq!(ai_checkpoint.author, "ai");
    assert!(ai_checkpoint.agent_id.is_some());
    assert_eq!(ai_checkpoint.agent_id.as_ref().unwrap().tool, "cursor");
    assert!(ai_checkpoint.transcript.is_some());
    assert_eq!(ai_checkpoint.entries.len(), 1);
    let ai_entry = &ai_checkpoint.entries[0];
    assert_eq!(ai_entry.file, "src/main.rs");
    assert_eq!(ai_entry.added_lines, vec![Line::Range(1, 5), Line::Range(10, 15)]);
    assert!(ai_entry.deleted_lines.is_empty());
}

#[test]
fn test_overriden_lines_detection() {
    let agent_id = AgentId {
        tool: "cursor".to_string(),
        id: "session_123".to_string(),
        model: "sonnet-3".to_string(),
    };

    let entry1 = WorkingLogEntry::new(
        "src/main.rs".to_string(),
        "sha1".to_string(),
        vec![Line::Range(1, 5)],
        vec![],
    );
    let mut checkpoint1 = Checkpoint::new("".to_string(), "ai".to_string(), vec![entry1]);
    checkpoint1.agent_id = Some(agent_id.clone());

    let mut transcript = AiTranscript::new();
    transcript.add_message(Message::user("Add some code".to_string()));
    transcript.add_message(Message::assistant("Added code".to_string()));
    checkpoint1.transcript = Some(transcript);

    // A human checkpoint that deletes lines 2-3
    let entry2 = WorkingLogEntry::new(
        "src/main.rs".to_string(),
        "sha2".to_string(),
        vec![],
        vec![Line::Range(2, 3)],
    );
    let checkpoint2 = Checkpoint::new("".to_string(), "human".to_string(), vec![entry2]);

    let authorship_log = AuthorshipLog::from_working_log_with_base_commit_and_human_author(
        &[checkpoint1, checkpoint2],
        "base123",
        Some("human@example.com"),
        false,
    );

    let session_hash = generate_short_hash(&agent_id.id, &agent_id.tool);
    let prompt_record = authorship_log.metadata.prompts.get(&session_hash).unwrap();

    assert_eq!(prompt_record.overriden_lines, 2);
    assert_eq!(prompt_record.total_additions, 5);
    assert_eq!(prompt_record.total_deletions, 0);
    assert_eq!(prompt_record.accepted_lines, 3);
}

#[test]
fn test_passthrough_checkpoint_comprehensive() {
    let agent_id = AgentId {
        tool: "cursor".to_string(),
        id: "test_session".to_string(),
        model: "sonnet-3".to_string(),
    };

    let mut transcript = AiTranscript::new();
    transcript.add_message(Message::user("Add functions and modify code".to_string()));
    transcript.add_message(Message::assistant(
        "I'll add the functions and make changes".to_string(),
    ));

    let passthrough_entry = WorkingLogEntry::new(
        "src/test.rs".to_string(),
        "blob_sha_passthrough".to_string(),
        vec![Line::Range(1, 3)],
        vec![],
    );
    let passthrough_checkpoint =
        Checkpoint::new_passthrough("".to_string(), "human".to_string(), vec![passthrough_entry]);

    let entry1 = WorkingLogEntry::new(
        "src/test.rs".to_string(),
        "blob_sha_1".to_string(),
        vec![Line::Range(4, 6)],
        vec![],
    );
    let mut checkpoint1 = Checkpoint::new("".to_string(), "ai".to_string(), vec![entry1]);
    checkpoint1.agent_id = Some(agent_id.clone());
    checkpoint1.transcript = Some(transcript.clone());

    let entry2 = WorkingLogEntry::new(
        "src/test.rs".to_string(),
        "blob_sha_2".to_string(),
        vec![Line::Range(7, 9)],
        vec![],
    );
    let mut checkpoint2 = Checkpoint::new("".to_string(), "ai".to_string(), vec![entry2]);
    checkpoint2.agent_id = Some(agent_id.clone());
    checkpoint2.transcript = Some(transcript.clone());

    let passthrough_entry2 = WorkingLogEntry::new(
        "src/test.rs".to_string(),
        "blob_sha_passthrough2".to_string(),
        vec![Line::Range(10, 12)],
        vec![],
    );
    let passthrough_checkpoint2 =
        Checkpoint::new_passthrough("".to_string(), "human".to_string(), vec![passthrough_entry2]);

    let entry3 = WorkingLogEntry::new(
        "src/test.rs".to_string(),
        "blob_sha_3".to_string(),
        vec![Line::Range(13, 15)],
        vec![],
    );
    let mut checkpoint3 = Checkpoint::new("".to_string(), "ai".to_string(), vec![entry3]);
    checkpoint3.agent_id = Some(agent_id.clone());
    checkpoint3.transcript = Some(transcript);

    let authorship_log = AuthorshipLog::from_working_log_with_base_commit_and_human_author(
        &[
            passthrough_checkpoint,
            checkpoint1,
            checkpoint2,
            passthrough_checkpoint2,
            checkpoint3,
        ],
        "base123",
        None,
        false,
    );

    let session_hash = generate_short_hash(&agent_id.id, &agent_id.tool);
    let prompt_record = authorship_log.metadata.prompts.get(&session_hash).unwrap();

    assert_eq!(prompt_record.total_additions, 9);
    assert_eq!(prompt_record.total_deletions, 0);

    let file_attestation = authorship_log
        .attestations
        .iter()
        .find(|fa| fa.file_path == "src/test.rs")
        .unwrap();
    let attestation_entry = &file_attestation.entries[0];

    assert_eq!(attestation_entry.line_ranges.len(), 2);

    let ranges: Vec<_> = attestation_entry.line_ranges.iter().collect();
    let mut sorted_ranges = ranges.clone();
    sorted_ranges.sort_by_key(|r| match r {
        LineRange::Single(line) => *line,
        LineRange::Range(start, _) => *start,
    });

    match &sorted_ranges[0] {
        LineRange::Range(start, end) => {
            assert_eq!(*start, 4);
            assert_eq!(*end, 9);
        }
        _ => panic!("Expected merged range for lines 4-9"),
    }
    match &sorted_ranges[1] {
        LineRange::Range(start, end) => {
            assert_eq!(*start, 13);
            assert_eq!(*end, 15);
        }
        _ => panic!("Expected range for lines 13-15"),
    }

    for entry in &file_attestation.entries {
        for range in &entry.line_ranges {
            match range {
                LineRange::Single(line) => {
                    assert!(
                        (*line < 1 || *line > 3) && (*line < 10 || *line > 12),
                        "Line {} should not be attributed (passthrough lines)",
                        line
                    );
                }
                LineRange::Range(start, end) => {
                    assert!(
                        (*end < 1 || *start > 3) && (*end < 10 || *start > 12),
                        "Range {}-{} should not be attributed (passthrough lines)",
                        start,
                        end
                    );
                }
            }
        }
    }
}

#[test]
fn test_convert_authorship_log_multiple_ai_sessions() {
    let mut log = AuthorshipLog::new();
    log.metadata.base_commit_sha = "base456".to_string();

    let agent1 = AgentId {
        tool: "cursor".to_string(),
        id: "session_1".to_string(),
        model: "sonnet-3".to_string(),
    };
    let mut transcript1 = AiTranscript::new();
    transcript1.add_message(Message::user("Add function".to_string()));
    transcript1.add_message(Message::assistant("Added function".to_string()));
    let session1_hash = generate_short_hash(&agent1.id, &agent1.tool);
    log.metadata.prompts.insert(
        session1_hash.clone(),
        PromptRecord {
            agent_id: agent1,
            human_author: Some("bob@example.com".to_string()),
            messages: transcript1.messages().to_vec(),
            total_additions: 10,
            total_deletions: 0,
            accepted_lines: 10,
            overriden_lines: 0,
        },
    );

    let agent2 = AgentId {
        tool: "cursor".to_string(),
        id: "session_2".to_string(),
        model: "opus-3".to_string(),
    };
    let mut transcript2 = AiTranscript::new();
    transcript2.add_message(Message::user("Add tests".to_string()));
    transcript2.add_message(Message::assistant("Added tests".to_string()));
    let session2_hash = generate_short_hash(&agent2.id, &agent2.tool);
    log.metadata.prompts.insert(
        session2_hash.clone(),
        PromptRecord {
            agent_id: agent2,
            human_author: Some("bob@example.com".to_string()),
            messages: transcript2.messages().to_vec(),
            total_additions: 20,
            total_deletions: 0,
            accepted_lines: 20,
            overriden_lines: 0,
        },
    );

    let mut file1 = FileAttestation::new("src/lib.rs".to_string());
    file1.add_entry(AttestationEntry::new(session1_hash.clone(), vec![LineRange::Range(1, 10)]));
    file1.add_entry(AttestationEntry::new(session2_hash.clone(), vec![LineRange::Range(11, 30)]));
    log.attestations.push(file1);

    let result = log.convert_to_checkpoints_for_squash("bob@example.com");
    assert!(result.is_ok());
    let checkpoints = result.unwrap();

    assert_eq!(checkpoints.len(), 2);

    let ai_checkpoints: Vec<_> = checkpoints.iter().filter(|c| c.agent_id.is_some()).collect();
    assert_eq!(ai_checkpoints.len(), 2);

    assert_ne!(
        ai_checkpoints[0].agent_id.as_ref().unwrap().id,
        ai_checkpoints[1].agent_id.as_ref().unwrap().id
    );
}

fn sample_log() -> AuthorshipLog {
    let mut log = AuthorshipLog::new();
    log.metadata.base_commit_sha = "abc123".to_string();

    let mut file1 = FileAttestation::new("src/file.xyz".to_string());
    file1.add_entry(AttestationEntry::new(
        "xyzAbc".to_string(),
        vec![LineRange::Single(1), LineRange::Single(2), LineRange::Range(19, 222)],
    ));
    file1.add_entry(AttestationEntry::new("123456".to_string(), vec![LineRange::Range(400, 405)]));

    let mut file2 = FileAttestation::new("src/file2.xyz".to_string());
    file2.add_entry(AttestationEntry::new(
        "123456".to_string(),
        vec![LineRange::Range(1, 111), LineRange::Single(245), LineRange::Single(260)],
    ));

    log.attestations.push(file1);
    log.attestations.push(file2);
    log
}

#[test]
fn attestation_text_has_expected_layout() {
    let log = sample_log();
    let text = log.serialize_with_metadata("{}");
    assert_eq!(
        text,
        "src/file.xyz\n  xyzAbc 1,2,19-222\n  123456 400-405\nsrc/file2.xyz\n  123456 1-111,245,260\n---\n{}"
    );
}

#[test]
fn serialized_text_parses_back() {
    let log = sample_log();
    let text = log.serialize_with_metadata("{\n  \"base_commit_sha\": \"abc123\"\n}");
    let (files, json) = parse_authorship_text(&text).unwrap();
    assert_eq!(files, log.attestations);
    assert_eq!(json, "{\n  \"base_commit_sha\": \"abc123\"\n}");
}

#[test]
fn file_names_with_spaces_are_quoted_and_parse_back() {
    let mut log = AuthorshipLog::new();
    let mut file1 = FileAttestation::new("src/my file.rs".to_string());
    file1.add_entry(AttestationEntry::new("abcdef1".to_string(), vec![LineRange::Range(1, 10)]));
    let mut file2 = FileAttestation::new("docs/README (copy).md".to_string());
    file2.add_entry(AttestationEntry::new("abcdef1".to_string(), vec![LineRange::Single(5)]));
    log.attestations.push(file1);
    log.attestations.push(file2);

    let text = log.serialize_with_metadata("{}");
    assert!(text.starts_with("\"src/my file.rs\"\n"));
    let (files, _) = parse_authorship_text(&text).unwrap();
    assert_eq!(files, log.attestations);
}

#[test]
fn text_without_divider_is_refused() {
    assert_eq!(
        parse_authorship_text("src/a.rs\n  abc 1-2\n"),
        Err(LogFormatError::MissingDivider)
    );
}

#[test]
fn entry_before_any_file_is_refused() {
    assert_eq!(
        parse_authorship_text("  abc 1-2\n---\n{}"),
        Err(LogFormatError::EntryWithoutFile)
    );
}

#[test]
fn entry_without_ranges_is_refused() {
    assert!(matches!(
        parse_authorship_text("src/a.rs\n  abc\n---\n{}"),
        Err(LogFormatError::InvalidEntry(_))
    ));
}

#[test]
fn bad_line_range_is_refused() {
    assert!(matches!(parse_line_ranges("1,x"), Err(LogFormatError::InvalidLineRanges(_))));
    assert!(matches!(parse_line_ranges("3-"), Err(LogFormatError::InvalidLineRanges(_))));
}

#[test]
fn short_hash_is_seven_hex_digits() {
    let h = generate_short_hash("session_123", "cursor");
    assert_eq!(h.len(), 7);
    assert!(h.chars().all(|c| c.is_ascii_hexdigit()));
    assert_ne!(h, generate_short_hash("session_124", "cursor"));
    assert_ne!(h, generate_short_hash("session_123", "windsurf"));
    assert_eq!(h, generate_short_hash("session_123", "cursor"));
}

#[test]
fn finalize_orders_hashes_and_merges_ranges() {
    let mut log = AuthorshipLog::new();
    let mut file = FileAttestation::new("src/lib.rs".to_string());
    file.entries.push(AttestationEntry::new("bbb".to_string(), vec![LineRange::Range(5, 8)]));
    file.entries.push(AttestationEntry::new("aaa".to_string(), vec![LineRange::Single(3)]));
    file.entries.push(AttestationEntry::new(
        "bbb".to_string(),
        vec![LineRange::Range(1, 4), LineRange::Single(10)],
    ));
    file.entries.push(AttestationEntry::new("ccc".to_string(), vec![]));
    log.attestations.push(file);
    log.finalize(&StrMap::new(), &StrMap::new());

    assert_eq!(log.attestations.len(), 1);
    let entries = &log.attestations[0].entries;
    let hashes: Vec<&str> = entries.iter().map(|e| e.hash.as_str()).collect();
    assert_eq!(hashes, vec!["aaa", "bbb"]);
    assert_eq!(entries[0].line_ranges, vec![LineRange::Single(3)]);
    assert_eq!(entries[1].line_ranges, vec![LineRange::Range(1, 8), LineRange::Single(10)]);
}

#[test]
fn built_log_attests_only_known_prompts() {
    let agent_id = AgentId {
        tool: "cursor".to_string(),
        id: "named_session".to_string(),
        model: "sonnet-3".to_string(),
    };
    let mut transcript = AiTranscript::new();
    transcript.add_message(Message::user("Write it".to_string()));

    let ai_entry = WorkingLogEntry::new(
        "src/a.rs".to_string(),
        "blob_a".to_string(),
        vec![Line::Range(1, 6)],
        vec![],
    );
    let mut ai_checkpoint = Checkpoint::new("".to_string(), "ai".to_string(), vec![ai_entry]);
    ai_checkpoint.agent_id = Some(agent_id.clone());
    ai_checkpoint.transcript = Some(transcript);
    let human_entry = WorkingLogEntry::new(
        "src/a.rs".to_string(),
        "blob_b".to_string(),
        vec![Line::Single(3)],
        vec![Line::Single(3)],
    );
    let human_checkpoint = Checkpoint::new("".to_string(), "human".to_string(), vec![human_entry]);

    for ignore_prompts in [false, true] {
        let log = AuthorshipLog::from_working_log_with_base_commit_and_human_author(
            &[ai_checkpoint.clone(), human_checkpoint.clone()],
            "base",
            Some("Ada"),
            ignore_prompts,
        );
        assert!(!log.attestations.is_empty());
        for file in &log.attestations {
            for entry in &file.entries {
                assert!(log.metadata.prompts.get(&entry.hash).is_some(), "{} names no prompt", entry.hash);
            }
        }
    }
}
