use git_ai::authorship_log::PromptRecord;
use git_ai::blame_log::{authorship_from_blamed_lines, sort_lines};
use git_ai::line_range::LineRange;
use git_ai::working_log::AgentId;

fn prompt(tool: &str, id: &str) -> PromptRecord {
    PromptRecord {
        agent_id: AgentId { tool: tool.to_string(), id: id.to_string(), model: "unknown".to_string() },
        messages: vec![],
        accepted_lines: 0,
    }
}

#[test]
fn sort_lines_keeps_duplicates() {
    assert_eq!(sort_lines(&vec![5, 1, 3, 1, 9, 0]), vec![0, 1, 1, 3, 5, 9]);
    assert_eq!(sort_lines(&vec![]), Vec::<u32>::new());
}

#[test]
fn blamed_lines_group_by_file_and_session() {
    let blamed = vec![
        ("a.rs".to_string(), 3, Some(prompt("cursor", "s2"))),
        ("b.rs".to_string(), 7, None),
        ("a.rs".to_string(), 1, Some(prompt("cursor", "s2"))),
        ("b.rs".to_string(), 5, Some(prompt("codex", "s1"))),
        ("a.rs".to_string(), 2, Some(prompt("cursor", "s2"))),
        ("a.rs".to_string(), 10, Some(prompt("codex", "s1"))),
        ("a.rs".to_string(), 9, Some(prompt("codex-newer", "s1"))),
        ("c.rs".to_string(), 4, None),
    ];
    let log = authorship_from_blamed_lines(&blamed);
    assert_eq!(log.attestations.len(), 2);
    let a = &log.attestations[0];
    assert_eq!(a.file_path, "a.rs");
    assert_eq!(a.entries.len(), 2);
    assert_eq!(a.entries[0].hash, "s1");
    assert_eq!(a.entries[0].line_ranges, vec![LineRange::Range(9, 10)]);
    assert_eq!(a.entries[1].hash, "s2");
    assert_eq!(a.entries[1].line_ranges, vec![LineRange::Range(1, 3)]);
    let b = &log.attestations[1];
    assert_eq!(b.file_path, "b.rs");
    assert_eq!(b.entries.len(), 1);
    assert_eq!(b.entries[0].hash, "s1");
    assert_eq!(b.entries[0].line_ranges, vec![LineRange::Single(5)]);

    assert_eq!(log.metadata.prompts.len(), 2);
    assert_eq!(log.metadata.prompts.get("s1").unwrap().agent_id.tool, "codex-newer");
    assert_eq!(log.metadata.prompts.get("s2").unwrap().agent_id.tool, "cursor");
    assert_eq!(log.metadata.schema_version, "authorship/3.0.0");
    assert_eq!(log.metadata.prompts.get("s1").unwrap().accepted_lines, 3);
    assert_eq!(log.metadata.prompts.get("s2").unwrap().accepted_lines, 3);
    assert!(log.metadata.prompts.get("s3").is_none());
}

#[test]
fn blamed_lines_twice_give_two_ranges() {
    let blamed = vec![
        ("a.rs".to_string(), 4, Some(prompt("cursor", "s"))),
        ("a.rs".to_string(), 3, Some(prompt("cursor", "s"))),
        ("a.rs".to_string(), 4, Some(prompt("cursor", "s"))),
        ("a.rs".to_string(), 8, Some(prompt("cursor", "s"))),
    ];
    let log = authorship_from_blamed_lines(&blamed);
    assert_eq!(
        log.attestations[0].entries[0].line_ranges,
        vec![LineRange::Range(3, 4), LineRange::Single(4), LineRange::Single(8)]
    );
    assert_eq!(log.metadata.prompts.get("s").unwrap().accepted_lines, 4);
}

#[test]
fn no_ai_lines_give_an_empty_log() {
    let blamed = vec![("a.rs".to_string(), 1, None)];
    let log = authorship_from_blamed_lines(&blamed);
    assert!(log.attestations.is_empty());
    assert_eq!(log.metadata.prompts.len(), 0);
}
