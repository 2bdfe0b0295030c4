use git_ai::line_range::LineRange;
use git_ai::post_commit::commit_authorship;
use git_ai::working_log::{AgentId, AiTranscript, Checkpoint, Line, Message, WorkingLogEntry};

fn entry(file: &str, added: Vec<Line>, deleted: Vec<Line>) -> WorkingLogEntry {
    WorkingLogEntry::new(file.to_string(), added, deleted)
}

fn ai_checkpoint(entries: Vec<WorkingLogEntry>) -> Checkpoint {
    let mut c = Checkpoint::new("snap".to_string(), "".to_string(), "dev".to_string(), entries);
    let mut t = AiTranscript::new();
    t.add_message(Message::user("write it".to_string()));
    c.transcript = Some(t);
    c.agent_id = Some(AgentId {
        tool: "cursor".to_string(),
        id: "session-1".to_string(),
        model: "gpt-5".to_string(),
    });
    c
}

#[test]
fn test_post_commit_empty_repo_with_checkpoint() {
    // Two checkpoints of a person on a new file, then the first commit.
    let first = Checkpoint::new(
        "s1".to_string(),
        "".to_string(),
        "test_user".to_string(),
        vec![entry("test.txt", vec![Line::Single(1)], vec![])],
    );
    let second = Checkpoint::new(
        "s2".to_string(),
        "".to_string(),
        "test_user".to_string(),
        vec![entry("test.txt", vec![Line::Single(2)], vec![])],
    );
    let committed = vec![("test.txt".to_string(), vec![LineRange::Range(1, 2)])];
    let (log, keep_working_log) = commit_authorship(vec![first, second], "initial", &committed, false);
    assert_eq!(log.base_commit_sha, "initial");
    assert!(!keep_working_log);
}

#[test]
fn test_post_commit_empty_repo_no_checkpoint() {
    let committed = vec![("test.txt".to_string(), vec![LineRange::Single(1)])];
    let (log, keep_working_log) = commit_authorship(vec![], "initial", &committed, false);
    assert!(log.files.is_empty(), "Should have empty attestations when no checkpoints exist");
    assert!(!keep_working_log);
}

#[test]
fn commit_keeps_only_committed_lines() {
    let cp = ai_checkpoint(vec![
        entry("a.rs", vec![Line::Range(1, 10)], vec![]),
        entry("b.rs", vec![Line::Range(1, 3)], vec![]),
        entry("c.rs", vec![Line::Single(7)], vec![]),
    ]);
    let committed = vec![
        ("a.rs".to_string(), vec![LineRange::Range(3, 4), LineRange::Single(9), LineRange::Range(20, 30)]),
        ("c.rs".to_string(), vec![LineRange::Single(8)]),
        ("a.rs".to_string(), vec![LineRange::Range(1, 10)]),
    ];
    let (log, keep_working_log) = commit_authorship(vec![cp], "parent", &committed, true);
    assert!(keep_working_log);
    // b.rs was not committed; c.rs keeps no line.
    assert_eq!(log.files.len(), 1);
    assert_eq!(log.files.key_at(0), "a.rs");
    let entries = log.files.value_at(0);
    assert_eq!(entries.len(), 1);
    assert_eq!(entries[0].lines, vec![LineRange::Range(3, 4), LineRange::Single(9)]);
    assert_eq!(entries[0].prompt_session_id, Some("session-1".to_string()));
    assert!(log.get_line_attribution("a.rs", 3).is_some());
    assert!(log.get_line_attribution("a.rs", 5).is_none());
    assert!(log.get_line_attribution("b.rs", 1).is_none());
    // The prompt session stays, with the model its agent ran.
    assert_eq!(log.prompts.len(), 1);
    assert_eq!(log.prompts.value_at(0).agent_id.model, "gpt-5");
    assert_eq!(log.prompts.value_at(0).accepted_lines, 0);
}

#[test]
fn commit_without_agent_drops_working_log() {
    let cp = Checkpoint::new(
        "s".to_string(),
        "".to_string(),
        "dev".to_string(),
        vec![entry("a.rs", vec![Line::Single(1)], vec![])],
    );
    let committed = vec![("a.rs".to_string(), vec![LineRange::Single(1)])];
    let (log, keep_working_log) = commit_authorship(vec![cp], "p", &committed, true);
    assert!(!keep_working_log);
    assert_eq!(log.files.len(), 1);
    let ai = ai_checkpoint(vec![entry("a.rs", vec![Line::Single(2)], vec![])]);
    let (_, keep) = commit_authorship(vec![ai], "p", &committed, false);
    assert!(!keep);
}
