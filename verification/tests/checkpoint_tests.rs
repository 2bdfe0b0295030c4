use git_ai::checkpoint::{carry_unstaged_lines, consolidate_lines, content_hash, record_checkpoint};
use git_ai::line_range::LineRange;
use git_ai::working_log::{AgentId, AiTranscript, Checkpoint, Line, Message, WorkingLogEntry};

#[test]
fn test_consolidate_lines() {
    // Test consecutive lines
    let lines = vec![1, 2, 3, 4];
    let result = consolidate_lines(lines);
    assert_eq!(result, vec![Line::Range(1, 4)]);

    // Test single line
    let lines = vec![5];
    let result = consolidate_lines(lines);
    assert_eq!(result, vec![Line::Single(5)]);

    // Test mixed consecutive and single
    let lines = vec![1, 2, 5, 6, 7, 10];
    let result = consolidate_lines(lines);
    assert_eq!(
        result,
        vec![Line::Range(1, 2), Line::Range(5, 7), Line::Single(10)]
    );

    // Test unsorted input
    let lines = vec![5, 1, 3, 2, 4];
    let result = consolidate_lines(lines);
    assert_eq!(result, vec![Line::Range(1, 5)]);

    // Test duplicates
    let lines = vec![1, 1, 2, 2, 3];
    let result = consolidate_lines(lines);
    assert_eq!(result, vec![Line::Range(1, 3)]);

    // Test empty input
    let lines = vec![];
    let result = consolidate_lines(lines);
    assert_eq!(result, vec![]);
}

#[test]
fn consolidate_lines_at_the_top_of_the_range() {
    let result = consolidate_lines(vec![u32::MAX, u32::MAX - 1, 0]);
    assert_eq!(result, vec![Line::Single(0), Line::Range(u32::MAX - 1, u32::MAX)]);
}

#[test]
fn unstaged_lines_carry_to_the_next_commit() {
    let e = |f: &str, a: Vec<Line>, d: Vec<Line>| WorkingLogEntry::new(f.to_string(), a, d);
    let mut cp1 = Checkpoint::new(
        "s1".to_string(),
        "".to_string(),
        "assistant".to_string(),
        vec![e("a.rs", vec![Line::Range(1, 5)], vec![Line::Single(9)]), e("b.rs", vec![Line::Single(2)], vec![])],
    );
    cp1.agent_id = Some(AgentId { tool: "cursor".to_string(), id: "x".to_string(), model: "unknown".to_string() });
    let cp2 = Checkpoint::new("s2".to_string(), "".to_string(), "dev".to_string(), vec![e("c.rs", vec![Line::Single(1)], vec![Line::Single(3)])]);
    let cp3 = Checkpoint::new("s3".to_string(), "".to_string(), "dev".to_string(), vec![e("b.rs", vec![Line::Single(7)], vec![])]);
    let unstaged = vec![
        ("a.rs".to_string(), vec![LineRange::Range(3, 4), LineRange::Single(20)]),
        ("b.rs".to_string(), vec![]),
    ];
    let r = carry_unstaged_lines(vec![cp1, cp2, cp3], &unstaged);
    assert_eq!(r.len(), 2);
    assert_eq!(r[0].snapshot, "s1");
    assert_eq!(r[0].agent_id.as_ref().unwrap().id, "x");
    assert_eq!(r[0].entries, vec![e("a.rs", vec![Line::Range(3, 4)], vec![])]);
    assert_eq!(r[1].snapshot, "s2");
    assert_eq!(r[1].entries, vec![e("c.rs", vec![Line::Single(1)], vec![Line::Single(3)])]);
}

#[test]
fn snapshot_hash_of_files_in_path_order() {
    let mut m: git_ai::str_map::StrMap<String> = git_ai::str_map::StrMap::new();
    m.insert("b.rs".to_string(), "h2".to_string());
    m.insert("a.rs".to_string(), "h1".to_string());
    let expected: String = <sha2::Sha256 as sha2::Digest>::digest(b"a.rsh1b.rsh2").iter().map(|b| format!("{:02x}", b)).collect();
    assert_eq!(git_ai::checkpoint::combined_snapshot_hash(&m), expected);
    assert_eq!(expected.len(), 64);
}

fn change(file: &str, line: u32) -> Vec<WorkingLogEntry> {
    vec![WorkingLogEntry::new(file.to_string(), vec![Line::Single(line)], vec![])]
}

#[test]
fn first_checkpoint_diffs_against_base() {
    let r = record_checkpoint(
        vec![],
        false,
        change("base.rs", 1),
        change("last.rs", 2),
        "hash1".to_string(),
        "dev".to_string(),
        None,
    );
    assert_eq!(r.len(), 1);
    assert_eq!(r[0].snapshot, "hash1");
    assert_eq!(r[0].author, "dev");
    assert_eq!(r[0].entries[0].file, "base.rs");
    assert!(r[0].agent_id.is_none());
    assert!(r[0].transcript.is_none());
}

#[test]
fn later_checkpoint_diffs_against_last_and_carries_agent() {
    let first = record_checkpoint(vec![], false, change("a.rs", 1), vec![], "h1".to_string(), "dev".to_string(), None);
    let mut t = AiTranscript::new();
    t.add_message(Message::user("do it".to_string()));
    let agent = AgentId { tool: "cursor".to_string(), id: "c1".to_string(), model: "gpt-5".to_string() };
    let r = record_checkpoint(
        first,
        false,
        change("base.rs", 1),
        change("last.rs", 2),
        "h2".to_string(),
        "dev".to_string(),
        Some((agent.clone(), t.clone())),
    );
    assert_eq!(r.len(), 2);
    assert_eq!(r[0].snapshot, "h1");
    assert_eq!(r[1].entries[0].file, "last.rs");
    assert_eq!(r[1].agent_id, Some(agent));
    assert_eq!(r[1].transcript, Some(t));
}

#[test]
fn reset_starts_over_and_empty_changes_record_nothing() {
    let first = record_checkpoint(vec![], false, change("a.rs", 1), vec![], "h1".to_string(), "dev".to_string(), None);
    let r = record_checkpoint(first, true, change("base.rs", 3), change("last.rs", 4), "h2".to_string(), "dev".to_string(), None);
    assert_eq!(r.len(), 1);
    assert_eq!(r[0].snapshot, "h2");
    assert_eq!(r[0].entries[0].file, "base.rs");
    let same = record_checkpoint(r, false, change("base.rs", 3), vec![], "h3".to_string(), "dev".to_string(), None);
    assert_eq!(same.len(), 1);
    assert_eq!(same[0].snapshot, "h2");
    let none = record_checkpoint(same, true, vec![], change("last.rs", 4), "h4".to_string(), "dev".to_string(), None);
    assert!(none.is_empty());
}

#[test]
fn content_hash_is_sha256_hex() {
    assert_eq!(content_hash(""), "e3b0c44298fc1c149afbf4c8996fb92427ae41e4649b934ca495991b7852b855");
    assert_eq!(content_hash("abc"), "ba7816bf8f01cfea414140de5dae2223b00361a396177a9cb410ff61f20015ad");
}
