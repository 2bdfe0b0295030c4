use git_ai::authorship_log::{Author, AuthorshipLog, PromptRecord};
use git_ai::authorship_log_v3::{
    deserialize_from_reader, deserialize_from_string, format_line_ranges, parse_line_ranges,
    AttestationEntry, AuthorshipLogV3, AuthorshipMetadata, FileAttestation, LogParseError,
    AUTHORSHIP_LOG_V3_VERSION,
};
use git_ai::line_range::LineRange;
use git_ai::working_log::{AgentId, Checkpoint, Line, WorkingLogEntry};

fn sample_log() -> AuthorshipLogV3 {
    let mut log = AuthorshipLogV3::new();
    let mut file1 = FileAttestation::new("src/file.xyz".to_string());
    file1.add_entry(AttestationEntry::new(
        "xyzAbc".to_string(),
        vec![
            LineRange::Single(1),
            LineRange::Single(2),
            LineRange::Range(19, 222),
        ],
    ));
    file1.add_entry(AttestationEntry::new(
        "123456".to_string(),
        vec![LineRange::Range(400, 405)],
    ));
    let mut file2 = FileAttestation::new("src/file2.xyz".to_string());
    file2.add_entry(AttestationEntry::new(
        "123456".to_string(),
        vec![
            LineRange::Range(1, 111),
            LineRange::Single(245),
            LineRange::Single(260),
        ],
    ));
    log.attestations.push(file1);
    log.attestations.push(file2);
    log
}

const EXPECTED_SECTION: &str = "src/file.xyz\n  xyzAbc 1,2,19-222\n  123456 400-405\nsrc/file2.xyz\n  123456 1-111,245,260\n";

#[test]
fn test_format_line_ranges() {
    let ranges = vec![
        LineRange::Range(19, 222),
        LineRange::Single(1),
        LineRange::Single(2),
    ];
    assert_eq!(format_line_ranges(&ranges), "1,2,19-222");
}

#[test]
fn test_parse_line_ranges() {
    let ranges = parse_line_ranges("1,2,19-222").unwrap();
    assert_eq!(
        ranges,
        vec![LineRange::Single(1), LineRange::Single(2), LineRange::Range(19, 222)]
    );
}

/// The metadata as pretty JSON: schema version, base commit and authors.
fn metadata_json(m: &AuthorshipMetadata) -> String {
    let mut authors = serde_json::Map::new();
    for i in 0..m.authors.len() {
        let a = m.authors.value_at(i);
        let mut o = serde_json::Map::new();
        o.insert("username".to_string(), serde_json::Value::String(a.username.clone()));
        o.insert("email".to_string(), serde_json::Value::String(a.email.clone()));
        authors.insert(m.authors.key_at(i).clone(), serde_json::Value::Object(o));
    }
    let mut root = serde_json::Map::new();
    root.insert("schema_version".to_string(), serde_json::Value::String(m.schema_version.clone()));
    root.insert("base_commit_sha".to_string(), serde_json::Value::String(m.base_commit_sha.clone()));
    root.insert("authors".to_string(), serde_json::Value::Object(authors));
    root.insert("prompts".to_string(), serde_json::Value::Object(serde_json::Map::new()));
    serde_json::to_string_pretty(&serde_json::Value::Object(root)).unwrap()
}

#[test]
fn test_serialize_deserialize_roundtrip() {
    let mut log = sample_log();
    log.metadata.base_commit_sha = "abc123".to_string();
    log.metadata.authors.insert(
        "xyzAbc".to_string(),
        Author {
            username: "alice".to_string(),
            email: "alice@example.com".to_string(),
        },
    );
    let json = metadata_json(&log.metadata);
    let serialized = log.serialize_to_string(&json);
    assert_eq!(serialized, format!("{}---\n{}", EXPECTED_SECTION, json));
    let (attestations, metadata_text) = deserialize_from_string(&serialized).unwrap();
    assert_eq!(attestations, log.attestations);
    let metadata: serde_json::Value = serde_json::from_str(&metadata_text).unwrap();
    assert_eq!(metadata["schema_version"], AUTHORSHIP_LOG_V3_VERSION);
    assert_eq!(metadata["base_commit_sha"], "abc123");
    let authors = metadata["authors"].as_object().unwrap();
    assert_eq!(authors.len(), 1);
    assert_eq!(authors["xyzAbc"]["username"], "alice");
    assert_eq!(authors["xyzAbc"]["email"], "alice@example.com");
}

#[test]
fn test_expected_format() {
    let log = sample_log();
    let serialized = log.serialize_to_string("{}");
    assert_eq!(serialized, format!("{}---\n{{}}", EXPECTED_SECTION));
}

#[test]
fn test_conversion_from_old_format() {
    let mut old_log = AuthorshipLog::new();
    old_log.base_commit_sha = "test-commit-sha".to_string();
    old_log.authors.insert(
        "author1".to_string(),
        Author {
            username: "test_user".to_string(),
            email: "test@example.com".to_string(),
        },
    );
    let new_log = AuthorshipLogV3::from_authorship_log(&old_log);
    assert!(new_log.attestations.is_empty());
    assert_eq!(new_log.metadata.schema_version, AUTHORSHIP_LOG_V3_VERSION);
    assert_eq!(new_log.metadata.base_commit_sha, "test-commit-sha");
    assert_eq!(new_log.metadata.authors.len(), 1);
    let a = new_log.metadata.authors.get("author1").unwrap();
    assert_eq!(a.username, "test_user");
    assert_eq!(a.email, "test@example.com");
    assert!(new_log.metadata.prompts.is_empty());
}

#[test]
fn test_line_range_sorting() {
    let ranges = vec![
        LineRange::Range(100, 200),
        LineRange::Single(5),
        LineRange::Range(10, 15),
        LineRange::Single(50),
        LineRange::Single(1),
        LineRange::Range(25, 30),
    ];
    assert_eq!(format_line_ranges(&ranges), "1,5,10-15,25-30,50,100-200");
}

#[test]
fn test_hash_always_maps_to_prompt() {
    let mut log = AuthorshipLogV3::new();
    let prompt_hash = "prompt_abc123";
    log.metadata.prompts.insert(
        prompt_hash.to_string(),
        PromptRecord {
            agent_id: AgentId {
                tool: "cursor".to_string(),
                id: "session_123".to_string(),
                model: "unknown".to_string(),
            },
            messages: vec![],
            accepted_lines: 0,
        },
    );
    let mut file1 = FileAttestation::new("src/example.rs".to_string());
    file1.add_entry(AttestationEntry::new(
        prompt_hash.to_string(),
        vec![LineRange::Range(1, 10)],
    ));
    log.attestations.push(file1);
    let serialized = log.serialize_to_string("{}");
    assert_eq!(serialized, "src/example.rs\n  prompt_abc123 1-10\n---\n{}");
    for file_attestation in &log.attestations {
        for entry in &file_attestation.entries {
            assert!(log.metadata.prompts.contains_key(&entry.hash));
        }
    }
}

#[test]
fn stable_sort_keeps_order_of_equal_starts() {
    let ranges = vec![LineRange::Range(5, 9), LineRange::Single(5), LineRange::Single(1)];
    assert_eq!(format_line_ranges(&ranges), "1,5-9,5");
}

#[test]
fn parse_line_ranges_edge_cases() {
    assert_eq!(parse_line_ranges("").unwrap(), vec![]);
    assert_eq!(parse_line_ranges(",,3,").unwrap(), vec![LineRange::Single(3)]);
    assert_eq!(parse_line_ranges("+7").unwrap(), vec![LineRange::Single(7)]);
    assert_eq!(parse_line_ranges("9-2").unwrap(), vec![LineRange::Range(9, 2)]);
    assert_eq!(parse_line_ranges("4294967295").unwrap(), vec![LineRange::Single(u32::MAX)]);
    assert_eq!(parse_line_ranges("4294967296"), Err(LogParseError::InvalidNumber));
    assert_eq!(parse_line_ranges("1-2-3"), Err(LogParseError::InvalidNumber));
    assert_eq!(parse_line_ranges("-5"), Err(LogParseError::InvalidNumber));
    assert_eq!(parse_line_ranges("1, 2"), Err(LogParseError::InvalidNumber));
}

#[test]
fn deserialize_errors() {
    assert_eq!(deserialize_from_string("src/a.rs\n  h 1\n"), Err(LogParseError::MissingDivider));
    assert_eq!(
        deserialize_from_string("  h 1\n---\n{}"),
        Err(LogParseError::EntryWithoutFile)
    );
    assert_eq!(
        deserialize_from_string("src/a.rs\n  nospace\n---\n{}"),
        Err(LogParseError::InvalidEntry("nospace".to_string()))
    );
    assert_eq!(
        deserialize_from_string("src/a.rs\n  h x\n---\n{}"),
        Err(LogParseError::InvalidNumber)
    );
}

#[test]
fn deserialize_skips_files_without_entries_and_blank_lines() {
    let text = "empty.rs\n\nsrc/a.rs   \n  h 3,1-2\r\n---\r\n{\n}";
    let (files, json) = deserialize_from_string(text).unwrap();
    assert_eq!(files.len(), 1);
    assert_eq!(files[0].file_path, "src/a.rs");
    assert_eq!(
        files[0].entries,
        vec![AttestationEntry::new(
            "h".to_string(),
            vec![LineRange::Single(3), LineRange::Range(1, 2)]
        )]
    );
    assert_eq!(json, "{\n}");
}

#[test]
fn reader_lines_are_joined_by_newlines() {
    let lines = vec!["src/a.rs".to_string(), "  h 1".to_string(), "---".to_string(), "{}".to_string()];
    let (files, json) = deserialize_from_reader(&lines).unwrap();
    assert_eq!(files.len(), 1);
    assert_eq!(files[0].file_path, "src/a.rs");
    assert_eq!(
        files[0].entries,
        vec![AttestationEntry::new("h".to_string(), vec![LineRange::Single(1)])]
    );
    assert_eq!(json, "{}");
    let only = vec!["--".to_string(), "-".to_string()];
    assert_eq!(deserialize_from_reader(&only), Err(LogParseError::MissingDivider));
}

#[test]
fn reader_reads_back_what_was_written() {
    let mut log = AuthorshipLogV3::new();
    let mut f = FileAttestation::new("src/lib.rs".to_string());
    f.add_entry(AttestationEntry::new(
        "abc".to_string(),
        vec![LineRange::Range(4, 6), LineRange::Single(1)],
    ));
    log.attestations.push(f);
    let json = "{\n  \"schema_version\": \"authorship/3.0.0\"\n}";
    let text = log.serialize_to_string(json);
    let lines: Vec<String> = std::io::BufRead::lines(text.as_bytes()).map(|l| l.unwrap()).collect();
    let (files, back) = deserialize_from_reader(&lines).unwrap();
    assert_eq!(back, json);
    assert_eq!(files.len(), 1);
    assert_eq!(files[0].file_path, "src/lib.rs");
    assert_eq!(
        files[0].entries,
        vec![AttestationEntry::new("abc".to_string(), vec![LineRange::Single(1), LineRange::Range(4, 6)])]
    );
    let empty_text = AuthorshipLogV3::new().serialize_to_string("");
    let lines: Vec<String> = std::io::BufRead::lines(empty_text.as_bytes()).map(|l| l.unwrap()).collect();
    let (files, back) = deserialize_from_reader(&lines).unwrap();
    assert!(files.is_empty());
    assert_eq!(back, "");
}

#[test]
fn metadata_starts_empty() {
    let m = AuthorshipMetadata::new();
    assert_eq!(m.schema_version, "authorship/3.0.0");
    assert!(m.base_commit_sha.is_empty());
    assert!(m.authors.is_empty());
    assert!(m.prompts.is_empty());
}

#[test]
fn conversion_keeps_only_prompt_entries() {
    let human = Checkpoint::new(
        "s".to_string(),
        "".to_string(),
        "dev".to_string(),
        vec![WorkingLogEntry::new("a.rs".to_string(), vec![Line::Range(1, 3)], vec![])],
    );
    let mut ai = Checkpoint::new(
        "s".to_string(),
        "".to_string(),
        "dev".to_string(),
        vec![WorkingLogEntry::new("a.rs".to_string(), vec![Line::Single(7)], vec![])],
    );
    let mut t = git_ai::working_log::AiTranscript::new();
    t.add_message(git_ai::working_log::Message::user("hi".to_string()));
    ai.transcript = Some(t);
    ai.agent_id = Some(AgentId { tool: "cursor".to_string(), id: "sess".to_string(), model: "unknown".to_string() });
    let log = AuthorshipLog::from_working_log(&[human, ai]);
    let v3 = AuthorshipLogV3::from_authorship_log(&log);
    assert_eq!(v3.attestations.len(), 1);
    assert_eq!(v3.attestations[0].file_path, "a.rs");
    assert_eq!(
        v3.attestations[0].entries,
        vec![AttestationEntry::new("sess".to_string(), vec![LineRange::Single(7)])]
    );
    assert!(v3.metadata.prompts.contains_key("sess"));
}

#[test]
fn text_roundtrip_sorts_ranges_and_keeps_metadata() {
    let mut log = AuthorshipLogV3::new();
    let mut f = FileAttestation::new("lib/a b.rs".to_string());
    f.add_entry(AttestationEntry::new(
        "h1".to_string(),
        vec![LineRange::Range(30, 31), LineRange::Single(4), LineRange::Single(4)],
    ));
    log.attestations.push(f);
    let json = "{\n  \"a\": 1\n}";
    let text = log.serialize_to_string(json);
    assert_eq!(text, "lib/a b.rs\n  h1 4,4,30-31\n---\n{\n  \"a\": 1\n}");
    let (files, meta) = deserialize_from_string(&text).unwrap();
    assert_eq!(files.len(), 1);
    assert_eq!(files[0].file_path, "lib/a b.rs");
    assert_eq!(files[0].entries[0].hash, "h1");
    assert_eq!(
        files[0].entries[0].line_ranges,
        vec![LineRange::Single(4), LineRange::Single(4), LineRange::Range(30, 31)]
    );
    assert_eq!(meta, json);
}

#[test]
fn text_roundtrip_drops_a_file_without_entries() {
    let mut log = AuthorshipLogV3::new();
    log.attestations.push(FileAttestation::new("empty.rs".to_string()));
    let text = log.serialize_to_string("{}");
    let (files, meta) = deserialize_from_string(&text).unwrap();
    assert!(files.is_empty());
    assert_eq!(meta, "{}");
}
