use git_ai::authorship_log::PromptRecord;
use git_ai::authorship_log_v3::{AttestationEntry, AuthorshipLogV3, FileAttestation};
use git_ai::line_range::LineRange;
use git_ai::stats::{
    analyze_authorship_log, calculate_waiting_time, parse_numstat, stats_for_commit_stats, FileStats,
    StatsError,
};
use git_ai::working_log::{AgentId, Message};

fn ts_user(text: &str, ts: &str) -> Message {
    Message::User { text: text.to_string(), timestamp: Some(ts.to_string()) }
}

fn ts_ai(text: &str, ts: &str) -> Message {
    Message::Assistant { text: text.to_string(), timestamp: Some(ts.to_string()) }
}

#[test]
fn numstat_totals() {
    let out = "10\t2\tsrc/a.rs\n-\t-\tbin.dat\n3\t0\tsrc/b.rs\n\nnot a stat line\n 4\t4\tindented.rs\n";
    assert_eq!(parse_numstat(out), Some((13, 2)));
    assert_eq!(parse_numstat(""), Some((0, 0)));
    assert_eq!(parse_numstat("5\tx\tf\n7\t1\n"), Some((12, 1)));
    assert_eq!(parse_numstat("4294967295\t0\tf\n1\t0\tg\n"), None);
}

#[test]
fn waiting_time_between_questions_and_answers() {
    let msgs = vec![
        ts_user("q1", "2024-01-01T00:00:00Z"),
        ts_ai("a1", "2024-01-01T00:01:30Z"),
        ts_user("q2", "2024-01-01T00:02:00Z"),
        ts_ai("a2", "2024-01-01T00:02:10Z"),
    ];
    assert_eq!(calculate_waiting_time(&msgs), Some(100));
}

#[test]
fn waiting_time_edge_cases() {
    assert_eq!(calculate_waiting_time(&vec![]), Some(0));
    assert_eq!(calculate_waiting_time(&vec![ts_ai("a", "2024-01-01T00:00:00Z")]), Some(0));
    let ends_with_user = vec![
        ts_user("q1", "2024-01-01T00:00:00Z"),
        ts_ai("a1", "2024-01-01T00:01:00Z"),
        ts_user("q2", "2024-01-01T00:02:00Z"),
    ];
    assert_eq!(calculate_waiting_time(&ends_with_user), Some(0));
    let negative = vec![
        ts_user("q1", "2024-01-01T00:05:00Z"),
        ts_ai("a1", "2024-01-01T00:01:00Z"),
    ];
    assert_eq!(calculate_waiting_time(&negative), Some(0));
    let bad_ts = vec![ts_user("q1", "yesterday"), ts_ai("a1", "2024-01-01T00:01:00Z")];
    assert_eq!(calculate_waiting_time(&bad_ts), Some(0));
    let no_ts = vec![Message::user("q".to_string()), Message::assistant("a".to_string())];
    assert_eq!(calculate_waiting_time(&no_ts), Some(0));
}

fn log_with_prompt() -> AuthorshipLogV3 {
    let mut log = AuthorshipLogV3::new();
    log.metadata.prompts.insert(
        "p1".to_string(),
        PromptRecord {
            agent_id: AgentId { tool: "cursor".to_string(), id: "p1".to_string(), model: "unknown".to_string() },
            messages: vec![
                ts_user("q", "2024-01-01T00:00:00Z"),
                ts_ai("a", "2024-01-01T00:00:30Z"),
            ],
            accepted_lines: 0,
        },
    );
    let mut f = FileAttestation::new("a.rs".to_string());
    f.add_entry(AttestationEntry::new(
        "p1".to_string(),
        vec![LineRange::Range(1, 10), LineRange::Single(20)],
    ));
    f.add_entry(AttestationEntry::new("human".to_string(), vec![LineRange::Range(30, 32)]));
    log.attestations.push(f);
    log
}

#[test]
fn analyze_counts_ai_and_human_lines() {
    let log = log_with_prompt();
    assert_eq!(analyze_authorship_log(&log), Ok((3, 11, 11, 30)));
}

#[test]
fn analyze_rejects_reversed_ranges() {
    let mut log = AuthorshipLogV3::new();
    let mut f = FileAttestation::new("a.rs".to_string());
    f.add_entry(AttestationEntry::new("h".to_string(), vec![LineRange::Range(5, 2)]));
    log.attestations.push(f);
    assert_eq!(analyze_authorship_log(&log), Err(StatsError::ArithmeticOverflow));
}

#[test]
fn commit_stats_human_lines() {
    let log = log_with_prompt();
    let s = stats_for_commit_stats("20\t4\ta.rs\n", &log).unwrap();
    assert_eq!(s.git_diff_added_lines, 20);
    assert_eq!(s.git_diff_deleted_lines, 4);
    assert_eq!(s.ai_additions, 11);
    assert_eq!(s.ai_accepted, 11);
    assert_eq!(s.human_additions, 9);
    assert_eq!(s.time_waiting_for_ai, 30);
    let s = stats_for_commit_stats("5\t0\ta.rs\n", &log).unwrap();
    assert_eq!(s.human_additions, 3);
    let empty = AuthorshipLogV3::new();
    let s = stats_for_commit_stats("7\t1\ta.rs\n", &empty).unwrap();
    assert_eq!(s.human_additions, 7);
    assert_eq!(s.ai_additions, 0);
}

#[test]
fn file_stats_count_lines_by_author() {
    let mut fs = FileStats::new(3);
    fs.add_line("alice");
    fs.add_line("bob");
    fs.add_line("alice");
    assert_eq!(fs.deletions, 3);
    assert_eq!(fs.total_additions, 3);
    assert_eq!(*fs.additions.get("alice").unwrap(), 2);
    assert_eq!(*fs.additions.get("bob").unwrap(), 1);
}

#[test]
fn waiting_time_texts() {
    assert_eq!(git_ai::stats::format_waiting_time(0), "0s");
    assert_eq!(git_ai::stats::format_waiting_time(59), "59s");
    assert_eq!(git_ai::stats::format_waiting_time(60), "1m 0s");
    assert_eq!(git_ai::stats::format_waiting_time(3725), "62m 5s");
}
