use git_ai::authorship_log::{AttributionEntry, AuthorshipLog};
use git_ai::line_range::LineRange;

#[test]
fn line_range_display_text() {
    assert_eq!(LineRange::Single(7).to_string(), "7");
    assert_eq!(LineRange::Range(3, 12).to_string(), "[3, 12]");
}

#[test]
fn authorship_log_display_text() {
    let mut log = AuthorshipLog::new();
    {
        let f = log.get_or_create_file("src/b.rs");
        f.push(AttributionEntry {
            lines: vec![LineRange::Single(1), LineRange::Range(4, 6)],
            author_key: "k1".to_string(),
            prompt_session_id: Some("s1".to_string()),
            prompt_turn: Some(0),
        });
        f.push(AttributionEntry {
            lines: vec![],
            author_key: "k2".to_string(),
            prompt_session_id: None,
            prompt_turn: None,
        });
    }
    log.get_or_create_file("src/a.rs");
    assert_eq!(
        log.to_string(),
        "src/a.rs\nsrc/b.rs\n  [Single(1), Range(4, 6)] k1 s1\n  [] k2 \n"
    );
}
