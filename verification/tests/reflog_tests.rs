use git_ai::reflog::{commits_without_notes, extract_remote, parse_reflog_note};

fn strs(v: &[&str]) -> Vec<String> {
    v.iter().map(|s| s.to_string()).collect()
}

#[test]
fn reflog_note_gives_branch_and_head() {
    assert_eq!(
        parse_reflog_note("origin/main 8c1a000878cd22bc04a04822da423d87143f728a"),
        Some((
            "origin/main".to_string(),
            "8c1a000878cd22bc04a04822da423d87143f728a".to_string()
        ))
    );
    assert_eq!(
        parse_reflog_note("  feature/x\t\tabc123  extra words\n"),
        Some(("feature/x".to_string(), "abc123".to_string()))
    );
    assert_eq!(parse_reflog_note("origin/main"), None);
    assert_eq!(parse_reflog_note("   "), None);
    assert_eq!(parse_reflog_note(""), None);
}

#[test]
fn remote_is_the_part_before_the_first_slash() {
    assert_eq!(extract_remote("origin/main"), Some("origin".to_string()));
    assert_eq!(extract_remote("upstream/feature/x"), Some("upstream".to_string()));
    assert_eq!(extract_remote("main"), Some("main".to_string()));
    assert_eq!(extract_remote("/main"), Some("".to_string()));
}

#[test]
fn commits_without_notes_keep_their_order() {
    let all = strs(&["c1", "c2", "c3", "c4"]);
    assert_eq!(commits_without_notes(&all, &strs(&["c3", "c1", "zz"])), strs(&["c2", "c4"]));
    assert_eq!(commits_without_notes(&all, &strs(&[])), all);
    assert_eq!(commits_without_notes(&all, &all), strs(&[]));
}
