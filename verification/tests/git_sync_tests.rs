use git_ai::git_sync::{
    choose_remote, contains_chars, copy_ref_args, ends_with_chars, extract_remote_from_fetch_args,
    extract_remote_from_push_args, fetch_remote_from_args, is_push_option_with_inline_value,
    merge_notes_args, note_content, notes_add_args, notes_fetch_args, notes_push_args,
    notes_show_args, notes_sync_action, option_consumes_separate_value, ref_exists_args,
    sanitize_remote_name, should_push_authorship, starts_with_chars, tracking_ref_for_remote,
    NotesSyncAction,
};

fn s(v: &[&str]) -> Vec<String> {
    v.iter().map(|x| x.to_string()).collect()
}

fn chars(x: &str) -> Vec<char> {
    x.chars().collect()
}

#[test]
fn text_predicates() {
    assert!(starts_with_chars(&chars("./repo"), &chars("./")));
    assert!(!starts_with_chars(&chars("."), &chars("./")));
    assert!(ends_with_chars(&chars("repo.git"), &chars(".git")));
    assert!(!ends_with_chars(&chars("git"), &chars(".git")));
    assert!(contains_chars(&chars("https://x"), &chars("://")));
    assert!(!contains_chars(&chars("a:/b"), &chars("://")));
    assert!(contains_chars(&chars("abc"), &chars("")));
}

#[test]
fn push_options() {
    assert!(option_consumes_separate_value("--repo"));
    assert!(option_consumes_separate_value("-o"));
    assert!(!option_consumes_separate_value("--force"));
    assert_eq!(
        is_push_option_with_inline_value("--repo=origin"),
        Some(("--repo".to_string(), "origin".to_string()))
    );
    assert_eq!(
        is_push_option_with_inline_value("-C/tmp/x"),
        Some(("-C".to_string(), "/tmp/x".to_string()))
    );
    assert_eq!(is_push_option_with_inline_value("-C"), None);
    assert_eq!(is_push_option_with_inline_value("--force"), None);
}

#[test]
fn push_remote_detection() {
    let known = s(&["origin", "upstream"]);
    assert_eq!(extract_remote_from_push_args(&s(&["origin", "main"]), &known), Some("origin".to_string()));
    assert_eq!(extract_remote_from_push_args(&s(&["-f", "upstream"]), &known), Some("upstream".to_string()));
    assert_eq!(extract_remote_from_push_args(&s(&["--repo=fork"]), &known), Some("fork".to_string()));
    assert_eq!(extract_remote_from_push_args(&s(&["--repo", "fork2"]), &known), Some("fork2".to_string()));
    assert_eq!(extract_remote_from_push_args(&s(&["--repo"]), &known), None);
    assert_eq!(extract_remote_from_push_args(&s(&["-o", "ci.skip", "mine"]), &known), Some("mine".to_string()));
    assert_eq!(extract_remote_from_push_args(&s(&["--", "x"]), &known), Some("x".to_string()));
    assert_eq!(extract_remote_from_push_args(&s(&["--"]), &known), None);
    assert_eq!(extract_remote_from_push_args(&s(&["-o"]), &known), None);
    assert_eq!(extract_remote_from_push_args(&s(&["--force"]), &known), None);
}

#[test]
fn fetch_remote_detection() {
    let never = |_p: &str| false;
    assert_eq!(extract_remote_from_fetch_args(&s(&["https://h/r.git"]), never), Some("https://h/r.git".to_string()));
    assert_eq!(extract_remote_from_fetch_args(&s(&["git@github.com:o/r"]), never), Some("git@github.com:o/r".to_string()));
    assert_eq!(extract_remote_from_fetch_args(&s(&["--all", "../other"]), never), Some("../other".to_string()));
    assert_eq!(extract_remote_from_fetch_args(&s(&["bare.git"]), never), Some("bare.git".to_string()));
    assert_eq!(extract_remote_from_fetch_args(&s(&["origin", "/abs"]), never), None);
    assert_eq!(extract_remote_from_fetch_args(&s(&["--", "-weird"]), |p: &str| p == "-weird"), Some("-weird".to_string()));
    assert_eq!(extract_remote_from_fetch_args(&s(&["dir"]), |p: &str| p == "dir"), Some("dir".to_string()));
    assert_eq!(extract_remote_from_fetch_args(&s(&["--prune"]), never), None);
}

#[test]
fn remote_choice() {
    let names = s(&["origin", "up"]);
    let args = s(&["--prune", "up", "origin"]);
    assert_eq!(choose_remote(Some("x".to_string()), &args, &names, None, None), Some("x".to_string()));
    assert_eq!(choose_remote(None, &args, &names, None, None), Some("up".to_string()));
    assert_eq!(choose_remote(None, &s(&[]), &names, Some("u".to_string()), Some("d".to_string())), Some("u".to_string()));
    assert_eq!(choose_remote(None, &s(&[]), &names, None, Some("d".to_string())), Some("d".to_string()));
    assert_eq!(fetch_remote_from_args(None, &s(&[]), &names, None, None), None);
}

#[test]
fn push_hook_skips() {
    assert!(should_push_authorship(&s(&["origin"]), false, true));
    assert!(!should_push_authorship(&s(&["origin"]), true, true));
    assert!(!should_push_authorship(&s(&["origin"]), false, false));
    assert!(!should_push_authorship(&s(&["-d", "origin", "b"]), false, true));
    assert!(!should_push_authorship(&s(&["--mirror"]), false, true));
}

#[test]
fn tracking_refs() {
    assert_eq!(sanitize_remote_name("my-remote_1"), "my-remote_1");
    assert_eq!(sanitize_remote_name("a/b:c"), "a_b_c");
    assert_eq!(sanitize_remote_name("émoji✓"), "émoji_");
    assert_eq!(tracking_ref_for_remote("origin"), "refs/notes/ai-remote/origin");
}

#[test]
fn invocations() {
    let g = s(&["-C", "/repo"]);
    assert_eq!(
        notes_fetch_args(&g, "origin", "refs/notes/ai-remote/origin"),
        s(&[
            "-C", "/repo", "-c", "core.hooksPath=/dev/null", "fetch", "--no-tags",
            "--recurse-submodules=no", "--no-write-fetch-head", "--no-write-commit-graph",
            "--no-auto-maintenance", "origin", "+refs/notes/ai:refs/notes/ai-remote/origin"
        ])
    );
    assert_eq!(
        notes_push_args(&g, "origin"),
        s(&[
            "-C", "/repo", "-c", "core.hooksPath=/dev/null", "push", "--quiet",
            "--no-recurse-submodules", "--no-verify", "origin", "refs/notes/ai:refs/notes/ai"
        ])
    );
    assert_eq!(
        merge_notes_args(&s(&[]), "refs/notes/ai-remote/o"),
        s(&["notes", "--ref=ai", "merge", "-s", "ours", "--quiet", "refs/notes/ai-remote/o"])
    );
    assert_eq!(copy_ref_args(&s(&[]), "a", "b"), s(&["update-ref", "b", "a"]));
    assert_eq!(ref_exists_args(&s(&[]), "r"), s(&["show-ref", "--verify", "--quiet", "r"]));
    assert_eq!(notes_add_args(&s(&[]), "abc"), s(&["notes", "--ref=ai", "add", "-f", "-F", "-", "abc"]));
    assert_eq!(notes_show_args(&s(&[]), "abc"), s(&["notes", "--ref=ai", "show", "abc"]));
}

#[test]
fn sync_actions_and_notes() {
    assert_eq!(notes_sync_action(false, true), NotesSyncAction::Nothing);
    assert_eq!(notes_sync_action(true, true), NotesSyncAction::Merge);
    assert_eq!(notes_sync_action(true, false), NotesSyncAction::CopyToLocal);
    assert_eq!(note_content("  {\"a\":1}\n"), Some("{\"a\":1}".to_string()));
    assert_eq!(note_content(" \n\t"), None);
}

#[test]
fn dry_run_and_default_remote() {
    let s = |v: &[&str]| v.iter().map(|x| x.to_string()).collect::<Vec<String>>();
    assert!(git_ai::git_sync::is_dry_run(&s(&["origin", "--dry-run"])));
    assert!(git_ai::git_sync::is_dry_run(&s(&["-n"])));
    assert!(!git_ai::git_sync::is_dry_run(&s(&["--no-verify", "main"])));
    assert_eq!(git_ai::git_sync::get_default_remote(&s(&["up", "origin"])), Some("origin".to_string()));
    assert_eq!(git_ai::git_sync::get_default_remote(&s(&["up", "fork"])), Some("up".to_string()));
    assert_eq!(git_ai::git_sync::get_default_remote(&s(&[])), None);
}

#[test]
fn tracking_ref_of_ascii_remote() {
    assert_eq!(
        git_ai::git_sync::tracking_ref_for_remote("my.remote/x"),
        "refs/notes/ai-remote/my_remote_x"
    );
}
