use git_ai::commit_author::{
    commit_default_user_name, default_user_name, explicit_author_name, extract_author_from_args,
    resolve_author_name,
};

fn strs(v: &[&str]) -> Vec<String> {
    v.iter().map(|s| s.to_string()).collect()
}

#[test]
fn author_from_commit_arguments() {
    assert_eq!(
        extract_author_from_args(&strs(&["-m", "msg", "--author=Ann <a@x.io>"])),
        Some("Ann <a@x.io>".to_string())
    );
    assert_eq!(
        extract_author_from_args(&strs(&["--author", "Bob", "--author=Ann"])),
        Some("Bob".to_string())
    );
    assert_eq!(extract_author_from_args(&strs(&["-m", "x", "--author"])), None);
    assert_eq!(extract_author_from_args(&strs(&[])), None);
}

#[test]
fn explicit_author_takes_the_name_before_the_last_angle() {
    assert_eq!(explicit_author_name("  A U Thor <a@x.io>"), Some("A U Thor".to_string()));
    assert_eq!(explicit_author_name("x <y> <z@w>"), Some("x <y>".to_string()));
    assert_eq!(explicit_author_name("<only@mail>"), None);
    assert_eq!(explicit_author_name("pattern"), None);
}

#[test]
fn default_user_name_precedence() {
    let none: Option<String> = None;
    assert_eq!(
        default_user_name(&Some("  Env Name ".to_string()), &Some("cfg".to_string()), &none),
        "Env Name"
    );
    assert_eq!(
        default_user_name(&Some("   ".to_string()), &Some(" cfg ".to_string()), &none),
        "cfg"
    );
    assert_eq!(default_user_name(&none, &none, &Some("dev@example.com".to_string())), "dev");
    assert_eq!(default_user_name(&none, &none, &Some("@example.com".to_string())), "@example.com");
    assert_eq!(default_user_name(&none, &none, &Some(" plain ".to_string())), " plain ");
    assert_eq!(default_user_name(&none, &none, &none), "unknown");
}

#[test]
fn author_pattern_matches_commit_authors_without_case() {
    let names = strs(&["Carol Jones", "Alice Smith", "alice cooper"]);
    assert_eq!(resolve_author_name("Ann <ann@x.io>", &names), "Ann");
    assert_eq!(resolve_author_name("ALICE", &names), "Alice Smith");
    assert_eq!(resolve_author_name("cooper", &names), "alice cooper");
    assert_eq!(resolve_author_name("  nobody ", &names), "nobody");
    assert_eq!(resolve_author_name("<x@y>", &names), "<x@y>");
    assert_eq!(resolve_author_name("ÉLODIE", &strs(&["élodie M"])), "élodie M");
}

#[test]
fn commit_user_name_prefers_the_author_argument() {
    let none: Option<String> = None;
    let names = strs(&["Dana Lee"]);
    assert_eq!(
        commit_default_user_name(&strs(&["-m", "x", "--author", "dana"]), &names, &Some("Env".to_string()), &none, &none),
        "Dana Lee"
    );
    assert_eq!(
        commit_default_user_name(&strs(&["-m", "x"]), &names, &Some("Env".to_string()), &none, &none),
        "Env"
    );
    assert_eq!(commit_default_user_name(&strs(&[]), &names, &none, &none, &none), "unknown");
}
