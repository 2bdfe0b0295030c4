use git_ai::rebase::{
    build_commit_path_to_base, cherry_pick_pairs, match_inserted_lines, parse_squash_args, LineageError,
    SquashArgs, SquashArgsError,
};

fn s(v: &[&str]) -> Vec<String> {
    v.iter().map(|x| x.to_string()).collect()
}

fn parent(chain: &[(&str, &str)], c: &str) -> Option<String> {
    chain.iter().find(|(child, _)| *child == c).map(|(_, p)| p.to_string())
}

#[test]
fn pairs_by_position() {
    let p = cherry_pick_pairs(&s(&["a", "b", "c"]), &s(&["x", "y"]));
    assert_eq!(p, vec![("a".to_string(), "x".to_string()), ("b".to_string(), "y".to_string())]);
    assert!(cherry_pick_pairs(&s(&[]), &s(&["x"])).is_empty());
}

#[test]
fn path_to_base() {
    let chain = [("d", "c"), ("c", "b"), ("b", "a")];
    assert_eq!(build_commit_path_to_base("d", "a", |c: &str| parent(&chain, c)), Ok(s(&["b", "c", "d"])));
    assert_eq!(build_commit_path_to_base("d", "c", |c: &str| parent(&chain, c)), Ok(s(&["d"])));
    assert_eq!(build_commit_path_to_base("d", "d", |c: &str| parent(&chain, c)), Err(LineageError::SameCommit));
    assert_eq!(build_commit_path_to_base("d", "z", |c: &str| parent(&chain, c)), Err(LineageError::NoPath));
    assert_eq!(
        build_commit_path_to_base("x", "y", |c: &str| Some(if c == "x" { "w".to_string() } else { "x".to_string() })),
        Err(LineageError::PathTooLong)
    );
}

#[test]
fn inserted_lines_match_first_unused_older_line() {
    let older = s(&["a", "b", "a", "c"]);
    let inserted = s(&["a", "a", "a", "c", "z"]);
    assert_eq!(match_inserted_lines(&older, &inserted), vec![Some(1), Some(3), None, Some(4), None]);
    assert_eq!(match_inserted_lines(&s(&[]), &s(&["a"])), vec![None]);
}

#[test]
fn squash_arguments_in_order() {
    let a = |v: &[&str]| v.iter().map(|s| s.to_string()).collect::<Vec<String>>();
    assert_eq!(
        parse_squash_args(&a(&["main", "new1", "old1"])),
        Ok(SquashArgs {
            branch: "main".to_string(),
            new_sha: "new1".to_string(),
            old_sha: "old1".to_string(),
            dry_run: false
        })
    );
    assert_eq!(
        parse_squash_args(&a(&["main", "--dry-run", "new1", "old1"])),
        Ok(SquashArgs {
            branch: "main".to_string(),
            new_sha: "new1".to_string(),
            old_sha: "old1".to_string(),
            dry_run: true
        })
    );
    assert_eq!(
        parse_squash_args(&a(&["main", "n", "o", "extra", "more"])),
        Err(SquashArgsError::UnknownArgument("extra".to_string()))
    );
    assert_eq!(parse_squash_args(&a(&[])), Err(SquashArgsError::MissingBranch));
    assert_eq!(parse_squash_args(&a(&["--dry-run"])), Err(SquashArgsError::MissingBranch));
    assert_eq!(parse_squash_args(&a(&["main"])), Err(SquashArgsError::MissingNewSha));
    assert_eq!(parse_squash_args(&a(&["main", "n"])), Err(SquashArgsError::MissingOldSha));
}
