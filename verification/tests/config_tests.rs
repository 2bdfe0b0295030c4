use git_ai::config::{configured_git_path, git_path_candidates, Config};

#[test]
fn config_getters() {
    let c = Config::new("/usr/bin/git".to_string(), true, vec![]);
    assert_eq!(c.git_cmd(), "/usr/bin/git");
    assert!(c.get_ignore_prompts());
    assert!(c.ignore_prompts());
}

#[test]
fn empty_allow_list_allows_everything() {
    let c = Config::new("git".to_string(), false, vec![]);
    assert!(c.is_allowed_repository(&None));
    assert!(c.is_allowed_repository(&Some(None)));
}

#[test]
fn allow_list_matches_remote_urls() {
    let c = Config::new(
        "git".to_string(),
        false,
        vec!["git@github.com:org/repo.git".to_string()],
    );
    assert!(!c.is_allowed_repository(&None));
    assert!(!c.is_allowed_repository(&Some(None)));
    let remotes = vec![
        ("upstream".to_string(), "https://example.com/x.git".to_string()),
        ("origin".to_string(), "git@github.com:org/repo.git".to_string()),
    ];
    assert!(c.is_allowed_repository(&Some(Some(remotes))));
    let other = vec![("origin".to_string(), "git@github.com:org/other.git".to_string())];
    assert!(!c.is_allowed_repository(&Some(Some(other))));
    assert!(!c.is_allowed_repository(&Some(Some(vec![]))));
}

#[test]
fn file_values_defaults() {
    let c = Config::from_file_values("git".to_string(), None, None);
    assert!(!c.get_ignore_prompts());
    assert!(c.is_allowed_repository(&None));
    let c = Config::from_file_values("git".to_string(), Some(true), Some(vec!["u".to_string()]));
    assert!(c.get_ignore_prompts());
    assert!(!c.is_allowed_repository(&None));
}

#[test]
fn configured_path_is_trimmed() {
    assert_eq!(configured_git_path(&Some("  /opt/git \n".to_string())), Some("/opt/git".to_string()));
    assert_eq!(configured_git_path(&Some(" \t ".to_string())), None);
    assert_eq!(configured_git_path(&None), None);
    assert_eq!(git_path_candidates()[0], "/opt/homebrew/bin/git");
    assert_eq!(git_path_candidates().len(), 8);
}
