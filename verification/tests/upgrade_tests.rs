use git_ai::upgrade::{check_for_updates, decide_upgrade_action, is_newer_version, latest_release_url, update_check_due, version_from_tag, UpgradeAction};

#[test]
fn test_is_newer_version() {
    assert!(!is_newer_version("1.0.0", "1.0.0"));
    assert!(!is_newer_version("1.0.10", "1.0.10"));

    assert!(is_newer_version("1.0.1", "1.0.0"));
    assert!(is_newer_version("1.0.11", "1.0.10"));
    assert!(!is_newer_version("1.0.0", "1.0.1"));
    assert!(!is_newer_version("1.0.10", "1.0.11"));

    assert!(is_newer_version("1.1.0", "1.0.0"));
    assert!(!is_newer_version("1.0.0", "1.1.0"));

    assert!(is_newer_version("2.0.0", "1.0.0"));
    assert!(is_newer_version("2.0.0", "1.9.9"));
    assert!(!is_newer_version("1.9.9", "2.0.0"));

    assert!(is_newer_version("1.0.0.1", "1.0.0"));
    assert!(!is_newer_version("1.0.0", "1.0.0.1"));

    assert!(is_newer_version("1.10.0", "1.9.0"));
    assert!(is_newer_version("1.0.100", "1.0.99"));
    assert!(is_newer_version("100.200.300", "100.200.299"));
}

#[test]
fn newer_version_skips_non_numeric_parts() {
    assert!(is_newer_version("1.x.2", "1.1"));
    assert!(!is_newer_version("abc", "0"));
    assert!(!is_newer_version("1.0.1-beta", "1.0.0"));
    assert!(!is_newer_version("", ""));
}

#[test]
fn newer_version_is_asymmetric_on_examples() {
    let pairs = [("1.2.3", "1.2"), ("0.9", "1.0"), ("2", "2.0.0")];
    for (a, b) in pairs {
        assert!(!(is_newer_version(a, b) && is_newer_version(b, a)));
    }
    assert!(!is_newer_version("2", "2.0.0"));
    assert!(!is_newer_version("2.0.0", "2"));
}

#[test]
fn upgrade_action_choices() {
    assert_eq!(decide_upgrade_action(true, "1.0.0", "1.0.0"), UpgradeAction::ForceReinstall);
    assert_eq!(decide_upgrade_action(false, "1.0.0", "1.0.0"), UpgradeAction::AlreadyLatest);
    assert_eq!(decide_upgrade_action(false, "1.0.1", "1.0.0"), UpgradeAction::UpgradeAvailable);
    assert_eq!(decide_upgrade_action(false, "1.0.0", "1.0.1"), UpgradeAction::RunningNewerVersion);
}

#[test]
fn release_tags_lose_leading_v() {
    assert_eq!(version_from_tag("v1.2.3"), "1.2.3");
    assert_eq!(version_from_tag("vv2"), "2");
    assert_eq!(version_from_tag("1.0"), "1.0");
    assert_eq!(version_from_tag(""), "");
}

#[test]
fn update_check_interval() {
    assert!(update_check_due(None));
    assert!(!update_check_due(Some(24 * 3600)));
    assert!(update_check_due(Some(24 * 3600 + 1)));
}

#[test]
fn release_url() {
    assert_eq!(
        latest_release_url(None),
        "https://api.github.com/repos/acunniffe/git-ai/releases/latest"
    );
    assert_eq!(
        latest_release_url(Some("http://localhost:1234")),
        "http://localhost:1234/repos/acunniffe/git-ai/releases/latest"
    );
}

#[test]
fn background_check_announces_newer_releases_only() {
    assert_eq!(check_for_updates("v1.0.5", "1.0.4"), Some("1.0.5".to_string()));
    assert_eq!(check_for_updates("v1.0.4", "1.0.4"), None);
    assert_eq!(check_for_updates("v1.0.3", "1.0.4"), None);
}
