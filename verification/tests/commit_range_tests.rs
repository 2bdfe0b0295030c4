use git_ai::commit_range::{
    extract_branch_name, is_valid_commit_hash, parse_commit_range, CommitRangeError,
};

#[test]
fn commit_hashes_are_four_to_forty_hex_digits() {
    assert!(is_valid_commit_hash("abc1"));
    assert!(is_valid_commit_hash("ABCDEF0123456789abcdef0123456789abcdef01"));
    assert!(!is_valid_commit_hash("abc"));
    assert!(!is_valid_commit_hash("ABCDEF0123456789abcdef0123456789abcdef012"));
    assert!(!is_valid_commit_hash("abcg"));
    assert!(!is_valid_commit_hash(""));
}

#[test]
fn commit_range_two_hashes() {
    assert_eq!(
        parse_commit_range("abc123..def456"),
        Ok(("abc123".to_string(), "def456".to_string()))
    );
}

#[test]
fn commit_range_needs_exactly_two_parts() {
    assert_eq!(parse_commit_range("abc123"), Err(CommitRangeError::NotTwoParts));
    assert_eq!(parse_commit_range("a1b2..c3d4..e5f6"), Err(CommitRangeError::NotTwoParts));
    assert_eq!(parse_commit_range("a1b2....c3d4"), Err(CommitRangeError::NotTwoParts));
}

#[test]
fn commit_range_reports_the_first_invalid_part() {
    assert_eq!(
        parse_commit_range("xyz1..abcd"),
        Err(CommitRangeError::InvalidHash("xyz1".to_string()))
    );
    assert_eq!(
        parse_commit_range("abcd..12"),
        Err(CommitRangeError::InvalidHash("12".to_string()))
    );
    // "a...b" splits into "a" and ".b".
    assert_eq!(
        parse_commit_range("abcd...ef01"),
        Err(CommitRangeError::InvalidHash(".ef01".to_string()))
    );
}

#[test]
fn branch_names_from_merge_summaries() {
    assert_eq!(
        extract_branch_name("Merge pull request #123 from user/feature-x", "origin/main"),
        Some("feature-x".to_string())
    );
    assert_eq!(
        extract_branch_name("Merge branch 'feat/xyz' into main", "main"),
        Some("feat/xyz".to_string())
    );
    assert_eq!(
        extract_branch_name("Merge branch feat/abc", "origin/main"),
        Some("feat/abc".to_string())
    );
    assert_eq!(extract_branch_name("Merge pull request #1 from org/main", "origin/main"), None);
    assert_eq!(extract_branch_name("Update readme", "main"), None);
    // The first pattern takes any "from" followed by a word.
    assert_eq!(
        extract_branch_name("Remove code from parser", "main"),
        Some("parser".to_string())
    );
}
