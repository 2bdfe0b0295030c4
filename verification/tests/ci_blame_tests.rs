use git_ai::authorship_log::{AttributionEntry, Author, AuthorshipLog};
use git_ai::blame::{blame_line_authors, resolve_line_range, BlameError, BlameHunk};
use git_ai::line_range::LineRange;
use git_ai::ci::{classify_merge, github_ci_merge, CiContext, CiEvent, GithubPullRequest, MergeKind};

#[test]
fn merge_classification() {
    assert_eq!(classify_merge(2, "m", "h"), MergeKind::SimpleMerge);
    assert_eq!(classify_merge(1, "h", "h"), MergeKind::FastForward);
    assert_eq!(classify_merge(1, "m", "h"), MergeKind::SquashOrRebase);
    let ctx = CiContext {
        repo_path: "/tmp/repo".to_string(),
        event: CiEvent::Merge {
            merge_commit_sha: "m".to_string(),
            head_ref: "feature".to_string(),
            head_sha: "h".to_string(),
            base_ref: "main".to_string(),
            base_sha: "b".to_string(),
        },
        temp_dir: "/tmp/x".to_string(),
    };
    assert_eq!(ctx.merge_kind(1), MergeKind::SquashOrRebase);
    assert_eq!(ctx.merge_kind(3), MergeKind::SimpleMerge);
}

#[test]
fn blame_line_ranges() {
    assert_eq!(resolve_line_range(None, 12), Ok((1, 12)));
    assert_eq!(resolve_line_range(Some((2, 5)), 12), Ok((2, 5)));
    assert_eq!(
        resolve_line_range(Some((0, 5)), 12),
        Err(BlameError::InvalidLineRange { start: 0, end: 5, total_lines: 12 })
    );
    assert_eq!(
        resolve_line_range(Some((6, 5)), 12),
        Err(BlameError::InvalidLineRange { start: 6, end: 5, total_lines: 12 })
    );
    assert_eq!(
        resolve_line_range(Some((1, 13)), 12),
        Err(BlameError::InvalidLineRange { start: 1, end: 13, total_lines: 12 })
    );
    let h = BlameHunk { range: (1, 3), commit_sha: "abc".to_string(), original_author: "dev".to_string() };
    assert_eq!(h.range, (1, 3));
}

fn pr(merged: bool, merge_commit: Option<&str>) -> GithubPullRequest {
    GithubPullRequest {
        base_ref: "main".to_string(),
        base_sha: "b1".to_string(),
        base_clone_url: "https://example.com/r.git".to_string(),
        head_ref: "feature".to_string(),
        head_sha: "h1".to_string(),
        merged,
        merge_commit_sha: merge_commit.map(|s| s.to_string()),
    }
}

#[test]
fn github_merged_pull_request_gives_a_merge_event() {
    let (event, args, dir) = github_ci_merge("pull_request", Some(pr(true, Some("m1")))).unwrap();
    assert_eq!(
        event,
        CiEvent::Merge {
            merge_commit_sha: "m1".to_string(),
            head_ref: "feature".to_string(),
            head_sha: "h1".to_string(),
            base_ref: "main".to_string(),
            base_sha: "b1".to_string(),
        }
    );
    assert_eq!(
        args,
        vec!["clone", "--branch", "main", "https://example.com/r.git", "git-ai-ci-clone"]
    );
    assert_eq!(dir, "git-ai-ci-clone");
}

#[test]
fn github_other_events_give_nothing() {
    assert!(github_ci_merge("push", Some(pr(true, Some("m1")))).is_none());
    assert!(github_ci_merge("pull_request", None).is_none());
    assert!(github_ci_merge("pull_request", Some(pr(false, Some("m1")))).is_none());
    assert!(github_ci_merge("pull_request", Some(pr(true, None))).is_none());
}

fn hunk(a: u32, b: u32, sha: &str, author: &str) -> BlameHunk {
    BlameHunk { range: (a, b), commit_sha: sha.to_string(), original_author: author.to_string() }
}

#[test]
fn blame_overlays_ai_authors_on_git_hunks() {
    let mut log = AuthorshipLog::new();
    log.authors.insert(
        "k".to_string(),
        Author { username: "ai-bot".to_string(), email: "bot@example.com".to_string() },
    );
    log.get_or_create_file("f.rs").push(AttributionEntry {
        lines: vec![LineRange::Single(1)],
        author_key: "k".to_string(),
        prompt_session_id: None,
        prompt_turn: None,
    });
    let hunks = vec![hunk(1, 3, "c1", "Ann"), hunk(4, 5, "c2", "Bob"), hunk(2, 2, "c3", "Cat")];
    let logs = vec![Some(log), None, None];
    assert_eq!(
        blame_line_authors(&hunks, &logs, "f.rs", 1, 6),
        vec!["ai-bot", "Cat", "Ann", "Bob", "Bob", "unknown"]
    );
    assert!(blame_line_authors(&hunks, &logs, "f.rs", 3, 2).is_empty());
}
