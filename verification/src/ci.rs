//! Continuous-integration events and which merges need their authorship
//! rewritten.
use vstd::prelude::*;

verus! {

/// An event seen by continuous integration.
#[derive(Debug, Clone, PartialEq, Eq)]
pub enum CiEvent {
    /// A pull request was merged.
    Merge {
        merge_commit_sha: String,
        head_ref: String,
        head_sha: String,
        base_ref: String,
        base_sha: String,
    },
}

/// The context of a continuous-integration run: the repository (by path),
/// the event, and a scratch directory.
#[derive(Debug, Clone, PartialEq, Eq)]
pub struct CiContext {
    pub repo_path: String,
    pub event: CiEvent,
    pub temp_dir: String,
}

/// How a pull request was merged.
#[derive(Debug, Clone, Copy, PartialEq, Eq, Structural)]
pub enum MergeKind {
    /// A merge commit with two or more parents: nothing to rewrite.
    SimpleMerge,
    /// The merge commit is the head commit: nothing to rewrite.
    FastForward,
    /// Squashed or rebased: the authorship must be rewritten.
    SquashOrRebase,
}

/// Classifies a merge from the number of parents of its merge commit.
pub fn classify_merge(parent_count: usize, merge_commit_sha: &str, head_sha: &str) -> (r: MergeKind)
    ensures
        r == if parent_count > 1 {
            MergeKind::SimpleMerge
        } else if merge_commit_sha@ == head_sha@ {
            MergeKind::FastForward
        } else {
            MergeKind::SquashOrRebase
        },
{
    if parent_count > 1 {
        MergeKind::SimpleMerge
    } else if crate::str_map::str_eq(merge_commit_sha, head_sha) {
        MergeKind::FastForward
    } else {
        MergeKind::SquashOrRebase
    }
}

impl CiContext {
    /// How the event's pull request was merged, given the number of parents
    /// of its merge commit.
    pub fn merge_kind(&self, parent_count: usize) -> (r: MergeKind)
        ensures
            match self.event {
                CiEvent::Merge { merge_commit_sha, head_sha, .. } => r == if parent_count > 1 {
                    MergeKind::SimpleMerge
                } else if merge_commit_sha@ == head_sha@ {
                    MergeKind::FastForward
                } else {
                    MergeKind::SquashOrRebase
                },
            },
    {
        match &self.event {
            CiEvent::Merge { merge_commit_sha, head_sha, .. } => classify_merge(
                parent_count,
                merge_commit_sha.as_str(),
                head_sha.as_str(),
            ),
        }
    }
}


/// A pull request as a GitHub event reports it.
#[derive(Debug, Clone, PartialEq, Eq)]
pub struct GithubPullRequest {
    pub base_ref: String,
    pub base_sha: String,
    pub base_clone_url: String,
    pub head_ref: String,
    pub head_sha: String,
    pub merged: bool,
    pub merge_commit_sha: Option<String>,
}

/// The directory the base repository is cloned into.
pub open spec fn ci_clone_dir() -> Seq<char> {
    "git-ai-ci-clone"@
}

/// The pull request of a `pull_request` event, when it was merged with a
/// merge commit.
pub open spec fn merged_pull_request(event_name: Seq<char>, pull_request: Option<GithubPullRequest>) -> Option<
    GithubPullRequest,
> {
    if event_name == "pull_request"@ {
        match pull_request {
            Some(p) => if p.merged && p.merge_commit_sha is Some {
                Some(p)
            } else {
                None
            },
            None => None,
        }
    } else {
        None
    }
}

/// The fields of a merge event: merge commit, head ref and commit, base
/// ref and commit.
pub open spec fn merge_view(e: CiEvent) -> (Seq<char>, Seq<char>, Seq<char>, Seq<char>, Seq<char>) {
    match e {
        CiEvent::Merge { merge_commit_sha, head_ref, head_sha, base_ref, base_sha } => (
            merge_commit_sha@,
            head_ref@,
            head_sha@,
            base_ref@,
            base_sha@,
        ),
    }
}

/// What a GitHub event asks of git-ai (see `merged_pull_request`): for a
/// merged pull request, its merge event, the arguments that clone its base
/// branch into `git-ai-ci-clone`, and that directory; nothing otherwise.
pub fn github_ci_merge(event_name: &str, pull_request: Option<GithubPullRequest>) -> (r: Option<
    (CiEvent, Vec<String>, String),
>)
    ensures
        match merged_pull_request(event_name@, pull_request) {
            None => r is None,
            Some(p) => r matches Some((ev, clone_args, dir)) && merge_view(ev) == (
                p.merge_commit_sha->0@,
                p.head_ref@,
                p.head_sha@,
                p.base_ref@,
                p.base_sha@,
            ) && clone_args@.map_values(|a: String| a@) == seq![
                "clone"@,
                "--branch"@,
                p.base_ref@,
                p.base_clone_url@,
                ci_clone_dir(),
            ] && dir@ == ci_clone_dir(),
        },
{
    if !crate::str_map::str_eq(event_name, "pull_request") {
        return None;
    }
    let pr = match pull_request {
        Some(p) => p,
        None => {
            return None;
        },
    };
    if !pr.merged {
        return None;
    }
    let merge_commit_sha = match pr.merge_commit_sha {
        Some(m) => m,
        None => {
            return None;
        },
    };
    let mut clone_args: Vec<String> = Vec::new();
    clone_args.push("clone".to_owned());
    clone_args.push("--branch".to_owned());
    clone_args.push(pr.base_ref.clone());
    clone_args.push(pr.base_clone_url);
    clone_args.push("git-ai-ci-clone".to_owned());
    assert(clone_args@.map_values(|a: String| a@) =~= seq![
        "clone"@,
        "--branch"@,
        pr.base_ref@,
        pr.base_clone_url@,
        ci_clone_dir(),
    ]);
    Some(
        (
            CiEvent::Merge {
                merge_commit_sha,
                head_ref: pr.head_ref,
                head_sha: pr.head_sha,
                base_ref: pr.base_ref,
                base_sha: pr.base_sha,
            },
            clone_args,
            "git-ai-ci-clone".to_owned(),
        ),
    )
}

} // verus!
