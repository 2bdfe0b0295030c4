//! Blame: which author wrote each line of a file.
use vstd::prelude::*;
use crate::authorship_log::{line_attribution_spec, AuthorshipLog};

verus! {

/// A run of lines that one commit introduced.
#[derive(Debug)]
pub struct BlameHunk {
    /// The first and last line (inclusive).
    pub range: (u32, u32),
    /// The commit that introduced the lines.
    pub commit_sha: String,
    /// The commit's author as git records it.
    pub original_author: String,
}

/// Why a blame cannot run.
#[derive(Debug, Clone, Copy, PartialEq, Eq, Structural)]
pub enum BlameError {
    /// The requested lines are not lines of the file.
    InvalidLineRange { start: u32, end: u32, total_lines: u32 },
}

/// The lines to blame in a file of `total_lines` lines: the requested
/// range when it is a valid range of the file (1-based, inclusive), all
/// lines when none is requested.
pub fn resolve_line_range(line_range: Option<(u32, u32)>, total_lines: u32) -> (r: Result<(u32, u32), BlameError>)
    ensures
        match line_range {
            Some((s, e)) => if s == 0 || e == 0 || s > e || e > total_lines {
                r == Err::<(u32, u32), BlameError>(BlameError::InvalidLineRange { start: s, end: e, total_lines })
            } else {
                r == Ok::<(u32, u32), BlameError>((s, e))
            },
            None => r == Ok::<(u32, u32), BlameError>((1, total_lines)),
        },
{
    match line_range {
        Some((start, end)) => {
            if start == 0 || end == 0 || start > end || end > total_lines {
                Err(BlameError::InvalidLineRange { start, end, total_lines })
            } else {
                Ok((start, end))
            }
        },
        None => Ok((1, total_lines)),
    }
}


/// The author of line `line` of `file` in a hunk, given the authorship log
/// of the hunk's commit: the author the log attributes the line to, else
/// git's author of the commit.
pub open spec fn hunk_line_author(h: BlameHunk, log: Option<AuthorshipLog>, file: Seq<char>, line: int) -> Seq<char> {
    match log {
        Some(l) => match line_attribution_spec(l, file, line) {
            Some((a, _)) => a.username@,
            None => h.original_author@,
        },
        None => h.original_author@,
    }
}

/// The author of line `line` by the first `n` hunks: the last of them that
/// holds the line decides (see `hunk_line_author`); `None` when none holds
/// it.
pub open spec fn line_author_spec(
    hunks: Seq<BlameHunk>,
    logs: Seq<Option<AuthorshipLog>>,
    file: Seq<char>,
    line: int,
    n: nat,
) -> Option<Seq<char>>
    decreases n,
{
    if n == 0 {
        None
    } else {
        let k = n - 1;
        if hunks[k].range.0 <= line <= hunks[k].range.1 {
            Some(hunk_line_author(hunks[k], logs[k], file, line))
        } else {
            line_author_spec(hunks, logs, file, line, k as nat)
        }
    }
}

/// The author of a line, `unknown` when no hunk holds it.
pub open spec fn blamed_author(
    hunks: Seq<BlameHunk>,
    logs: Seq<Option<AuthorshipLog>>,
    file: Seq<char>,
    line: int,
) -> Seq<char> {
    match line_author_spec(hunks, logs, file, line, hunks.len()) {
        Some(a) => a,
        None => "unknown"@,
    }
}

/// The author of each line from `start` to `end` of `file`: git's blame
/// hunks, with the AI authorship of each hunk's commit laid over them
/// (`logs[i]` is the log of the commit of `hunks[i]`, if it has one).
pub fn blame_line_authors(
    hunks: &Vec<BlameHunk>,
    logs: &Vec<Option<AuthorshipLog>>,
    file: &str,
    start: u32,
    end: u32,
) -> (r: Vec<String>)
    requires
        logs@.len() == hunks@.len(),
        forall|i: int| 0 <= i < logs@.len() ==> (#[trigger] logs@[i] matches Some(l) ==> l.wf()),
    ensures
        r@.len() == if start <= end {
            end - start + 1
        } else {
            0
        },
        forall|i: int| 0 <= i < r@.len() ==> (#[trigger] r@[i])@ == blamed_author(hunks@, logs@, file@, start + i),
{
    let mut r: Vec<String> = Vec::new();
    if start > end {
        return r;
    }
    let mut line: u32 = start;
    loop
        invariant_except_break
            r@.len() == line - start,
        invariant
            start <= line <= end,
            logs@.len() == hunks@.len(),
            forall|i: int| 0 <= i < logs@.len() ==> (#[trigger] logs@[i] matches Some(l) ==> l.wf()),
            forall|i: int| 0 <= i < r@.len() ==> (#[trigger] r@[i])@ == blamed_author(hunks@, logs@, file@, start + i),
        ensures
            r@.len() == end - start + 1,
            forall|i: int| 0 <= i < r@.len() ==> (#[trigger] r@[i])@ == blamed_author(hunks@, logs@, file@, start + i),
        decreases end - line,
    {
        let a = author_of_line(hunks, logs, file, line);
        r.push(a);
        if line == end {
            break;
        }
        line = line + 1;
    }
    r
}

/// The author of one line (see `blamed_author`).
fn author_of_line(hunks: &Vec<BlameHunk>, logs: &Vec<Option<AuthorshipLog>>, file: &str, line: u32) -> (r: String)
    requires
        logs@.len() == hunks@.len(),
        forall|i: int| 0 <= i < logs@.len() ==> (#[trigger] logs@[i] matches Some(l) ==> l.wf()),
    ensures
        r@ == blamed_author(hunks@, logs@, file@, line as int),
{
    let mut k: usize = hunks.len();
    while k > 0
        invariant
            0 <= k <= hunks@.len(),
            logs@.len() == hunks@.len(),
            forall|i: int| 0 <= i < logs@.len() ==> (#[trigger] logs@[i] matches Some(l) ==> l.wf()),
            line_author_spec(hunks@, logs@, file@, line as int, hunks@.len() as nat) == line_author_spec(
                hunks@,
                logs@,
                file@,
                line as int,
                k as nat,
            ),
        decreases k,
    {
        let h = &hunks[k - 1];
        if h.range.0 <= line && line <= h.range.1 {
            let a = match &logs[k - 1] {
                Some(l) => {
                    assert(l.wf());
                    match l.get_line_attribution(file, line) {
                        Some((author, _)) => author.username.clone(),
                        None => h.original_author.clone(),
                    }
                },
                None => h.original_author.clone(),
            };
            return a;
        }
        k = k - 1;
    }
    "unknown".to_owned()
}

} // verus!
