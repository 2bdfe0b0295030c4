//! What restoring authorship reads from its arguments and from commit
//! summaries: commit ranges `<before>..<after>` of abbreviated or full
//! commit hashes, and the branch a merge commit merged.
use vstd::prelude::*;
use crate::text::{chars_of, slice_chars, split_char, split_chars, string_of};

verus! {

/// A hexadecimal digit (`char::is_ascii_hexdigit`).
pub open spec fn is_hex(c: char) -> bool {
    ('0' <= c <= '9') || ('a' <= c <= 'f') || ('A' <= c <= 'F')
}

/// A commit hash: 4 to 40 hexadecimal digits.
pub open spec fn valid_hash(s: Seq<char>) -> bool {
    4 <= s.len() <= 40 && forall|i: int| 0 <= i < s.len() ==> is_hex(#[trigger] s[i])
}

/// Whether `hash` is a commit hash (see `valid_hash`).
pub fn is_valid_commit_hash(hash: &str) -> (r: bool)
    ensures
        r == valid_hash(hash@),
{
    let cs = chars_of(hash);
    if cs.len() < 4 || cs.len() > 40 {
        return false;
    }
    let mut i: usize = 0;
    while i < cs.len()
        invariant
            0 <= i <= cs@.len(),
            cs@ == hash@,
            forall|j: int| 0 <= j < i ==> is_hex(#[trigger] cs@[j]),
        decreases cs@.len() - i,
    {
        let c = cs[i];
        if !(('0' <= c && c <= '9') || ('a' <= c && c <= 'f') || ('A' <= c && c <= 'F')) {
            assert(!is_hex(cs@[i as int]));
            return false;
        }
        i = i + 1;
    }
    true
}

/// Whether `..` starts at position `i` of `s`.
pub open spec fn dots_at(s: Seq<char>, i: int) -> bool {
    0 <= i && i + 1 < s.len() && s[i] == '.' && s[i + 1] == '.'
}

/// The first position where `..` starts in `s`.
pub open spec fn first_dots(s: Seq<char>) -> Option<int> {
    if exists|i: int| dots_at(s, i) {
        Some(choose|i: int| dots_at(s, i) && forall|j: int| 0 <= j < i ==> !dots_at(s, j))
    } else {
        None
    }
}

/// The pieces of `s` between the occurrences of `..` found from left to
/// right (`str::split("..")`).
pub open spec fn split_dots(s: Seq<char>) -> Seq<Seq<char>>
    decreases s.len(),
{
    match first_dots(s) {
        Some(i) => if 0 <= i && i + 2 <= s.len() {
            seq![s.take(i)] + split_dots(s.skip(i + 2))
        } else {
            seq![s]
        },
        None => seq![s],
    }
}

/// Why a commit range was refused.
#[derive(Debug, Clone, PartialEq, Eq)]
pub enum CommitRangeError {
    /// The range is not two parts joined by `..`.
    NotTwoParts,
    /// A part that is not a commit hash (see `valid_hash`).
    InvalidHash(String),
}

/// The first `..` in `s`, by search.
fn find_dots(s: &[char]) -> (r: Option<usize>)
    ensures
        match r {
            Some(i) => first_dots(s@) == Some(i as int) && i + 1 < s@.len(),
            None => first_dots(s@) is None,
        },
{
    let mut i: usize = 0;
    while i < s.len()
        invariant
            0 <= i <= s@.len(),
            forall|j: int| 0 <= j < i ==> !dots_at(s@, j),
        decreases s@.len() - i,
    {
        if i + 1 < s.len() && s[i] == '.' && s[i + 1] == '.' {
            assert(dots_at(s@, i as int));
            let ghost k = choose|k: int| dots_at(s@, k) && forall|j: int| 0 <= j < k ==> !dots_at(s@, j);
            assert(k == i) by {
                if k < i {
                    assert(!dots_at(s@, k));
                } else if k > i {
                    assert(!dots_at(s@, i as int));
                }
            }
            return Some(i);
        }
        i = i + 1;
    }
    assert(forall|j: int| !dots_at(s@, j)) by {
        assert forall|j: int| !dots_at(s@, j) by {
            if j >= i {
                assert(!(j + 1 < s@.len()));
            }
        }
    }
    None
}

/// The commits of a range `<before>..<after>` (see `split_dots`): it must
/// split into exactly two parts, each a commit hash; `before` is checked
/// first.
pub fn parse_commit_range(commit_range: &str) -> (r: Result<(String, String), CommitRangeError>)
    ensures
        ({
            let ps = split_dots(commit_range@);
            match r {
                Ok((before, after)) => ps.len() == 2 && before@ == ps[0] && after@ == ps[1] && valid_hash(ps[0])
                    && valid_hash(ps[1]),
                Err(CommitRangeError::NotTwoParts) => ps.len() != 2,
                Err(CommitRangeError::InvalidHash(h)) => ps.len() == 2 && if valid_hash(ps[0]) {
                    !valid_hash(ps[1]) && h@ == ps[1]
                } else {
                    h@ == ps[0]
                },
            }
        }),
{
    let cs = chars_of(commit_range);
    let ghost s = cs@;
    let i = match find_dots(cs.as_slice()) {
        Some(i) => i,
        None => {
            assert(split_dots(s) == seq![s]);
            return Err(CommitRangeError::NotTwoParts);
        },
    };
    let n = cs.len();
    let before = slice_chars(cs.as_slice(), 0, i);
    let rest = slice_chars(cs.as_slice(), i + 2, n);
    assert(before@ =~= s.take(i as int));
    assert(rest@ =~= s.skip(i + 2));
    assert(split_dots(s) == seq![s.take(i as int)] + split_dots(s.skip(i + 2)));
    match find_dots(rest.as_slice()) {
        Some(_) => {
            proof {
                lemma_split_dots_len(rest@);
                lemma_first_dots(rest@);
            }
            return Err(CommitRangeError::NotTwoParts);
        },
        None => {
            assert(split_dots(rest@) == seq![rest@]);
        },
    }
    let b = string_of(before.as_slice());
    let a = string_of(rest.as_slice());
    if !is_valid_commit_hash(b.as_str()) {
        return Err(CommitRangeError::InvalidHash(b));
    }
    if !is_valid_commit_hash(a.as_str()) {
        return Err(CommitRangeError::InvalidHash(a));
    }
    Ok((b, a))
}

/// The first `..` found is an occurrence, with none before it.
proof fn lemma_first_dots(s: Seq<char>)
    ensures
        match first_dots(s) {
            Some(i) => dots_at(s, i) && forall|j: int| 0 <= j < i ==> !dots_at(s, j),
            None => forall|j: int| !dots_at(s, j),
        },
{
    if exists|i: int| dots_at(s, i) {
        let w = choose|i: int| dots_at(s, i);
        lemma_least_dots(s, w);
    }
}

/// An occurrence at `w` means there is a first one.
proof fn lemma_least_dots(s: Seq<char>, w: int)
    requires
        dots_at(s, w),
    ensures
        exists|i: int| dots_at(s, i) && forall|j: int| 0 <= j < i ==> !dots_at(s, j),
    decreases w,
{
    if exists|j: int| 0 <= j < w && dots_at(s, j) {
        let j = choose|j: int| 0 <= j < w && dots_at(s, j);
        lemma_least_dots(s, j);
    }
}

/// Splitting gives at least one piece.
proof fn lemma_split_dots_nonempty(s: Seq<char>)
    ensures
        split_dots(s).len() >= 1,
    decreases s.len(),
{
    lemma_first_dots(s);
    match first_dots(s) {
        Some(i) => {
            lemma_split_dots_nonempty(s.skip(i + 2));
        },
        None => {},
    }
}

/// Splitting gives two or more pieces when `..` occurs.
proof fn lemma_split_dots_len(s: Seq<char>)
    requires
        first_dots(s) is Some,
    ensures
        split_dots(s).len() >= 2,
{
    lemma_first_dots(s);
    let i = first_dots(s)->Some_0;
    lemma_split_dots_nonempty(s.skip(i + 2));
}


/// The first match of regular expression `pattern` in `text` and its first
/// group: `None` when the pattern does not compile; else the text of group
/// 1 in the first match, `None` when nothing matches or the group took no
/// part.
pub uninterp spec fn regex_group1(pattern: Seq<char>, text: Seq<char>) -> Option<Option<Seq<char>>>;

/// The view of an optional capture.
pub open spec fn capture_view(c: Option<Option<String>>) -> Option<Option<Seq<char>>> {
    match c {
        Some(Some(s)) => Some(Some(s@)),
        Some(None) => Some(None),
        None => None,
    }
}

/// `regex::Regex::new(pattern)`, `captures(text)` and `get(1)` of the regex
/// crate: the result is `regex_group1(pattern, text)`. What the regular
/// expression matches is not stated.
#[verifier::external_body]
fn first_capture(pattern: &str, text: &str) -> (r: Option<Option<String>>)
    ensures
        capture_view(r) == regex_group1(pattern@, text@),
{
    match regex::Regex::new(pattern) {
        Ok(re) => match re.captures(text) {
            Some(c) => match c.get(1) {
                Some(m) => Some(Some(m.as_str().to_string())),
                None => Some(None),
            },
            None => Some(None),
        },
        Err(_) => None,
    }
}

/// "from [user/]branch", as a pull-request merge summary says it.
pub open spec fn from_pattern() -> Seq<char> {
    "from\\s+(?:[a-zA-Z0-9_-]+/)?([a-zA-Z0-9_/-]+)"@
}

/// "Merge branch 'name'" or with double quotes.
pub open spec fn quoted_branch_pattern() -> Seq<char> {
    "[Mm]erge\\s+branch\\s+['\"]([a-zA-Z0-9_/-]+)['\"]"@
}

/// "Merge branch prefix/name", without quotes and with a slash.
pub open spec fn unquoted_branch_pattern() -> Seq<char> {
    "[Mm]erge\\s+branch\\s+([a-zA-Z0-9_-]+/[a-zA-Z0-9_/-]+)"@
}

/// A captured branch, unless it is the default branch (by its name after
/// the last `/` or in full).
pub open spec fn other_branch(c: Option<Seq<char>>, name: Seq<char>, full: Seq<char>) -> Option<Seq<char>> {
    match c {
        Some(b) => if b != name && b != full {
            Some(b)
        } else {
            None
        },
        None => None,
    }
}

/// The branch a merge commit's summary names (see the patterns above, tried
/// in order), when it is not the default branch; `None` as soon as a
/// pattern does not compile.
pub open spec fn extract_branch_spec(summary: Seq<char>, default_branch: Seq<char>) -> Option<Seq<char>> {
    let name = split_char(default_branch, '/').last();
    match regex_group1(from_pattern(), summary) {
        None => None,
        Some(c1) => match other_branch(c1, name, default_branch) {
            Some(b) => Some(b),
            None => match regex_group1(quoted_branch_pattern(), summary) {
                None => None,
                Some(c2) => match other_branch(c2, name, default_branch) {
                    Some(b) => Some(b),
                    None => match regex_group1(unquoted_branch_pattern(), summary) {
                        None => None,
                        Some(c3) => other_branch(c3, name, default_branch),
                    },
                },
            },
        },
    }
}

/// A captured branch unless it is the default one (see `other_branch`).
fn other_branch_of(c: Option<String>, name: &str, full: &str) -> (r: Option<String>)
    ensures
        match r {
            Some(b) => other_branch(
                match c {
                    Some(x) => Some(x@),
                    None => None,
                },
                name@,
                full@,
            ) == Some(b@),
            None => other_branch(
                match c {
                    Some(x) => Some(x@),
                    None => None,
                },
                name@,
                full@,
            ) is None,
        },
{
    match c {
        Some(b) => if !crate::str_map::str_eq(b.as_str(), name) && !crate::str_map::str_eq(b.as_str(), full) {
            Some(b)
        } else {
            None
        },
        None => None,
    }
}

/// The branch a merge commit's summary names (see `extract_branch_spec`).
pub fn extract_branch_name(summary: &str, default_branch: &str) -> (r: Option<String>)
    ensures
        match r {
            Some(b) => extract_branch_spec(summary@, default_branch@) == Some(b@),
            None => extract_branch_spec(summary@, default_branch@) is None,
        },
{
    let dcs = chars_of(default_branch);
    let pieces = split_chars(dcs.as_slice(), '/');
    proof {
        crate::text::lemma_split_char_len(dcs@, '/');
    }
    let name = string_of(pieces[pieces.len() - 1].as_slice());
    assert(name@ == split_char(default_branch@, '/').last());
    let c1 = match first_capture("from\\s+(?:[a-zA-Z0-9_-]+/)?([a-zA-Z0-9_/-]+)", summary) {
        Some(c) => c,
        None => {
            return None;
        },
    };
    if let Some(b) = other_branch_of(c1, name.as_str(), default_branch) {
        return Some(b);
    }
    let c2 = match first_capture("[Mm]erge\\s+branch\\s+['\"]([a-zA-Z0-9_/-]+)['\"]", summary) {
        Some(c) => c,
        None => {
            return None;
        },
    };
    if let Some(b) = other_branch_of(c2, name.as_str(), default_branch) {
        return Some(b);
    }
    let c3 = match first_capture("[Mm]erge\\s+branch\\s+([a-zA-Z0-9_-]+/[a-zA-Z0-9_/-]+)", summary) {
        Some(c) => c,
        None => {
            return None;
        },
    };
    other_branch_of(c3, name.as_str(), default_branch)
}

} // verus!
