//! The name a commit is attributed to when git-ai records it: the
//! `--author` of the command, else git's usual sources in order.
use vstd::prelude::*;
use crate::git_sync::{contains_chars, has_substring, starts_with, starts_with_chars, strs_view};
use crate::text::{chars_of, find_char, find_char_spec, slice_chars, string_of, trim_chars, trim_spec};

verus! {

/// The author a `git commit` names: the value of the first `--author=<a>`,
/// or the argument after the first `--author` that has one.
pub open spec fn author_arg_spec(args: Seq<Seq<char>>) -> Option<Seq<char>>
    decreases args.len(),
{
    if args.len() == 0 {
        None
    } else if starts_with(args[0], "--author="@) {
        Some(args[0].skip(9))
    } else if args[0] == "--author"@ && args.len() > 1 {
        Some(args[1])
    } else {
        author_arg_spec(args.drop_first())
    }
}

/// The author a `git commit` names (see `author_arg_spec`).
pub fn extract_author_from_args(args: &[String]) -> (r: Option<String>)
    ensures
        match r {
            Some(a) => author_arg_spec(strs_view(args@)) == Some(a@),
            None => author_arg_spec(strs_view(args@)) is None,
        },
{
    proof {
        reveal_strlit("--author=");
        reveal_strlit("--author");
    }
    let ghost av = strs_view(args@);
    let mut i: usize = 0;
    assert(av.skip(0) =~= av);
    while i < args.len()
        invariant
            0 <= i <= args@.len(),
            av == strs_view(args@),
            author_arg_spec(av) == author_arg_spec(av.skip(i as int)),
        decreases args@.len() - i,
    {
        let ghost rest = av.skip(i as int);
        assert(rest[0] == args@[i as int]@);
        assert(rest.drop_first() =~= av.skip(i + 1));
        proof {
            reveal_strlit("--author=");
        }
        let cs = chars_of(args[i].as_str());
        let prefix = chars_of("--author=");
        if starts_with_chars(cs.as_slice(), prefix.as_slice()) {
            let n = cs.len();
            let v = slice_chars(cs.as_slice(), 9, n);
            assert(v@ =~= rest[0].skip(9));
            return Some(string_of(v.as_slice()));
        }
        if crate::str_map::str_eq(args[i].as_str(), "--author") && i + 1 < args.len() {
            assert(rest[1] == args@[i + 1]@);
            return Some(args[i + 1].clone());
        }
        i = i + 1;
    }
    assert(av.skip(i as int) =~= Seq::<Seq<char>>::empty());
    None
}

/// The last position of `c` in `s`.
pub open spec fn rfind_char_spec(s: Seq<char>, c: char) -> Option<int> {
    if exists|i: int| 0 <= i < s.len() && s[i] == c {
        Some(choose|i: int| 0 <= i < s.len() && s[i] == c && forall|j: int| i < j < s.len() ==> s[j] != c)
    } else {
        None
    }
}

/// The name of an explicit author `Name <email>`: the text before the last
/// `<`, trimmed, when it is not empty.
pub open spec fn explicit_author_spec(spec: Seq<char>) -> Option<Seq<char>> {
    match rfind_char_spec(spec, '<') {
        Some(p) => if trim_spec(spec.take(p)).len() > 0 {
            Some(trim_spec(spec.take(p)))
        } else {
            None
        },
        None => None,
    }
}

/// The name of an explicit author `Name <email>` (see
/// `explicit_author_spec`); `None` when the author is rather a pattern to
/// look for among the commits' authors.
pub fn explicit_author_name(author_spec: &str) -> (r: Option<String>)
    ensures
        match r {
            Some(n) => explicit_author_spec(author_spec@) == Some(n@),
            None => explicit_author_spec(author_spec@) is None,
        },
{
    let cs = chars_of(author_spec);
    let mut i: usize = cs.len();
    while i > 0 && cs[i - 1] != '<'
        invariant
            0 <= i <= cs@.len(),
            forall|j: int| i <= j < cs@.len() ==> cs@[j] != '<',
        decreases i,
    {
        i = i - 1;
    }
    if i == 0 {
        assert(!exists|k: int| 0 <= k < cs@.len() && cs@[k] == '<');
        return None;
    }
    let p = i - 1;
    proof {
        let k = choose|k: int|
            0 <= k < cs@.len() && cs@[k] == '<' && forall|j: int| k < j < cs@.len() ==> cs@[j] != '<';
        assert(k == p) by {
            if k < p {
                assert(cs@[p as int] == '<');
            } else if k > p {
                assert(cs@[k] != '<');
            }
        }
    }
    let head = slice_chars(cs.as_slice(), 0, p);
    assert(head@ =~= author_spec@.take(p as int));
    let t = trim_chars(head.as_slice());
    if t.len() > 0 {
        Some(string_of(t.as_slice()))
    } else {
        None
    }
}

/// The name from an `EMAIL` value: the part before the first `@` when that
/// is not empty, else the whole value.
pub open spec fn email_name_spec(email: Seq<char>) -> Seq<char> {
    match find_char_spec(email, '@') {
        Some(p) => if p > 0 {
            email.take(p)
        } else {
            email
        },
        None => email,
    }
}

/// The name a commit is attributed to when it names no author: the
/// `GIT_AUTHOR_NAME` value, else the configured `user.name` (both trimmed),
/// else the name in the `EMAIL` value (see `email_name_spec`), the first
/// that is not blank; `unknown` when all are.
pub open spec fn default_user_name_spec(
    git_author_name: Option<Seq<char>>,
    config_user_name: Option<Seq<char>>,
    email: Option<Seq<char>>,
) -> Seq<char> {
    if git_author_name is Some && trim_spec(git_author_name->0).len() > 0 {
        trim_spec(git_author_name->0)
    } else if config_user_name is Some && trim_spec(config_user_name->0).len() > 0 {
        trim_spec(config_user_name->0)
    } else if email is Some && trim_spec(email->0).len() > 0 {
        email_name_spec(email->0)
    } else {
        "unknown"@
    }
}

/// The trimmed value, when it is not blank.
fn trimmed_nonblank(v: &Option<String>) -> (r: Option<String>)
    ensures
        match r {
            Some(t) => v is Some && trim_spec(v->0@).len() > 0 && t@ == trim_spec(v->0@),
            None => !(v is Some && trim_spec(v->0@).len() > 0),
        },
{
    match v {
        Some(s) => {
            let cs = chars_of(s.as_str());
            let t = trim_chars(cs.as_slice());
            if t.len() > 0 {
                Some(string_of(t.as_slice()))
            } else {
                None
            }
        },
        None => None,
    }
}

/// The name a commit that names no author is attributed to (see
/// `default_user_name_spec`).
pub fn default_user_name(
    git_author_name: &Option<String>,
    config_user_name: &Option<String>,
    email: &Option<String>,
) -> (r: String)
    ensures
        r@ == default_user_name_spec(
            match git_author_name {
                Some(s) => Some(s@),
                None => None,
            },
            match config_user_name {
                Some(s) => Some(s@),
                None => None,
            },
            match email {
                Some(s) => Some(s@),
                None => None,
            },
        ),
{
    if let Some(n) = trimmed_nonblank(git_author_name) {
        return n;
    }
    if let Some(n) = trimmed_nonblank(config_user_name) {
        return n;
    }
    if let Some(_) = trimmed_nonblank(email) {
        let e = match email {
            Some(e) => e,
            None => {
                return "unknown".to_owned();
            },
        };
        let cs = chars_of(e.as_str());
        match find_char(cs.as_slice(), '@') {
            Some(p) => {
                if p > 0 {
                    let name = slice_chars(cs.as_slice(), 0, p);
                    assert(name@ =~= e@.take(p as int));
                    proof {
                        let k = choose|i: int|
                            0 <= i < cs@.len() && cs@[i] == '@' && forall|j: int| 0 <= j < i ==> cs@[j] != '@';
                        assert(k == p) by {
                            if k < p {
                                assert(cs@[k] != '@');
                            } else if k > p {
                                assert(cs@[p as int] == '@');
                            }
                        }
                    }
                    return string_of(name.as_slice());
                }
                proof {
                    let k = choose|i: int|
                        0 <= i < cs@.len() && cs@[i] == '@' && forall|j: int| 0 <= j < i ==> cs@[j] != '@';
                    assert(k == 0) by {
                        if k > 0 {
                            assert(cs@[0] == '@');
                        }
                    }
                }
                return e.clone();
            },
            None => {
                return e.clone();
            },
        }
    }
    "unknown".to_owned()
}

/// Names what `str::to_lowercase` returns for a string.
pub uninterp spec fn lowercase(s: Seq<char>) -> Seq<char>;

/// The lowercase form of a string.
///
/// Wraps `str::to_lowercase`, which maps each character by Unicode's case
/// tables; its result depends on the string alone. The contract names that
/// result (`lowercase`) and says nothing of the mapping itself.
#[verifier::external_body]
fn to_lowercase_string(s: &str) -> (r: String)
    ensures
        r@ == lowercase(s@),
{
    s.to_lowercase()
}

/// The first of `names` that holds `pattern`, both taken in lowercase (as
/// `git rev-list -i --author` matches).
pub open spec fn first_matching_name(names: Seq<Seq<char>>, pattern: Seq<char>) -> Option<Seq<char>>
    decreases names.len(),
{
    if names.len() == 0 {
        None
    } else if has_substring(lowercase(names[0]), lowercase(pattern)) {
        Some(names[0])
    } else {
        first_matching_name(names.drop_first(), pattern)
    }
}

/// The name a `--author` value stands for: the name of an explicit
/// `Name <email>`; else the first of the authors of the repository's
/// commits, in the order they are walked, whose name holds the value as a
/// pattern; else the value itself, trimmed.
pub open spec fn resolved_author_spec(author_spec: Seq<char>, names: Seq<Seq<char>>) -> Seq<char> {
    match explicit_author_spec(author_spec) {
        Some(n) => n,
        None => match first_matching_name(names, author_spec) {
            Some(n) => n,
            None => trim_spec(author_spec),
        },
    }
}

/// The name a `--author` value stands for (see `resolved_author_spec`);
/// `commit_author_names` are the author names of the repository's commits in
/// the order they are walked.
pub fn resolve_author_name(author_spec: &str, commit_author_names: &[String]) -> (r: String)
    ensures
        r@ == resolved_author_spec(author_spec@, strs_view(commit_author_names@)),
{
    if let Some(n) = explicit_author_name(author_spec) {
        return n;
    }
    let pattern = to_lowercase_string(author_spec);
    let pc = chars_of(pattern.as_str());
    let ghost names = strs_view(commit_author_names@);
    let mut i: usize = 0;
    assert(names.skip(0) =~= names);
    while i < commit_author_names.len()
        invariant
            0 <= i <= commit_author_names@.len(),
            names == strs_view(commit_author_names@),
            pc@ == lowercase(author_spec@),
            explicit_author_spec(author_spec@) is None,
            first_matching_name(names, author_spec@) == first_matching_name(names.skip(i as int), author_spec@),
        decreases commit_author_names@.len() - i,
    {
        assert(names.skip(i as int).drop_first() =~= names.skip(i + 1));
        assert(names.skip(i as int)[0] == commit_author_names@[i as int]@);
        let lower = to_lowercase_string(commit_author_names[i].as_str());
        let lc = chars_of(lower.as_str());
        if contains_chars(lc.as_slice(), pc.as_slice()) {
            return commit_author_names[i].clone();
        }
        i = i + 1;
    }
    assert(names.skip(i as int) =~= Seq::<Seq<char>>::empty());
    let cs = chars_of(author_spec);
    let t = trim_chars(cs.as_slice());
    string_of(t.as_slice())
}

/// The name a commit made with `args` is attributed to: the name its
/// `--author` stands for (see `resolved_author_spec`), else the name from
/// git's usual sources (see `default_user_name_spec`).
pub open spec fn commit_user_name_spec(
    args: Seq<Seq<char>>,
    names: Seq<Seq<char>>,
    git_author_name: Option<Seq<char>>,
    config_user_name: Option<Seq<char>>,
    email: Option<Seq<char>>,
) -> Seq<char> {
    match author_arg_spec(args) {
        Some(a) => resolved_author_spec(a, names),
        None => default_user_name_spec(git_author_name, config_user_name, email),
    }
}

/// The views of an optional string.
pub open spec fn opt_view(v: Option<String>) -> Option<Seq<char>> {
    match v {
        Some(s) => Some(s@),
        None => None,
    }
}

/// The name a commit made with `args` is attributed to (see
/// `commit_user_name_spec`).
pub fn commit_default_user_name(
    args: &[String],
    commit_author_names: &[String],
    git_author_name: &Option<String>,
    config_user_name: &Option<String>,
    email: &Option<String>,
) -> (r: String)
    ensures
        r@ == commit_user_name_spec(
            strs_view(args@),
            strs_view(commit_author_names@),
            opt_view(*git_author_name),
            opt_view(*config_user_name),
            opt_view(*email),
        ),
{
    match extract_author_from_args(args) {
        Some(a) => resolve_author_name(a.as_str(), commit_author_names),
        None => default_user_name(git_author_name, config_user_name, email),
    }
}

} // verus!
