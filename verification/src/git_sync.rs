//! Syncing authorship notes with remotes: which remote a fetch or push
//! names, the git invocations that fetch, merge and push the notes, and
//! reading what git answers.
use vstd::prelude::*;
use crate::text::{chars_of, push_char, push_str_chars, seqs_view, string_of, trim_chars, trim_spec};

verus! {

/// `s` starts with `t`.
pub open spec fn starts_with(s: Seq<char>, t: Seq<char>) -> bool {
    s.len() >= t.len() && s.take(t.len() as int) == t
}

/// `s` ends with `t`.
pub open spec fn ends_with(s: Seq<char>, t: Seq<char>) -> bool {
    s.len() >= t.len() && s.skip(s.len() - t.len()) == t
}

/// `t` occurs in `s`.
pub open spec fn has_substring(s: Seq<char>, t: Seq<char>) -> bool {
    exists|i: int| 0 <= i <= s.len() - t.len() && #[trigger] s.subrange(i, i + t.len()) == t
}

/// Whether `s` starts with `t`.
pub fn starts_with_chars(s: &[char], t: &[char]) -> (r: bool)
    ensures
        r == starts_with(s@, t@),
{
    if s.len() < t.len() {
        return false;
    }
    let mut i: usize = 0;
    while i < t.len()
        invariant
            0 <= i <= t@.len() <= s@.len(),
            forall|k: int| 0 <= k < i ==> s@[k] == t@[k],
        decreases t@.len() - i,
    {
        if s[i] != t[i] {
            assert(s@.take(t@.len() as int)[i as int] != t@[i as int]);
            return false;
        }
        i = i + 1;
    }
    assert(s@.take(t@.len() as int) =~= t@);
    true
}

/// Whether `s` ends with `t`.
pub fn ends_with_chars(s: &[char], t: &[char]) -> (r: bool)
    ensures
        r == ends_with(s@, t@),
{
    if s.len() < t.len() {
        return false;
    }
    let n = s.len();
    let off = n - t.len();
    let mut i: usize = 0;
    while i < t.len()
        invariant
            0 <= i <= t@.len(),
            off + t@.len() == s@.len(),
            s@.len() <= usize::MAX,
            forall|k: int| 0 <= k < i ==> s@[off + k] == t@[k],
        decreases t@.len() - i,
    {
        if s[off + i] != t[i] {
            assert(s@.skip(off as int)[i as int] != t@[i as int]);
            return false;
        }
        i = i + 1;
    }
    assert(s@.skip(off as int) =~= t@);
    true
}

/// Whether `t` occurs in `s`.
pub fn contains_chars(s: &[char], t: &[char]) -> (r: bool)
    ensures
        r == has_substring(s@, t@),
{
    if t.len() == 0 {
        assert(s@.subrange(0int, 0int + t@.len()) =~= t@);
        assert(0 <= 0 <= s@.len() - t@.len());
        return true;
    }
    let n = s.len();
    if n < t.len() {
        return false;
    }
    let last = n - t.len();
    let mut i: usize = 0;
    while i <= last
        invariant
            0 <= i <= last + 1,
            last + t@.len() == s@.len(),
            s@.len() <= usize::MAX,
            t@.len() > 0,
            forall|k: int| 0 <= k < i ==> #[trigger] s@.subrange(k, k + t@.len()) != t@,
        decreases last + 1 - i,
    {
        let mut j: usize = 0;
        let mut same = true;
        while j < t.len()
            invariant
                0 <= j <= t@.len(),
                i <= last,
                last + t@.len() == s@.len(),
                s@.len() <= usize::MAX,
                same == forall|k: int| 0 <= k < j ==> s@[i + k] == t@[k],
            decreases t@.len() - j,
        {
            if s[i + j] != t[j] {
                same = false;
            }
            j = j + 1;
        }
        if same {
            assert(s@.subrange(i as int, i + t@.len()) =~= t@);
            return true;
        }
        proof {
            let k = choose|k: int| 0 <= k < t@.len() && s@[i + k] != t@[k];
            assert(s@.subrange(i as int, i + t@.len())[k] != t@[k]);
        }
        i = i + 1;
    }
    assert forall|i: int| 0 <= i <= s@.len() - t@.len() implies #[trigger] s@.subrange(i, i + t@.len()) != t@ by {}
    false
}

/// Options of `git push` that take their value in the next argument.
pub open spec fn consumes_value_spec(arg: Seq<char>) -> bool {
    ||| arg == "--repo"@
    ||| arg == "--receive-pack"@
    ||| arg == "--exec"@
    ||| arg == "-o"@
    ||| arg == "--push-option"@
    ||| arg == "-c"@
    ||| arg == "-C"@
}

/// Whether a `git push` option takes its value in the next argument.
pub fn option_consumes_separate_value(arg: &str) -> (r: bool)
    ensures
        r == consumes_value_spec(arg@),
{
    crate::str_map::str_eq(arg, "--repo") || crate::str_map::str_eq(arg, "--receive-pack")
        || crate::str_map::str_eq(arg, "--exec") || crate::str_map::str_eq(arg, "-o")
        || crate::str_map::str_eq(arg, "--push-option") || crate::str_map::str_eq(arg, "-c")
        || crate::str_map::str_eq(arg, "-C")
}

/// The flag and value of an option written with its value: split at the
/// first `=`, or `-C<path>` / `-c<name>=<value>` split after two characters.
pub open spec fn inline_value_spec(arg: Seq<char>) -> Option<(Seq<char>, Seq<char>)> {
    match crate::text::find_char_spec(arg, '=') {
        Some(p) => Some((arg.take(p), arg.skip(p + 1))),
        None => if arg.len() > 2 && arg[0] == '-' && (arg[1] == 'C' || arg[1] == 'c') {
            Some((arg.take(2), arg.skip(2)))
        } else {
            None
        },
    }
}

/// The flag and value of an option written with its value (see
/// `inline_value_spec`).
pub fn is_push_option_with_inline_value(arg: &str) -> (r: Option<(String, String)>)
    ensures
        match r {
            Some((f, v)) => inline_value_spec(arg@) == Some((f@, v@)),
            None => inline_value_spec(arg@) is None,
        },
{
    let cs = chars_of(arg);
    let n = cs.len();
    match crate::text::find_char(cs.as_slice(), '=') {
        Some(p) => {
            let f = crate::text::slice_chars(cs.as_slice(), 0, p);
            let v = crate::text::slice_chars(cs.as_slice(), p + 1, n);
            assert(f@ =~= arg@.take(p as int));
            assert(v@ =~= arg@.skip(p + 1));
            Some((string_of(f.as_slice()), string_of(v.as_slice())))
        },
        None => {
            if n > 2 && cs[0] == '-' && (cs[1] == 'C' || cs[1] == 'c') {
                let f = crate::text::slice_chars(cs.as_slice(), 0, 2);
                let v = crate::text::slice_chars(cs.as_slice(), 2, n);
                assert(f@ =~= arg@.take(2));
                assert(v@ =~= arg@.skip(2));
                Some((string_of(f.as_slice()), string_of(v.as_slice())))
            } else {
                None
            }
        },
    }
}

/// The views of strings.
pub open spec fn strs_view(v: Seq<String>) -> Seq<Seq<char>> {
    v.map_values(|s: String| s@)
}

/// Scanning `git push` arguments from `i`: `Some(r)` when the scan decides
/// the remote `r` (possibly none), `None` when it runs out of arguments.
/// `--` names the next argument; options are skipped with their values,
/// except `--repo`, whose value is the remote; the first other argument is
/// the remote.
pub open spec fn push_scan(args: Seq<Seq<char>>, i: int) -> Option<Option<Seq<char>>>
    decreases args.len() - i,
{
    if i < 0 || i >= args.len() {
        None
    } else {
        let a = args[i];
        let next = if i + 1 < args.len() {
            Some(args[i + 1])
        } else {
            None
        };
        if a == "--"@ {
            Some(next)
        } else if a.len() > 0 && a[0] == '-' {
            match inline_value_spec(a) {
                Some((flag, value)) => if flag == "--repo"@ {
                    Some(Some(value))
                } else {
                    push_scan(args, i + 1)
                },
                None => if consumes_value_spec(a) {
                    if a == "--repo"@ {
                        Some(next)
                    } else if i + 2 <= args.len() {
                        push_scan(args, i + 2)
                    } else {
                        None
                    }
                } else {
                    push_scan(args, i + 1)
                },
            }
        } else {
            Some(Some(a))
        }
    }
}

/// The first known remote, in their order, that is one of the arguments.
pub open spec fn first_named_remote(known: Seq<Seq<char>>, args: Seq<Seq<char>>) -> Option<Seq<char>>
    decreases known.len(),
{
    if known.len() == 0 {
        None
    } else {
        match first_named_remote(known.drop_last(), args) {
            Some(r) => Some(r),
            None => if args.contains(known.last()) {
                Some(known.last())
            } else {
                None
            },
        }
    }
}

/// The remote a `git push` names (see `push_scan`), else the first known
/// remote among its arguments.
pub open spec fn push_remote_spec(args: Seq<Seq<char>>, known: Seq<Seq<char>>) -> Option<Seq<char>> {
    match push_scan(args, 0) {
        Some(r) => r,
        None => first_named_remote(known, args),
    }
}

/// Whether one of the strings is `s`.
fn contains_string(v: &[String], s: &String) -> (r: bool)
    ensures
        r == strs_view(v@).contains(s@),
{
    let mut i: usize = 0;
    while i < v.len()
        invariant
            0 <= i <= v@.len(),
            forall|k: int| 0 <= k < i ==> v@[k]@ != s@,
        decreases v@.len() - i,
    {
        if crate::str_map::str_eq(v[i].as_str(), s.as_str()) {
            assert(strs_view(v@)[i as int] == s@);
            return true;
        }
        i = i + 1;
    }
    proof {
        if strs_view(v@).contains(s@) {
            let k = choose|k: int| 0 <= k < strs_view(v@).len() && strs_view(v@)[k] == s@;
            assert(v@[k]@ == s@);
        }
    }
    false
}

/// The remote a `git push` names (see `push_remote_spec`).
pub fn extract_remote_from_push_args(args: &[String], known_remotes: &[String]) -> (r: Option<String>)
    ensures
        match r {
            Some(x) => push_remote_spec(strs_view(args@), strs_view(known_remotes@)) == Some(x@),
            None => push_remote_spec(strs_view(args@), strs_view(known_remotes@)) is None,
        },
{
    let ghost av = strs_view(args@);
    let mut i: usize = 0;
    while i < args.len()
        invariant
            0 <= i <= args@.len(),
            av == strs_view(args@),
            push_scan(av, 0) == push_scan(av, i as int),
        decreases args@.len() - i,
    {
        let arg = &args[i];
        assert(av[i as int] == arg@);
        proof {
            reveal_strlit("--");
            reveal_strlit("--repo");
        }
        if crate::str_map::str_eq(arg.as_str(), "--") {
            if i + 1 < args.len() {
                assert(av[i + 1] == args@[i + 1]@);
                return Some(args[i + 1].clone());
            }
            return None;
        }
        let cs = chars_of(arg.as_str());
        if cs.len() > 0 && cs[0] == '-' {
            match is_push_option_with_inline_value(arg.as_str()) {
                Some((flag, value)) => {
                    if crate::str_map::str_eq(flag.as_str(), "--repo") {
                        return Some(value);
                    }
                    i = i + 1;
                    continue;
                },
                None => {},
            }
            if option_consumes_separate_value(arg.as_str()) {
                if crate::str_map::str_eq(arg.as_str(), "--repo") {
                    if i + 1 < args.len() {
                        assert(av[i + 1] == args@[i + 1]@);
                        return Some(args[i + 1].clone());
                    }
                    return None;
                }
                if args.len() - i <= 2 {
                    i = args.len();
                } else {
                    i = i + 2;
                }
                continue;
            }
            i = i + 1;
            continue;
        }
        return Some(arg.clone());
    }
    assert(push_scan(av, i as int) is None);
    let ghost kv = strs_view(known_remotes@);
    let mut k: usize = 0;
    while k < known_remotes.len()
        invariant
            0 <= k <= known_remotes@.len(),
            av == strs_view(args@),
            kv == strs_view(known_remotes@),
            push_scan(av, 0) is None,
            first_named_remote(kv.take(k as int), av) is None,
        decreases known_remotes@.len() - k,
    {
        assert(kv.take(k + 1).drop_last() =~= kv.take(k as int));
        assert(kv.take(k + 1).last() == known_remotes@[k as int]@);
        if contains_string(args, &known_remotes[k]) {
            proof {
                lemma_first_named_prefix(kv, av, k + 1);
            }
            return Some(known_remotes[k].clone());
        }
        k = k + 1;
    }
    assert(kv.take(k as int) =~= kv);
    None
}

/// A remote found in a prefix of the known remotes is the one found.
proof fn lemma_first_named_prefix(known: Seq<Seq<char>>, args: Seq<Seq<char>>, n: int)
    requires
        0 <= n <= known.len(),
        first_named_remote(known.take(n), args) is Some,
    ensures
        first_named_remote(known, args) == first_named_remote(known.take(n), args),
    decreases known.len() - n,
{
    if n < known.len() {
        assert(known.take(n + 1).drop_last() =~= known.take(n));
        lemma_first_named_prefix(known, args, n + 1);
    } else {
        assert(known.take(n) =~= known);
    }
}

/// The first argument that names a repository position in a `git fetch`:
/// options are skipped until a `--`, after which every argument counts.
pub open spec fn first_positional(args: Seq<Seq<char>>, i: int, after_dd: bool) -> Option<Seq<char>>
    decreases args.len() - i,
{
    if i < 0 || i >= args.len() {
        None
    } else if !after_dd && args[i] == "--"@ {
        first_positional(args, i + 1, true)
    } else if !after_dd && args[i].len() > 0 && args[i][0] == '-' {
        first_positional(args, i + 1, after_dd)
    } else {
        Some(args[i])
    }
}

/// An argument that looks like a repository: a URL, `user@host:path`, a
/// path from `/`, `./`, `../` or `~/`, or a name ending in `.git`.
pub open spec fn looks_like_repository(s: Seq<char>) -> bool {
    ||| has_substring(s, "://"@)
    ||| starts_with(s, "file://"@)
    ||| (s.contains('@') && s.contains(':') && !has_substring(s, "://"@))
    ||| starts_with(s, "/"@)
    ||| starts_with(s, "./"@)
    ||| starts_with(s, "../"@)
    ||| starts_with(s, "~/"@)
    ||| ends_with(s, ".git"@)
}

/// The repository a `git fetch` names: its first positional argument, when
/// it looks like a repository or `path_exists` says it exists.
pub fn extract_remote_from_fetch_args<F: Fn(&str) -> bool>(args: &[String], path_exists: F) -> (r: Option<String>)
    requires
        forall|s: &str| call_requires(path_exists, (s,)),
    ensures
        match first_positional(strs_view(args@), 0, false) {
            None => r is None,
            Some(p) => if looks_like_repository(p) {
                r matches Some(x) && x@ == p
            } else {
                match r {
                    Some(x) => x@ == p && exists|s: &str| s@ == p && call_ensures(path_exists, (s,), true),
                    None => exists|s: &str| s@ == p && call_ensures(path_exists, (s,), false),
                }
            },
        },
{
    let ghost av = strs_view(args@);
    let mut after_dd = false;
    let mut i: usize = 0;
    proof {
        reveal_strlit("--");
    }
    while i < args.len()
        invariant
            av == strs_view(args@),
            first_positional(av, 0, false) == first_positional(av, i as int, after_dd),
            forall|s: &str| call_requires(path_exists, (s,)),
        decreases args@.len() - i,
    {
        let arg = &args[i];
        assert(av[i as int] == arg@);
        if !after_dd {
            if crate::str_map::str_eq(arg.as_str(), "--") {
                after_dd = true;
                i = i + 1;
                continue;
            }
            let cs0 = chars_of(arg.as_str());
            if cs0.len() > 0 && cs0[0] == '-' {
                i = i + 1;
                continue;
            }
        }
        let s: &str = arg.as_str();
        let cs = chars_of(s);
        let c1 = chars_of("://");
        let c2 = chars_of("file://");
        let c3 = chars_of("/");
        let c4 = chars_of("./");
        let c5 = chars_of("../");
        let c6 = chars_of("~/");
        let c7 = chars_of(".git");
        let has_at = crate::text::find_char(cs.as_slice(), '@').is_some();
        let has_colon = crate::text::find_char(cs.as_slice(), ':').is_some();
        let url = contains_chars(cs.as_slice(), c1.as_slice());
        assert(has_at == cs@.contains('@')) by {
            if cs@.contains('@') {
                let k = choose|k: int| 0 <= k < cs@.len() && cs@[k] == '@';
            }
        }
        assert(has_colon == cs@.contains(':')) by {
            if cs@.contains(':') {
                let k = choose|k: int| 0 <= k < cs@.len() && cs@[k] == ':';
            }
        }
        let looks = url || starts_with_chars(cs.as_slice(), c2.as_slice()) || (has_at && has_colon && !url)
            || starts_with_chars(cs.as_slice(), c3.as_slice()) || starts_with_chars(cs.as_slice(), c4.as_slice())
            || starts_with_chars(cs.as_slice(), c5.as_slice()) || starts_with_chars(cs.as_slice(), c6.as_slice())
            || ends_with_chars(cs.as_slice(), c7.as_slice());
        assert(looks == looks_like_repository(arg@));
        if looks {
            return Some(arg.clone());
        }
        let exists_on_disk = path_exists(s);
        if exists_on_disk {
            return Some(arg.clone());
        }
        return None;
    }
    None
}

/// The remote to sync with: the one the arguments name, else the first
/// argument that is a known remote, else the branch's upstream remote,
/// else the default remote.
pub open spec fn choose_remote_spec(
    named: Option<Seq<char>>,
    args: Seq<Seq<char>>,
    remote_names: Seq<Seq<char>>,
    upstream: Option<Seq<char>>,
    default_remote: Option<Seq<char>>,
) -> Option<Seq<char>> {
    match named {
        Some(r) => Some(r),
        None => match first_arg_remote(args, remote_names) {
            Some(r) => Some(r),
            None => match upstream {
                Some(u) => Some(u),
                None => default_remote,
            },
        },
    }
}

/// The first argument, in their order, that is a known remote.
pub open spec fn first_arg_remote(args: Seq<Seq<char>>, remote_names: Seq<Seq<char>>) -> Option<Seq<char>>
    decreases args.len(),
{
    if args.len() == 0 {
        None
    } else {
        match first_arg_remote(args.drop_last(), remote_names) {
            Some(r) => Some(r),
            None => if remote_names.contains(args.last()) {
                Some(args.last())
            } else {
                None
            },
        }
    }
}

/// The view of an optional string.
pub open spec fn opt_view(o: Option<String>) -> Option<Seq<char>> {
    match o {
        Some(s) => Some(s@),
        None => None,
    }
}

/// Chooses the remote to sync with (see `choose_remote_spec`).
pub fn choose_remote(
    named: Option<String>,
    args: &[String],
    remote_names: &[String],
    upstream: Option<String>,
    default_remote: Option<String>,
) -> (r: Option<String>)
    ensures
        opt_view(r) == choose_remote_spec(
            opt_view(named),
            strs_view(args@),
            strs_view(remote_names@),
            opt_view(upstream),
            opt_view(default_remote),
        ),
{
    match named {
        Some(r) => return Some(r),
        None => {},
    }
    let ghost av = strs_view(args@);
    let mut i: usize = 0;
    while i < args.len()
        invariant
            0 <= i <= args@.len(),
            named is None,
            av == strs_view(args@),
            first_arg_remote(av.take(i as int), strs_view(remote_names@)) is None,
        decreases args@.len() - i,
    {
        assert(av.take(i + 1).drop_last() =~= av.take(i as int));
        assert(av.take(i + 1).last() == args@[i as int]@);
        if contains_string(remote_names, &args[i]) {
            proof {
                lemma_first_arg_prefix(av, strs_view(remote_names@), i + 1);
            }
            return Some(args[i].clone());
        }
        i = i + 1;
    }
    assert(av.take(i as int) =~= av);
    match upstream {
        Some(u) => Some(u),
        None => default_remote,
    }
}

/// A remote found among the first arguments is the one found.
proof fn lemma_first_arg_prefix(args: Seq<Seq<char>>, names: Seq<Seq<char>>, n: int)
    requires
        0 <= n <= args.len(),
        first_arg_remote(args.take(n), names) is Some,
    ensures
        first_arg_remote(args, names) == first_arg_remote(args.take(n), names),
    decreases args.len() - n,
{
    if n < args.len() {
        assert(args.take(n + 1).drop_last() =~= args.take(n));
        lemma_first_arg_prefix(args, names, n + 1);
    } else {
        assert(args.take(n) =~= args);
    }
}

/// The remote a fetch syncs notes with: the repository its arguments name
/// (see `extract_remote_from_fetch_args`, done by the caller), else as
/// `choose_remote` says.
pub fn fetch_remote_from_args(
    positional: Option<String>,
    command_args: &[String],
    remote_names: &[String],
    upstream: Option<String>,
    default_remote: Option<String>,
) -> (r: Option<String>)
    ensures
        opt_view(r) == choose_remote_spec(
            opt_view(positional),
            strs_view(command_args@),
            strs_view(remote_names@),
            opt_view(upstream),
            opt_view(default_remote),
        ),
{
    choose_remote(positional, command_args, remote_names, upstream, default_remote)
}

/// A push is followed by a push of the notes unless it was a dry run,
/// failed, deleted refs (`-d`, `--delete`) or mirrored (`--mirror`).
pub fn should_push_authorship(command_args: &[String], dry_run: bool, succeeded: bool) -> (r: bool)
    ensures
        r == (!dry_run && succeeded && !strs_view(command_args@).contains("-d"@) && !strs_view(
            command_args@,
        ).contains("--delete"@) && !strs_view(command_args@).contains("--mirror"@)),
{
    let d = "-d".to_owned();
    let del = "--delete".to_owned();
    let mirror = "--mirror".to_owned();
    !dry_run && succeeded && !contains_string(command_args, &d) && !contains_string(command_args, &del)
        && !contains_string(command_args, &mirror)
}

/// Whether a character is alphabetic or numeric in Unicode.
pub uninterp spec fn unicode_alphanumeric(c: char) -> bool;

/// Calls `char::is_alphanumeric` (Unicode's `Alphabetic` or `Numeric`):
/// the answer depends on the character alone, and among ASCII characters
/// exactly the letters and digits are alphanumeric.
#[verifier::external_body]
fn is_alphanumeric_char(c: char) -> (r: bool)
    ensures
        r == unicode_alphanumeric(c),
        (c as u32) < 128 ==> (r <==> ascii_alnum(c)),
{
    c.is_alphanumeric()
}

/// An ASCII letter or digit.
pub open spec fn ascii_alnum(c: char) -> bool {
    ('a' <= c <= 'z') || ('A' <= c <= 'Z') || ('0' <= c <= '9')
}

/// Of the ASCII characters of `s`, exactly the letters and digits are
/// alphanumeric.
pub open spec fn ascii_alnum_known(s: Seq<char>) -> bool {
    forall|i: int| 0 <= i < s.len() && (s[i] as u32) < 128 ==> (unicode_alphanumeric(#[trigger] s[i]) <==> ascii_alnum(s[i]))
}

/// The character a remote name keeps in a ref name: alphanumerics, `-` and
/// `_` stay, anything else becomes `_`.
pub open spec fn sanitize_char(c: char) -> char {
    if unicode_alphanumeric(c) || c == '-' || c == '_' {
        c
    } else {
        '_'
    }
}

/// A remote name made safe for a ref name (see `sanitize_char`).
pub fn sanitize_remote_name(remote: &str) -> (r: String)
    ensures
        r@ == remote@.map_values(|c: char| sanitize_char(c)),
        ascii_alnum_known(remote@),
{
    let cs = chars_of(remote);
    let mut r = String::new();
    let mut i: usize = 0;
    while i < cs.len()
        invariant
            0 <= i <= cs@.len(),
            cs@ == remote@,
            r@ == cs@.take(i as int).map_values(|c: char| sanitize_char(c)),
            ascii_alnum_known(cs@.take(i as int)),
        decreases cs@.len() - i,
    {
        let c = cs[i];
        let an = is_alphanumeric_char(c);
        assert(ascii_alnum_known(cs@.take(i + 1))) by {
            assert forall|k: int| 0 <= k < i + 1 && (cs@.take(i + 1)[k] as u32) < 128 implies (unicode_alphanumeric(
                #[trigger] cs@.take(i + 1)[k],
            ) <==> ascii_alnum(cs@.take(i + 1)[k])) by {
                if k < i {
                    assert(cs@.take(i + 1)[k] == cs@.take(i as int)[k]);
                }
            }
        }
        let keep = an || c == '-' || c == '_';
        push_char(&mut r, if keep { c } else { '_' });
        assert(cs@.take(i + 1).map_values(|c: char| sanitize_char(c)) =~= cs@.take(i as int).map_values(
            |c: char| sanitize_char(c),
        ).push(sanitize_char(c)));
        i = i + 1;
    }
    assert(cs@.take(i as int) =~= cs@);
    r
}

/// The ref that tracks a remote's notes: `refs/notes/ai-remote/` and the
/// sanitized remote name.
pub fn tracking_ref_for_remote(remote_name: &str) -> (r: String)
    ensures
        r@ == "refs/notes/ai-remote/"@ + remote_name@.map_values(|c: char| sanitize_char(c)),
        ascii_alnum_known(remote_name@),
{
    let mut r = String::new();
    push_str_chars(&mut r, "refs/notes/ai-remote/");
    let s = sanitize_remote_name(remote_name);
    push_str_chars(&mut r, s.as_str());
    r
}

/// Appends a string to a list of arguments.
fn push_arg(v: &mut Vec<String>, s: &str)
    ensures
        strs_view(final(v)@) == strs_view(old(v)@).push(s@),
{
    let ghost before = strs_view(v@);
    v.push(s.to_owned());
    assert(strs_view(v@) =~= before.push(s@));
}

/// A copy of a list of strings.
fn copy_strings(v: &[String]) -> (r: Vec<String>)
    ensures
        strs_view(r@) == strs_view(v@),
{
    let mut r: Vec<String> = Vec::new();
    let mut i: usize = 0;
    while i < v.len()
        invariant
            0 <= i <= v@.len(),
            strs_view(r@) == strs_view(v@.take(i as int)),
        decreases v@.len() - i,
    {
        push_arg(&mut r, v[i].as_str());
        assert(strs_view(v@.take(i + 1)) =~= strs_view(v@.take(i as int)).push(v@[i as int]@));
        i = i + 1;
    }
    assert(v@.take(i as int) =~= v@);
    r
}

/// The arguments of the notes fetch from `remote` into `tracking_ref`, after
/// the invocation's global arguments: hooks off, no tags, submodules,
/// FETCH_HEAD, commit graph or maintenance, refspec
/// `+refs/notes/ai:<tracking_ref>`.
pub open spec fn notes_fetch_args_spec(global: Seq<Seq<char>>, remote: Seq<char>, tracking_ref: Seq<char>) -> Seq<Seq<char>> {
    global + seq![
        "-c"@,
        "core.hooksPath=/dev/null"@,
        "fetch"@,
        "--no-tags"@,
        "--recurse-submodules=no"@,
        "--no-write-fetch-head"@,
        "--no-write-commit-graph"@,
        "--no-auto-maintenance"@,
        remote,
        "+refs/notes/ai:"@ + tracking_ref,
    ]
}

/// The arguments of the notes fetch (see `notes_fetch_args_spec`).
pub fn notes_fetch_args(global_args: &[String], remote_name: &str, tracking_ref: &str) -> (r: Vec<String>)
    ensures
        strs_view(r@) == notes_fetch_args_spec(strs_view(global_args@), remote_name@, tracking_ref@),
{
    let mut v = copy_strings(global_args);
    push_arg(&mut v, "-c");
    push_arg(&mut v, "core.hooksPath=/dev/null");
    push_arg(&mut v, "fetch");
    push_arg(&mut v, "--no-tags");
    push_arg(&mut v, "--recurse-submodules=no");
    push_arg(&mut v, "--no-write-fetch-head");
    push_arg(&mut v, "--no-write-commit-graph");
    push_arg(&mut v, "--no-auto-maintenance");
    push_arg(&mut v, remote_name);
    let mut spec = String::new();
    push_str_chars(&mut spec, "+refs/notes/ai:");
    push_str_chars(&mut spec, tracking_ref);
    push_arg(&mut v, spec.as_str());
    assert(strs_view(v@) =~= notes_fetch_args_spec(strs_view(global_args@), remote_name@, tracking_ref@));
    v
}

/// The arguments of the notes push to `remote`, after the global
/// arguments: hooks off, quiet, no submodules, no verification, refspec
/// `refs/notes/ai:refs/notes/ai` (no force).
pub open spec fn notes_push_args_spec(global: Seq<Seq<char>>, remote: Seq<char>) -> Seq<Seq<char>> {
    global + seq![
        "-c"@,
        "core.hooksPath=/dev/null"@,
        "push"@,
        "--quiet"@,
        "--no-recurse-submodules"@,
        "--no-verify"@,
        remote,
        "refs/notes/ai:refs/notes/ai"@,
    ]
}

/// The arguments of the notes push (see `notes_push_args_spec`).
pub fn notes_push_args(global_args: &[String], remote_name: &str) -> (r: Vec<String>)
    ensures
        strs_view(r@) == notes_push_args_spec(strs_view(global_args@), remote_name@),
{
    let mut v = copy_strings(global_args);
    push_arg(&mut v, "-c");
    push_arg(&mut v, "core.hooksPath=/dev/null");
    push_arg(&mut v, "push");
    push_arg(&mut v, "--quiet");
    push_arg(&mut v, "--no-recurse-submodules");
    push_arg(&mut v, "--no-verify");
    push_arg(&mut v, remote_name);
    push_arg(&mut v, "refs/notes/ai:refs/notes/ai");
    assert(strs_view(v@) =~= notes_push_args_spec(strs_view(global_args@), remote_name@));
    v
}

/// What to do with fetched notes.
#[derive(Debug, Clone, Copy, PartialEq, Eq, Structural)]
pub enum NotesSyncAction {
    /// Merge the tracking ref into the local notes.
    Merge,
    /// Start the local notes from the tracking ref.
    CopyToLocal,
    /// Nothing was fetched.
    Nothing,
}

/// After a fetch: merge when both the tracking ref and the local notes
/// exist, copy when only the tracking ref does, else nothing.
pub fn notes_sync_action(tracking_exists: bool, local_exists: bool) -> (r: NotesSyncAction)
    ensures
        r == if !tracking_exists {
            NotesSyncAction::Nothing
        } else if local_exists {
            NotesSyncAction::Merge
        } else {
            NotesSyncAction::CopyToLocal
        },
{
    if !tracking_exists {
        NotesSyncAction::Nothing
    } else if local_exists {
        NotesSyncAction::Merge
    } else {
        NotesSyncAction::CopyToLocal
    }
}

/// The arguments that merge notes from `source_ref` into the `ai` notes
/// with the `ours` strategy.
pub fn merge_notes_args(global_args: &[String], source_ref: &str) -> (r: Vec<String>)
    ensures
        strs_view(r@) == strs_view(global_args@) + seq![
            "notes"@,
            "--ref=ai"@,
            "merge"@,
            "-s"@,
            "ours"@,
            "--quiet"@,
            source_ref@,
        ],
{
    let mut v = copy_strings(global_args);
    push_arg(&mut v, "notes");
    push_arg(&mut v, "--ref=ai");
    push_arg(&mut v, "merge");
    push_arg(&mut v, "-s");
    push_arg(&mut v, "ours");
    push_arg(&mut v, "--quiet");
    push_arg(&mut v, source_ref);
    assert(strs_view(v@) =~= strs_view(global_args@) + seq![
        "notes"@,
        "--ref=ai"@,
        "merge"@,
        "-s"@,
        "ours"@,
        "--quiet"@,
        source_ref@,
    ]);
    v
}

/// The arguments that point `dest_ref` at `source_ref`.
pub fn copy_ref_args(global_args: &[String], source_ref: &str, dest_ref: &str) -> (r: Vec<String>)
    ensures
        strs_view(r@) == strs_view(global_args@) + seq!["update-ref"@, dest_ref@, source_ref@],
{
    let mut v = copy_strings(global_args);
    push_arg(&mut v, "update-ref");
    push_arg(&mut v, dest_ref);
    push_arg(&mut v, source_ref);
    assert(strs_view(v@) =~= strs_view(global_args@) + seq!["update-ref"@, dest_ref@, source_ref@]);
    v
}

/// The arguments that check quietly whether a ref exists.
pub fn ref_exists_args(global_args: &[String], ref_name: &str) -> (r: Vec<String>)
    ensures
        strs_view(r@) == strs_view(global_args@) + seq!["show-ref"@, "--verify"@, "--quiet"@, ref_name@],
{
    let mut v = copy_strings(global_args);
    push_arg(&mut v, "show-ref");
    push_arg(&mut v, "--verify");
    push_arg(&mut v, "--quiet");
    push_arg(&mut v, ref_name);
    assert(strs_view(v@) =~= strs_view(global_args@) + seq!["show-ref"@, "--verify"@, "--quiet"@, ref_name@]);
    v
}

/// The arguments that add (replacing) the note of a commit, read from
/// standard input.
pub fn notes_add_args(global_args: &[String], commit_sha: &str) -> (r: Vec<String>)
    ensures
        strs_view(r@) == strs_view(global_args@) + seq![
            "notes"@,
            "--ref=ai"@,
            "add"@,
            "-f"@,
            "-F"@,
            "-"@,
            commit_sha@,
        ],
{
    let mut v = copy_strings(global_args);
    push_arg(&mut v, "notes");
    push_arg(&mut v, "--ref=ai");
    push_arg(&mut v, "add");
    push_arg(&mut v, "-f");
    push_arg(&mut v, "-F");
    push_arg(&mut v, "-");
    push_arg(&mut v, commit_sha);
    assert(strs_view(v@) =~= strs_view(global_args@) + seq![
        "notes"@,
        "--ref=ai"@,
        "add"@,
        "-f"@,
        "-F"@,
        "-"@,
        commit_sha@,
    ]);
    v
}

/// The arguments that show the note of a commit.
pub fn notes_show_args(global_args: &[String], commit_sha: &str) -> (r: Vec<String>)
    ensures
        strs_view(r@) == strs_view(global_args@) + seq!["notes"@, "--ref=ai"@, "show"@, commit_sha@],
{
    let mut v = copy_strings(global_args);
    push_arg(&mut v, "notes");
    push_arg(&mut v, "--ref=ai");
    push_arg(&mut v, "show");
    push_arg(&mut v, commit_sha);
    assert(strs_view(v@) =~= strs_view(global_args@) + seq!["notes"@, "--ref=ai"@, "show"@, commit_sha@]);
    v
}

/// A shown note's content: the output without surrounding white space,
/// when something is left.
pub fn note_content(stdout: &str) -> (r: Option<String>)
    ensures
        match r {
            Some(c) => c@ == trim_spec(stdout@) && c@.len() > 0,
            None => trim_spec(stdout@).len() == 0,
        },
{
    let cs = chars_of(stdout);
    let t = trim_chars(cs.as_slice());
    if t.len() > 0 {
        Some(string_of(t.as_slice()))
    } else {
        None
    }
}

/// Whether a command's arguments ask for a dry run (`--dry-run` or `-n`).
pub fn is_dry_run(args: &[String]) -> (r: bool)
    ensures
        r == (strs_view(args@).contains("--dry-run"@) || strs_view(args@).contains("-n"@)),
{
    let a = "--dry-run".to_owned();
    let b = "-n".to_owned();
    contains_string(args, &a) || contains_string(args, &b)
}

/// The remote that notes go to and come from by default: `origin` when the
/// repository has it, else its first remote; none without remotes.
pub fn get_default_remote(remote_names: &[String]) -> (r: Option<String>)
    ensures
        opt_view(r) == if strs_view(remote_names@).contains("origin"@) {
            Some("origin"@)
        } else if remote_names@.len() > 0 {
            Some(remote_names@[0]@)
        } else {
            None::<Seq<char>>
        },
{
    let o = "origin".to_owned();
    if contains_string(remote_names, &o) {
        Some(o)
    } else if remote_names.len() > 0 {
        Some(remote_names[0].clone())
    } else {
        None
    }
}

} // verus!
