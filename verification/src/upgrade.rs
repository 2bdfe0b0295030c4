//! Version comparison and the decisions of the upgrade command.
use vstd::prelude::*;
use crate::text::{
    chars_of, parse_u32, parse_u32_spec, push_str_chars, seqs_view, split_char, split_chars,
};

verus! {

/// The numbers of the pieces that parse as `u32`, in order.
pub open spec fn parsed_parts(ps: Seq<Seq<char>>) -> Seq<u32>
    decreases ps.len(),
{
    if ps.len() == 0 {
        seq![]
    } else {
        let r = parsed_parts(ps.drop_last());
        match parse_u32_spec(ps.last()) {
            Some(x) => r.push(x),
            None => r,
        }
    }
}

/// The numbers of a dotted version: the `.`-separated pieces that parse as
/// `u32` (the others are skipped).
pub open spec fn version_parts(v: Seq<char>) -> Seq<u32> {
    parsed_parts(split_char(v, '.'))
}

/// Part `i` of a version, 0 past its end.
pub open spec fn part_at(p: Seq<u32>, i: int) -> u32 {
    if 0 <= i < p.len() {
        p[i]
    } else {
        0
    }
}

/// `a` is newer than `b`: at the first position where their parts differ
/// (missing parts count as 0), `a`'s part is greater.
pub open spec fn newer_parts(a: Seq<u32>, b: Seq<u32>) -> bool {
    exists|i: int|
        0 <= i && (forall|j: int| 0 <= j < i ==> part_at(a, j) == part_at(b, j)) && part_at(a, i)
            > part_at(b, i)
}

/// The version `latest` is newer than `current`.
pub open spec fn is_newer_spec(latest: Seq<char>, current: Seq<char>) -> bool {
    newer_parts(version_parts(latest), version_parts(current))
}

/// The parts of a dotted version.
fn parse_version(v: &str) -> (r: Vec<u32>)
    ensures
        r@ == version_parts(v@),
{
    let cs = chars_of(v);
    let pieces = split_chars(cs.as_slice(), '.');
    let ghost ps = seqs_view(pieces@);
    let mut r: Vec<u32> = Vec::new();
    let mut i: usize = 0;
    while i < pieces.len()
        invariant
            0 <= i <= pieces@.len(),
            ps == seqs_view(pieces@),
            ps == split_char(v@, '.'),
            r@ == parsed_parts(ps.take(i as int)),
        decreases pieces@.len() - i,
    {
        assert(ps.take(i + 1).drop_last() =~= ps.take(i as int));
        assert(ps[i as int] == pieces@[i as int]@);
        match parse_u32(pieces[i].as_slice()) {
            Some(x) => r.push(x),
            None => {},
        }
        i = i + 1;
    }
    assert(ps.take(i as int) =~= ps);
    r
}

/// Whether version `latest` is newer than `current`: their dot-separated
/// numbers are compared from the left, missing ones counting as 0, and
/// pieces that are not numbers are skipped.
pub fn is_newer_version(latest: &str, current: &str) -> (r: bool)
    ensures
        r == is_newer_spec(latest@, current@),
{
    let a = parse_version(latest);
    let b = parse_version(current);
    let n: usize = if a.len() > b.len() {
        a.len()
    } else {
        b.len()
    };
    let mut i: usize = 0;
    while i < n
        invariant
            0 <= i <= n,
            n == if a@.len() > b@.len() {
                a@.len()
            } else {
                b@.len()
            },
            forall|j: int| 0 <= j < i ==> part_at(a@, j) == part_at(b@, j),
            a@ == version_parts(latest@),
            b@ == version_parts(current@),
        decreases n - i,
    {
        let x: u32 = if i < a.len() {
            a[i]
        } else {
            0
        };
        let y: u32 = if i < b.len() {
            b[i]
        } else {
            0
        };
        assert(x == part_at(a@, i as int) && y == part_at(b@, i as int));
        if x > y {
            assert(0 <= i && (forall|j: int| 0 <= j < i ==> part_at(a@, j) == part_at(b@, j))
                && part_at(a@, i as int) > part_at(b@, i as int));
            return true;
        } else if x < y {
            proof {
                lemma_not_newer_at(a@, b@, i as int);
            }
            return false;
        }
        i = i + 1;
    }
    proof {
        if newer_parts(a@, b@) {
            let k = choose|k: int|
                0 <= k && (forall|j: int| 0 <= j < k ==> part_at(a@, j) == part_at(b@, j))
                    && part_at(a@, k) > part_at(b@, k);
            if k < n {
                assert(part_at(a@, k) == part_at(b@, k));
            }
        }
    }
    false
}

/// When the first difference is at `i` with `a` smaller, `a` is not newer.
proof fn lemma_not_newer_at(a: Seq<u32>, b: Seq<u32>, i: int)
    requires
        0 <= i,
        forall|j: int| 0 <= j < i ==> part_at(a, j) == part_at(b, j),
        part_at(a, i) < part_at(b, i),
    ensures
        !newer_parts(a, b),
{
    if newer_parts(a, b) {
        let k = choose|k: int|
            0 <= k && (forall|j: int| 0 <= j < k ==> part_at(a, j) == part_at(b, j)) && part_at(a, k)
                > part_at(b, k);
        if k < i {
            assert(part_at(a, k) == part_at(b, k));
        } else if k > i {
            assert(part_at(a, i) == part_at(b, i));
        }
    }
}

/// No version is newer than itself.
pub proof fn lemma_newer_irreflexive(v: Seq<char>)
    ensures
        !is_newer_spec(v, v),
{
}

/// Of two versions, at most one is newer than the other.
pub proof fn lemma_newer_asymmetric(a: Seq<char>, b: Seq<char>)
    ensures
        !(is_newer_spec(a, b) && is_newer_spec(b, a)),
{
    let pa = version_parts(a);
    let pb = version_parts(b);
    if is_newer_spec(a, b) && is_newer_spec(b, a) {
        let i = choose|i: int|
            0 <= i && (forall|j: int| 0 <= j < i ==> part_at(pa, j) == part_at(pb, j)) && part_at(pa, i)
                > part_at(pb, i);
        let k = choose|k: int|
            0 <= k && (forall|j: int| 0 <= j < k ==> part_at(pb, j) == part_at(pa, j)) && part_at(pb, k)
                > part_at(pa, k);
        if i < k {
            assert(part_at(pb, i) == part_at(pa, i));
        } else if k < i {
            assert(part_at(pa, k) == part_at(pb, k));
        }
    }
}

/// Newer is transitive.
pub proof fn lemma_newer_transitive(a: Seq<char>, b: Seq<char>, c: Seq<char>)
    requires
        is_newer_spec(a, b),
        is_newer_spec(b, c),
    ensures
        is_newer_spec(a, c),
{
    let pa = version_parts(a);
    let pb = version_parts(b);
    let pc = version_parts(c);
    let i = choose|i: int|
        0 <= i && (forall|j: int| 0 <= j < i ==> part_at(pa, j) == part_at(pb, j)) && part_at(pa, i)
            > part_at(pb, i);
    let k = choose|k: int|
        0 <= k && (forall|j: int| 0 <= j < k ==> part_at(pb, j) == part_at(pc, j)) && part_at(pb, k)
            > part_at(pc, k);
    let m = if i < k {
        i
    } else {
        k
    };
    assert(forall|j: int| 0 <= j < m ==> part_at(pa, j) == part_at(pc, j));
    if i < k {
        assert(part_at(pb, i) == part_at(pc, i));
    } else if k < i {
        assert(part_at(pa, k) == part_at(pb, k));
    }
    assert(part_at(pa, m) > part_at(pc, m));
}

/// What the upgrade command does once it knows the latest release.
#[derive(Debug, Clone, Copy, PartialEq, Eq, Structural)]
pub enum UpgradeAction {
    UpgradeAvailable,
    AlreadyLatest,
    RunningNewerVersion,
    ForceReinstall,
}

/// The action for the latest release `latest` when running `current`.
pub open spec fn upgrade_action_spec(force: bool, latest: Seq<char>, current: Seq<char>) -> UpgradeAction {
    if force {
        UpgradeAction::ForceReinstall
    } else if latest == current {
        UpgradeAction::AlreadyLatest
    } else if is_newer_spec(latest, current) {
        UpgradeAction::UpgradeAvailable
    } else {
        UpgradeAction::RunningNewerVersion
    }
}

/// Chooses the upgrade action: forced reinstall, already latest, upgrade
/// available, or running a newer version than the latest release.
pub fn decide_upgrade_action(force: bool, latest: &str, current: &str) -> (r: UpgradeAction)
    ensures
        r == upgrade_action_spec(force, latest@, current@),
{
    if force {
        UpgradeAction::ForceReinstall
    } else if crate::str_map::str_eq(latest, current) {
        UpgradeAction::AlreadyLatest
    } else if is_newer_version(latest, current) {
        UpgradeAction::UpgradeAvailable
    } else {
        UpgradeAction::RunningNewerVersion
    }
}

/// `s` without its leading `v`s (like `trim_start_matches('v')`).
pub open spec fn strip_v_spec(s: Seq<char>) -> Seq<char>
    decreases s.len(),
{
    if s.len() > 0 && s[0] == 'v' {
        strip_v_spec(s.drop_first())
    } else {
        s
    }
}

/// A release tag without its leading `v`s: the release's version.
pub fn version_from_tag(tag: &str) -> (r: String)
    ensures
        r@ == strip_v_spec(tag@),
{
    let cs = chars_of(tag);
    let mut i: usize = 0;
    assert(cs@.skip(0) =~= cs@);
    while i < cs.len() && cs[i] == 'v'
        invariant
            0 <= i <= cs@.len(),
            strip_v_spec(cs@.skip(i as int)) == strip_v_spec(tag@),
        decreases cs@.len() - i,
    {
        assert(cs@.skip(i as int).drop_first() =~= cs@.skip(i + 1));
        i = i + 1;
    }
    let rest = crate::text::slice_chars(cs.as_slice(), i, cs.len());
    assert(rest@ =~= cs@.skip(i as int));
    crate::text::string_of(rest.as_slice())
}

/// The hours between two update checks.
pub const UPDATE_CHECK_INTERVAL_HOURS: u64 = 24;

/// An update check is due when the last one is older than the interval
/// (`elapsed_secs` is `None` when no earlier check is known).
pub fn update_check_due(elapsed_secs: Option<u64>) -> (r: bool)
    ensures
        r == match elapsed_secs {
            Some(e) => e > UPDATE_CHECK_INTERVAL_HOURS * 3600,
            None => true,
        },
{
    match elapsed_secs {
        Some(e) => e > UPDATE_CHECK_INTERVAL_HOURS * 3600,
        None => true,
    }
}

/// The repository whose releases are checked.
pub const GITHUB_REPO: &'static str = "acunniffe/git-ai";

/// The URL of the latest release for an API base URL (the public GitHub API
/// when `None`).
pub fn latest_release_url(api_base_url: Option<&str>) -> (r: String)
    ensures
        r@ == match api_base_url {
            Some(b) => b@ + "/repos/"@ + GITHUB_REPO@ + "/releases/latest"@,
            None => "https://api.github.com"@ + "/repos/"@ + GITHUB_REPO@ + "/releases/latest"@,
        },
{
    let mut r = String::new();
    match api_base_url {
        Some(b) => push_str_chars(&mut r, b),
        None => push_str_chars(&mut r, "https://api.github.com"),
    }
    push_str_chars(&mut r, "/repos/");
    push_str_chars(&mut r, GITHUB_REPO);
    push_str_chars(&mut r, "/releases/latest");
    r
}

/// The version to announce after a background check found release tag
/// `tag_name` while running `current_version`: the release's version when it
/// differs from and is newer than the running one.
pub fn check_for_updates(tag_name: &str, current_version: &str) -> (r: Option<String>)
    ensures
        match r {
            Some(v) => v@ == strip_v_spec(tag_name@) && strip_v_spec(tag_name@) != current_version@
                && is_newer_spec(strip_v_spec(tag_name@), current_version@),
            None => !(strip_v_spec(tag_name@) != current_version@ && is_newer_spec(
                strip_v_spec(tag_name@),
                current_version@,
            )),
        },
{
    let latest = version_from_tag(tag_name);
    if !crate::str_map::str_eq(latest.as_str(), current_version) && is_newer_version(
        latest.as_str(),
        current_version,
    ) {
        Some(latest)
    } else {
        None
    }
}

} // verus!
