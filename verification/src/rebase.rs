//! Carrying authorship across history rewrites: which commits pair up, the
//! path of commits back to a base, and which lines of an older version an
//! inserted line came from.
use vstd::prelude::*;
use crate::git_sync::strs_view;

verus! {

/// Cherry-picked commits pair up by position; extra commits on either side
/// have no partner.
pub fn cherry_pick_pairs(source_commits: &[String], new_commits: &[String]) -> (r: Vec<(String, String)>)
    ensures
        r@.len() == if source_commits@.len() < new_commits@.len() {
            source_commits@.len()
        } else {
            new_commits@.len()
        },
        forall|i: int|
            0 <= i < r@.len() ==> (#[trigger] r@[i]).0@ == source_commits@[i]@ && r@[i].1@
                == new_commits@[i]@,
{
    let n = if source_commits.len() < new_commits.len() {
        source_commits.len()
    } else {
        new_commits.len()
    };
    let mut r: Vec<(String, String)> = Vec::new();
    let mut i: usize = 0;
    while i < n
        invariant
            0 <= i <= n,
            n <= source_commits@.len(),
            n <= new_commits@.len(),
            r@.len() == i,
            forall|k: int|
                0 <= k < i ==> (#[trigger] r@[k]).0@ == source_commits@[k]@ && r@[k].1@
                    == new_commits@[k]@,
        decreases n - i,
    {
        r.push((source_commits[i].clone(), new_commits[i].clone()));
        i = i + 1;
    }
    r
}

/// Why no path of commits leads back to a base.
#[derive(Debug, Clone, Copy, PartialEq, Eq, Structural)]
pub enum LineageError {
    /// The history ended without reaching the base.
    NoPath,
    /// More than 10000 commits were walked (a cycle is suspected).
    PathTooLong,
    /// The head is the base.
    SameCommit,
}

/// The walk asks `first_parent` for the parent of `child` and gets `parent`.
pub open spec fn parent_step<F: Fn(&str) -> Option<String>>(
    first_parent: F,
    child: Seq<char>,
    parent: Option<Seq<char>>,
) -> bool {
    exists|s: &str, p: Option<String>|
        s@ == child && call_ensures(first_parent, (s,), p) && crate::git_sync::opt_view(p) == parent
}

/// `cs` is a walk of first parents from `head`, none of whose commits is
/// `base`: it starts at `head`, and each next commit is what `first_parent`
/// gave for the one before.
pub open spec fn first_parent_walk<F: Fn(&str) -> Option<String>>(
    first_parent: F,
    head: Seq<char>,
    base: Seq<char>,
    cs: Seq<Seq<char>>,
) -> bool {
    &&& cs.len() >= 1
    &&& cs[0] == head
    &&& forall|i: int| 0 <= i < cs.len() - 1 ==> parent_step(first_parent, #[trigger] cs[i], Some(cs[i + 1]))
    &&& forall|i: int| 0 <= i < cs.len() ==> #[trigger] cs[i] != base
}

/// The walk back from the head (see `build_commit_path_to_base`), with
/// what each outcome shows of the answers `first_parent` gave.
fn walk_to_base<F: Fn(&str) -> Option<String>>(
    head_sha: &str,
    origin_base: &str,
    first_parent: F,
) -> (r: Result<Vec<String>, LineageError>)
    requires
        forall|s: &str| call_requires(first_parent, (s,)),
    ensures
        (head_sha@ == origin_base@) <==> r == Err::<Vec<String>, LineageError>(LineageError::SameCommit),
        r matches Ok(v) ==> {
            &&& 1 <= v@.len() <= 10000
            &&& v@[v@.len() - 1]@ == head_sha@
            &&& parent_step(first_parent, v@[0]@, Some(origin_base@))
            &&& forall|i: int| 0 <= i < v@.len() - 1 ==> parent_step(first_parent, (#[trigger] v@[i + 1])@, Some(v@[i]@))
            &&& forall|i: int| 0 <= i < v@.len() ==> (#[trigger] v@[i])@ != origin_base@
        },
        r == Err::<Vec<String>, LineageError>(LineageError::NoPath) ==> exists|cs: Seq<Seq<char>>|
            first_parent_walk(first_parent, head_sha@, origin_base@, cs) && cs.len() <= 10001
                && parent_step(first_parent, cs.last(), None),
        r == Err::<Vec<String>, LineageError>(LineageError::PathTooLong) ==> exists|cs: Seq<Seq<char>>|
            first_parent_walk(first_parent, head_sha@, origin_base@, cs) && cs.len() == 10001,
{
    if crate::str_map::str_eq(head_sha, origin_base) {
        return Err(LineageError::SameCommit);
    }
    let mut commits: Vec<String> = Vec::new();
    let mut current: String = head_sha.to_owned();
    loop
        invariant
            forall|s: &str| call_requires(first_parent, (s,)),
            head_sha@ != origin_base@,
            commits@.len() <= 10000,
            commits@.len() == 0 ==> current@ == head_sha@,
            commits@.len() > 0 ==> commits@[0]@ == head_sha@,
            commits@.len() > 0 ==> parent_step(first_parent, commits@[commits@.len() - 1]@, Some(current@)),
            forall|i: int| 0 <= i < commits@.len() - 1 ==> parent_step(first_parent, (#[trigger] commits@[i])@, Some(commits@[i + 1]@)),
            forall|i: int| 0 <= i < commits@.len() ==> (#[trigger] commits@[i])@ != origin_base@,
        ensures
            current@ == origin_base@,
            commits@.len() >= 1,
            commits@.len() <= 10000,
            commits@[0]@ == head_sha@,
            parent_step(first_parent, commits@[commits@.len() - 1]@, Some(current@)),
            forall|i: int| 0 <= i < commits@.len() - 1 ==> parent_step(first_parent, (#[trigger] commits@[i])@, Some(commits@[i + 1]@)),
            forall|i: int| 0 <= i < commits@.len() ==> (#[trigger] commits@[i])@ != origin_base@,
        decreases 10001 - commits@.len(),
    {
        if crate::str_map::str_eq(current.as_str(), origin_base) {
            break;
        }
        let cur: &str = current.as_str();
        let parent = first_parent(cur);
        let ghost before = commits@;
        commits.push(current.clone());
        match parent {
            Some(p) => {
                assert(parent_step(first_parent, commits@[commits@.len() - 1]@, Some(p@))) by {
                    assert(cur@ == commits@[commits@.len() - 1]@);
                    assert(call_ensures(first_parent, (cur,), Some(p)));
                }
                assert forall|i: int| 0 <= i < commits@.len() - 1 implies parent_step(first_parent, (#[trigger] commits@[i])@, Some(commits@[i + 1]@)) by {
                    if i < before.len() - 1 {
                        assert(commits@[i] == before[i] && commits@[i + 1] == before[i + 1]);
                    } else {
                        assert(commits@[i] == before[i]);
                    }
                }
                current = p;
            },
            None => {
                proof {
                    let cs = commits@.map_values(|c: String| c@);
                    assert(cur@ == cs.last());
                    assert(call_ensures(first_parent, (cur,), None::<String>));
                    assert(parent_step(first_parent, cs.last(), None));
                    assert forall|i: int| 0 <= i < cs.len() - 1 implies parent_step(first_parent, #[trigger] cs[i], Some(cs[i + 1])) by {
                        assert(cs[i] == before[i]@ && cs[i + 1] == commits@[i + 1]@);
                        if i < before.len() - 1 {
                            assert(commits@[i + 1] == before[i + 1]);
                        }
                    }
                    assert forall|i: int| 0 <= i < cs.len() implies #[trigger] cs[i] != origin_base@ by {
                        assert(cs[i] == commits@[i]@);
                    }
                    assert(first_parent_walk(first_parent, head_sha@, origin_base@, cs));
                }
                return Err(LineageError::NoPath);
            },
        }
        if commits.len() > 10000 {
            proof {
                let cs = commits@.map_values(|c: String| c@);
                assert forall|i: int| 0 <= i < cs.len() - 1 implies parent_step(first_parent, #[trigger] cs[i], Some(cs[i + 1])) by {
                    assert(cs[i] == commits@[i]@ && cs[i + 1] == commits@[i + 1]@);
                }
                assert forall|i: int| 0 <= i < cs.len() implies #[trigger] cs[i] != origin_base@ by {
                    assert(cs[i] == commits@[i]@);
                }
                assert(first_parent_walk(first_parent, head_sha@, origin_base@, cs));
            }
            return Err(LineageError::PathTooLong);
        }
    }
    let mut r: Vec<String> = Vec::new();
    let n = commits.len();
    let mut k: usize = 0;
    while k < n
        invariant
            0 <= k <= n,
            n == commits@.len(),
            r@.len() == k,
            forall|i: int| 0 <= i < k ==> (#[trigger] r@[i])@ == commits@[n - 1 - i]@,
        decreases n - k,
    {
        r.push(commits[n - 1 - k].clone());
        k = k + 1;
    }
    proof {
        assert(r@[0]@ == commits@[n - 1]@);
        assert(r@[n - 1]@ == commits@[0]@);
        assert forall|i: int| 0 <= i < r@.len() - 1 implies parent_step(first_parent, (#[trigger] r@[i + 1])@, Some(r@[i]@)) by {
            assert(r@[i + 1]@ == commits@[n - 2 - i]@);
            assert(r@[i]@ == commits@[n - 1 - i]@);
            assert(commits@[n - 2 - i + 1] == commits@[n - 1 - i]);
        }
        assert forall|i: int| 0 <= i < r@.len() implies (#[trigger] r@[i])@ != origin_base@ by {
            assert(r@[i]@ == commits@[n - 1 - i]@);
        }
    }
    Ok(r)
}

/// `parent` is what `first_parent` answers: each call on a commit gives
/// `parent` of it.
pub open spec fn answers_as<F: Fn(&str) -> Option<String>>(
    first_parent: F,
    parent: spec_fn(Seq<char>) -> Option<Seq<char>>,
) -> bool {
    forall|s: &str, p: Option<String>|
        #[trigger] call_ensures(first_parent, (s,), p) ==> crate::git_sync::opt_view(p) == parent(s@)
}

/// The commit `n` first-parent steps back from `head` (`None` once the
/// history has ended).
pub open spec fn nth_first_parent(
    parent: spec_fn(Seq<char>) -> Option<Seq<char>>,
    head: Seq<char>,
    n: nat,
) -> Option<Seq<char>>
    decreases n,
{
    if n == 0 {
        Some(head)
    } else {
        match nth_first_parent(parent, head, (n - 1) as nat) {
            Some(c) => parent(c),
            None => None,
        }
    }
}

/// The first-parent walk from `head` reaches `base` at step `k`, and not
/// before.
pub open spec fn reaches_at(
    parent: spec_fn(Seq<char>) -> Option<Seq<char>>,
    head: Seq<char>,
    base: Seq<char>,
    k: nat,
) -> bool {
    &&& nth_first_parent(parent, head, k) == Some(base)
    &&& forall|j: nat| j < k ==> #[trigger] nth_first_parent(parent, head, j) != Some(base)
}

/// Once the history has ended, the walk stays ended.
proof fn lemma_walk_ended(parent: spec_fn(Seq<char>) -> Option<Seq<char>>, head: Seq<char>, a: nat, b: nat)
    requires
        a <= b,
        nth_first_parent(parent, head, a) is None,
    ensures
        nth_first_parent(parent, head, b) is None,
    decreases b - a,
{
    if a < b {
        lemma_walk_ended(parent, head, a, (b - 1) as nat);
    }
}

/// A walk of steps `first_parent` answered is the walk of `parent`.
proof fn lemma_walk_is_nth<F: Fn(&str) -> Option<String>>(
    first_parent: F,
    parent: spec_fn(Seq<char>) -> Option<Seq<char>>,
    head: Seq<char>,
    cs: Seq<Seq<char>>,
    j: nat,
)
    requires
        answers_as(first_parent, parent),
        cs.len() >= 1,
        cs[0] == head,
        forall|i: int| 0 <= i < cs.len() - 1 ==> parent_step(first_parent, #[trigger] cs[i], Some(cs[i + 1])),
        j < cs.len(),
    ensures
        nth_first_parent(parent, head, j) == Some(cs[j as int]),
    decreases j,
{
    if j > 0 {
        lemma_walk_is_nth(first_parent, parent, head, cs, (j - 1) as nat);
        lemma_step_is_parent(first_parent, parent, cs[j - 1], Some(cs[j as int]));
    }
}

/// A step `first_parent` answered is a step of `parent`.
proof fn lemma_step_is_parent<F: Fn(&str) -> Option<String>>(
    first_parent: F,
    parent: spec_fn(Seq<char>) -> Option<Seq<char>>,
    child: Seq<char>,
    p: Option<Seq<char>>,
)
    requires
        answers_as(first_parent, parent),
        parent_step(first_parent, child, p),
    ensures
        parent(child) == p,
{
    let (s, q) = choose|s: &str, q: Option<String>|
        s@ == child && call_ensures(first_parent, (s,), q) && crate::git_sync::opt_view(q) == p;
    assert(call_ensures(first_parent, (s,), q));
}

/// The commits from just after `origin_base` up to `head_sha`, oldest first,
/// found by following first parents from the head (`first_parent` gives a
/// commit's first parent, `None` at the start of history). Errors: the
/// history ends first, more than 10000 commits, or the head is the base.
/// Where `first_parent` answers as a function `parent` does, the path is
/// found exactly when the walk from the head reaches the base within 10000
/// steps, and it is that walk, reversed.
pub fn build_commit_path_to_base<F: Fn(&str) -> Option<String>>(
    head_sha: &str,
    origin_base: &str,
    first_parent: F,
) -> (r: Result<Vec<String>, LineageError>)
    requires
        forall|s: &str| call_requires(first_parent, (s,)),
    ensures
        (head_sha@ == origin_base@) <==> r == Err::<Vec<String>, LineageError>(LineageError::SameCommit),
        r matches Ok(v) ==> {
            &&& 1 <= v@.len() <= 10000
            &&& v@[v@.len() - 1]@ == head_sha@
            &&& parent_step(first_parent, v@[0]@, Some(origin_base@))
            &&& forall|i: int| 0 <= i < v@.len() - 1 ==> parent_step(first_parent, (#[trigger] v@[i + 1])@, Some(v@[i]@))
            &&& forall|i: int| 0 <= i < v@.len() ==> (#[trigger] v@[i])@ != origin_base@
        },
        r == Err::<Vec<String>, LineageError>(LineageError::NoPath) ==> exists|cs: Seq<Seq<char>>|
            first_parent_walk(first_parent, head_sha@, origin_base@, cs) && cs.len() <= 10001
                && parent_step(first_parent, cs.last(), None),
        r == Err::<Vec<String>, LineageError>(LineageError::PathTooLong) ==> exists|cs: Seq<Seq<char>>|
            first_parent_walk(first_parent, head_sha@, origin_base@, cs) && cs.len() == 10001,
        forall|parent: spec_fn(Seq<char>) -> Option<Seq<char>>|
            #[trigger] answers_as(first_parent, parent) ==> {
                &&& (r is Ok <==> exists|k: nat| 1 <= k <= 10000 && reaches_at(parent, head_sha@, origin_base@, k))
                &&& r matches Ok(v) ==> reaches_at(parent, head_sha@, origin_base@, v@.len())
                    && forall|i: int| 0 <= i < v@.len() ==> nth_first_parent(parent, head_sha@, (v@.len() - 1 - i) as nat)
                        == Some((#[trigger] v@[i])@)
            },
{
    let r = walk_to_base(head_sha, origin_base, first_parent);
    proof {
        let head = head_sha@;
        let base = origin_base@;
        assert forall|parent: spec_fn(Seq<char>) -> Option<Seq<char>>|
            #[trigger] answers_as(first_parent, parent) implies {
                &&& (r is Ok <==> exists|k: nat| 1 <= k <= 10000 && reaches_at(parent, head, base, k))
                &&& r matches Ok(v) ==> reaches_at(parent, head, base, v@.len())
                    && forall|i: int| 0 <= i < v@.len() ==> nth_first_parent(parent, head, (v@.len() - 1 - i) as nat)
                        == Some((#[trigger] v@[i])@)
            } by {
            match r {
                Ok(v) => {
                    let n = v@.len();
                    let cs = Seq::new(n, |j: int| v@[n - 1 - j]@);
                    assert forall|i: int| 0 <= i < cs.len() - 1 implies parent_step(first_parent, #[trigger] cs[i], Some(cs[i + 1])) by {
                        assert(v@[n - 2 - i + 1] == v@[n - 1 - i]);
                    }
                    assert forall|j: nat| j < n implies #[trigger] nth_first_parent(parent, head, j) == Some(cs[j as int]) by {
                        lemma_walk_is_nth(first_parent, parent, head, cs, j);
                    }
                    lemma_walk_is_nth(first_parent, parent, head, cs, (n - 1) as nat);
                    lemma_step_is_parent(first_parent, parent, v@[0]@, Some(base));
                    assert(nth_first_parent(parent, head, n) == Some(base));
                    assert forall|j: nat| j < n implies #[trigger] nth_first_parent(parent, head, j) != Some(base) by {
                        assert(cs[j as int] == v@[n - 1 - j]@);
                    }
                    assert(reaches_at(parent, head, base, n));
                    assert forall|i: int| 0 <= i < v@.len() implies nth_first_parent(parent, head, (v@.len() - 1 - i) as nat)
                        == Some((#[trigger] v@[i])@) by {
                        let j = (n - 1 - i) as nat;
                        assert(nth_first_parent(parent, head, j) == Some(cs[j as int]));
                    }
                },
                Err(e) => {
                    if exists|k: nat| 1 <= k <= 10000 && reaches_at(parent, head, base, k) {
                        let k = choose|k: nat| 1 <= k <= 10000 && reaches_at(parent, head, base, k);
                        assert(nth_first_parent(parent, head, 0) != Some(base));
                        match e {
                            LineageError::SameCommit => {},
                            LineageError::NoPath => {
                                let cs = choose|cs: Seq<Seq<char>>|
                                    first_parent_walk(first_parent, head, base, cs) && cs.len() <= 10001
                                        && parent_step(first_parent, cs.last(), None);
                                let l = cs.len();
                                if k < l {
                                    lemma_walk_is_nth(first_parent, parent, head, cs, k);
                                    assert(cs[k as int] != base);
                                } else {
                                    lemma_walk_is_nth(first_parent, parent, head, cs, (l - 1) as nat);
                                    lemma_step_is_parent(first_parent, parent, cs.last(), None);
                                    assert(nth_first_parent(parent, head, l as nat) is None);
                                    lemma_walk_ended(parent, head, l as nat, k);
                                }
                            },
                            LineageError::PathTooLong => {
                                let cs = choose|cs: Seq<Seq<char>>|
                                    first_parent_walk(first_parent, head, base, cs) && cs.len() == 10001;
                                lemma_walk_is_nth(first_parent, parent, head, cs, k);
                                assert(cs[k as int] != base);
                            },
                        }
                    }
                },
            }
        }
    }
    r
}

/// For each inserted line in turn, the 1-based number of the first line of
/// the older version equal to it that no earlier inserted line took (`None`
/// when there is none); `used` are the numbers taken before.
pub open spec fn match_lines_spec(
    older: Seq<Seq<char>>,
    inserted: Seq<Seq<char>>,
) -> Seq<Option<u32>>
    decreases inserted.len(),
{
    if inserted.len() == 0 {
        seq![]
    } else {
        let prev = match_lines_spec(older, inserted.drop_last());
        prev.push(first_free_match(older, inserted.last(), prev))
    }
}

/// The 1-based number of the first line of `older` equal to `line` and not
/// among the numbers `taken`.
pub open spec fn first_free_match(older: Seq<Seq<char>>, line: Seq<char>, taken: Seq<Option<u32>>) -> Option<u32> {
    if exists|i: int| 0 <= i < older.len() && older[i] == line && !taken.contains(Some((i + 1) as u32)) {
        let i = choose|i: int|
            0 <= i < older.len() && older[i] == line && !taken.contains(Some((i + 1) as u32)) && forall|j: int|
                0 <= j < i ==> !(older[j] == line && !taken.contains(Some((j + 1) as u32)));
        Some((i + 1) as u32)
    } else {
        None
    }
}

/// Matches inserted lines to lines of an older version of the file (see
/// `match_lines_spec`), each older line taken at most once.
pub fn match_inserted_lines(older: &[String], inserted: &[String]) -> (r: Vec<Option<u32>>)
    requires
        older@.len() < u32::MAX,
    ensures
        r@ == match_lines_spec(strs_view(older@), strs_view(inserted@)),
{
    let ghost ov = strs_view(older@);
    let ghost iv = strs_view(inserted@);
    let mut r: Vec<Option<u32>> = Vec::new();
    let mut taken: Vec<bool> = Vec::new();
    let mut q: usize = 0;
    while q < older.len()
        invariant
            0 <= q <= older@.len(),
            taken@.len() == q,
            forall|k: int| 0 <= k < q ==> !taken@[k],
        decreases older@.len() - q,
    {
        taken.push(false);
        q = q + 1;
    }
    let mut i: usize = 0;
    assert(iv.take(0) =~= Seq::<Seq<char>>::empty());
    while i < inserted.len()
        invariant
            0 <= i <= inserted@.len(),
            older@.len() < u32::MAX,
            ov == strs_view(older@),
            iv == strs_view(inserted@),
            taken@.len() == older@.len(),
            r@ == match_lines_spec(ov, iv.take(i as int)),
            forall|k: int| 0 <= k < older@.len() ==> (#[trigger] taken@[k] <==> r@.contains(Some((k + 1) as u32))),
        decreases inserted@.len() - i,
    {
        let line = &inserted[i];
        assert(iv.take(i + 1).drop_last() =~= iv.take(i as int));
        assert(iv.take(i + 1).last() == line@);
        let mut j: usize = 0;
        let mut found: Option<usize> = None;
        while j < older.len()
            invariant_except_break
                found is None,
            invariant
                0 <= j <= older@.len(),
                older@.len() < u32::MAX,
                ov == strs_view(older@),
                taken@.len() == older@.len(),
                forall|k: int| 0 <= k < j ==> !(ov[k] == line@ && !taken@[k]),
            ensures
                match found {
                    Some(x) => x < older@.len() && ov[x as int] == line@ && !taken@[x as int] && forall|k: int|
                        0 <= k < x ==> !(ov[k] == line@ && !taken@[k]),
                    None => forall|k: int| 0 <= k < older@.len() ==> !(ov[k] == line@ && !taken@[k]),
                },
            decreases older@.len() - j,
        {
            assert(ov[j as int] == older@[j as int]@);
            if !taken[j] && crate::str_map::str_eq(older[j].as_str(), line.as_str()) {
                found = Some(j);
                break;
            }
            j = j + 1;
        }
        let ghost prev = r@;
        match found {
            Some(x) => {
                proof {
                    assert forall|k: int| 0 <= k < older@.len() implies (taken@[k] <==> prev.contains(Some((k + 1) as u32))) by {}
                    let w = x as int;
                    assert(ov[w] == line@ && !prev.contains(Some((w + 1) as u32)));
                    let c = choose|c: int|
                        0 <= c < ov.len() && ov[c] == line@ && !prev.contains(Some((c + 1) as u32)) && forall|jj: int|
                            0 <= jj < c ==> !(ov[jj] == line@ && !prev.contains(Some((jj + 1) as u32)));
                    assert(c == w) by {
                        if c < w {
                            assert(!(ov[c] == line@ && !taken@[c]));
                        } else if c > w {
                            assert(!(ov[w] == line@ && !prev.contains(Some((w + 1) as u32))));
                        }
                    }
                }
                let n: u32 = (x + 1) as u32;
                r.push(Some(n));
                taken.set(x, true);
                proof {
                    assert forall|k: int| 0 <= k < older@.len() implies (#[trigger] taken@[k] <==> r@.contains(Some((k + 1) as u32))) by {
                        if r@.contains(Some((k + 1) as u32)) && k != x {
                            let p = choose|p: int| 0 <= p < r@.len() && r@[p] == Some((k + 1) as u32);
                            if p < prev.len() {
                                assert(prev.contains(Some((k + 1) as u32)));
                            }
                        }
                        if k == x {
                            assert(r@[prev.len() as int] == Some((k + 1) as u32));
                        }
                        if k != x && prev.contains(Some((k + 1) as u32)) {
                            let p = choose|p: int| 0 <= p < prev.len() && prev[p] == Some((k + 1) as u32);
                            assert(r@[p] == prev[p]);
                        }
                    }
                }
            },
            None => {
                proof {
                    assert(!exists|c: int| 0 <= c < ov.len() && ov[c] == line@ && !prev.contains(Some((c + 1) as u32))) by {
                        if exists|c: int| 0 <= c < ov.len() && ov[c] == line@ && !prev.contains(Some((c + 1) as u32)) {
                            let c = choose|c: int| 0 <= c < ov.len() && ov[c] == line@ && !prev.contains(Some((c + 1) as u32));
                            assert(!(ov[c] == line@ && !taken@[c]));
                        }
                    }
                }
                r.push(None);
                proof {
                    assert forall|k: int| 0 <= k < older@.len() implies (#[trigger] taken@[k] <==> r@.contains(Some((k + 1) as u32))) by {
                        if r@.contains(Some((k + 1) as u32)) {
                            let p = choose|p: int| 0 <= p < r@.len() && r@[p] == Some((k + 1) as u32);
                            if p < prev.len() {
                                assert(prev.contains(Some((k + 1) as u32)));
                            }
                        }
                        if prev.contains(Some((k + 1) as u32)) {
                            let p = choose|p: int| 0 <= p < prev.len() && prev[p] == Some((k + 1) as u32);
                            assert(r@[p] == prev[p]);
                        }
                    }
                }
            },
        }
        i = i + 1;
    }
    assert(iv.take(i as int) =~= iv);
    r
}

/// What `git-ai squash-authorship` is asked to do.
#[derive(Debug, PartialEq, Eq)]
pub struct SquashArgs {
    pub branch: String,
    pub new_sha: String,
    pub old_sha: String,
    pub dry_run: bool,
}

/// Why the arguments of `git-ai squash-authorship` are refused.
#[derive(Debug, PartialEq, Eq)]
pub enum SquashArgsError {
    /// A fourth positional argument.
    UnknownArgument(String),
    MissingBranch,
    MissingNewSha,
    MissingOldSha,
}

/// The positional arguments: all but `--dry-run`, in order.
pub open spec fn squash_positionals(args: Seq<Seq<char>>) -> Seq<Seq<char>>
    decreases args.len(),
{
    if args.len() == 0 {
        Seq::empty()
    } else {
        let rest = squash_positionals(args.drop_last());
        if args.last() == "--dry-run"@ {
            rest
        } else {
            rest.push(args.last())
        }
    }
}

/// Reads the arguments of `git-ai squash-authorship`: the branch, the new
/// and the old commit, in that order, and whether `--dry-run` is among them.
/// Refused at a fourth positional argument, else when one of the three is
/// missing (the first missing one is named).
pub fn parse_squash_args(args: &[String]) -> (r: Result<SquashArgs, SquashArgsError>)
    ensures
        ({
            let p = squash_positionals(strs_view(args@));
            match r {
                Ok(a) => p.len() == 3 && a.branch@ == p[0] && a.new_sha@ == p[1] && a.old_sha@ == p[2]
                    && a.dry_run == strs_view(args@).contains("--dry-run"@),
                Err(SquashArgsError::UnknownArgument(x)) => p.len() > 3 && x@ == p[3],
                Err(SquashArgsError::MissingBranch) => p.len() == 0,
                Err(SquashArgsError::MissingNewSha) => p.len() == 1,
                Err(SquashArgsError::MissingOldSha) => p.len() == 2,
            }
        }),
{
    let ghost av = strs_view(args@);
    let mut pos: Vec<String> = Vec::new();
    let mut dry_run = false;
    let mut i: usize = 0;
    assert(av.take(0) =~= Seq::<Seq<char>>::empty());
    while i < args.len()
        invariant
            0 <= i <= args@.len(),
            av == strs_view(args@),
            pos@.len() <= 3,
            strs_view(pos@) == squash_positionals(av.take(i as int)),
            dry_run == av.take(i as int).contains("--dry-run"@),
        decreases args@.len() - i,
    {
        let ghost t = av.take(i + 1);
        assert(t.drop_last() =~= av.take(i as int));
        assert(t.last() == args@[i as int]@);
        if crate::str_map::str_eq(args[i].as_str(), "--dry-run") {
            dry_run = true;
            assert(t.contains("--dry-run"@)) by {
                assert(t[i as int] == "--dry-run"@);
            }
        } else {
            if pos.len() == 3 {
                let ghost p3 = squash_positionals(t);
                assert(p3 == strs_view(pos@).push(args@[i as int]@));
                proof {
                    lemma_squash_positionals_prefix(av, i + 1);
                }
                assert(strs_view(pos@).push(args@[i as int]@)[3] == args@[i as int]@);
                return Err(SquashArgsError::UnknownArgument(args[i].clone()));
            }
            let ghost before = strs_view(pos@);
            pos.push(args[i].clone());
            assert(strs_view(pos@) =~= before.push(args@[i as int]@));
            assert(t.contains("--dry-run"@) == av.take(i as int).contains("--dry-run"@)) by {
                if t.contains("--dry-run"@) {
                    let k = choose|k: int| 0 <= k < t.len() && t[k] == "--dry-run"@;
                    if k < i {
                        assert(av.take(i as int)[k] == "--dry-run"@);
                    }
                }
                if av.take(i as int).contains("--dry-run"@) {
                    let k = choose|k: int| 0 <= k < av.take(i as int).len() && av.take(i as int)[k] == "--dry-run"@;
                    assert(t[k] == "--dry-run"@);
                }
            }
        }
        if dry_run {
            assert(t.contains("--dry-run"@)) by {
                if !(args@[i as int]@ == "--dry-run"@) {
                    let k = choose|k: int| 0 <= k < av.take(i as int).len() && av.take(i as int)[k] == "--dry-run"@;
                    assert(t[k] == "--dry-run"@);
                }
            }
        }
        i = i + 1;
    }
    assert(av.take(i as int) =~= av);
    if pos.len() == 0 {
        return Err(SquashArgsError::MissingBranch);
    }
    if pos.len() == 1 {
        return Err(SquashArgsError::MissingNewSha);
    }
    if pos.len() == 2 {
        return Err(SquashArgsError::MissingOldSha);
    }
    assert(strs_view(pos@)[0] == pos@[0]@);
    assert(strs_view(pos@)[1] == pos@[1]@);
    assert(strs_view(pos@)[2] == pos@[2]@);
    Ok(SquashArgs { branch: pos[0].clone(), new_sha: pos[1].clone(), old_sha: pos[2].clone(), dry_run })
}

/// The positional arguments of a longer list start with those of a shorter
/// one.
proof fn lemma_squash_positionals_prefix(av: Seq<Seq<char>>, n: int)
    requires
        0 <= n <= av.len(),
    ensures
        squash_positionals(av).len() >= squash_positionals(av.take(n)).len(),
        forall|k: int|
            0 <= k < squash_positionals(av.take(n)).len() ==> #[trigger] squash_positionals(av)[k]
                == squash_positionals(av.take(n))[k],
    decreases av.len() - n,
{
    if n < av.len() {
        lemma_squash_positionals_prefix(av, n + 1);
        assert(av.take(n + 1).drop_last() =~= av.take(n));
    } else {
        assert(av.take(n) =~= av);
    }
}

} // verus!
