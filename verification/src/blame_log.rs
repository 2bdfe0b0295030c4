//! The authorship log of a rewritten commit, rebuilt from its lines that blame
//! traced back to AI sessions.
use vstd::prelude::*;
use crate::authorship_log::PromptRecord;
use crate::authorship_log_v3::{
    AUTHORSHIP_LOG_V3_VERSION, AttestationEntry, AuthorshipLogV3, AuthorshipMetadata, FileAttestation,
    FileAttestationView, files_views,
};
use crate::line_range::{LineRange, compress_spec, lemma_compress_covers, seq_lines};
use crate::git_sync::strs_view;
use crate::reflog::is_listed;
use crate::str_map::{CopyView, StrMap, lookup, lemma_lookup, lemma_lookup_update, str_eq};

verus! {

/// Line numbers in order, duplicates kept.
pub open spec fn nondecreasing(s: Seq<u32>) -> bool {
    forall|i: int, j: int| 0 <= i <= j < s.len() ==> s[i] <= s[j]
}

/// Sorts line numbers, keeping duplicates.
pub fn sort_lines(v: &Vec<u32>) -> (r: Vec<u32>)
    ensures
        nondecreasing(r@),
        r@.to_multiset() == v@.to_multiset(),
{
    broadcast use vstd::seq_lib::to_multiset_build, vstd::seq_lib::to_multiset_insert;

    let mut r: Vec<u32> = Vec::new();
    let mut i: usize = 0;
    assert(v@.take(0) =~= Seq::<u32>::empty());
    while i < v.len()
        invariant
            0 <= i <= v@.len(),
            nondecreasing(r@),
            r@.to_multiset() == v@.take(i as int).to_multiset(),
        decreases v@.len() - i,
    {
        let x = v[i];
        let mut p: usize = 0;
        while p < r.len() && r[p] <= x
            invariant
                0 <= p <= r@.len(),
                forall|k: int| 0 <= k < p ==> r@[k] <= x,
            decreases r@.len() - p,
        {
            p = p + 1;
        }
        let ghost before = r@;
        r.insert(p, x);
        assert(r@ == before.insert(p as int, x));
        assert forall|a: int, b: int| 0 <= a <= b < r@.len() implies r@[a] <= r@[b] by {
            if b < p {
                assert(r@[a] == before[a] && r@[b] == before[b]);
            } else if b == p {
                if a < p {
                    assert(r@[a] == before[a]);
                }
            } else if a > p {
                assert(r@[a] == before[a - 1] && r@[b] == before[b - 1]);
            } else if a == p {
                assert(before[b - 1] > x);
            } else {
                assert(r@[a] == before[a] && r@[b] == before[b - 1]);
            }
        }
        assert(v@.take(i + 1) =~= v@.take(i as int).push(x));
        proof {
            vstd::seq_lib::to_multiset_insert(before, p as int, x);
            vstd::seq_lib::to_multiset_build(v@.take(i as int), x);
        }
        i = i + 1;
    }
    assert(v@.take(i as int) =~= v@);
    r
}

/// What a blamed line is: its file, its line number, and the prompt session
/// of the AI that wrote it, when one did.
pub type BlamedView = (Seq<char>, u32, Option<<PromptRecord as View>::V>);

/// The views of blamed lines.
pub open spec fn blamed_view(b: Seq<(String, u32, Option<PromptRecord>)>) -> Seq<BlamedView> {
    b.map_values(
        |e: (String, u32, Option<PromptRecord>)|
            (
                e.0@,
                e.1,
                match e.2 {
                    Some(p) => Some(p@),
                    None => None,
                },
            ),
    )
}

/// The session id of a prompt record's view.
pub open spec fn session_of(p: <PromptRecord as View>::V) -> Seq<char> {
    p.0.1
}

/// The files that have a line an AI wrote, in the order they first come.
pub open spec fn ai_files(b: Seq<BlamedView>) -> Seq<Seq<char>>
    decreases b.len(),
{
    if b.len() == 0 {
        Seq::empty()
    } else {
        let acc = ai_files(b.drop_last());
        if b.last().2 is Some && !acc.contains(b.last().0) {
            acc.push(b.last().0)
        } else {
            acc
        }
    }
}

/// The line numbers of file `f` that session `s` wrote, in order.
pub open spec fn session_lines(b: Seq<BlamedView>, f: Seq<char>, s: Seq<char>) -> Seq<u32>
    decreases b.len(),
{
    if b.len() == 0 {
        Seq::empty()
    } else {
        let acc = session_lines(b.drop_last(), f, s);
        let e = b.last();
        if e.0 == f && e.2 is Some && session_of(e.2->0) == s {
            acc.push(e.1)
        } else {
            acc
        }
    }
}

/// The prompt record of the last line that session `s` wrote.
pub open spec fn last_prompt(b: Seq<BlamedView>, s: Seq<char>) -> Option<<PromptRecord as View>::V>
    decreases b.len(),
{
    if b.len() == 0 {
        None
    } else {
        let e = b.last();
        if e.2 is Some && session_of(e.2->0) == s {
            e.2
        } else {
            last_prompt(b.drop_last(), s)
        }
    }
}

/// The prompt record of session `s` in the rebuilt log: that of its last
/// line, with the number of lines the session wrote as its accepted lines.
pub open spec fn accepted_prompt(b: Seq<BlamedView>, s: Seq<char>) -> Option<<PromptRecord as View>::V> {
    match last_prompt(b, s) {
        Some(v) => Some((v.0, v.1, session_count(b, s) as u32)),
        None => None,
    }
}

/// The number of lines that session `s` wrote.
pub open spec fn session_count(b: Seq<BlamedView>, s: Seq<char>) -> nat
    decreases b.len(),
{
    if b.len() == 0 {
        0
    } else {
        let e = b.last();
        session_count(b.drop_last(), s) + if e.2 is Some && session_of(e.2->0) == s {
            1nat
        } else {
            0nat
        }
    }
}

/// `rs` are the runs of the line numbers `lines` once sorted.
pub open spec fn runs_of_sorted(rs: Seq<LineRange>, lines: Seq<u32>) -> bool {
    exists|t: Seq<u32>| nondecreasing(t) && t.to_multiset() == lines.to_multiset() && rs == compress_spec(t)
}

/// A file's attestation as rebuilt: one entry per session that wrote lines of
/// the file, in increasing order of session id, each with the runs of that
/// session's lines once sorted.
pub open spec fn rebuilt_file(fa: FileAttestationView, b: Seq<BlamedView>) -> bool {
    &&& forall|i: int, j: int|
        0 <= i < j < fa.1.len() ==> crate::str_map::seq_lt(#[trigger] fa.1[i].0, #[trigger] fa.1[j].0)
    &&& forall|s: Seq<char>|
        #![trigger session_lines(b, fa.0, s)]
        (exists|j: int| 0 <= j < fa.1.len() && fa.1[j].0 == s) <==> session_lines(b, fa.0, s).len() > 0
    &&& forall|j: int| 0 <= j < fa.1.len() ==> runs_of_sorted(#[trigger] fa.1[j].1, session_lines(b, fa.0, fa.1[j].0))
}

/// The files that have a line an AI wrote, in the order they first come (see
/// `ai_files`).
fn ai_file_list(blamed: &[(String, u32, Option<PromptRecord>)]) -> (r: Vec<String>)
    ensures
        strs_view(r@) == ai_files(blamed_view(blamed@)),
{
    let ghost bv = blamed_view(blamed@);
    let mut files: Vec<String> = Vec::new();
    let mut k: usize = 0;
    assert(bv.take(0) =~= Seq::<BlamedView>::empty());
    while k < blamed.len()
        invariant
            0 <= k <= blamed@.len(),
            bv == blamed_view(blamed@),
            strs_view(files@) == ai_files(bv.take(k as int)),
        decreases blamed@.len() - k,
    {
        assert(bv.take(k + 1).drop_last() =~= bv.take(k as int));
        assert(bv.take(k + 1).last() == bv[k as int]);
        if blamed[k].2.is_some() && !is_listed(files.as_slice(), blamed[k].0.as_str()) {
            let ghost before = strs_view(files@);
            files.push(blamed[k].0.clone());
            assert(strs_view(files@) =~= before.push(blamed@[k as int].0@));
        }
        k = k + 1;
    }
    assert(bv.take(k as int) =~= bv);
    files
}

/// The lines of file `f` grouped by the session that wrote them, in order
/// (see `session_lines`); a session with no line of `f` has no entry.
fn session_groups(blamed: &[(String, u32, Option<PromptRecord>)], f: &String) -> (r: StrMap<Vec<u32>>)
    ensures
        r.wf(),
        forall|s: Seq<char>|
            #![trigger session_lines(blamed_view(blamed@), f@, s)]
            match lookup(r@, s) {
                Some(v) => v@ == session_lines(blamed_view(blamed@), f@, s) && v@.len() > 0,
                None => session_lines(blamed_view(blamed@), f@, s).len() == 0,
            },
{
    let ghost bv = blamed_view(blamed@);
    let mut m: StrMap<Vec<u32>> = StrMap::new();
    let mut k: usize = 0;
    assert(bv.take(0) =~= Seq::<BlamedView>::empty());
    while k < blamed.len()
        invariant
            0 <= k <= blamed@.len(),
            bv == blamed_view(blamed@),
            m.wf(),
            forall|s: Seq<char>|
                #![trigger session_lines(bv.take(k as int), f@, s)]
                match lookup(m@, s) {
                    Some(v) => v@ == session_lines(bv.take(k as int), f@, s) && v@.len() > 0,
                    None => session_lines(bv.take(k as int), f@, s).len() == 0,
                },
        decreases blamed@.len() - k,
    {
        let ghost t = bv.take(k + 1);
        assert(t.drop_last() =~= bv.take(k as int));
        assert(t.last() == bv[k as int]);
        if str_eq(blamed[k].0.as_str(), f.as_str()) {
            match &blamed[k].2 {
                Some(p) => {
                    let sid = &p.agent_id.id;
                    let line = blamed[k].1;
                    assert(session_of(p@) == sid@);
                    assert(m.wf());
                    let ghost old_m = m@;
                    proof {
                        lemma_lookup(old_m, sid@);
                    }
                    match m.index_of(sid.as_str()) {
                        Some(i) => {
                            proof {
                                lemma_lookup_update(old_m, i as int);
                            }
                            let mut v = m.swap_value_at(i, Vec::new());
                            let ghost ov = v@;
                            v.push(line);
                            let _ = m.swap_value_at(i, v);
                            assert(m@ == old_m.update(i as int, (old_m[i as int].0, v)));
                            assert forall|s: Seq<char>|
                                #![trigger session_lines(t, f@, s)]
                                match lookup(m@, s) {
                                    Some(w) => w@ == session_lines(t, f@, s) && w@.len() > 0,
                                    None => session_lines(t, f@, s).len() == 0,
                                } by {
                                assert(session_lines(t, f@, s) == if s == sid@ {
                                    session_lines(bv.take(k as int), f@, s).push(line)
                                } else {
                                    session_lines(bv.take(k as int), f@, s)
                                });
                                if s != sid@ {
                                    assert(session_lines(bv.take(k as int), f@, s) == session_lines(
                                        bv.take(k as int),
                                        f@,
                                        s,
                                    ));
                                } else {
                                    assert(session_lines(bv.take(k as int), f@, sid@) == session_lines(
                                        bv.take(k as int),
                                        f@,
                                        sid@,
                                    ));
                                }
                            }
                        },
                        None => {
                            assert(session_lines(bv.take(k as int), f@, sid@).len() == 0);
                            m.insert(sid.clone(), vec![line]);
                            assert forall|s: Seq<char>|
                                #![trigger session_lines(t, f@, s)]
                                match lookup(m@, s) {
                                    Some(w) => w@ == session_lines(t, f@, s) && w@.len() > 0,
                                    None => session_lines(t, f@, s).len() == 0,
                                } by {
                                if s == sid@ {
                                    assert(session_lines(bv.take(k as int), f@, sid@).len() == 0);
                                    assert(session_lines(t, f@, s) =~= seq![line]);
                                } else {
                                    assert(session_lines(bv.take(k as int), f@, s) == session_lines(
                                        bv.take(k as int),
                                        f@,
                                        s,
                                    ));
                                }
                            }
                        },
                    }
                },
                None => {
                    assert forall|s: Seq<char>| #![trigger session_lines(t, f@, s)]
                        session_lines(t, f@, s) == session_lines(bv.take(k as int), f@, s) by {}
                },
            }
        } else {
            assert forall|s: Seq<char>| #![trigger session_lines(t, f@, s)]
                session_lines(t, f@, s) == session_lines(bv.take(k as int), f@, s) by {}
        }
        k = k + 1;
    }
    assert(bv.take(k as int) =~= bv);
    m
}

/// A sorted list of line numbers with at most one `u32::MAX` has no
/// `u32::MAX` but last.
proof fn lemma_sorted_max_last(t: Seq<u32>)
    requires
        nondecreasing(t),
        t.to_multiset().count(u32::MAX) <= 1,
    ensures
        forall|i: int| 0 <= i < t.len() - 1 ==> #[trigger] t[i] < u32::MAX,
{
    broadcast use vstd::seq_lib::to_multiset_build, vstd::seq_lib::to_multiset_contains;

    assert forall|i: int| 0 <= i < t.len() - 1 implies #[trigger] t[i] < u32::MAX by {
        if t[i] == u32::MAX {
            let d = t.drop_last();
            assert(t[t.len() - 1] >= t[i]);
            assert(t =~= d.push(t.last()));
            assert(d[i] == u32::MAX);
            assert(d.contains(u32::MAX));
            assert(d.to_multiset().count(u32::MAX) >= 1);
            assert(t.to_multiset() == d.to_multiset().insert(u32::MAX));
        }
    }
}

/// The entries of a file: one per group, in key order, with the runs of the
/// group's lines once sorted.
fn entries_of(groups: &StrMap<Vec<u32>>) -> (r: Vec<AttestationEntry>)
    requires
        forall|j: int|
            0 <= j < groups@.len() ==> (#[trigger] groups@[j]).1@.to_multiset().count(u32::MAX) <= 1,
    ensures
        r@.len() == groups@.len(),
        forall|j: int|
            0 <= j < groups@.len() ==> (#[trigger] r@[j]).hash@ == groups@[j].0 && runs_of_sorted(
                r@[j].line_ranges@,
                groups@[j].1@,
            ),
{
    let mut r: Vec<AttestationEntry> = Vec::new();
    let mut j: usize = 0;
    while j < groups.len()
        invariant
            0 <= j <= groups@.len(),
            r@.len() == j,
            forall|i: int|
                0 <= i < groups@.len() ==> (#[trigger] groups@[i]).1@.to_multiset().count(u32::MAX) <= 1,
            forall|i: int|
                0 <= i < j ==> (#[trigger] r@[i]).hash@ == groups@[i].0 && runs_of_sorted(
                    r@[i].line_ranges@,
                    groups@[i].1@,
                ),
        decreases groups@.len() - j,
    {
        let lines = groups.value_at(j);
        let sorted = sort_lines(lines);
        proof {
            lemma_sorted_max_last(sorted@);
        }
        let ranges = LineRange::compress_lines(sorted.as_slice());
        assert(runs_of_sorted(ranges@, groups@[j as int].1@));
        let e = AttestationEntry::new(groups.key_at(j).clone(), ranges);
        r.push(e);
        j = j + 1;
    }
    r
}

/// A session wrote no more lines than there are.
proof fn lemma_session_count_le(b: Seq<BlamedView>, s: Seq<char>)
    ensures
        session_count(b, s) <= b.len(),
    decreases b.len(),
{
    if b.len() > 0 {
        lemma_session_count_le(b.drop_last(), s);
    }
}

/// The prompt record of each session (that of its last line), and the
/// number of lines each session wrote.
fn prompts_and_counts(blamed: &[(String, u32, Option<PromptRecord>)]) -> (r: (StrMap<PromptRecord>, StrMap<u32>))
    requires
        blamed@.len() <= u32::MAX,
    ensures
        r.0.wf(),
        r.1.wf(),
        forall|s: Seq<char>|
            #![trigger last_prompt(blamed_view(blamed@), s)]
            match lookup(r.0@, s) {
                Some(p) => accepted_prompt(blamed_view(blamed@), s) == Some(p@),
                None => last_prompt(blamed_view(blamed@), s) is None,
            },
        forall|s: Seq<char>|
            #![trigger session_count(blamed_view(blamed@), s)]
            lookup(r.1@, s) == if session_count(blamed_view(blamed@), s) > 0 {
                Some(session_count(blamed_view(blamed@), s) as u32)
            } else {
                None
            },
{
    let ghost bv = blamed_view(blamed@);
    let mut prompts: StrMap<PromptRecord> = StrMap::new();
    let mut counts: StrMap<u32> = StrMap::new();
    let mut k: usize = 0;
    assert(bv.take(0) =~= Seq::<BlamedView>::empty());
    while k < blamed.len()
        invariant
            0 <= k <= blamed@.len(),
            blamed@.len() <= u32::MAX,
            bv == blamed_view(blamed@),
            prompts.wf(),
            counts.wf(),
            forall|s: Seq<char>|
                #![trigger last_prompt(bv.take(k as int), s)]
                match lookup(prompts@, s) {
                    Some(p) => accepted_prompt(bv.take(k as int), s) == Some(p@),
                    None => last_prompt(bv.take(k as int), s) is None,
                },
            forall|s: Seq<char>|
                #![trigger session_count(bv.take(k as int), s)]
                lookup(counts@, s) == if session_count(bv.take(k as int), s) > 0 {
                    Some(session_count(bv.take(k as int), s) as u32)
                } else {
                    None
                },
        decreases blamed@.len() - k,
    {
        let ghost t = bv.take(k + 1);
        assert(t.drop_last() =~= bv.take(k as int));
        assert(t.last() == bv[k as int]);
        match &blamed[k].2 {
            Some(p) => {
                let sid = &p.agent_id.id;
                assert(session_of(p@) == sid@);
                let ghost old_c = counts@;
                proof {
                    lemma_session_count_le(bv.take(k as int), sid@);
                    lemma_lookup(old_c, sid@);
                }
                let n: u32 = match counts.index_of(sid.as_str()) {
                    Some(i) => {
                        let c = *counts.value_at(i);
                        assert(lookup(old_c, sid@) == Some(c));
                        proof {
                            lemma_lookup_update(old_c, i as int);
                        }
                        let _ = counts.swap_value_at(i, c + 1);
                        assert(counts@ == old_c.update(i as int, (old_c[i as int].0, (c + 1) as u32)));
                        c + 1
                    },
                    None => {
                        counts.insert(sid.clone(), 1);
                        1
                    },
                };
                let mut rec = p.copy_view();
                rec.accepted_lines = n;
                prompts.insert(sid.clone(), rec);
                assert forall|s: Seq<char>| #![trigger last_prompt(t, s)]
                    match lookup(prompts@, s) {
                        Some(q) => accepted_prompt(t, s) == Some(q@),
                        None => last_prompt(t, s) is None,
                    } by {
                    if s != sid@ {
                        assert(last_prompt(t, s) == last_prompt(bv.take(k as int), s));
                        assert(session_count(t, s) == session_count(bv.take(k as int), s));
                    } else {
                        assert(session_count(t, s) == session_count(bv.take(k as int), s) + 1);
                    }
                }
                assert forall|s: Seq<char>| #![trigger session_count(t, s)]
                    lookup(counts@, s) == if session_count(t, s) > 0 {
                        Some(session_count(t, s) as u32)
                    } else {
                        None
                    } by {
                    if s != sid@ {
                        assert(session_count(t, s) == session_count(bv.take(k as int), s));
                    } else {
                        assert(session_count(t, s) == session_count(bv.take(k as int), s) + 1);
                    }
                }
            },
            None => {
                assert forall|s: Seq<char>| #![trigger last_prompt(t, s)]
                    last_prompt(t, s) == last_prompt(bv.take(k as int), s) && session_count(t, s)
                        == session_count(bv.take(k as int), s) by {}
                assert forall|s: Seq<char>| #![trigger session_count(t, s)]
                    session_count(t, s) == session_count(bv.take(k as int), s) by {}
            },
        }
        k = k + 1;
    }
    assert(bv.take(k as int) =~= bv);
    (prompts, counts)
}

/// The files' paths, in order.
pub open spec fn attestation_paths(fs: Seq<FileAttestation>) -> Seq<Seq<char>> {
    fs.map_values(|f: FileAttestation| f.file_path@)
}

/// No session wrote the line `u32::MAX` of a file twice.
pub open spec fn max_line_at_most_once(b: Seq<BlamedView>) -> bool {
    forall|f: Seq<char>, s: Seq<char>| #[trigger] session_lines(b, f, s).to_multiset().count(u32::MAX) <= 1
}

/// Rebuilds the authorship log of a commit from its lines that blame traced
/// back (file, line number, and the prompt record of the AI session that
/// wrote it, if any): one attestation per file that has a line an AI wrote,
/// in the order the files first come, each rebuilt (see `rebuilt_file`); the
/// prompt record of each session, taken from its last line, with the number
/// of lines the session wrote as its accepted lines.
pub fn authorship_from_blamed_lines(blamed: &[(String, u32, Option<PromptRecord>)]) -> (r: AuthorshipLogV3)
    requires
        blamed@.len() <= u32::MAX,
        max_line_at_most_once(blamed_view(blamed@)),
    ensures
        attestation_paths(r.attestations@) == ai_files(blamed_view(blamed@)),
        forall|i: int|
            0 <= i < r.attestations@.len() ==> rebuilt_file(
                #[trigger] r.attestations@[i]@,
                blamed_view(blamed@),
            ),
        r.metadata.schema_version@ == AUTHORSHIP_LOG_V3_VERSION@,
        r.metadata.base_commit_sha@.len() == 0,
        r.metadata.authors@.len() == 0,
        r.metadata.prompts.wf(),
        forall|s: Seq<char>|
            #![trigger last_prompt(blamed_view(blamed@), s)]
            match lookup(r.metadata.prompts@, s) {
                Some(p) => accepted_prompt(blamed_view(blamed@), s) == Some(p@),
                None => last_prompt(blamed_view(blamed@), s) is None,
            },
{
    let ghost bv = blamed_view(blamed@);
    let files = ai_file_list(blamed);
    let mut attestations: Vec<FileAttestation> = Vec::new();
    let mut i: usize = 0;
    while i < files.len()
        invariant
            0 <= i <= files@.len(),
            bv == blamed_view(blamed@),
            max_line_at_most_once(bv),
            strs_view(files@) == ai_files(bv),
            attestations@.len() == i,
            forall|j: int| 0 <= j < i ==> (#[trigger] attestations@[j]).file_path@ == files@[j]@,
            forall|j: int| 0 <= j < i ==> rebuilt_file(#[trigger] attestations@[j]@, bv),
        decreases files@.len() - i,
    {
        let f = &files[i];
        let groups = session_groups(blamed, f);
        proof {
            lemma_lookup_all(groups@);
            assert forall|j: int| 0 <= j < groups@.len() implies (#[trigger] groups@[j]).1@.to_multiset().count(
                u32::MAX,
            ) <= 1 by {
                assert(lookup(groups@, groups@[j].0) == Some(groups@[j].1));
                assert(session_lines(bv, f@, groups@[j].0).to_multiset().count(u32::MAX) <= 1);
            }
        }
        let entries = entries_of(&groups);
        let fa = FileAttestation { file_path: f.clone(), entries };
        proof {
            let v = fa@;
            assert(v.0 == f@);
            assert forall|a: int, b: int| 0 <= a < b < v.1.len() implies crate::str_map::seq_lt(
                #[trigger] v.1[a].0,
                #[trigger] v.1[b].0,
            ) by {
                assert(v.1[a] == fa.entries@[a]@);
                assert(v.1[b] == fa.entries@[b]@);
            }
            assert forall|s: Seq<char>| #![trigger session_lines(bv, v.0, s)]
                (exists|j: int| 0 <= j < v.1.len() && v.1[j].0 == s) <==> session_lines(bv, v.0, s).len() > 0 by {
                if session_lines(bv, v.0, s).len() > 0 {
                    lemma_lookup(groups@, s);
                    let j = choose|j: int| 0 <= j < groups@.len() && groups@[j].0 == s;
                    assert(v.1[j] == fa.entries@[j]@);
                }
                if exists|j: int| 0 <= j < v.1.len() && v.1[j].0 == s {
                    let j = choose|j: int| 0 <= j < v.1.len() && v.1[j].0 == s;
                    assert(v.1[j] == fa.entries@[j]@);
                    assert(lookup(groups@, s) == Some(groups@[j].1));
                }
            }
            assert forall|j: int| 0 <= j < v.1.len() implies runs_of_sorted(
                #[trigger] v.1[j].1,
                session_lines(bv, v.0, v.1[j].0),
            ) by {
                assert(v.1[j] == fa.entries@[j]@);
                assert(lookup(groups@, groups@[j].0) == Some(groups@[j].1));
                assert(session_lines(bv, f@, groups@[j].0) == groups@[j].1@);
            }
            assert(rebuilt_file(v, bv));
        }
        attestations.push(fa);
        i = i + 1;
    }
    assert(attestation_paths(attestations@) =~= strs_view(files@));
    let (prompts, _counts) = prompts_and_counts(blamed);
    let mut metadata = AuthorshipMetadata::new();
    metadata.prompts = prompts;
    AuthorshipLogV3 { attestations, metadata }
}

/// In a map with sorted keys, each entry is what its key looks up.
proof fn lemma_lookup_all<V>(s: Seq<(Seq<char>, V)>)
    requires
        crate::str_map::keys_sorted(s),
    ensures
        forall|j: int| 0 <= j < s.len() ==> lookup(s, #[trigger] s[j].0) == Some(s[j].1),
{
    assert forall|j: int| 0 <= j < s.len() implies lookup(s, #[trigger] s[j].0) == Some(s[j].1) by {
        lemma_lookup(s, s[j].0);
    }
}

/// In a rebuilt file, the lines that an entry's ranges hold are exactly the
/// lines that its session wrote in the file.
pub proof fn lemma_rebuilt_entry_lines(fa: FileAttestationView, b: Seq<BlamedView>, j: int)
    requires
        rebuilt_file(fa, b),
        0 <= j < fa.1.len(),
    ensures
        seq_lines(fa.1[j].1) == Set::new(
            |l: int|
                exists|i: int|
                    0 <= i < session_lines(b, fa.0, fa.1[j].0).len() && session_lines(b, fa.0, fa.1[j].0)[i]
                        == l,
        ),
{
    broadcast use vstd::seq_lib::to_multiset_contains;

    let lines = session_lines(b, fa.0, fa.1[j].0);
    assert(runs_of_sorted(fa.1[j].1, lines));
    let t = choose|t: Seq<u32>|
        nondecreasing(t) && t.to_multiset() == lines.to_multiset() && fa.1[j].1 == compress_spec(t);
    lemma_compress_covers(t);
    let ta = Set::new(|l: int| exists|i: int| 0 <= i < t.len() && t[i] == l);
    let la = Set::new(|l: int| exists|i: int| 0 <= i < lines.len() && lines[i] == l);
    assert forall|l: int| ta.contains(l) <==> la.contains(l) by {
        if ta.contains(l) {
            let i = choose|i: int| 0 <= i < t.len() && t[i] == l;
            assert(t.contains(t[i]));
            vstd::seq_lib::to_multiset_contains(t, t[i]);
            vstd::seq_lib::to_multiset_contains(lines, t[i]);
            assert(lines.contains(t[i]));
        }
        if la.contains(l) {
            let i = choose|i: int| 0 <= i < lines.len() && lines[i] == l;
            assert(lines.contains(lines[i]));
            vstd::seq_lib::to_multiset_contains(t, lines[i]);
            vstd::seq_lib::to_multiset_contains(lines, lines[i]);
            assert(t.contains(lines[i]));
        }
    }
    assert(ta =~= la);
    assert(seq_lines(fa.1[j].1) =~= Set::new(
        |l: int| exists|i: int| 0 <= i < lines.len() && lines[i] == l,
    ));
}

} // verus!
