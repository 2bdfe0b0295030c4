//! Which commits have an authorship note: the request to
//! `git cat-file --batch-check` and the reading of its answer.
use vstd::prelude::*;
use crate::authorship_log_v3::join_lines;
use crate::git_sync::{ends_with, ends_with_chars, strs_view};
use crate::text::{chars_of, lines_of, push_char, push_chars, push_str_chars, seqs_view, str_lines};

verus! {

/// Every character is ASCII, as in a commit hash.
pub open spec fn ascii(s: Seq<char>) -> bool {
    forall|i: int| 0 <= i < s.len() ==> (#[trigger] s[i] as int) < 128
}

/// The hashes long enough to have a note path (three characters or more).
pub open spec fn checked_shas(shas: Seq<Seq<char>>) -> Seq<Seq<char>>
    decreases shas.len(),
{
    if shas.len() == 0 {
        seq![]
    } else {
        checked_shas(shas.drop_last()) + if shas.last().len() >= 3 {
            seq![shas.last()]
        } else {
            seq![]
        }
    }
}

/// Where the note of a commit lies once notes fan out: `refs/notes/ai:`
/// then the hash's first two characters, a `/` and the rest.
pub open spec fn note_path(sha: Seq<char>) -> Seq<char> {
    "refs/notes/ai:"@ + sha.take(2) + seq!['/'] + sha.skip(2)
}

/// Where the note of a commit lies while notes do not fan out:
/// `refs/notes/ai:` then the hash.
pub open spec fn flat_note_path(sha: Seq<char>) -> Seq<char> {
    "refs/notes/ai:"@ + sha
}

/// The paths asked for the hashes: for each, in order, its fanned-out path
/// and its flat path.
pub open spec fn note_paths(shas: Seq<Seq<char>>) -> Seq<Seq<char>>
    decreases shas.len(),
{
    if shas.len() == 0 {
        seq![]
    } else {
        note_paths(shas.drop_last()) + seq![note_path(shas.last()), flat_note_path(shas.last())]
    }
}

/// The hashes checked, and the request for them: the two places each note
/// may lie, one per line (see `note_paths`). Hashes are ASCII, so that
/// their characters are their bytes.
pub fn note_check_request(commit_shas: &[String]) -> (r: (Vec<String>, String))
    requires
        forall|i: int| 0 <= i < commit_shas@.len() ==> ascii(#[trigger] commit_shas@[i]@),
    ensures
        strs_view(r.0@) == checked_shas(strs_view(commit_shas@)),
        r.1@ == join_lines(note_paths(checked_shas(strs_view(commit_shas@)))),
{
    let ghost sv = strs_view(commit_shas@);
    let mut checked: Vec<String> = Vec::new();
    let mut input = String::new();
    let mut i: usize = 0;
    assert(sv.take(0) =~= Seq::<Seq<char>>::empty());
    while i < commit_shas.len()
        invariant
            0 <= i <= commit_shas@.len(),
            sv == strs_view(commit_shas@),
            strs_view(checked@) == checked_shas(sv.take(i as int)),
            input@ == join_lines(note_paths(strs_view(checked@))),
        decreases commit_shas@.len() - i,
    {
        assert(sv.take(i + 1).drop_last() =~= sv.take(i as int));
        assert(sv.take(i + 1).last() == commit_shas@[i as int]@);
        let cs = chars_of(commit_shas[i].as_str());
        if cs.len() >= 3 {
            let ghost before = strs_view(checked@);
            if checked.len() > 0 {
                push_char(&mut input, '\n');
            }
            push_str_chars(&mut input, "refs/notes/ai:");
            push_char(&mut input, cs[0]);
            push_char(&mut input, cs[1]);
            push_char(&mut input, '/');
            let n = cs.len();
            let rest = crate::text::slice_chars(cs.as_slice(), 2, n);
            push_chars(&mut input, rest.as_slice());
            let ghost mid = input@;
            push_char(&mut input, '\n');
            push_str_chars(&mut input, "refs/notes/ai:");
            push_chars(&mut input, cs.as_slice());
            let sha = commit_shas[i].clone();
            checked.push(sha);
            assert(strs_view(checked@) =~= before.push(cs@));
            proof {
                assert(cs@.take(2) =~= seq![cs@[0], cs@[1]]);
                assert(rest@ =~= cs@.skip(2));
                let ps = note_paths(strs_view(checked@));
                assert(strs_view(checked@).drop_last() =~= before);
                assert(ps == note_paths(before) + seq![note_path(cs@), flat_note_path(cs@)]);
                let p1 = note_paths(before).push(note_path(cs@));
                assert(ps =~= p1.push(flat_note_path(cs@)));
                assert(p1.drop_last() =~= note_paths(before));
                if before.len() == 0 {
                    assert(note_paths(before).len() == 0);
                    assert(p1.len() == 1);
                    assert(mid =~= note_path(cs@));
                } else {
                    assert(note_paths(before).len() >= 1) by {
                        assert(note_paths(before) == note_paths(before.drop_last()) + seq![
                            note_path(before.last()),
                            flat_note_path(before.last()),
                        ]);
                    }
                    assert(mid =~= join_lines(note_paths(before)) + seq!['\n'] + note_path(cs@));
                }
                assert(mid == join_lines(p1));
                assert(ps.len() >= 2);
                assert(ps.drop_last() =~= p1);
                assert(ps.last() == flat_note_path(cs@));
                assert(input@ =~= mid + seq!['\n'] + flat_note_path(cs@));
                assert(join_lines(ps) == join_lines(ps.drop_last()) + seq!['\n'] + ps.last());
            }
            assert(input@ =~= join_lines(note_paths(strs_view(checked@))));
        }
        i = i + 1;
    }
    assert(sv.take(i as int) =~= sv);
    (checked, input)
}

/// A line of the answer that says the note exists: not empty and not
/// ending with `missing`.
pub open spec fn line_says_noted(line: Seq<char>) -> bool {
    line.len() > 0 && !ends_with(line, "missing"@)
}

/// The checked hashes, among the first `n`, for which one of their two
/// answer lines says the note exists (a missing answer line says nothing).
pub open spec fn noted_upto(checked: Seq<Seq<char>>, lines: Seq<Seq<char>>, n: nat) -> Seq<Seq<char>>
    decreases n,
{
    if n == 0 {
        seq![]
    } else {
        let k = n - 1;
        noted_upto(checked, lines, k as nat) + if (2 * k < lines.len() && line_says_noted(lines[2 * k])) || (2
            * k + 1 < lines.len() && line_says_noted(lines[2 * k + 1])) {
            seq![checked[k]]
        } else {
            seq![]
        }
    }
}

/// The checked hashes whose note exists, by the answer `stdout` of
/// `git cat-file --batch-check` (two lines per checked hash, in order, as
/// asked by `note_check_request`).
pub fn commits_with_notes(checked: &[String], stdout: &str) -> (r: Vec<String>)
    ensures
        strs_view(r@) == noted_upto(strs_view(checked@), str_lines(stdout@), checked@.len() as nat),
{
    let ghost cv = strs_view(checked@);
    let cs = chars_of(stdout);
    let lines = lines_of(cs.as_slice());
    let ghost lv = seqs_view(lines@);
    let missing = chars_of("missing");
    let mut r: Vec<String> = Vec::new();
    let mut i: usize = 0;
    while i < checked.len()
        invariant
            0 <= i <= checked@.len(),
            cv == strs_view(checked@),
            lv == seqs_view(lines@),
            lv == str_lines(stdout@),
            missing@ == "missing"@,
            strs_view(r@) == noted_upto(cv, lv, i as nat),
        decreases checked@.len() - i,
    {
        let ghost before = strs_view(r@);
        let n = lines.len();
        let a = n > 0 && i <= (n - 1) / 2 && lines[2 * i].len() > 0 && !ends_with_chars(
            lines[2 * i].as_slice(),
            missing.as_slice(),
        );
        let b = i < n / 2 && lines[2 * i + 1].len() > 0 && !ends_with_chars(
            lines[2 * i + 1].as_slice(),
            missing.as_slice(),
        );
        if a || b {
            let sha = checked[i].clone();
            r.push(sha);
            assert(strs_view(r@) =~= before.push(cv[i as int]));
        }
        i = i + 1;
    }
    r
}

} // verus!
