//! Line diffs of two versions of a file, and the line numbers they add and
//! delete.
use vstd::prelude::*;
use crate::attribution::DiffOp;
use crate::authorship_log_v3::{lemma_split_concat, lemma_split_single};
use crate::checkpoint::{consolidate_lines, consolidate_spec};
use crate::line_range::{compress_spec, LineRange};
use crate::git_sync::strs_view;
use crate::rebase::{match_inserted_lines, match_lines_spec};
use crate::text::{
    chars_of, lines_of, push_char, push_str_chars, seqs_view, split_char, str_lines, string_of, strip_cr,
};
use crate::working_log::{Line, WorkingLogEntry};

verus! {

/// The line diff of two texts, as similar computes it: each change is a
/// tag and one line of one of the texts.
pub uninterp spec fn line_diff(old: Seq<char>, new: Seq<char>) -> Seq<(DiffOp, Seq<char>)>;

/// One line: not empty, with a newline at most as its last character.
pub open spec fn one_line(v: Seq<char>) -> bool {
    v.len() > 0 && forall|i: int| 0 <= i < v.len() - 1 ==> v[i] != '\n'
}

/// The views of changes.
pub open spec fn changes_view(s: Seq<(DiffOp, String)>) -> Seq<(DiffOp, Seq<char>)> {
    s.map_values(|c: (DiffOp, String)| (c.0, c.1@))
}

/// `TextDiff::from_lines(old, new).iter_all_changes()` of similar, each
/// change taken as its tag and value: the result is `line_diff(old, new)`,
/// and each value is one line, as similar's line tokenizer cuts them (after
/// each `\n`, each `\r\n` and each lone `\r`); two equal texts differ
/// by nothing but equal lines (the common prefix is taken whole). Which
/// changes the diff chooses otherwise is not stated.
#[verifier::external_body]
fn diff_lines(old: &str, new: &str) -> (r: Vec<(DiffOp, String)>)
    ensures
        changes_view(r@) == line_diff(old@, new@),
        forall|i: int| 0 <= i < r@.len() ==> one_line(#[trigger] r@[i].1@),
        old@ == new@ ==> forall|i: int| 0 <= i < r@.len() ==> (#[trigger] r@[i]).0 == DiffOp::Equal,
{
    let diff = similar::TextDiff::from_lines(old, new);
    let mut r = Vec::new();
    for c in diff.iter_all_changes() {
        let op = match c.tag() {
            similar::ChangeTag::Equal => DiffOp::Equal,
            similar::ChangeTag::Delete => DiffOp::Delete,
            similar::ChangeTag::Insert => DiffOp::Insert,
        };
        r.push((op, c.value().to_string()));
    }
    r
}

/// A line counts as one line (`str::lines`).
proof fn lemma_one_line_count(v: Seq<char>)
    requires
        one_line(v),
    ensures
        str_lines(v).len() == 1,
{
    if v.last() == '\n' {
        let p = v.drop_last();
        assert(!p.contains('\n')) by {
            if p.contains('\n') {
                let k = choose|k: int| 0 <= k < p.len() && p[k] == '\n';
                assert(v[k] == '\n');
            }
        }
        assert(p + seq!['\n'] + Seq::<char>::empty() =~= v);
        lemma_split_concat(p, Seq::<char>::empty(), '\n');
        lemma_split_single(p, '\n');
        lemma_split_single(Seq::<char>::empty(), '\n');
        let ps = split_char(v, '\n');
        assert(ps =~= seq![p, Seq::<char>::empty()]);
        assert(str_lines(v) =~= seq![strip_cr(p)]);
    } else {
        assert(!v.contains('\n')) by {
            if v.contains('\n') {
                let k = choose|k: int| 0 <= k < v.len() && v[k] == '\n';
                assert(v[k] == '\n');
            }
        }
        lemma_split_single(v, '\n');
        assert(str_lines(v) =~= seq![v]);
    }
}

/// `n` line numbers from `start` on.
pub open spec fn run_from(start: int, n: int) -> Seq<u32> {
    Seq::new(n as nat, |i: int| (start + i) as u32)
}

/// Reading a line diff on the side of the new text: the line numbers the
/// insertions take, and the next line number. Each change counts its
/// lines (`str::lines`).
pub open spec fn inserted_walk(cs: Seq<(DiffOp, Seq<char>)>) -> (Seq<u32>, int)
    decreases cs.len(),
{
    if cs.len() == 0 {
        (seq![], 1)
    } else {
        let (ins, cur) = inserted_walk(cs.drop_last());
        let n = str_lines(cs.last().1).len() as int;
        match cs.last().0 {
            DiffOp::Equal => (ins, cur + n),
            DiffOp::Delete => (ins, cur),
            DiffOp::Insert => (ins + run_from(cur, n), cur + n),
        }
    }
}

/// Reading a line diff for a checkpoint: the line numbers the insertions
/// take, the line numbers the deletions are recorded at (consecutive
/// deletions counting on from the current line), the current line and the
/// deletions since the last line that was not deleted.
pub open spec fn checkpoint_walk(cs: Seq<(DiffOp, Seq<char>)>) -> (Seq<u32>, Seq<u32>, int, int)
    decreases cs.len(),
{
    if cs.len() == 0 {
        (seq![], seq![], 1, 0)
    } else {
        let (a, d, cur, da) = checkpoint_walk(cs.drop_last());
        let n = str_lines(cs.last().1).len() as int;
        match cs.last().0 {
            DiffOp::Equal => (a, d, cur + n, 0),
            DiffOp::Delete => (a, d + run_from(cur + da, n), cur, da + n),
            DiffOp::Insert => (a + run_from(cur, n), d, cur + n, 0),
        }
    }
}

/// Appends `n` line numbers from `start` on.
fn push_run(v: &mut Vec<u32>, start: u32, n: u32)
    requires
        start + n <= u32::MAX + 1,
    ensures
        final(v)@ == old(v)@ + run_from(start as int, n as int),
{
    let mut k: u32 = 0;
    assert(old(v)@ + run_from(start as int, 0) =~= old(v)@);
    while k < n
        invariant
            k <= n,
            start + n <= u32::MAX + 1,
            v@ == old(v)@ + run_from(start as int, k as int),
        decreases n - k,
    {
        v.push(start + k);
        k = k + 1;
        assert(v@ =~= old(v)@ + run_from(start as int, k as int));
    }
}

/// The line numbers the insertions of a line diff take in the new text
/// (see `inserted_walk`).
pub fn inserted_line_numbers(changes: &Vec<(DiffOp, String)>) -> (r: Vec<u32>)
    requires
        changes@.len() < u32::MAX,
        forall|i: int| 0 <= i < changes@.len() ==> one_line(#[trigger] changes@[i].1@),
    ensures
        r@ == inserted_walk(changes_view(changes@)).0,
{
    let ghost cv = changes_view(changes@);
    let mut r: Vec<u32> = Vec::new();
    let mut cur: u32 = 1;
    let mut i: usize = 0;
    assert(cv.take(0) =~= Seq::<(DiffOp, Seq<char>)>::empty());
    while i < changes.len()
        invariant
            0 <= i <= changes@.len() < u32::MAX,
            cv == changes_view(changes@),
            forall|j: int| 0 <= j < changes@.len() ==> one_line(#[trigger] changes@[j].1@),
            inserted_walk(cv.take(i as int)) == (r@, cur as int),
            1 <= cur <= i + 1,
        decreases changes@.len() - i,
    {
        assert(cv.take(i + 1).drop_last() =~= cv.take(i as int));
        assert(cv.take(i + 1).last() == (changes@[i as int].0, changes@[i as int].1@));
        proof {
            lemma_one_line_count(changes@[i as int].1@);
        }
        match changes[i].0 {
            DiffOp::Equal => {
                cur = cur + 1;
            },
            DiffOp::Delete => {},
            DiffOp::Insert => {
                push_run(&mut r, cur, 1);
                cur = cur + 1;
            },
        }
        i = i + 1;
    }
    assert(cv.take(i as int) =~= cv);
    r
}

/// The line numbers a checkpoint records as added and as deleted for a line
/// diff (see `checkpoint_walk`).
pub fn checkpoint_line_numbers(changes: &Vec<(DiffOp, String)>) -> (r: (Vec<u32>, Vec<u32>))
    requires
        changes@.len() < u32::MAX,
        forall|i: int| 0 <= i < changes@.len() ==> one_line(#[trigger] changes@[i].1@),
    ensures
        r.0@ == checkpoint_walk(changes_view(changes@)).0,
        r.1@ == checkpoint_walk(changes_view(changes@)).1,
{
    let ghost cv = changes_view(changes@);
    let mut added: Vec<u32> = Vec::new();
    let mut deleted: Vec<u32> = Vec::new();
    let mut cur: u32 = 1;
    let mut dels: u32 = 0;
    let mut i: usize = 0;
    assert(cv.take(0) =~= Seq::<(DiffOp, Seq<char>)>::empty());
    while i < changes.len()
        invariant
            0 <= i <= changes@.len() < u32::MAX,
            cv == changes_view(changes@),
            forall|j: int| 0 <= j < changes@.len() ==> one_line(#[trigger] changes@[j].1@),
            checkpoint_walk(cv.take(i as int)) == (added@, deleted@, cur as int, dels as int),
            1 <= cur,
            cur + dels <= i + 1,
        decreases changes@.len() - i,
    {
        assert(cv.take(i + 1).drop_last() =~= cv.take(i as int));
        assert(cv.take(i + 1).last() == (changes@[i as int].0, changes@[i as int].1@));
        proof {
            lemma_one_line_count(changes@[i as int].1@);
        }
        match changes[i].0 {
            DiffOp::Equal => {
                cur = cur + 1;
                dels = 0;
            },
            DiffOp::Delete => {
                push_run(&mut deleted, cur + dels, 1);
                dels = dels + 1;
            },
            DiffOp::Insert => {
                push_run(&mut added, cur, 1);
                cur = cur + 1;
                dels = 0;
            },
        }
        i = i + 1;
    }
    assert(cv.take(i as int) =~= cv);
    (added, deleted)
}

/// `s` with a newline added unless it ends with one (an empty text gets
/// one).
pub open spec fn with_final_newline(s: Seq<char>) -> Seq<char> {
    if s.len() > 0 && s.last() == '\n' {
        s
    } else {
        s.push('\n')
    }
}

/// `s` with a newline added unless it ends with one or is empty.
pub open spec fn with_final_newline_unless_empty(s: Seq<char>) -> Seq<char> {
    if s.len() == 0 || s.last() == '\n' {
        s
    } else {
        s.push('\n')
    }
}

/// `s` with a final newline (see `with_final_newline`).
fn final_newline(s: &str, keep_empty: bool) -> (r: String)
    ensures
        r@ == if keep_empty {
            with_final_newline_unless_empty(s@)
        } else {
            with_final_newline(s@)
        },
{
    let cs = chars_of(s);
    let mut r = String::new();
    push_str_chars(&mut r, s);
    let n = cs.len();
    if n > 0 && cs[n - 1] == '\n' {
    } else if n == 0 && keep_empty {
    } else {
        push_char(&mut r, '\n');
    }
    r
}

/// The lines a checkpoint records for a file whose content went from
/// `previous` to `current`: both are given a final newline, and the line
/// numbers the diff adds and deletes (see `checkpoint_walk`) are each
/// consolidated into runs. `None` when the diff is too long to number its
/// lines with `u32`.
pub fn checkpoint_line_changes(previous: &str, current: &str) -> (r: Option<(Vec<Line>, Vec<Line>)>)
    ensures
        ({
            let d = line_diff(with_final_newline(previous@), with_final_newline(current@));
            match r {
                Some((a, del)) => d.len() < u32::MAX && a@ == consolidate_spec(checkpoint_walk(d).0)
                    && del@ == consolidate_spec(checkpoint_walk(d).1),
                None => d.len() >= u32::MAX,
            }
        }),
        previous@ == current@ ==> (r matches Some((a, del)) ==> a@.len() == 0 && del@.len() == 0),
{
    let p = final_newline(previous, false);
    let c = final_newline(current, false);
    let changes = diff_lines(p.as_str(), c.as_str());
    if changes.len() >= 4294967295 {
        return None;
    }
    let (added, deleted) = checkpoint_line_numbers(&changes);
    proof {
        if previous@ == current@ {
            assert(p@ == c@);
            assert forall|i: int| 0 <= i < changes_view(changes@).len() implies (#[trigger] changes_view(
                changes@,
            )[i]).0 == DiffOp::Equal by {
                assert(changes_view(changes@)[i].0 == changes@[i].0);
            }
            lemma_equal_walks(changes_view(changes@));
            assert(added@ =~= Seq::<u32>::empty());
            assert(deleted@ =~= Seq::<u32>::empty());
            lemma_consolidate_empty();
        }
    }
    Some((consolidate_lines(added), consolidate_lines(deleted)))
}

/// The line ranges of `current` that a commit added over `parent`: none
/// when the contents are equal; else both are given a final newline unless
/// empty, and the lines the insertions of the diff take are grouped in
/// runs. `None` when the diff is too long to number its lines with `u32`.
pub fn committed_line_ranges(parent: &str, current: &str) -> (r: Option<Vec<LineRange>>)
    ensures
        ({
            let d = line_diff(with_final_newline_unless_empty(parent@), with_final_newline_unless_empty(current@));
            if parent@ == current@ {
                match r {
                    Some(v) => v@.len() == 0,
                    None => false,
                }
            } else {
                match r {
                    Some(v) => d.len() < u32::MAX && v@ == compress_spec(inserted_walk(d).0),
                    None => d.len() >= u32::MAX,
                }
            }
        }),
{
    if crate::str_map::str_eq(parent, current) {
        return Some(Vec::new());
    }
    let p = final_newline(parent, true);
    let c = final_newline(current, true);
    let changes = diff_lines(p.as_str(), c.as_str());
    if changes.len() >= 4294967295 {
        return None;
    }
    let lines = inserted_line_numbers(&changes);
    proof {
        lemma_inserted_increasing(changes_view(changes@));
    }
    Some(LineRange::compress_lines(lines.as_slice()))
}

/// The line ranges of the working copy `working` that are not in the
/// committed `head`: both are given a final newline, and the lines the
/// insertions of the diff take are grouped in runs. `None` when the diff is
/// too long to number its lines with `u32`.
pub fn unstaged_line_ranges(head: &str, working: &str) -> (r: Option<Vec<LineRange>>)
    ensures
        ({
            let d = line_diff(with_final_newline(head@), with_final_newline(working@));
            match r {
                Some(v) => d.len() < u32::MAX && v@ == compress_spec(inserted_walk(d).0),
                None => d.len() >= u32::MAX,
            }
        }),
        head@ == working@ ==> (r matches Some(v) ==> v@.len() == 0),
{
    let h = final_newline(head, false);
    let w = final_newline(working, false);
    let changes = diff_lines(h.as_str(), w.as_str());
    if changes.len() >= 4294967295 {
        return None;
    }
    let lines = inserted_line_numbers(&changes);
    proof {
        lemma_inserted_increasing(changes_view(changes@));
        if head@ == working@ {
            assert(h@ == w@);
            assert forall|i: int| 0 <= i < changes_view(changes@).len() implies (#[trigger] changes_view(
                changes@,
            )[i]).0 == DiffOp::Equal by {
                assert(changes_view(changes@)[i].0 == changes@[i].0);
            }
            lemma_equal_walks(changes_view(changes@));
            assert(lines@ =~= Seq::<u32>::empty());
        }
    }
    Some(LineRange::compress_lines(lines.as_slice()))
}

/// The line numbers insertions take increase, and stay below the next line.
proof fn lemma_inserted_increasing(cs: Seq<(DiffOp, Seq<char>)>)
    requires
        cs.len() < u32::MAX,
        forall|i: int| 0 <= i < cs.len() ==> one_line(#[trigger] cs[i].1),
    ensures
        forall|i: int, j: int|
            0 <= i < j < inserted_walk(cs).0.len() ==> inserted_walk(cs).0[i] < inserted_walk(cs).0[j],
        forall|i: int| 0 <= i < inserted_walk(cs).0.len() ==> inserted_walk(cs).0[i] < inserted_walk(cs).1,
        1 <= inserted_walk(cs).1 <= cs.len() + 1,
    decreases cs.len(),
{
    if cs.len() > 0 {
        let p = cs.drop_last();
        assert forall|i: int| 0 <= i < p.len() implies one_line(#[trigger] p[i].1) by {
            assert(p[i] == cs[i]);
        }
        lemma_inserted_increasing(p);
        assert(one_line(cs[cs.len() - 1].1));
        lemma_one_line_count(cs.last().1);
    }
}


/// The ranges of all lines of a file, as a first commit adds them: lines 1
/// to its number of lines (`str::lines`), that number taken as a `u32`.
pub fn all_line_ranges(content: &str) -> (r: Vec<LineRange>)
    ensures
        r@ == compress_spec(run_from(1, (str_lines(content@).len() as u32) as int)),
{
    let cs = chars_of(content);
    let ls = lines_of(cs.as_slice());
    let n: usize = ls.len();
    assert(n == str_lines(content@).len());
    #[verifier::truncate]
    let c: u32 = n as u32;
    let mut lines: Vec<u32> = Vec::new();
    push_run(&mut lines, 1, c);
    assert(lines@ =~= run_from(1, c as int));
    LineRange::compress_lines(lines.as_slice())
}

/// The entry a checkpoint records for `file`, whose content went from
/// `previous` to `current`: its added and deleted lines (see
/// `checkpoint_line_changes`), when there is any.
pub open spec fn file_entry(file: Seq<char>, previous: Seq<char>, current: Seq<char>) -> Option<
    (Seq<char>, Seq<Line>, Seq<Line>),
> {
    let d = line_diff(with_final_newline(previous), with_final_newline(current));
    let a = consolidate_spec(checkpoint_walk(d).0);
    let del = consolidate_spec(checkpoint_walk(d).1);
    if a.len() > 0 || del.len() > 0 {
        Some((file, a, del))
    } else {
        None
    }
}

/// The entries of the first `n` files.
pub open spec fn file_entries(files: Seq<Seq<char>>, previous: Seq<Seq<char>>, current: Seq<Seq<char>>, n: nat) -> Seq<
    (Seq<char>, Seq<Line>, Seq<Line>),
>
    decreases n,
{
    if n == 0 {
        seq![]
    } else {
        let k = n - 1;
        file_entries(files, previous, current, k as nat) + match file_entry(files[k], previous[k], current[k]) {
            Some(e) => seq![e],
            None => seq![],
        }
    }
}

/// The diff of each file can number its lines with `u32`.
pub open spec fn diffs_fit(previous: Seq<Seq<char>>, current: Seq<Seq<char>>) -> bool {
    forall|i: int|
        0 <= i < previous.len() ==> #[trigger] line_diff(with_final_newline(previous[i]), with_final_newline(current[i])).len()
            < u32::MAX
}

/// The view of a working-log entry.
pub open spec fn entry_view(e: WorkingLogEntry) -> (Seq<char>, Seq<Line>, Seq<Line>) {
    (e.file@, e.added_lines@, e.deleted_lines@)
}

/// The working-log entries of a checkpoint over `files`, whose contents
/// went from `previous` to `current` (one of each per file): one entry per
/// file with added or deleted lines, in order (see `file_entry`). `None`
/// when some file's diff is too long to number its lines with `u32`.
pub fn checkpoint_entries(files: &Vec<String>, previous: &Vec<String>, current: &Vec<String>) -> (r: Option<
    Vec<WorkingLogEntry>,
>)
    requires
        previous@.len() == files@.len(),
        current@.len() == files@.len(),
    ensures
        ({
            let fs = files@.map_values(|s: String| s@);
            let ps = previous@.map_values(|s: String| s@);
            let cs = current@.map_values(|s: String| s@);
            match r {
                Some(v) => diffs_fit(ps, cs) && v@.map_values(|e: WorkingLogEntry| entry_view(e)) == file_entries(
                    fs,
                    ps,
                    cs,
                    files@.len(),
                ),
                None => !diffs_fit(ps, cs),
            }
        }),
{
    let ghost fs = files@.map_values(|s: String| s@);
    let ghost ps = previous@.map_values(|s: String| s@);
    let ghost cs = current@.map_values(|s: String| s@);
    let mut entries: Vec<WorkingLogEntry> = Vec::new();
    let mut i: usize = 0;
    assert(entries@.map_values(|e: WorkingLogEntry| entry_view(e)) =~= Seq::<(Seq<char>, Seq<Line>, Seq<Line>)>::empty());
    while i < files.len()
        invariant
            0 <= i <= files@.len(),
            previous@.len() == files@.len(),
            current@.len() == files@.len(),
            fs == files@.map_values(|s: String| s@),
            ps == previous@.map_values(|s: String| s@),
            cs == current@.map_values(|s: String| s@),
            forall|j: int|
                0 <= j < i ==> #[trigger] line_diff(with_final_newline(ps[j]), with_final_newline(cs[j])).len()
                    < u32::MAX,
            entries@.map_values(|e: WorkingLogEntry| entry_view(e)) == file_entries(fs, ps, cs, i as nat),
        decreases files@.len() - i,
    {
        let ghost before = entries@.map_values(|e: WorkingLogEntry| entry_view(e));
        match checkpoint_line_changes(previous[i].as_str(), current[i].as_str()) {
            None => {
                assert(line_diff(with_final_newline(ps[i as int]), with_final_newline(cs[i as int])).len() >= u32::MAX);
                return None;
            },
            Some((added, deleted)) => {
                if added.len() > 0 || deleted.len() > 0 {
                    entries.push(WorkingLogEntry::new(files[i].clone(), added, deleted));
                    assert(entries@.map_values(|e: WorkingLogEntry| entry_view(e)) =~= before.push(
                        entry_view(entries@.last()),
                    ));
                }
                assert(entries@.map_values(|e: WorkingLogEntry| entry_view(e)) =~= file_entries(
                    fs,
                    ps,
                    cs,
                    (i + 1) as nat,
                ));
            },
        }
        i = i + 1;
    }
    Some(entries)
}


/// The lines the insertions of a line diff put in, in order (each change's
/// lines by `str::lines`).
pub open spec fn inserted_texts(cs: Seq<(DiffOp, Seq<char>)>) -> Seq<Seq<char>>
    decreases cs.len(),
{
    if cs.len() == 0 {
        seq![]
    } else {
        inserted_texts(cs.drop_last()) + match cs.last().0 {
            DiffOp::Insert => str_lines(cs.last().1),
            _ => seq![],
        }
    }
}

/// The lines of a text (`str::lines`), as strings.
fn line_strings(s: &[char]) -> (r: Vec<String>)
    ensures
        strs_view(r@) == str_lines(s@),
{
    let ls = lines_of(s);
    let mut r: Vec<String> = Vec::new();
    let mut i: usize = 0;
    while i < ls.len()
        invariant
            0 <= i <= ls@.len(),
            strs_view(r@) == seqs_view(ls@).take(i as int),
        decreases ls@.len() - i,
    {
        let st = string_of(ls[i].as_slice());
        let ghost b = strs_view(r@);
        r.push(st);
        assert(strs_view(r@) =~= b.push(st@));
        assert(seqs_view(ls@).take(i + 1) =~= seqs_view(ls@).take(i as int).push(ls@[i as int]@));
        assert(strs_view(r@) =~= seqs_view(ls@).take(i + 1));
        i = i + 1;
    }
    assert(seqs_view(ls@).take(i as int) =~= seqs_view(ls@));
    r
}

/// The lines the insertions of a line diff put in (see `inserted_texts`).
pub fn inserted_line_texts(changes: &Vec<(DiffOp, String)>) -> (r: Vec<String>)
    ensures
        strs_view(r@) == inserted_texts(changes_view(changes@)),
{
    let ghost cv = changes_view(changes@);
    let mut r: Vec<String> = Vec::new();
    let mut i: usize = 0;
    assert(cv.take(0) =~= Seq::<(DiffOp, Seq<char>)>::empty());
    while i < changes.len()
        invariant
            0 <= i <= changes@.len(),
            cv == changes_view(changes@),
            strs_view(r@) == inserted_texts(cv.take(i as int)),
        decreases changes@.len() - i,
    {
        assert(cv.take(i + 1).drop_last() =~= cv.take(i as int));
        assert(cv.take(i + 1).last() == (changes@[i as int].0, changes@[i as int].1@));
        match changes[i].0 {
            DiffOp::Insert => {
                let cs = chars_of(changes[i].1.as_str());
                let ls = line_strings(cs.as_slice());
                let ghost before = strs_view(r@);
                let mut k: usize = 0;
                while k < ls.len()
                    invariant
                        0 <= k <= ls@.len(),
                        strs_view(r@) == before + strs_view(ls@).take(k as int),
                    decreases ls@.len() - k,
                {
                    let c = ls[k].clone();
                    let ghost b = strs_view(r@);
                    r.push(c);
                    assert(strs_view(r@) =~= b.push(c@));
                    assert(strs_view(ls@).take(k + 1) =~= strs_view(ls@).take(k as int).push(ls@[k as int]@));
                    assert(strs_view(r@) =~= before + strs_view(ls@).take(k + 1));
                    k = k + 1;
                }
                assert(strs_view(ls@).take(k as int) =~= strs_view(ls@));
            },
            _ => {
                assert(inserted_texts(cv.take(i + 1)) =~= inserted_texts(cv.take(i as int)));
            },
        }
        i = i + 1;
    }
    assert(cv.take(i as int) =~= cv);
    r
}

/// For each line that the diff from `old` to `new` inserts, the line of
/// `hanging` it matches (see `match_lines_spec`). `None` when `hanging` has
/// too many lines to number with `u32`.
pub fn hanging_line_matches(old: &str, new: &str, hanging: &str) -> (r: Option<Vec<Option<u32>>>)
    ensures
        match r {
            Some(v) => str_lines(hanging@).len() < u32::MAX && v@ == match_lines_spec(
                str_lines(hanging@),
                inserted_texts(line_diff(old@, new@)),
            ),
            None => str_lines(hanging@).len() >= u32::MAX,
        },
{
    let hs = chars_of(hanging);
    let hanging_lines = line_strings(hs.as_slice());
    if hanging_lines.len() >= 4294967295 {
        return None;
    }
    let changes = diff_lines(old, new);
    let inserted = inserted_line_texts(&changes);
    Some(match_inserted_lines(hanging_lines.as_slice(), inserted.as_slice()))
}


/// A diff of equal lines only adds and deletes no line.
proof fn lemma_equal_walks(cs: Seq<(DiffOp, Seq<char>)>)
    requires
        forall|i: int| 0 <= i < cs.len() ==> (#[trigger] cs[i]).0 == DiffOp::Equal,
    ensures
        checkpoint_walk(cs).0.len() == 0,
        checkpoint_walk(cs).1.len() == 0,
        inserted_walk(cs).0.len() == 0,
    decreases cs.len(),
{
    if cs.len() > 0 {
        let p = cs.drop_last();
        assert forall|i: int| 0 <= i < p.len() implies (#[trigger] p[i]).0 == DiffOp::Equal by {
            assert(p[i] == cs[i]);
        }
        lemma_equal_walks(p);
        assert(cs[cs.len() - 1].0 == DiffOp::Equal);
    }
}

/// No line numbers consolidate into no runs.
proof fn lemma_consolidate_empty()
    ensures
        consolidate_spec(Seq::<u32>::empty()).len() == 0,
{
    let e = Seq::<u32>::empty();
    crate::log_laws::lemma_sorted_set_of(e);
    let t = crate::authorship_log::sorted_set_of(e);
    if t.len() > 0 {
        assert(t.contains(t[0]));
        assert(!e.contains(t[0]));
    }
    assert(t =~= e);
}

} // verus!
