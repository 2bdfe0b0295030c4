//! What building an authorship log from checkpoints guarantees about the
//! lines each working-log entry deletes and adds.
use vstd::prelude::*;
use crate::authorship_log::{
    Author, AttributionEntry, AuthorshipLog, LogState, authors_model, entries_view, entry_prompt,
    entry_view, files_model, from_working_log_model, line_attribution_spec, line_entry_index,
    log_state, session_of, sm_map, add_to_entries, all_valid, apply_checkpoints, apply_deletions, apply_entries, apply_entry, author_key_spec, entries_valid,
    expand_lines, find_entry, is_normal_form_of, line_to_range, normal_form_spec,
    remove_from_entries, remove_lines_spec, sorted_set_of, state_valid,
};
use crate::line_range::{
    LineRange, compress_spec, lr_end, lr_has, lr_lines, lr_remove, lr_start, lr_valid, seq_has,
    seq_lines, strictly_increasing,
};
use crate::str_map::lookup;
use crate::working_log::{Checkpoint, Line, WorkingLogEntry, opt_str_view};

verus! {

/// The increasing sequence of the distinct numbers of `s` below `n`.
spec fn sorted_below(s: Seq<u32>, n: nat) -> Seq<u32>
    decreases n,
{
    if n == 0 {
        seq![]
    } else {
        let r = sorted_below(s, (n - 1) as nat);
        if s.contains((n - 1) as u32) {
            r.push((n - 1) as u32)
        } else {
            r
        }
    }
}

proof fn lemma_sorted_below(s: Seq<u32>, n: nat)
    requires
        n <= 0x1_0000_0000,
    ensures
        strictly_increasing(sorted_below(s, n)),
        forall|x: u32| #[trigger] sorted_below(s, n).contains(x) <==> (s.contains(x) && x < n),
    decreases n,
{
    if n > 0 {
        lemma_sorted_below(s, (n - 1) as nat);
        let r = sorted_below(s, (n - 1) as nat);
        let x = (n - 1) as u32;
        assert(x as int == n - 1);
        if s.contains(x) {
            let t = r.push(x);
            assert forall|i: int| 0 <= i < r.len() implies r[i] < x by {
                assert(r.contains(r[i]));
            }
            assert forall|y: u32| #[trigger] t.contains(y) <==> (s.contains(y) && y < n) by {
                if t.contains(y) {
                    let k = choose|k: int| 0 <= k < t.len() && t[k] == y;
                    if k < r.len() {
                        assert(r[k] == y);
                        assert(r.contains(y));
                    }
                }
                if s.contains(y) && y < n {
                    if y < n - 1 {
                        assert(r.contains(y));
                        let k = choose|k: int| 0 <= k < r.len() && r[k] == y;
                        assert(t[k] == y);
                    } else {
                        assert(t[r.len() as int] == y);
                    }
                }
            }
        } else {
            assert forall|y: u32| #[trigger] r.contains(y) <==> (s.contains(y) && y < n) by {
                if s.contains(y) && y < n {
                    assert(y != x);
                }
            }
        }
    }
}

/// `sorted_set_of` is increasing and holds exactly the numbers of `s`.
pub proof fn lemma_sorted_set_of(s: Seq<u32>)
    ensures
        strictly_increasing(sorted_set_of(s)),
        forall|x: u32| #[trigger] sorted_set_of(s).contains(x) <==> s.contains(x),
{
    lemma_sorted_below(s, 0x1_0000_0000);
    let w = sorted_below(s, 0x1_0000_0000);
    assert(strictly_increasing(w) && forall|x: u32| #[trigger] w.contains(x) <==> s.contains(x));
}

/// The maximal runs of consecutive members of `set` below `n`, in order.
spec fn runs_below(set: Set<int>, n: nat) -> Seq<LineRange>
    decreases n,
{
    if n == 0 {
        seq![]
    } else {
        let r = runs_below(set, (n - 1) as nat);
        let x = n - 1;
        if set.contains(x) {
            if r.len() > 0 && lr_end(r.last()) == x - 1 {
                r.update(r.len() - 1, LineRange::Range(lr_start(r.last()) as u32, x as u32))
            } else {
                r.push(LineRange::Range(x as u32, x as u32))
            }
        } else {
            r
        }
    }
}

proof fn lemma_runs_below(set: Set<int>, n: nat)
    requires
        n <= 0x1_0000_0000,
    ensures
        all_valid(runs_below(set, n)),
        forall|i: int|
            0 <= i < runs_below(set, n).len() ==> 0 <= lr_start(#[trigger] runs_below(set, n)[i])
                && lr_end(runs_below(set, n)[i]) < n,
        forall|i: int, j: int|
            0 <= i < j < runs_below(set, n).len() ==> lr_end(#[trigger] runs_below(set, n)[i]) + 1
                < lr_start(#[trigger] runs_below(set, n)[j]),
        forall|l: int| seq_has(runs_below(set, n), l) <==> (set.contains(l) && 0 <= l < n),
        forall|i: int| 0 <= i < runs_below(set, n).len() ==> #[trigger] runs_below(set, n)[i] is Range,
    decreases n,
{
    if n > 0 {
        lemma_runs_below(set, (n - 1) as nat);
        let r = runs_below(set, (n - 1) as nat);
        let x = n - 1;
        assert((x as u32) as int == x);
        if set.contains(x) {
            if r.len() > 0 && lr_end(r.last()) == x - 1 {
                let k = r.len() - 1;
                let s0 = lr_start(r[k]);
                assert((s0 as u32) as int == s0);
                let t = r.update(k, LineRange::Range(s0 as u32, x as u32));
                assert(lr_start(t[k]) == s0 && lr_end(t[k]) == x);
                assert forall|i: int, j: int| 0 <= i < j < t.len() implies lr_end(#[trigger] t[i]) + 1
                    < lr_start(#[trigger] t[j]) by {
                    assert(lr_end(r[i]) + 1 < lr_start(r[j]));
                }
                assert forall|l: int| seq_has(t, l) <==> (set.contains(l) && 0 <= l < n) by {
                    if seq_has(t, l) {
                        let q = choose|q: int| 0 <= q < t.len() && lr_has(#[trigger] t[q], l);
                        if q < k || l < x {
                            assert(lr_has(r[q], l));
                        }
                    }
                    if set.contains(l) && 0 <= l < n {
                        if l < x {
                            assert(seq_has(r, l));
                            let q = choose|q: int| 0 <= q < r.len() && lr_has(#[trigger] r[q], l);
                            assert(lr_has(t[q], l));
                        } else {
                            assert(lr_has(t[k], l));
                        }
                    }
                }
                assert forall|i: int| 0 <= i < t.len() implies lr_valid(#[trigger] t[i]) by {
                    assert(lr_valid(r[i]));
                }
            } else {
                let t = r.push(LineRange::Range(x as u32, x as u32));
                if r.len() > 0 {
                    assert(lr_end(r[r.len() - 1]) < x - 1);
                }
                assert forall|i: int, j: int| 0 <= i < j < t.len() implies lr_end(#[trigger] t[i]) + 1
                    < lr_start(#[trigger] t[j]) by {
                    if j == r.len() {
                        if i < r.len() - 1 {
                            assert(lr_end(r[i]) + 1 < lr_start(r[r.len() - 1]));
                            assert(lr_valid(r[r.len() - 1]));
                        }
                    }
                }
                assert forall|l: int| seq_has(t, l) <==> (set.contains(l) && 0 <= l < n) by {
                    if seq_has(t, l) {
                        let q = choose|q: int| 0 <= q < t.len() && lr_has(#[trigger] t[q], l);
                        if q < r.len() {
                            assert(lr_has(r[q], l));
                        }
                    }
                    if set.contains(l) && 0 <= l < n {
                        if l < x {
                            assert(seq_has(r, l));
                            let q = choose|q: int| 0 <= q < r.len() && lr_has(#[trigger] r[q], l);
                            assert(lr_has(t[q], l));
                        } else {
                            assert(lr_has(t[r.len() as int], l));
                        }
                    }
                }
            }
        } else {
            assert forall|l: int| seq_has(r, l) <==> (set.contains(l) && 0 <= l < n) by {
                if set.contains(l) && 0 <= l < n {
                    assert(l != x);
                }
            }
        }
    }
}

/// A one-line range written as `Single` when the input holds that `Single`.
spec fn fix_single(r: LineRange, input: Seq<LineRange>) -> LineRange {
    if lr_start(r) == lr_end(r) && input.contains(LineRange::Single(lr_start(r) as u32)) {
        LineRange::Single(lr_start(r) as u32)
    } else {
        r
    }
}

/// Every sequence of ranges has a normal form.
pub proof fn lemma_normal_form_exists(input: Seq<LineRange>)
    ensures
        is_normal_form_of(normal_form_spec(input), input),
{
    let set = seq_lines(input);
    let n: nat = 0x1_0000_0000;
    lemma_runs_below(set, n);
    let r = runs_below(set, n);
    let out = r.map_values(|x: LineRange| fix_single(x, input));
    assert forall|i: int| 0 <= i < out.len() implies lr_start(#[trigger] out[i]) == lr_start(r[i])
        && lr_end(out[i]) == lr_end(r[i]) by {
        assert(0 <= lr_start(r[i]) && lr_end(r[i]) < n);
        assert((lr_start(r[i]) as u32) as int == lr_start(r[i]));
    }
    assert forall|l: int| seq_has(out, l) <==> seq_has(r, l) by {
        if seq_has(out, l) {
            let q = choose|q: int| 0 <= q < out.len() && lr_has(#[trigger] out[q], l);
            assert(lr_has(r[q], l));
        }
        if seq_has(r, l) {
            let q = choose|q: int| 0 <= q < r.len() && lr_has(#[trigger] r[q], l);
            assert(lr_has(out[q], l));
        }
    }
    assert forall|l: int| seq_has(input, l) ==> 0 <= l < n by {
        if seq_has(input, l) {
            let q = choose|q: int| 0 <= q < input.len() && lr_has(#[trigger] input[q], l);
        }
    }
    assert(seq_lines(out) =~= seq_lines(input));
    assert forall|i: int| 0 <= i < out.len() implies lr_valid(#[trigger] out[i]) by {
        assert(lr_valid(r[i]));
    }
    assert forall|i: int, j: int| 0 <= i < j < out.len() implies lr_end(#[trigger] out[i]) + 1
        < lr_start(#[trigger] out[j]) by {
        assert(lr_end(r[i]) + 1 < lr_start(r[j]));
    }
    assert forall|i: int|
        0 <= i < out.len() && lr_start(#[trigger] out[i]) == lr_end(out[i]) implies ((out[i] is Single)
        <==> input.contains(LineRange::Single(lr_start(out[i]) as u32))) by {
        assert(r[i] is Range);
    }
    assert(is_normal_form_of(out, input));
}


/// An attribution entry's view: lines, author key, prompt session, turn.
pub type EntryView = (Seq<LineRange>, Seq<char>, Option<Seq<char>>, Option<u32>);

/// Some working-log line of `ls` covers line `l`.
pub open spec fn lines_cover(ls: Seq<Line>, l: int) -> bool {
    exists|i: int| 0 <= i < ls.len() && lr_has(line_to_range(#[trigger] ls[i]), l)
}

/// The entries of `file` in a state (none when the file has none).
pub open spec fn file_entries(st: LogState, file: Seq<char>) -> Seq<EntryView> {
    if st.0.contains_key(file) {
        st.0[file]
    } else {
        seq![]
    }
}

proof fn lemma_seq_has_concat(a: Seq<LineRange>, b: Seq<LineRange>, l: int)
    ensures
        seq_has(a + b, l) <==> (seq_has(a, l) || seq_has(b, l)),
{
    if seq_has(a + b, l) {
        let q = choose|q: int| 0 <= q < (a + b).len() && lr_has(#[trigger] (a + b)[q], l);
        if q < a.len() {
            assert((a + b)[q] == a[q]);
        } else {
            assert((a + b)[q] == b[q - a.len()]);
        }
    }
    if seq_has(a, l) {
        let q = choose|q: int| 0 <= q < a.len() && lr_has(#[trigger] a[q], l);
        assert((a + b)[q] == a[q]);
    }
    if seq_has(b, l) {
        let q = choose|q: int| 0 <= q < b.len() && lr_has(#[trigger] b[q], l);
        assert((a + b)[q + a.len()] == b[q]);
    }
}

proof fn lemma_remove_lines_lines(lines: Seq<LineRange>, rm: Seq<LineRange>, l: int)
    requires
        all_valid(lines),
    ensures
        seq_has(remove_lines_spec(lines, rm), l) <==> (seq_has(lines, l) && !seq_has(rm, l)),
        seq_has(remove_lines_spec(lines, rm), l) ==> seq_has(lines, l),
        rm.len() == 1 ==> (seq_has(remove_lines_spec(lines, rm), l) <==> (seq_has(lines, l) && !lr_has(
            rm[0],
            l,
        ))),
        rm.len() >= 1 && (forall|k: int| 0 <= k < rm.len() ==> !lr_has(#[trigger] rm[k], l)) ==> (seq_has(
            remove_lines_spec(lines, rm),
            l,
        ) <==> seq_has(lines, l)),
{
    crate::authorship_log::lemma_remove_lines_difference(lines, rm);
    assert(seq_lines(remove_lines_spec(lines, rm)).contains(l) == seq_has(remove_lines_spec(lines, rm), l));
    assert(seq_lines(lines).contains(l) == seq_has(lines, l));
    assert(seq_lines(rm).contains(l) == seq_has(rm, l));
    if rm.len() == 1 {
        if seq_has(rm, l) {
            let q = choose|q: int| 0 <= q < rm.len() && lr_has(#[trigger] rm[q], l);
            assert(q == 0);
        }
        if lr_has(rm[0], l) {
            assert(seq_has(rm, l));
        }
    }
}

proof fn lemma_remove_from_entries(es: Seq<EntryView>, rm: Seq<LineRange>, l: int)
    requires
        entries_valid(es),
    ensures
        remove_from_entries(es, rm).len() == es.len(),
        entries_valid(remove_from_entries(es, rm)),
        forall|i: int|
            0 <= i < es.len() ==> (#[trigger] remove_from_entries(es, rm)[i]).1 == es[i].1
                && remove_from_entries(es, rm)[i].2 == es[i].2 && remove_from_entries(es, rm)[i].3
                == es[i].3,
        forall|i: int|
            0 <= i < es.len() && seq_has((#[trigger] remove_from_entries(es, rm)[i]).0, l) ==> seq_has(
                es[i].0,
                l,
            ),
        rm.len() == 1 ==> forall|i: int|
            0 <= i < es.len() ==> (seq_has((#[trigger] remove_from_entries(es, rm)[i]).0, l) <==> (
            seq_has(es[i].0, l) && !lr_has(rm[0], l))),
        forall|i: int|
            0 <= i < es.len() ==> (seq_has((#[trigger] remove_from_entries(es, rm)[i]).0, l) <==> (
            seq_has(es[i].0, l) && !seq_has(rm, l))),
        rm.len() >= 1 && (forall|k: int| 0 <= k < rm.len() ==> !lr_has(#[trigger] rm[k], l)) ==> forall|
            i: int,
        |
            0 <= i < es.len() ==> (seq_has((#[trigger] remove_from_entries(es, rm)[i]).0, l) <==> seq_has(
                es[i].0,
                l,
            )),
{
    let r = remove_from_entries(es, rm);
    assert forall|i: int| 0 <= i < es.len() implies #[trigger] r[i] == (
        remove_lines_spec(es[i].0, rm),
        es[i].1,
        es[i].2,
        es[i].3,
    ) by {}
    assert forall|i: int| 0 <= i < es.len() implies all_valid((#[trigger] r[i]).0) by {
        crate::authorship_log::lemma_remove_lines_valid(es[i].0, rm);
    }
    assert forall|i: int| 0 <= i < es.len() implies {
        &&& seq_has((#[trigger] r[i]).0, l) ==> seq_has(es[i].0, l)
        &&& (seq_has(r[i].0, l) <==> (seq_has(es[i].0, l) && !seq_has(rm, l)))
        &&& rm.len() == 1 ==> (seq_has(r[i].0, l) <==> (seq_has(es[i].0, l) && !lr_has(rm[0], l)))
        &&& rm.len() >= 1 && (forall|k: int| 0 <= k < rm.len() ==> !lr_has(#[trigger] rm[k], l)) ==> (
        seq_has(r[i].0, l) <==> seq_has(es[i].0, l))
    } by {
        lemma_remove_lines_lines(es[i].0, rm, l);
    }
}

proof fn lemma_apply_deletions(es: Seq<EntryView>, dels: Seq<Line>, l: int)
    requires
        entries_valid(es),
    ensures
        apply_deletions(es, dels).len() == es.len(),
        entries_valid(apply_deletions(es, dels)),
        forall|i: int|
            0 <= i < es.len() ==> (#[trigger] apply_deletions(es, dels)[i]).1 == es[i].1
                && apply_deletions(es, dels)[i].2 == es[i].2 && apply_deletions(es, dels)[i].3
                == es[i].3,
        forall|i: int|
            0 <= i < es.len() ==> (seq_has((#[trigger] apply_deletions(es, dels)[i]).0, l) <==> (
            seq_has(es[i].0, l) && !lines_cover(dels, l))),
    decreases dels.len(),
{
    if dels.len() > 0 {
        let p = dels.drop_last();
        lemma_apply_deletions(es, p, l);
        let mid = apply_deletions(es, p);
        let rm = seq![line_to_range(dels.last())];
        lemma_remove_from_entries(mid, rm, l);
        assert(lines_cover(dels, l) <==> (lines_cover(p, l) || lr_has(line_to_range(dels.last()), l))) by {
            if lines_cover(dels, l) {
                let q = choose|q: int| 0 <= q < dels.len() && lr_has(line_to_range(#[trigger] dels[q]), l);
                if q < p.len() {
                    assert(p[q] == dels[q]);
                }
            }
            if lines_cover(p, l) {
                let q = choose|q: int| 0 <= q < p.len() && lr_has(line_to_range(#[trigger] p[q]), l);
                assert(dels[q] == p[q]);
            }
            if lr_has(line_to_range(dels.last()), l) {
                assert(dels[dels.len() - 1] == dels.last());
            }
        }
    }
}

/// Line `x` is among the numbers of working-log lines exactly when one of
/// them covers it.
proof fn lemma_expand_lines(ls: Seq<Line>, x: u32)
    ensures
        expand_lines(ls).contains(x) <==> lines_cover(ls, x as int),
    decreases ls.len(),
{
    if ls.len() > 0 {
        let p = ls.drop_last();
        lemma_expand_lines(p, x);
        let last = crate::authorship_log::expand_line(ls.last());
        let whole = expand_lines(ls);
        assert(whole == expand_lines(p) + last);
        assert(last.contains(x) <==> lr_has(line_to_range(ls.last()), x as int)) by {
            match ls.last() {
                Line::Single(v) => {
                    if last.contains(x) {
                        assert(last[0] == v);
                    }
                    if lr_has(line_to_range(ls.last()), x as int) {
                        assert(last[0] == x);
                    }
                },
                Line::Range(a, b) => {
                    if last.contains(x) {
                        let k = choose|k: int| 0 <= k < last.len() && last[k] == x;
                        assert(a + k <= b);
                        assert(((a + k) as u32) as int == a + k);
                    }
                    if lr_has(line_to_range(ls.last()), x as int) {
                        let k = x - a;
                        assert(((a + k) as u32) as int == a + k);
                        assert(last[k] == x);
                    }
                },
            }
        }
        assert(whole.contains(x) <==> (expand_lines(p).contains(x) || last.contains(x))) by {
            if whole.contains(x) {
                let k = choose|k: int| 0 <= k < whole.len() && whole[k] == x;
                if k < expand_lines(p).len() {
                    assert(expand_lines(p)[k] == x);
                } else {
                    assert(last[k - expand_lines(p).len()] == x);
                }
            }
            if expand_lines(p).contains(x) {
                let k = choose|k: int| 0 <= k < expand_lines(p).len() && expand_lines(p)[k] == x;
                assert(whole[k] == x);
            }
            if last.contains(x) {
                let k = choose|k: int| 0 <= k < last.len() && last[k] == x;
                assert(whole[k + expand_lines(p).len()] == x);
            }
        }
        assert(lines_cover(ls, x as int) <==> (lines_cover(p, x as int) || lr_has(line_to_range(ls.last()), x as int))) by {
            if lines_cover(ls, x as int) {
                let q = choose|q: int| 0 <= q < ls.len() && lr_has(line_to_range(#[trigger] ls[q]), x as int);
                if q < p.len() {
                    assert(p[q] == ls[q]);
                }
            }
            if lines_cover(p, x as int) {
                let q = choose|q: int| 0 <= q < p.len() && lr_has(line_to_range(#[trigger] p[q]), x as int);
                assert(ls[q] == p[q]);
            }
            if lr_has(line_to_range(ls.last()), x as int) {
                assert(ls[ls.len() - 1] == ls.last());
            }
        }
    }
}

/// The ranges of the lines an entry adds hold exactly the lines it covers.
proof fn lemma_added_ranges(e: WorkingLogEntry, l: int)
    ensures
        ({
            let added = sorted_set_of(expand_lines(e.added_lines@));
            let ltr = compress_spec(added);
            &&& all_valid(ltr)
            &&& (seq_has(ltr, l) <==> lines_cover(e.added_lines@, l))
            &&& (lines_cover(e.added_lines@, l) ==> added.len() > 0)
        }),
{
    let s = expand_lines(e.added_lines@);
    let added = sorted_set_of(s);
    lemma_sorted_set_of(s);
    crate::line_range::lemma_compress_lines(added);
    let ltr = compress_spec(added);
    assert(seq_lines(ltr).contains(l) == seq_has(ltr, l));
    if lines_cover(e.added_lines@, l) {
        let q = choose|q: int| 0 <= q < e.added_lines@.len() && lr_has(line_to_range(#[trigger] e.added_lines@[q]), l);
        assert(0 <= l <= u32::MAX);
        let x = l as u32;
        lemma_expand_lines(e.added_lines@, x);
        assert(added.contains(x));
        let k = choose|k: int| 0 <= k < added.len() && added[k] == x;
        assert(exists|i: int| 0 <= i < added.len() && added[i] == l);
    }
    if seq_has(ltr, l) {
        let i = choose|i: int| 0 <= i < added.len() && added[i] == l;
        let x = added[i];
        assert(added.contains(x));
        lemma_expand_lines(e.added_lines@, x);
    }
    assert forall|i: int| 0 <= i < ltr.len() implies lr_valid(#[trigger] ltr[i]) by {}
}

/// A found entry is in range and has the author and prompt looked for.
proof fn lemma_find_entry(es: Seq<EntryView>, key: Seq<char>, sid: Option<Seq<char>>, turn: Option<u32>)
    ensures
        find_entry(es, key, sid, turn) matches Some(j) ==> 0 <= j < es.len() && es[j].1 == key
            && es[j].2 == sid && es[j].3 == turn,
    decreases es.len(),
{
    if es.len() > 0 {
        lemma_find_entry(es.drop_last(), key, sid, turn);
    }
}

/// The entry an addition goes to: the one found, or a new one at the end.
pub open spec fn target_entry(es: Seq<EntryView>, key: Seq<char>, sid: Option<Seq<char>>, turn: Option<u32>) -> int {
    match find_entry(es, key, sid, turn) {
        Some(j) => j,
        None => es.len() as int,
    }
}

proof fn lemma_add_to_entries(
    es: Seq<EntryView>,
    ltr: Seq<LineRange>,
    key: Seq<char>,
    sid: Option<Seq<char>>,
    turn: Option<u32>,
    l: int,
)
    ensures
        ({
            let r = add_to_entries(es, ltr, key, sid, turn);
            let t = target_entry(es, key, sid, turn);
            &&& es.len() <= r.len() <= es.len() + 1
            &&& 0 <= t < r.len()
            &&& r[t].1 == key && r[t].2 == sid && r[t].3 == turn
            &&& (forall|i: int| 0 <= i < r.len() && i != t ==> i < es.len() && #[trigger] r[i] == es[i])
            &&& (seq_has(r[t].0, l) <==> ((t < es.len() && seq_has(es[t].0, l)) || seq_has(ltr, l)))
            &&& all_valid(r[t].0)
        }),
{
    lemma_find_entry(es, key, sid, turn);
    let r = add_to_entries(es, ltr, key, sid, turn);
    let t = target_entry(es, key, sid, turn);
    match find_entry(es, key, sid, turn) {
        Some(j) => {
            lemma_normal_form_exists(es[j].0 + ltr);
            lemma_seq_has_concat(es[j].0, ltr, l);
            assert(seq_lines(r[t].0).contains(l) == seq_has(r[t].0, l));
            assert(seq_lines(es[j].0 + ltr).contains(l) == seq_has(es[j].0 + ltr, l));
        },
        None => {
            lemma_normal_form_exists(ltr);
            assert(seq_lines(r[t].0).contains(l) == seq_has(r[t].0, l));
            assert(seq_lines(ltr).contains(l) == seq_has(ltr, l));
        },
    }
}

/// The lines an entry deletes, and does not add back, belong to no
/// attribution of its file afterwards.
pub proof fn lemma_deleted_line_unattributed(
    st: LogState,
    e: WorkingLogEntry,
    author: Seq<char>,
    sid: Option<Seq<char>>,
    turn: Option<u32>,
    l: int,
)
    requires
        state_valid(st),
        lines_cover(e.deleted_lines@, l),
        !lines_cover(e.added_lines@, l),
    ensures
        forall|i: int|
            0 <= i < file_entries(apply_entry(st, e, author, sid, turn), e.file@).len() ==> !seq_has(
                (#[trigger] file_entries(apply_entry(st, e, author, sid, turn), e.file@)[i]).0,
                l,
            ),
{
    let fe0 = file_entries(st, e.file@);
    assert(entries_valid(fe0));
    lemma_apply_deletions(fe0, e.deleted_lines@, l);
    let fe1 = apply_deletions(fe0, e.deleted_lines@);
    lemma_added_ranges(e, l);
    let added = sorted_set_of(expand_lines(e.added_lines@));
    let after = file_entries(apply_entry(st, e, author, sid, turn), e.file@);
    if added.len() > 0 {
        let ltr = compress_spec(added);
        let key = author_key_spec(author, seq![]);
        lemma_remove_from_entries(fe1, ltr, l);
        let fe2 = remove_from_entries(fe1, ltr);
        lemma_add_to_entries(fe2, ltr, key, sid, turn, l);
        assert(after == add_to_entries(fe2, ltr, key, sid, turn));
        assert forall|i: int| 0 <= i < after.len() implies !seq_has((#[trigger] after[i]).0, l) by {
            let t = target_entry(fe2, key, sid, turn);
            if i != t {
                assert(after[i] == fe2[i]);
            }
        }
    } else {
        assert(after == fe1);
    }
}

/// After an entry adds a line, the attribution of the checkpoint's author
/// and prompt in its file holds that line.
pub proof fn lemma_added_line_attributed(
    st: LogState,
    e: WorkingLogEntry,
    author: Seq<char>,
    sid: Option<Seq<char>>,
    turn: Option<u32>,
    l: int,
)
    requires
        state_valid(st),
        lines_cover(e.added_lines@, l),
    ensures
        exists|j: int|
            0 <= j < file_entries(apply_entry(st, e, author, sid, turn), e.file@).len() && {
                let x = #[trigger] file_entries(apply_entry(st, e, author, sid, turn), e.file@)[j];
                &&& x.1 == author_key_spec(author, seq![])
                &&& x.2 == sid
                &&& x.3 == turn
                &&& seq_has(x.0, l)
            },
{
    let fe0 = file_entries(st, e.file@);
    assert(entries_valid(fe0));
    lemma_apply_deletions(fe0, e.deleted_lines@, l);
    let fe1 = apply_deletions(fe0, e.deleted_lines@);
    lemma_added_ranges(e, l);
    let added = sorted_set_of(expand_lines(e.added_lines@));
    let ltr = compress_spec(added);
    let key = author_key_spec(author, seq![]);
    lemma_remove_from_entries(fe1, ltr, l);
    let fe2 = remove_from_entries(fe1, ltr);
    lemma_add_to_entries(fe2, ltr, key, sid, turn, l);
    let after = file_entries(apply_entry(st, e, author, sid, turn), e.file@);
    assert(after == add_to_entries(fe2, ltr, key, sid, turn));
    let t = target_entry(fe2, key, sid, turn);
    assert(seq_has(after[t].0, l));
}

/// Each line an entry adds belongs afterwards to exactly one attribution of its file, the one
/// of the checkpoint's author and prompt.
pub proof fn lemma_addition_sole_owner(
    st: LogState,
    e: WorkingLogEntry,
    author: Seq<char>,
    sid: Option<Seq<char>>,
    turn: Option<u32>,
    l: int,
)
    requires
        state_valid(st),
        lines_cover(e.added_lines@, l),
    ensures
        forall|i: int, k: int|
            0 <= i < file_entries(apply_entry(st, e, author, sid, turn), e.file@).len() && 0 <= k
                < file_entries(apply_entry(st, e, author, sid, turn), e.file@).len() && seq_has(
                (#[trigger] file_entries(apply_entry(st, e, author, sid, turn), e.file@)[i]).0,
                l,
            ) && seq_has(
                (#[trigger] file_entries(apply_entry(st, e, author, sid, turn), e.file@)[k]).0,
                l,
            ) ==> i == k,
{
    let fe0 = file_entries(st, e.file@);
    assert(entries_valid(fe0));
    lemma_apply_deletions(fe0, e.deleted_lines@, l);
    let fe1 = apply_deletions(fe0, e.deleted_lines@);
    lemma_added_ranges(e, l);
    let added = sorted_set_of(expand_lines(e.added_lines@));
    let ltr = compress_spec(added);
    let key = author_key_spec(author, seq![]);
    lemma_remove_from_entries(fe1, ltr, l);
    let fe2 = remove_from_entries(fe1, ltr);
    assert(seq_has(ltr, l));
    lemma_add_to_entries(fe2, ltr, key, sid, turn, l);
    let after = file_entries(apply_entry(st, e, author, sid, turn), e.file@);
    assert(after == add_to_entries(fe2, ltr, key, sid, turn));
    let t = target_entry(fe2, key, sid, turn);
    assert forall|i: int| 0 <= i < after.len() && i != t implies !seq_has((#[trigger] after[i]).0, l) by {
        assert(after[i] == fe2[i]);
    }
}

/// Lines an entry neither deletes nor adds keep their attributions: each
/// earlier attribution of the file holds such a line afterwards exactly
/// when it held it before, and a new attribution does not hold it.
pub proof fn lemma_untouched_line_kept(
    st: LogState,
    e: WorkingLogEntry,
    author: Seq<char>,
    sid: Option<Seq<char>>,
    turn: Option<u32>,
    l: int,
)
    requires
        state_valid(st),
        !lines_cover(e.deleted_lines@, l),
        !lines_cover(e.added_lines@, l),
    ensures
        file_entries(st, e.file@).len() <= file_entries(apply_entry(st, e, author, sid, turn), e.file@).len(),
        forall|i: int|
            0 <= i < file_entries(apply_entry(st, e, author, sid, turn), e.file@).len() ==> (seq_has(
                (#[trigger] file_entries(apply_entry(st, e, author, sid, turn), e.file@)[i]).0,
                l,
            ) <==> (i < file_entries(st, e.file@).len() && seq_has(file_entries(st, e.file@)[i].0, l))),
{
    let fe0 = file_entries(st, e.file@);
    assert(entries_valid(fe0));
    lemma_apply_deletions(fe0, e.deleted_lines@, l);
    let fe1 = apply_deletions(fe0, e.deleted_lines@);
    lemma_added_ranges(e, l);
    let added = sorted_set_of(expand_lines(e.added_lines@));
    let after = file_entries(apply_entry(st, e, author, sid, turn), e.file@);
    if added.len() > 0 {
        let ltr = compress_spec(added);
        let key = author_key_spec(author, seq![]);
        lemma_sorted_set_of(expand_lines(e.added_lines@));
        crate::line_range::lemma_compress_lines(added);
        assert(ltr.len() >= 1);
        assert forall|k: int| 0 <= k < ltr.len() implies !lr_has(#[trigger] ltr[k], l) by {
            if lr_has(ltr[k], l) {
                assert(seq_has(ltr, l));
            }
        }
        lemma_remove_from_entries(fe1, ltr, l);
        let fe2 = remove_from_entries(fe1, ltr);
        lemma_add_to_entries(fe2, ltr, key, sid, turn, l);
        assert(after == add_to_entries(fe2, ltr, key, sid, turn));
        assert forall|i: int| 0 <= i < after.len() implies (seq_has((#[trigger] after[i]).0, l) <==> (i
            < fe0.len() && seq_has(fe0[i].0, l))) by {
            let t = target_entry(fe2, key, sid, turn);
            if i != t {
                assert(after[i] == fe2[i]);
            }
        }
    } else {
        assert(after == fe1);
    }
}


/// Each author is recorded under its own key.
pub open spec fn authors_keyed(authors: Map<Seq<char>, (Seq<char>, Seq<char>)>) -> bool {
    forall|k: Seq<char>| #[trigger] authors.contains_key(k) ==> k == author_key_spec(authors[k].0, authors[k].1)
}

/// `a` keeps every author of `b`.
pub open spec fn authors_grow(b: Map<Seq<char>, (Seq<char>, Seq<char>)>, a: Map<Seq<char>, (Seq<char>, Seq<char>)>) -> bool {
    forall|k: Seq<char>| #[trigger] b.contains_key(k) ==> a.contains_key(k) && a[k] == b[k]
}

/// `a` keeps, position by position, the author and prompt of each entry of
/// `b`, and has at most one entry more.
pub open spec fn keys_kept(b: Seq<EntryView>, a: Seq<EntryView>) -> bool {
    &&& b.len() <= a.len() <= b.len() + 1
    &&& forall|i: int| 0 <= i < b.len() ==> (#[trigger] a[i]).1 == b[i].1 && a[i].2 == b[i].2 && a[i].3 == b[i].3
}

/// What one working-log entry leaves alone: other files, known authors,
/// the prompts, each entry's author and prompt; and validity.
proof fn lemma_apply_entry_frame(
    st: LogState,
    e: WorkingLogEntry,
    author: Seq<char>,
    sid: Option<Seq<char>>,
    turn: Option<u32>,
)
    requires
        state_valid(st),
    ensures
        ({
            let after = apply_entry(st, e, author, sid, turn);
            &&& state_valid(after)
            &&& after.0.contains_key(e.file@)
            &&& (forall|f: Seq<char>| f != e.file@ ==> #[trigger] file_entries(after, f) == file_entries(st, f))
            &&& authors_grow(st.1, after.1)
            &&& (authors_keyed(st.1) ==> authors_keyed(after.1))
            &&& after.2 == st.2
            &&& keys_kept(file_entries(st, e.file@), file_entries(after, e.file@))
        }),
{
    let fe0 = file_entries(st, e.file@);
    assert(entries_valid(fe0));
    lemma_apply_deletions(fe0, e.deleted_lines@, 0);
    let fe1 = apply_deletions(fe0, e.deleted_lines@);
    lemma_added_ranges(e, 0);
    let added = sorted_set_of(expand_lines(e.added_lines@));
    let after = apply_entry(st, e, author, sid, turn);
    let fa = file_entries(after, e.file@);
    if added.len() > 0 {
        let ltr = compress_spec(added);
        let key = author_key_spec(author, seq![]);
        lemma_remove_from_entries(fe1, ltr, 0);
        let fe2 = remove_from_entries(fe1, ltr);
        lemma_add_to_entries(fe2, ltr, key, sid, turn, 0);
        lemma_find_entry(fe2, key, sid, turn);
        assert(fa == add_to_entries(fe2, ltr, key, sid, turn));
        let t = target_entry(fe2, key, sid, turn);
        assert(entries_valid(fa)) by {
            assert forall|i: int| 0 <= i < fa.len() implies all_valid(#[trigger] fa[i].0) by {
                if i != t {
                    assert(fa[i] == fe2[i]);
                }
            }
        }
        assert forall|i: int| 0 <= i < fe0.len() implies (#[trigger] fa[i]).1 == fe0[i].1 && fa[i].2
            == fe0[i].2 && fa[i].3 == fe0[i].3 by {
            if i != t {
                assert(fa[i] == fe2[i]);
            }
        }
    } else {
        assert(fa == fe1);
    }
    assert forall|k: Seq<char>| #[trigger] after.0.contains_key(k) implies entries_valid(after.0[k]) by {
        if k != e.file@ {
            assert(st.0.contains_key(k));
        }
    }
    assert forall|f: Seq<char>| f != e.file@ implies #[trigger] file_entries(after, f) == file_entries(st, f) by {}
}

/// A line held by exactly one entry of a file, which has this author and
/// prompt.
pub open spec fn sole_holder(es: Seq<EntryView>, l: int, key: Seq<char>, sid: Option<Seq<char>>, turn: Option<u32>) -> bool {
    exists|j: int|
        0 <= j < es.len() && (#[trigger] es[j]).1 == key && es[j].2 == sid && es[j].3 == turn && seq_has(es[j].0, l)
            && forall|i: int| 0 <= i < es.len() && i != j ==> !seq_has((#[trigger] es[i]).0, l)
}

/// No entry of a file holds the line.
pub open spec fn no_holder(es: Seq<EntryView>, l: int) -> bool {
    forall|i: int| 0 <= i < es.len() ==> !seq_has((#[trigger] es[i]).0, l)
}

/// An entry that does not touch a line leaves it without holder if it had none.
proof fn lemma_no_holder_kept(
    st: LogState,
    e: WorkingLogEntry,
    author: Seq<char>,
    sid: Option<Seq<char>>,
    turn: Option<u32>,
    file: Seq<char>,
    l: int,
)
    requires
        state_valid(st),
        !touches(e, file, l),
        no_holder(file_entries(st, file), l),
    ensures
        no_holder(file_entries(apply_entry(st, e, author, sid, turn), file), l),
{
    lemma_apply_entry_frame(st, e, author, sid, turn);
    if e.file@ == file {
        lemma_untouched_line_kept(st, e, author, sid, turn, l);
        let b = file_entries(st, file);
        let a = file_entries(apply_entry(st, e, author, sid, turn), file);
        assert forall|i: int| 0 <= i < a.len() implies !seq_has((#[trigger] a[i]).0, l) by {
            if i < b.len() {
                assert(!seq_has(b[i].0, l));
            }
        }
    }
}

/// A working-log entry touches line `l` of `file` when it is for that file
/// and deletes or adds the line.
pub open spec fn touches(e: WorkingLogEntry, file: Seq<char>, l: int) -> bool {
    e.file@ == file && (lines_cover(e.deleted_lines@, l) || lines_cover(e.added_lines@, l))
}

/// An entry that does not touch a line keeps that line's sole holder.
proof fn lemma_sole_holder_kept(
    st: LogState,
    e: WorkingLogEntry,
    author: Seq<char>,
    sid: Option<Seq<char>>,
    turn: Option<u32>,
    file: Seq<char>,
    l: int,
    key: Seq<char>,
    hsid: Option<Seq<char>>,
    hturn: Option<u32>,
)
    requires
        state_valid(st),
        !touches(e, file, l),
        sole_holder(file_entries(st, file), l, key, hsid, hturn),
    ensures
        sole_holder(file_entries(apply_entry(st, e, author, sid, turn), file), l, key, hsid, hturn),
{
    lemma_apply_entry_frame(st, e, author, sid, turn);
    if e.file@ == file {
        lemma_untouched_line_kept(st, e, author, sid, turn, l);
        let b = file_entries(st, file);
        let a = file_entries(apply_entry(st, e, author, sid, turn), file);
        let j = choose|j: int|
            0 <= j < b.len() && (#[trigger] b[j]).1 == key && b[j].2 == hsid && b[j].3 == hturn && seq_has(b[j].0, l)
                && forall|i: int| 0 <= i < b.len() && i != j ==> !seq_has((#[trigger] b[i]).0, l);
        assert(a[j].1 == key && a[j].2 == hsid && a[j].3 == hturn && seq_has(a[j].0, l));
        assert forall|i: int| 0 <= i < a.len() && i != j implies !seq_has((#[trigger] a[i]).0, l) by {
            if i < b.len() {
                assert(!seq_has(b[i].0, l));
            }
        }
    }
}

/// Adding a line makes the checkpoint's author and prompt
/// its sole holder.
proof fn lemma_sole_holder_made(
    st: LogState,
    e: WorkingLogEntry,
    author: Seq<char>,
    sid: Option<Seq<char>>,
    turn: Option<u32>,
    l: int,
)
    requires
        state_valid(st),
        lines_cover(e.added_lines@, l),
    ensures
        sole_holder(
            file_entries(apply_entry(st, e, author, sid, turn), e.file@),
            l,
            author_key_spec(author, seq![]),
            sid,
            turn,
        ),
        apply_entry(st, e, author, sid, turn).1.contains_key(author_key_spec(author, seq![])),
{
    lemma_added_line_attributed(st, e, author, sid, turn, l);
    lemma_addition_sole_owner(st, e, author, sid, turn, l);
    lemma_added_ranges(e, l);
    let a = file_entries(apply_entry(st, e, author, sid, turn), e.file@);
    let j = choose|j: int|
        0 <= j < a.len() && {
            let x = #[trigger] a[j];
            &&& x.1 == author_key_spec(author, seq![])
            &&& x.2 == sid
            &&& x.3 == turn
            &&& seq_has(x.0, l)
        };
    assert forall|i: int| 0 <= i < a.len() && i != j implies !seq_has((#[trigger] a[i]).0, l) by {
        if seq_has(a[i].0, l) {
            assert(seq_has(a[j].0, l));
        }
    }
}


proof fn lemma_apply_entries_concat(
    st: LogState,
    a: Seq<WorkingLogEntry>,
    b: Seq<WorkingLogEntry>,
    author: Seq<char>,
    sid: Option<Seq<char>>,
    turn: Option<u32>,
)
    ensures
        apply_entries(st, a + b, author, sid, turn) == apply_entries(
            apply_entries(st, a, author, sid, turn),
            b,
            author,
            sid,
            turn,
        ),
    decreases b.len(),
{
    if b.len() == 0 {
        assert(a + b =~= a);
    } else {
        lemma_apply_entries_concat(st, a, b.drop_last(), author, sid, turn);
        assert((a + b).drop_last() =~= a + b.drop_last());
        assert((a + b).last() == b.last());
    }
}

proof fn lemma_apply_checkpoints_concat(st: LogState, a: Seq<Checkpoint>, b: Seq<Checkpoint>)
    ensures
        apply_checkpoints(st, a + b) == apply_checkpoints(apply_checkpoints(st, a), b),
    decreases b.len(),
{
    if b.len() == 0 {
        assert(a + b =~= a);
    } else {
        lemma_apply_checkpoints_concat(st, a, b.drop_last());
        assert((a + b).drop_last() =~= a + b.drop_last());
        assert((a + b).last() == b.last());
    }
}

/// Entries that do not touch a line keep its sole holder; validity and
/// known authors are kept too.
proof fn lemma_apply_entries_kept(
    st: LogState,
    es: Seq<WorkingLogEntry>,
    author: Seq<char>,
    sid: Option<Seq<char>>,
    turn: Option<u32>,
    file: Seq<char>,
    l: int,
    key: Seq<char>,
    hsid: Option<Seq<char>>,
    hturn: Option<u32>,
)
    requires
        state_valid(st),
        forall|i: int| 0 <= i < es.len() ==> !touches(#[trigger] es[i], file, l),
    ensures
        ({
            let after = apply_entries(st, es, author, sid, turn);
            &&& state_valid(after)
            &&& authors_grow(st.1, after.1)
            &&& (authors_keyed(st.1) ==> authors_keyed(after.1))
            &&& after.2 == st.2
            &&& (sole_holder(file_entries(st, file), l, key, hsid, hturn) ==> sole_holder(
                file_entries(after, file),
                l,
                key,
                hsid,
                hturn,
            ))
            &&& (no_holder(file_entries(st, file), l) ==> no_holder(file_entries(after, file), l))
        }),
    decreases es.len(),
{
    if es.len() > 0 {
        let p = es.drop_last();
        assert forall|i: int| 0 <= i < p.len() implies !touches(#[trigger] p[i], file, l) by {
            assert(p[i] == es[i]);
        }
        lemma_apply_entries_kept(st, p, author, sid, turn, file, l, key, hsid, hturn);
        let mid = apply_entries(st, p, author, sid, turn);
        lemma_apply_entry_frame(mid, es.last(), author, sid, turn);
        assert(!touches(es[es.len() - 1], file, l));
        if sole_holder(file_entries(st, file), l, key, hsid, hturn) {
            lemma_sole_holder_kept(mid, es.last(), author, sid, turn, file, l, key, hsid, hturn);
        }
        if no_holder(file_entries(st, file), l) {
            lemma_no_holder_kept(mid, es.last(), author, sid, turn, file, l);
        }
    }
}

/// Checkpoints whose entries do not touch a line keep its sole holder;
/// validity and known authors are kept too.
proof fn lemma_apply_checkpoints_kept(
    st: LogState,
    cs: Seq<Checkpoint>,
    file: Seq<char>,
    l: int,
    key: Seq<char>,
    hsid: Option<Seq<char>>,
    hturn: Option<u32>,
)
    requires
        state_valid(st),
        forall|k: int, m: int|
            0 <= k < cs.len() && 0 <= m < cs[k].entries@.len() ==> !touches(
                #[trigger] cs[k].entries@[m],
                file,
                l,
            ),
    ensures
        ({
            let after = apply_checkpoints(st, cs);
            &&& state_valid(after)
            &&& authors_grow(st.1, after.1)
            &&& (authors_keyed(st.1) ==> authors_keyed(after.1))
            &&& (sole_holder(file_entries(st, file), l, key, hsid, hturn) ==> sole_holder(
                file_entries(after, file),
                l,
                key,
                hsid,
                hturn,
            ))
            &&& (no_holder(file_entries(st, file), l) ==> no_holder(file_entries(after, file), l))
        }),
    decreases cs.len(),
{
    if cs.len() > 0 {
        let p = cs.drop_last();
        assert forall|k: int, m: int| 0 <= k < p.len() && 0 <= m < p[k].entries@.len() implies !touches(
            #[trigger] p[k].entries@[m],
            file,
            l,
        ) by {
            assert(p[k] == cs[k]);
        }
        lemma_apply_checkpoints_kept(st, p, file, l, key, hsid, hturn);
        let mid = apply_checkpoints(st, p);
        let c = cs.last();
        let st1 = (mid.0, mid.1, crate::authorship_log::update_prompts(mid.2, c));
        assert(state_valid(st1));
        assert forall|i: int| 0 <= i < c.entries@.len() implies !touches(#[trigger] c.entries@[i], file, l) by {
            assert(cs[cs.len() - 1] == c);
        }
        assert(file_entries(st1, file) == file_entries(mid, file));
        lemma_apply_entries_kept(
            st1,
            c.entries@,
            c.author@,
            crate::authorship_log::session_of(c).0,
            crate::authorship_log::session_of(c).1,
            file,
            l,
            key,
            hsid,
            hturn,
        );
    }
}

/// Validity and well-keyed authors hold after any checkpoints.
proof fn lemma_apply_checkpoints_valid(cs: Seq<Checkpoint>)
    ensures
        state_valid(apply_checkpoints(crate::authorship_log::empty_state(), cs)),
        authors_keyed(apply_checkpoints(crate::authorship_log::empty_state(), cs).1),
{
    let st = crate::authorship_log::empty_state();
    assert(state_valid(st));
    assert(authors_keyed(st.1));
    assert forall|k: int, m: int|
        0 <= k < cs.len() && 0 <= m < cs[k].entries@.len() implies !touches(
        #[trigger] cs[k].entries@[m],
        seq!['-'],
        -1,
    ) by {
        let e = cs[k].entries@[m];
        if lines_cover(e.deleted_lines@, -1) {
            let q = choose|q: int| 0 <= q < e.deleted_lines@.len() && lr_has(line_to_range(#[trigger] e.deleted_lines@[q]), -1);
        }
        if lines_cover(e.added_lines@, -1) {
            let q = choose|q: int| 0 <= q < e.added_lines@.len() && lr_has(line_to_range(#[trigger] e.added_lines@[q]), -1);
        }
    }
    lemma_apply_checkpoints_kept(st, cs, seq!['-'], -1, seq![], None, None);
}

/// The last change to line `l` of a file: entry `m` of checkpoint `k`
/// adds it, and no later entry, in that checkpoint or a later one, deletes
/// or adds it.
pub open spec fn last_touch(cs: Seq<Checkpoint>, k: int, m: int, l: int) -> bool {
    &&& 0 <= k < cs.len()
    &&& 0 <= m < cs[k].entries@.len()
    &&& lines_cover(cs[k].entries@[m].added_lines@, l)
    &&& forall|m2: int|
        m < m2 < cs[k].entries@.len() ==> !touches(#[trigger] cs[k].entries@[m2], cs[k].entries@[m].file@, l)
    &&& forall|k2: int, m2: int|
        k < k2 < cs.len() && 0 <= m2 < cs[k2].entries@.len() ==> !touches(
            #[trigger] cs[k2].entries@[m2],
            cs[k].entries@[m].file@,
            l,
        )
}

/// After checkpoints, a line last changed by an addition belongs to
/// exactly one attribution of its file: that of the adding checkpoint's
/// author and prompt session; and that author is known.
pub proof fn lemma_last_addition_owns_line(cs: Seq<Checkpoint>, k: int, m: int, l: int)
    requires
        last_touch(cs, k, m, l),
    ensures
        ({
            let st = apply_checkpoints(crate::authorship_log::empty_state(), cs);
            let c = cs[k];
            &&& sole_holder(
                file_entries(st, c.entries@[m].file@),
                l,
                author_key_spec(c.author@, seq![]),
                crate::authorship_log::session_of(c).0,
                crate::authorship_log::session_of(c).1,
            )
            &&& st.1.contains_key(author_key_spec(c.author@, seq![]))
            &&& authors_keyed(st.1)
            &&& state_valid(st)
        }),
{
    let c = cs[k];
    let e = c.entries@[m];
    let file = e.file@;
    let key = author_key_spec(c.author@, seq![]);
    let sid = crate::authorship_log::session_of(c).0;
    let turn = crate::authorship_log::session_of(c).1;
    let empty = crate::authorship_log::empty_state();
    assert(cs =~= cs.take(k) + seq![c] + cs.skip(k + 1));
    lemma_apply_checkpoints_concat(empty, cs.take(k) + seq![c], cs.skip(k + 1));
    lemma_apply_checkpoints_concat(empty, cs.take(k), seq![c]);
    lemma_apply_checkpoints_valid(cs.take(k));
    let s0 = apply_checkpoints(empty, cs.take(k));
    assert(seq![c].drop_last() =~= Seq::<Checkpoint>::empty());
    assert(apply_checkpoints(s0, Seq::<Checkpoint>::empty()) == s0);
    assert(seq![c].last() == c);
    assert(apply_checkpoints(s0, seq![c]) == crate::authorship_log::apply_checkpoint(s0, c));
    let s1 = (s0.0, s0.1, crate::authorship_log::update_prompts(s0.2, c));
    let es = c.entries@;
    assert(es =~= es.take(m) + seq![e] + es.skip(m + 1));
    lemma_apply_entries_concat(s1, es.take(m) + seq![e], es.skip(m + 1), c.author@, sid, turn);
    lemma_apply_entries_concat(s1, es.take(m), seq![e], c.author@, sid, turn);
    assert(state_valid(s1));
    assert(authors_keyed(s1.1));
    lemma_apply_entries_kept(s1, Seq::<WorkingLogEntry>::empty(), c.author@, sid, turn, file, l, key, sid, turn);
    // entries before m: no claim about the line, validity and authors kept
    assert forall|i: int| 0 <= i < es.take(m).len() implies !touches(#[trigger] es.take(m)[i], seq!['-'], -1) by {
        let x = es.take(m)[i];
        if lines_cover(x.deleted_lines@, -1) {
            let q = choose|q: int| 0 <= q < x.deleted_lines@.len() && lr_has(line_to_range(#[trigger] x.deleted_lines@[q]), -1);
        }
        if lines_cover(x.added_lines@, -1) {
            let q = choose|q: int| 0 <= q < x.added_lines@.len() && lr_has(line_to_range(#[trigger] x.added_lines@[q]), -1);
        }
    }
    lemma_apply_entries_kept(s1, es.take(m), c.author@, sid, turn, seq!['-'], -1, seq![], None, None);
    let s2 = apply_entries(s1, es.take(m), c.author@, sid, turn);
    assert(seq![e].drop_last() =~= Seq::<WorkingLogEntry>::empty());
    assert(apply_entries(s2, Seq::<WorkingLogEntry>::empty(), c.author@, sid, turn) == s2);
    assert(seq![e].last() == e);
    assert(apply_entries(s2, seq![e], c.author@, sid, turn) == apply_entry(s2, e, c.author@, sid, turn));
    lemma_sole_holder_made(s2, e, c.author@, sid, turn, l);
    lemma_apply_entry_frame(s2, e, c.author@, sid, turn);
    let s3 = apply_entry(s2, e, c.author@, sid, turn);
    let rest = es.skip(m + 1);
    assert forall|i: int| 0 <= i < rest.len() implies !touches(#[trigger] rest[i], file, l) by {
        assert(rest[i] == es[m + 1 + i]);
    }
    lemma_apply_entries_kept(s3, rest, c.author@, sid, turn, file, l, key, sid, turn);
    let s4 = apply_entries(s3, rest, c.author@, sid, turn);
    assert(s4 == apply_checkpoints(empty, cs.take(k) + seq![c]));
    let later = cs.skip(k + 1);
    assert forall|k2: int, m2: int| 0 <= k2 < later.len() && 0 <= m2 < later[k2].entries@.len() implies !touches(
        #[trigger] later[k2].entries@[m2],
        file,
        l,
    ) by {
        assert(later[k2] == cs[k + 1 + k2]);
    }
    lemma_apply_checkpoints_kept(s4, later, file, l, key, sid, turn);
}


/// Entry `j` of `file` in a log.
pub open spec fn file_entry_at(log: AuthorshipLog, file: Seq<char>, j: int) -> AttributionEntry {
    lookup(log.files@, file).unwrap()@[j]
}

/// Scanning from the end, the sole holder of a line with a known author is
/// the entry found.
proof fn lemma_line_entry_index_sole(
    es: Seq<AttributionEntry>,
    l: int,
    authors: Seq<(Seq<char>, Author)>,
    j: int,
)
    requires
        0 <= j < es.len(),
        seq_has(es[j].lines@, l),
        lookup(authors, es[j].author_key@) is Some,
        forall|i: int| j < i < es.len() ==> !seq_has((#[trigger] es[i]).lines@, l),
    ensures
        line_entry_index(es, l, authors) == Some(j),
    decreases es.len(),
{
    if es.len() - 1 > j {
        let p = es.drop_last();
        assert forall|i: int| j < i < p.len() implies !seq_has((#[trigger] p[i]).lines@, l) by {
            assert(p[i] == es[i]);
        }
        assert(!seq_has(es[es.len() - 1].lines@, l));
        lemma_line_entry_index_sole(p, l, authors, j);
    }
}

/// What a read gives back of the last write: when line `l` of a file was
/// last changed by an addition in checkpoint `k`, the log built from
/// the checkpoints attributes the line to an entry with that checkpoint's
/// author key, prompt session and turn; the author answered is the one
/// recorded under that key (same key as the checkpoint's author), and the
/// prompt is the entry's.
pub proof fn lemma_latest_addition_wins(cs: Seq<Checkpoint>, k: int, m: int, l: int, log: AuthorshipLog)
    requires
        last_touch(cs, k, m, l),
        log_state(log) == from_working_log_model(cs),
    ensures
        lookup(log.files@, cs[k].entries@[m].file@) is Some,
        exists|j: int|
            {
                &&& 0 <= j < lookup(log.files@, cs[k].entries@[m].file@).unwrap()@.len()
                &&& (#[trigger] file_entry_at(log, cs[k].entries@[m].file@, j)).author_key@ == author_key_spec(
                    cs[k].author@,
                    seq![],
                )
                &&& opt_str_view(file_entry_at(log, cs[k].entries@[m].file@, j).prompt_session_id)
                    == session_of(cs[k]).0
                &&& file_entry_at(log, cs[k].entries@[m].file@, j).prompt_turn == session_of(cs[k]).1
                &&& lookup(log.authors@, author_key_spec(cs[k].author@, seq![])) is Some
                &&& author_key_spec(
                    lookup(log.authors@, author_key_spec(cs[k].author@, seq![])).unwrap().username@,
                    lookup(log.authors@, author_key_spec(cs[k].author@, seq![])).unwrap().email@,
                ) == author_key_spec(cs[k].author@, seq![])
                &&& line_attribution_spec(log, cs[k].entries@[m].file@, l) == Some(
                    (
                        lookup(log.authors@, author_key_spec(cs[k].author@, seq![])).unwrap(),
                        entry_prompt(file_entry_at(log, cs[k].entries@[m].file@, j), log.prompts@),
                    ),
                )
            },
{
    lemma_last_addition_owns_line(cs, k, m, l);
    let c = cs[k];
    let file = c.entries@[m].file@;
    let key = author_key_spec(c.author@, seq![]);
    let st = apply_checkpoints(crate::authorship_log::empty_state(), cs);
    let fe = file_entries(st, file);
    let j = choose|j: int|
        0 <= j < fe.len() && (#[trigger] fe[j]).1 == key && fe[j].2 == session_of(c).0 && fe[j].3
            == session_of(c).1 && seq_has(fe[j].0, l) && forall|i: int|
            0 <= i < fe.len() && i != j ==> !seq_has((#[trigger] fe[i]).0, l);
    assert(st.0.contains_key(file));
    assert(fe == st.0[file]);
    assert(fe[j].0.len() > 0) by {
        let q = choose|q: int| 0 <= q < fe[j].0.len() && lr_has(#[trigger] fe[j].0[q], l);
    }
    let kept = crate::authorship_log::drop_empty_files(st.0);
    assert(kept.contains_key(file) && kept[file] == fe);
    assert(files_model(log) == kept);
    assert(sm_map(log.files@).contains_key(file));
    let v = lookup(log.files@, file).unwrap();
    assert(entries_view(v@) == fe);
    assert(v@.len() == fe.len());
    assert forall|i: int| 0 <= i < v@.len() implies entry_view(#[trigger] v@[i]) == fe[i] by {}
    assert(authors_model(log) == st.1);
    assert(sm_map(log.authors@).contains_key(key));
    let a = lookup(log.authors@, key).unwrap();
    assert(a@ == st.1[key]);
    assert(v@[j].author_key@ == key);
    assert forall|i: int| j < i < v@.len() implies !seq_has((#[trigger] v@[i]).lines@, l) by {
        assert(entry_view(v@[i]) == fe[i]);
    }
    lemma_line_entry_index_sole(v@, l, log.authors@, j);
    assert(line_attribution_spec(log, file, l) == Some((a, entry_prompt(v@[j], log.prompts@))));
    assert(file_entry_at(log, file, j) == v@[j]);
}


/// The last change to line `l` of a file: entry `m` of checkpoint `k`
/// deletes it without adding it back, and no later entry deletes or adds it.
pub open spec fn last_deletion(cs: Seq<Checkpoint>, k: int, m: int, l: int) -> bool {
    &&& 0 <= k < cs.len()
    &&& 0 <= m < cs[k].entries@.len()
    &&& lines_cover(cs[k].entries@[m].deleted_lines@, l)
    &&& !lines_cover(cs[k].entries@[m].added_lines@, l)
    &&& forall|m2: int|
        m < m2 < cs[k].entries@.len() ==> !touches(#[trigger] cs[k].entries@[m2], cs[k].entries@[m].file@, l)
    &&& forall|k2: int, m2: int|
        k < k2 < cs.len() && 0 <= m2 < cs[k2].entries@.len() ==> !touches(
            #[trigger] cs[k2].entries@[m2],
            cs[k].entries@[m].file@,
            l,
        )
}

/// No entry holding the line means no attribution for it.
proof fn lemma_line_entry_index_none(es: Seq<AttributionEntry>, l: int, authors: Seq<(Seq<char>, Author)>)
    requires
        forall|i: int| 0 <= i < es.len() ==> !seq_has((#[trigger] es[i]).lines@, l),
    ensures
        line_entry_index(es, l, authors) is None,
    decreases es.len(),
{
    if es.len() > 0 {
        let p = es.drop_last();
        assert forall|i: int| 0 <= i < p.len() implies !seq_has((#[trigger] p[i]).lines@, l) by {
            assert(p[i] == es[i]);
        }
        assert(!seq_has(es[es.len() - 1].lines@, l));
        lemma_line_entry_index_none(p, l, authors);
    }
}

/// A line whose last change deleted it has no author in the log built from
/// the checkpoints.
pub proof fn lemma_latest_deletion_unattributed(cs: Seq<Checkpoint>, k: int, m: int, l: int, log: AuthorshipLog)
    requires
        last_deletion(cs, k, m, l),
        log_state(log) == from_working_log_model(cs),
    ensures
        line_attribution_spec(log, cs[k].entries@[m].file@, l) is None,
{
    let c = cs[k];
    let e = c.entries@[m];
    let file = e.file@;
    let sid = session_of(c).0;
    let turn = session_of(c).1;
    let empty = crate::authorship_log::empty_state();
    assert(cs =~= cs.take(k) + seq![c] + cs.skip(k + 1));
    lemma_apply_checkpoints_concat(empty, cs.take(k) + seq![c], cs.skip(k + 1));
    lemma_apply_checkpoints_concat(empty, cs.take(k), seq![c]);
    lemma_apply_checkpoints_valid(cs.take(k));
    let s0 = apply_checkpoints(empty, cs.take(k));
    assert(seq![c].drop_last() =~= Seq::<Checkpoint>::empty());
    assert(apply_checkpoints(s0, Seq::<Checkpoint>::empty()) == s0);
    assert(seq![c].last() == c);
    let s1 = (s0.0, s0.1, crate::authorship_log::update_prompts(s0.2, c));
    let es = c.entries@;
    assert(es =~= es.take(m) + seq![e] + es.skip(m + 1));
    lemma_apply_entries_concat(s1, es.take(m) + seq![e], es.skip(m + 1), c.author@, sid, turn);
    lemma_apply_entries_concat(s1, es.take(m), seq![e], c.author@, sid, turn);
    assert(state_valid(s1));
    assert forall|i: int| 0 <= i < es.take(m).len() implies !touches(#[trigger] es.take(m)[i], seq!['-'], -1) by {
        let x = es.take(m)[i];
        if lines_cover(x.deleted_lines@, -1) {
            let q = choose|q: int| 0 <= q < x.deleted_lines@.len() && lr_has(line_to_range(#[trigger] x.deleted_lines@[q]), -1);
        }
        if lines_cover(x.added_lines@, -1) {
            let q = choose|q: int| 0 <= q < x.added_lines@.len() && lr_has(line_to_range(#[trigger] x.added_lines@[q]), -1);
        }
    }
    lemma_apply_entries_kept(s1, es.take(m), c.author@, sid, turn, seq!['-'], -1, seq![], None, None);
    let s2 = apply_entries(s1, es.take(m), c.author@, sid, turn);
    assert(seq![e].drop_last() =~= Seq::<WorkingLogEntry>::empty());
    assert(apply_entries(s2, Seq::<WorkingLogEntry>::empty(), c.author@, sid, turn) == s2);
    assert(seq![e].last() == e);
    lemma_deleted_line_unattributed(s2, e, c.author@, sid, turn, l);
    lemma_apply_entry_frame(s2, e, c.author@, sid, turn);
    let s3 = apply_entry(s2, e, c.author@, sid, turn);
    assert(no_holder(file_entries(s3, file), l));
    let rest = es.skip(m + 1);
    assert forall|i: int| 0 <= i < rest.len() implies !touches(#[trigger] rest[i], file, l) by {
        assert(rest[i] == es[m + 1 + i]);
    }
    lemma_apply_entries_kept(s3, rest, c.author@, sid, turn, file, l, seq![], None, None);
    let s4 = apply_entries(s3, rest, c.author@, sid, turn);
    let later = cs.skip(k + 1);
    assert forall|k2: int, m2: int| 0 <= k2 < later.len() && 0 <= m2 < later[k2].entries@.len() implies !touches(
        #[trigger] later[k2].entries@[m2],
        file,
        l,
    ) by {
        assert(later[k2] == cs[k + 1 + k2]);
    }
    lemma_apply_checkpoints_kept(s4, later, file, l, seq![], None, None);
    let st = apply_checkpoints(empty, cs);
    let fe = file_entries(st, file);
    assert(no_holder(fe, l));
    assert(files_model(log) == crate::authorship_log::drop_empty_files(st.0));
    match lookup(log.files@, file) {
        None => {},
        Some(v) => {
            assert(sm_map(log.files@).contains_key(file));
            assert(sm_map(log.files@)[file] == v);
            assert(files_model(log).contains_key(file));
            assert(files_model(log)[file] == entries_view(v@));
            let kept = crate::authorship_log::drop_empty_files(st.0);
            assert(kept.contains_key(file));
            assert(st.0.contains_key(file));
            assert(kept[file] == st.0[file]);
            assert(entries_view(v@) == fe);
            assert forall|i: int| 0 <= i < v@.len() implies !seq_has((#[trigger] v@[i]).lines@, l) by {
                assert(entry_view(v@[i]) == fe[i]);
            }
            lemma_line_entry_index_none(v@, l, log.authors@);
        },
    }
}

/// Adding the same lines a second time changes nothing: when `once` is the
/// normal form of `old` with `lines` added (what `add_lines` makes) and
/// `twice` that of `once` with `lines` added again, the two are equal.
pub proof fn lemma_add_lines_idempotent(
    old: Seq<LineRange>,
    lines: Seq<LineRange>,
    once: Seq<LineRange>,
    twice: Seq<LineRange>,
)
    requires
        is_normal_form_of(once, old + lines),
        is_normal_form_of(twice, once + lines),
    ensures
        twice == once,
{
    let input = once + lines;
    assert forall|l: int| seq_has(input, l) <==> seq_has(once, l) by {
        lemma_seq_has_concat(once, lines, l);
        lemma_seq_has_concat(old, lines, l);
        assert(seq_lines(once).contains(l) == seq_has(once, l));
        assert(seq_lines(old + lines).contains(l) == seq_has(old + lines, l));
    }
    assert(seq_lines(once) =~= seq_lines(input));
    assert forall|i: int|
        0 <= i < once.len() && lr_start(#[trigger] once[i]) == lr_end(once[i]) implies ((once[i] is Single)
        <==> input.contains(LineRange::Single(lr_start(once[i]) as u32))) by {
        let x = LineRange::Single(lr_start(once[i]) as u32);
        if once[i] is Single {
            assert(once[i] == x);
            assert(input[i] == x);
        }
        if input.contains(x) {
            let k = choose|k: int| 0 <= k < input.len() && input[k] == x;
            if k < once.len() {
                assert(input[k] == once[k]);
                if k < i {
                    assert(lr_end(once[k]) + 1 < lr_start(once[i]));
                } else if k > i {
                    assert(lr_end(once[i]) + 1 < lr_start(once[k]));
                }
            } else {
                assert(input[k] == lines[k - once.len()]);
                assert((old + lines)[k - once.len() + old.len()] == x);
                assert((old + lines).contains(x));
            }
        }
    }
    assert(is_normal_form_of(once, input));
    crate::authorship_log::lemma_normal_form_spec(once, input);
    crate::authorship_log::lemma_normal_form_spec(twice, input);
}

} // verus!
