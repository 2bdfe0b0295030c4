//! What a commit records: the authorship log of its working log, cut to the
//! lines the commit holds.
use vstd::prelude::*;
use crate::authorship_log::{
    AttributionEntry, AuthorshipLog, FileAttributions, AUTHORSHIP_LOG_VERSION, all_valid,
    authors_model, entries_view, entry_view, files_model, from_working_log_model, prompts_model,
    sm_map,
};
use crate::checkpoint::{file_ranges_view, ranges_of_file, ranges_of_file_exec};
use crate::line_range::{LineRange, lr_end, lr_has, lr_start, lr_valid, seq_has, seq_lines};
use crate::str_map::{StrMap, keys_sorted, lookup, seq_lt};
use crate::working_log::Checkpoint;

verus! {

/// The view of an attribution entry: lines, author key, prompt session, turn.
pub type EntryView = (Seq<LineRange>, Seq<char>, Option<Seq<char>>, Option<u32>);

/// The lines two ranges share, as one range (a `Single` for one line), or
/// nothing.
pub open spec fn lr_overlap(a: LineRange, b: LineRange) -> Seq<LineRange> {
    let lo = if lr_start(a) < lr_start(b) {
        lr_start(b)
    } else {
        lr_start(a)
    };
    let hi = if lr_end(a) < lr_end(b) {
        lr_end(a)
    } else {
        lr_end(b)
    };
    if lo > hi {
        seq![]
    } else if lo == hi {
        seq![LineRange::Single(lo as u32)]
    } else {
        seq![LineRange::Range(lo as u32, hi as u32)]
    }
}

/// The parts of range `a` that lie in the ranges `keep`, in their order.
pub open spec fn range_cut(a: LineRange, keep: Seq<LineRange>) -> Seq<LineRange>
    decreases keep.len(),
{
    if keep.len() == 0 {
        seq![]
    } else {
        range_cut(a, keep.drop_last()) + lr_overlap(a, keep.last())
    }
}

/// The parts of the ranges `lines` that lie in the ranges `keep`.
pub open spec fn lines_cut(lines: Seq<LineRange>, keep: Seq<LineRange>) -> Seq<LineRange>
    decreases lines.len(),
{
    if lines.len() == 0 {
        seq![]
    } else {
        lines_cut(lines.drop_last(), keep) + range_cut(lines.last(), keep)
    }
}

/// Entries cut to the ranges `keep`; those left without lines are dropped.
pub open spec fn entries_cut(es: Seq<EntryView>, keep: Seq<LineRange>) -> Seq<EntryView>
    decreases es.len(),
{
    if es.len() == 0 {
        seq![]
    } else {
        let r = entries_cut(es.drop_last(), keep);
        let e = es.last();
        let l = lines_cut(e.0, keep);
        if l.len() > 0 {
            r.push((l, e.1, e.2, e.3))
        } else {
            r
        }
    }
}

/// Files cut to the lines a commit holds: a file keeps its entries cut to
/// its committed ranges (those of its first mention in `committed`); a file
/// the commit holds no lines of, or left without entries, is dropped.
pub open spec fn files_cut(
    files: Map<Seq<char>, Seq<EntryView>>,
    committed: Seq<(Seq<char>, Seq<LineRange>)>,
) -> Map<Seq<char>, Seq<EntryView>> {
    Map::new(
        |k: Seq<char>|
            files.contains_key(k) && ranges_of_file(committed, k) is Some && entries_cut(
                files[k],
                ranges_of_file(committed, k).unwrap(),
            ).len() > 0,
        |k: Seq<char>| entries_cut(files[k], ranges_of_file(committed, k).unwrap()),
    )
}

/// The lines of two sequences of ranges together.
proof fn lemma_seq_has_concat(a: Seq<LineRange>, b: Seq<LineRange>, l: int)
    ensures
        seq_has(a + b, l) <==> (seq_has(a, l) || seq_has(b, l)),
{
    let s = a + b;
    if seq_has(s, l) {
        let k = choose|k: int| 0 <= k < s.len() && lr_has(#[trigger] s[k], l);
        if k < a.len() {
            assert(lr_has(a[k], l));
        } else {
            assert(lr_has(b[k - a.len()], l));
        }
    }
    if seq_has(a, l) {
        let k = choose|k: int| 0 <= k < a.len() && lr_has(#[trigger] a[k], l);
        assert(lr_has(s[k], l));
    }
    if seq_has(b, l) {
        let k = choose|k: int| 0 <= k < b.len() && lr_has(#[trigger] b[k], l);
        assert(lr_has(s[k + a.len()], l));
    }
}

/// The overlap of two ranges holds the lines both hold, and is valid.
proof fn lemma_overlap(a: LineRange, b: LineRange, l: int)
    ensures
        seq_has(lr_overlap(a, b), l) <==> (lr_has(a, l) && lr_has(b, l)),
        all_valid(lr_overlap(a, b)),
{
    let o = lr_overlap(a, b);
    if o.len() > 0 {
        assert(lr_has(o[0], l) ==> seq_has(o, l));
    }
}

/// The cut of a range holds the lines of the range that `keep` holds.
proof fn lemma_range_cut(a: LineRange, keep: Seq<LineRange>, l: int)
    ensures
        seq_has(range_cut(a, keep), l) <==> (lr_has(a, l) && seq_has(keep, l)),
        all_valid(range_cut(a, keep)),
    decreases keep.len(),
{
    if keep.len() > 0 {
        lemma_range_cut(a, keep.drop_last(), l);
        lemma_overlap(a, keep.last(), l);
        lemma_seq_has_concat(range_cut(a, keep.drop_last()), lr_overlap(a, keep.last()), l);
        crate::authorship_log::lemma_seq_has_push(keep.drop_last(), keep.last(), l);
        assert(keep.drop_last().push(keep.last()) =~= keep);
        let s = range_cut(a, keep.drop_last()) + lr_overlap(a, keep.last());
        assert forall|i: int| 0 <= i < s.len() implies lr_valid(#[trigger] s[i]) by {
            if i < range_cut(a, keep.drop_last()).len() {
                assert(s[i] == range_cut(a, keep.drop_last())[i]);
            } else {
                assert(s[i] == lr_overlap(a, keep.last())[i - range_cut(a, keep.drop_last()).len()]);
            }
        }
    }
}

/// Cutting ranges to `keep` leaves valid ranges that hold exactly the lines
/// both hold.
pub proof fn lemma_lines_cut(lines: Seq<LineRange>, keep: Seq<LineRange>)
    ensures
        seq_lines(lines_cut(lines, keep)) == seq_lines(lines).intersect(seq_lines(keep)),
        all_valid(lines_cut(lines, keep)),
    decreases lines.len(),
{
    if lines.len() > 0 {
        let p = lines.drop_last();
        lemma_lines_cut(p, keep);
        let s = lines_cut(p, keep) + range_cut(lines.last(), keep);
        assert forall|l: int| seq_has(s, l) <==> (seq_has(lines, l) && seq_has(keep, l)) by {
            lemma_seq_has_concat(lines_cut(p, keep), range_cut(lines.last(), keep), l);
            lemma_range_cut(lines.last(), keep, l);
            crate::authorship_log::lemma_seq_has_push(p, lines.last(), l);
            assert(p.push(lines.last()) =~= lines);
            assert(seq_lines(lines_cut(p, keep)).contains(l) == seq_has(lines_cut(p, keep), l));
            assert(seq_lines(p).contains(l) == seq_has(p, l));
            assert(seq_lines(keep).contains(l) == seq_has(keep, l));
        }
        lemma_range_cut(lines.last(), keep, 0);
        assert forall|i: int| 0 <= i < s.len() implies lr_valid(#[trigger] s[i]) by {
            if i < lines_cut(p, keep).len() {
                assert(s[i] == lines_cut(p, keep)[i]);
            } else {
                assert(s[i] == range_cut(lines.last(), keep)[i - lines_cut(p, keep).len()]);
            }
        }
        assert(seq_lines(s) =~= seq_lines(lines).intersect(seq_lines(keep)));
    } else {
        assert(seq_lines(lines_cut(lines, keep)) =~= seq_lines(lines).intersect(seq_lines(keep)));
    }
}

/// `c` is entry `e` cut to `keep`: the same author and prompt, and exactly
/// the lines of `e` that `keep` holds, at least one.
pub open spec fn cut_from(c: EntryView, e: EntryView, keep: Seq<LineRange>) -> bool {
    &&& c.1 == e.1
    &&& c.2 == e.2
    &&& c.3 == e.3
    &&& seq_lines(c.0) == seq_lines(e.0).intersect(seq_lines(keep))
    &&& c.0.len() > 0
}

/// The entries a cut keeps are entries cut to `keep` (see `cut_from`), in
/// their order: entry `i` of the cut comes from entry `src[i]`.
pub proof fn lemma_entries_cut(es: Seq<EntryView>, keep: Seq<LineRange>) -> (src: Seq<int>)
    ensures
        src.len() == entries_cut(es, keep).len(),
        forall|i: int|
            0 <= i < src.len() ==> 0 <= #[trigger] src[i] < es.len() && cut_from(
                entries_cut(es, keep)[i],
                es[src[i]],
                keep,
            ),
        forall|i: int, j: int| 0 <= i < j < src.len() ==> #[trigger] src[i] < #[trigger] src[j],
    decreases es.len(),
{
    if es.len() == 0 {
        seq![]
    } else {
        let p = es.drop_last();
        let sp = lemma_entries_cut(p, keep);
        lemma_lines_cut(es.last().0, keep);
        let r = entries_cut(es, keep);
        let rp = entries_cut(p, keep);
        if lines_cut(es.last().0, keep).len() > 0 {
            let src = sp.push(es.len() - 1);
            assert forall|i: int| 0 <= i < src.len() implies 0 <= #[trigger] src[i] < es.len() && cut_from(
                r[i],
                es[src[i]],
                keep,
            ) by {
                if i < sp.len() {
                    assert(r[i] == rp[i]);
                    assert(p[sp[i]] == es[sp[i]]);
                } else {
                    assert(es[es.len() - 1] == es.last());
                }
            }
            src
        } else {
            assert forall|i: int| 0 <= i < sp.len() implies 0 <= #[trigger] sp[i] < es.len() && cut_from(
                r[i],
                es[sp[i]],
                keep,
            ) by {
                assert(r[i] == rp[i]);
                assert(p[sp[i]] == es[sp[i]]);
            }
            sp
        }
    }
}

/// The overlap of two ranges (see `lr_overlap`).
fn overlap_exec(a: &LineRange, b: &LineRange) -> (r: Vec<LineRange>)
    ensures
        r@ == lr_overlap(*a, *b),
{
    let (sa, ea) = match a {
        LineRange::Single(l) => (*l, *l),
        LineRange::Range(s, e) => (*s, *e),
    };
    let (sb, eb) = match b {
        LineRange::Single(l) => (*l, *l),
        LineRange::Range(s, e) => (*s, *e),
    };
    let lo = if sa < sb {
        sb
    } else {
        sa
    };
    let hi = if ea < eb {
        ea
    } else {
        eb
    };
    let mut r: Vec<LineRange> = Vec::new();
    if lo > hi {
    } else if lo == hi {
        r.push(LineRange::Single(lo));
    } else {
        r.push(LineRange::Range(lo, hi));
    }
    assert(r@ =~= lr_overlap(*a, *b));
    r
}

/// The parts of the ranges `lines` that lie in the ranges `keep` (see
/// `lines_cut`).
fn cut_lines_exec(lines: &Vec<LineRange>, keep: &Vec<LineRange>) -> (r: Vec<LineRange>)
    ensures
        r@ == lines_cut(lines@, keep@),
{
    let mut r: Vec<LineRange> = Vec::new();
    let mut i: usize = 0;
    assert(lines@.take(0) =~= Seq::<LineRange>::empty());
    while i < lines.len()
        invariant
            0 <= i <= lines@.len(),
            r@ == lines_cut(lines@.take(i as int), keep@),
        decreases lines@.len() - i,
    {
        let ghost r0 = r@;
        let mut j: usize = 0;
        assert(keep@.take(0) =~= Seq::<LineRange>::empty());
        assert(r@ =~= r0 + range_cut(lines@[i as int], keep@.take(0)));
        while j < keep.len()
            invariant
                0 <= j <= keep@.len(),
                i < lines@.len(),
                r@ == r0 + range_cut(lines@[i as int], keep@.take(j as int)),
            decreases keep@.len() - j,
        {
            let o = overlap_exec(&lines[i], &keep[j]);
            let ghost r1 = r@;
            let mut k: usize = 0;
            while k < o.len()
                invariant
                    0 <= k <= o@.len(),
                    r@ == r1 + o@.take(k as int),
                decreases o@.len() - k,
            {
                r.push(o[k]);
                assert(o@.take(k + 1) =~= o@.take(k as int).push(o@[k as int]));
                k = k + 1;
            }
            assert(o@.take(k as int) =~= o@);
            assert(keep@.take(j + 1).drop_last() =~= keep@.take(j as int));
            assert(r@ =~= r0 + range_cut(lines@[i as int], keep@.take(j + 1)));
            j = j + 1;
        }
        assert(keep@.take(j as int) =~= keep@);
        assert(lines@.take(i + 1).drop_last() =~= lines@.take(i as int));
        i = i + 1;
    }
    assert(lines@.take(i as int) =~= lines@);
    r
}

/// Entries cut to the ranges `keep`, those left without lines dropped (see
/// `entries_cut`).
fn cut_entries_exec(es: Vec<AttributionEntry>, keep: &Vec<LineRange>) -> (r: Vec<AttributionEntry>)
    ensures
        entries_view(r@) == entries_cut(entries_view(es@), keep@),
{
    let ghost ev = entries_view(es@);
    let mut r: Vec<AttributionEntry> = Vec::new();
    let mut i: usize = 0;
    assert(ev.take(0) =~= Seq::<EntryView>::empty());
    while i < es.len()
        invariant
            0 <= i <= es@.len(),
            ev == entries_view(es@),
            entries_view(r@) == entries_cut(ev.take(i as int), keep@),
        decreases es@.len() - i,
    {
        let e = &es[i];
        let lines = cut_lines_exec(&e.lines, keep);
        let ghost t = ev.take(i + 1);
        assert(t.drop_last() =~= ev.take(i as int));
        assert(t.last() == entry_view(es@[i as int]));
        if lines.len() > 0 {
            let ne = AttributionEntry {
                lines,
                author_key: e.author_key.clone(),
                prompt_session_id: crate::working_log::copy_opt_string(&e.prompt_session_id),
                prompt_turn: e.prompt_turn,
            };
            let ghost before = entries_view(r@);
            r.push(ne);
            assert(entries_view(r@) =~= before.push(entry_view(ne)));
        }
        i = i + 1;
    }
    assert(ev.take(i as int) =~= ev);
    r
}

impl AuthorshipLog {
    /// Keeps only the lines a commit holds: each file's entries are cut to
    /// the file's committed ranges in `committed` (see `files_cut`); files
    /// the commit holds no lines of, or left without entries, are dropped.
    /// Authors and prompts are kept.
    pub fn filter_to_committed_lines(&mut self, committed: &[(String, Vec<LineRange>)])
        requires
            old(self).wf(),
        ensures
            final(self).wf(),
            files_model(*final(self)) == files_cut(files_model(*old(self)), file_ranges_view(committed@)),
            authors_model(*final(self)) == authors_model(*old(self)),
            prompts_model(*final(self)) == prompts_model(*old(self)),
            final(self).schema_version == old(self).schema_version,
            final(self).base_commit_sha == old(self).base_commit_sha,
    {
        let ghost cv = file_ranges_view(committed@);
        let ghost orig = self.files@;
        let ghost m = files_model(*self);
        let mut kept: StrMap<FileAttributions> = StrMap::new();
        let n = self.files.len();
        let mut i: usize = 0;
        while i < n
            invariant
                0 <= i <= n,
                n == orig.len(),
                self.files@.len() == n,
                kept.wf(),
                self.authors == old(self).authors,
                self.prompts == old(self).prompts,
                self.schema_version == old(self).schema_version,
                self.base_commit_sha == old(self).base_commit_sha,
                cv == file_ranges_view(committed@),
                forall|j: int| i <= j < n ==> #[trigger] self.files@[j] == orig[j],
                keys_sorted(orig),
                forall|k: Seq<char>|
                    (#[trigger] lookup(kept@, k) is Some) <==> (lookup(orig.take(i as int), k) is Some
                        && ranges_of_file(cv, k) is Some && entries_cut(
                        entries_view(lookup(orig.take(i as int), k).unwrap()@),
                        ranges_of_file(cv, k).unwrap(),
                    ).len() > 0),
                forall|k: Seq<char>|
                    #[trigger] lookup(kept@, k) is Some ==> entries_view(lookup(kept@, k).unwrap()@)
                        == entries_cut(
                        entries_view(lookup(orig.take(i as int), k).unwrap()@),
                        ranges_of_file(cv, k).unwrap(),
                    ),
            decreases n - i,
        {
            let key = self.files.key_at(i).clone();
            let v = self.files.swap_value_at(i, Vec::new());
            assert(orig.take(i + 1).drop_last() =~= orig.take(i as int));
            assert(orig.take(i + 1).last() == orig[i as int]);
            assert(key@ == orig[i as int].0 && v == orig[i as int].1);
            proof {
                let t = orig.take(i as int);
                assert forall|j: int| 0 <= j < t.len() implies t[j].0 != key@ by {
                    assert(t[j] == orig[j]);
                    assert(seq_lt(orig[j].0, orig[i as int].0));
                    crate::str_map::lemma_seq_lt_trichotomy(orig[j].0, orig[j].0);
                }
                crate::str_map::lemma_lookup(t, key@);
            }
            match ranges_of_file_exec(committed, &key) {
                Some(rs) => {
                    let cut = cut_entries_exec(v, rs);
                    if cut.len() > 0 {
                        kept.insert(key, cut);
                    }
                },
                None => {},
            }
            i = i + 1;
        }
        assert(orig.take(n as int) =~= orig);
        proof {
            let lhs = sm_map(kept@).map_values(|v: Vec<AttributionEntry>| entries_view(v@));
            let rhs = files_cut(m, cv);
            assert forall|k: Seq<char>| #[trigger] m.contains_key(k) implies m[k] == entries_view(
                lookup(orig, k).unwrap()@,
            ) by {}
            assert forall|k: Seq<char>| #[trigger] lhs.contains_key(k) <==> rhs.contains_key(k) by {
                assert(lhs.contains_key(k) <==> lookup(kept@, k) is Some);
                assert(m.contains_key(k) <==> lookup(orig, k) is Some);
            }
            assert forall|k: Seq<char>| #[trigger] lhs.contains_key(k) implies lhs[k] == rhs[k] by {
                assert(lookup(kept@, k) is Some);
                assert(m.contains_key(k));
            }
            assert(lhs =~= rhs);
        }
        self.files = kept;
    }
}

/// Whether a checkpoint was made by an agent.
pub open spec fn has_agent_checkpoint(cs: Seq<Checkpoint>) -> bool {
    exists|i: int| 0 <= i < cs.len() && (#[trigger] cs[i]).agent_id is Some
}

/// The authorship log a commit records, and whether its working log must be
/// kept for the next commit. The log is that of the checkpoints on the
/// parent commit `parent_sha`, cut to the lines the commit added
/// (`committed`, per file; see `files_cut`). The working log is kept when
/// unstaged changes remain and an agent made one of the checkpoints.
pub fn commit_authorship(
    checkpoints: Vec<Checkpoint>,
    parent_sha: &str,
    committed: &[(String, Vec<LineRange>)],
    has_unstaged: bool,
) -> (r: (AuthorshipLog, bool))
    ensures
        r.0.wf(),
        files_model(r.0) == files_cut(
            from_working_log_model(checkpoints@).0,
            file_ranges_view(committed@),
        ),
        authors_model(r.0) == from_working_log_model(checkpoints@).1,
        prompts_model(r.0) == from_working_log_model(checkpoints@).2,
        r.0.schema_version@ == AUTHORSHIP_LOG_VERSION@,
        r.0.base_commit_sha@ == parent_sha@,
        r.1 == (has_unstaged && has_agent_checkpoint(checkpoints@)),
{
    let mut log = AuthorshipLog::from_working_log_with_base_commit(checkpoints.as_slice(), parent_sha);
    log.filter_to_committed_lines(committed);
    let mut any_agent = false;
    let mut i: usize = 0;
    while i < checkpoints.len()
        invariant
            0 <= i <= checkpoints@.len(),
            any_agent == exists|j: int| 0 <= j < i && (#[trigger] checkpoints@[j]).agent_id is Some,
        decreases checkpoints@.len() - i,
    {
        if checkpoints[i].agent_id.is_some() {
            any_agent = true;
        }
        i = i + 1;
    }
    (log, has_unstaged && any_agent)
}

} // verus!
