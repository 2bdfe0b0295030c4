//! The per-commit authorship log: which author wrote which lines of which file.
use vstd::prelude::*;
use crate::line_range::{
    debug_list_spec, push_debug_list, strictly_increasing, LineRange, lr_end, lr_lines, lr_remove, lr_start,
    lr_has, lr_valid, seq_has, seq_lines,
};
use crate::text::{push_char, push_str_chars};
use crate::str_map::{CopyView, StrMap, keys_sorted, lookup, seq_lt};
use crate::working_log::{
    AgentId, AiTranscript, Checkpoint, Line, Message, WorkingLogEntry, messages_view, opt_str_view,
};
use sha2::Digest;

verus! {

/// Per-file attribution entry: the lines, the author's key, and the prompt
/// session and turn that produced them, if any.
#[derive(Debug, Clone, PartialEq, Eq)]
pub struct AttributionEntry {
    pub lines: Vec<LineRange>,
    pub author_key: String,
    pub prompt_session_id: Option<String>,
    pub prompt_turn: Option<u32>,
}

/// Every range of `s` is valid.
pub open spec fn all_valid(s: Seq<LineRange>) -> bool {
    forall|i: int| 0 <= i < s.len() ==> lr_valid(#[trigger] s[i])
}

/// `out` is the normal form of the ranges `input`: valid ranges holding the
/// same lines, in increasing order with a gap of at least one line between
/// neighbours; a one-line range is a `Single` exactly when `input` holds that
/// `Single`.
pub open spec fn is_normal_form_of(out: Seq<LineRange>, input: Seq<LineRange>) -> bool {
    &&& seq_lines(out) == seq_lines(input)
    &&& all_valid(out)
    &&& forall|i: int, j: int|
        0 <= i < j < out.len() ==> lr_end(#[trigger] out[i]) + 1 < lr_start(#[trigger] out[j])
    &&& forall|i: int|
        0 <= i < out.len() && lr_start(#[trigger] out[i]) == lr_end(out[i]) ==> ((out[i] is Single)
            <==> input.contains(LineRange::Single(lr_start(out[i]) as u32)))
}

/// The ranges of `lines` with the lines of `b` removed from each of them, in
/// order.
pub open spec fn remove_each(lines: Seq<LineRange>, b: LineRange) -> Seq<LineRange>
    decreases lines.len(),
{
    if lines.len() == 0 {
        seq![]
    } else {
        remove_each(lines.drop_last(), b) + lr_remove(lines.last(), b)
    }
}

/// The ranges of `lines` with the lines of each range of `rm` removed in
/// turn.
pub open spec fn remove_lines_spec(lines: Seq<LineRange>, rm: Seq<LineRange>) -> Seq<LineRange>
    decreases rm.len(),
{
    if rm.len() == 0 {
        lines
    } else {
        remove_each(remove_lines_spec(lines, rm.drop_last()), rm.last())
    }
}

/// `s` is sorted by first line.
pub open spec fn sorted_by_start(s: Seq<LineRange>) -> bool {
    forall|i: int, j: int| 0 <= i < j < s.len() ==> lr_start(#[trigger] s[i]) <= lr_start(
        #[trigger] s[j],
    )
}

/// Sorts ranges by their first line.
fn sort_by_start(v: &mut Vec<LineRange>)
    ensures
        final(v)@.len() == old(v)@.len(),
        sorted_by_start(final(v)@),
        forall|x: LineRange| final(v)@.contains(x) <==> old(v)@.contains(x),
{
    let n = v.len();
    let mut i: usize = 1;
    if n == 0 {
        return ;
    }
    while i < n
        invariant
            1 <= i <= n,
            n == v@.len(),
            sorted_by_start(v@.take(i as int)),
            forall|x: LineRange| v@.contains(x) <==> old(v)@.contains(x),
        decreases n - i,
    {
        let mut j = i;
        assert forall|a: int, b: int| 0 <= a < b < j implies lr_start(#[trigger] v@[a]) <= lr_start(
            #[trigger] v@[b],
        ) by {
            assert(v@.take(i as int)[a] == v@[a]);
            assert(v@.take(i as int)[b] == v@[b]);
        }
        while j > 0 && lr_start_exec(&v[j - 1]) > lr_start_exec(&v[j])
            invariant
                0 <= j <= i < n,
                n == v@.len(),
                forall|a: int, b: int|
                    0 <= a < b < j ==> lr_start(#[trigger] v@[a]) <= lr_start(#[trigger] v@[b]),
                forall|a: int, b: int|
                    j <= a < b <= i ==> lr_start(#[trigger] v@[a]) <= lr_start(#[trigger] v@[b]),
                forall|a: int, b: int|
                    0 <= a < j && j < b <= i ==> lr_start(#[trigger] v@[a]) <= lr_start(
                        #[trigger] v@[b],
                    ),
                forall|x: LineRange| v@.contains(x) <==> old(v)@.contains(x),
            decreases j,
        {
            let a = v[j - 1];
            let b = v[j];
            let ghost before = v@;
            v.set(j - 1, b);
            v.set(j, a);
            proof {
                assert forall|x: LineRange| v@.contains(x) <==> before.contains(x) by {
                    if v@.contains(x) {
                        let k = choose|k: int| 0 <= k < v@.len() && v@[k] == x;
                        if k == j - 1 {
                            assert(before[j as int] == x);
                        } else if k == j {
                            assert(before[j - 1] == x);
                        } else {
                            assert(before[k] == x);
                        }
                    }
                    if before.contains(x) {
                        let k = choose|k: int| 0 <= k < before.len() && before[k] == x;
                        if k == j - 1 {
                            assert(v@[j as int] == x);
                        } else if k == j {
                            assert(v@[j - 1] == x);
                        } else {
                            assert(v@[k] == x);
                        }
                    }
                }
            }
            j = j - 1;
        }
        assert(sorted_by_start(v@.take(i + 1)));
        i = i + 1;
    }
    assert(v@.take(n as int) =~= v@);
}

/// The first line of a range.
pub fn lr_start_exec(r: &LineRange) -> (s: u32)
    ensures
        s == lr_start(*r),
{
    match r {
        LineRange::Single(l) => *l,
        LineRange::Range(s, _) => *s,
    }
}

/// The last line of a range.
pub fn lr_end_exec(r: &LineRange) -> (e: u32)
    ensures
        e == lr_end(*r),
{
    match r {
        LineRange::Single(l) => *l,
        LineRange::Range(_, e) => *e,
    }
}


/// Adding a range to a sequence adds its lines.
pub proof fn lemma_seq_has_push(s: Seq<LineRange>, x: LineRange, l: int)
    ensures
        seq_has(s.push(x), l) <==> (seq_has(s, l) || lr_has_line(x, l)),
{
    if seq_has(s.push(x), l) {
        let k = choose|k: int| 0 <= k < s.push(x).len() && crate::line_range::lr_has(
            #[trigger] s.push(x)[k],
            l,
        );
        if k < s.len() {
            assert(crate::line_range::lr_has(s[k], l));
        }
    }
    if seq_has(s, l) {
        let k = choose|k: int| 0 <= k < s.len() && crate::line_range::lr_has(#[trigger] s[k], l);
        assert(crate::line_range::lr_has(s.push(x)[k], l));
    }
    if lr_has_line(x, l) {
        assert(crate::line_range::lr_has(s.push(x)[s.len() as int], l));
    }
}

/// The range holds the line `l` (same as `lr_has`).
pub open spec fn lr_has_line(r: LineRange, l: int) -> bool {
    crate::line_range::lr_has(r, l)
}

/// The range for the lines `[lo, hi]`: a `Single` for one line when
/// `single` is set, a `Range` otherwise.
fn component_range(lo: u32, hi: u32, single: bool) -> (r: LineRange)
    requires
        lo <= hi,
    ensures
        lr_start(r) == lo,
        lr_end(r) == hi,
        (r is Single) == (lo == hi && single),
{
    if lo == hi && single {
        LineRange::Single(lo)
    } else {
        LineRange::Range(lo, hi)
    }
}

/// Sequences with the same elements hold the same lines.
proof fn lemma_same_elements_same_lines(a: Seq<LineRange>, b: Seq<LineRange>)
    requires
        forall|x: LineRange| a.contains(x) <==> b.contains(x),
    ensures
        seq_lines(a) == seq_lines(b),
{
    assert forall|l: int| seq_has(a, l) <==> seq_has(b, l) by {
        if seq_has(a, l) {
            let k = choose|k: int| 0 <= k < a.len() && crate::line_range::lr_has(#[trigger] a[k], l);
            assert(a.contains(a[k]));
            let m = choose|m: int| 0 <= m < b.len() && b[m] == a[k];
            assert(crate::line_range::lr_has(b[m], l));
        }
        if seq_has(b, l) {
            let k = choose|k: int| 0 <= k < b.len() && crate::line_range::lr_has(#[trigger] b[k], l);
            assert(b.contains(b[k]));
            let m = choose|m: int| 0 <= m < a.len() && a[m] == b[k];
            assert(crate::line_range::lr_has(a[m], l));
        }
    }
    assert(seq_lines(a) =~= seq_lines(b));
}

/// Computes the normal form of a list of valid ranges (see `is_normal_form_of`).
pub fn normal_form(input: Vec<LineRange>) -> (out: Vec<LineRange>)
    requires
        all_valid(input@),
    ensures
        is_normal_form_of(out@, input@),
{
    let mut v = input;
    let ghost inp = v@;
    sort_by_start(&mut v);
    let ghost s = v@;
    assert(all_valid(s)) by {
        assert forall|k: int| 0 <= k < s.len() implies lr_valid(#[trigger] s[k]) by {
            assert(s.contains(s[k]));
            let m = choose|m: int| 0 <= m < inp.len() && inp[m] == s[k];
            assert(lr_valid(inp[m]));
        }
    }
    proof {
        lemma_same_elements_same_lines(s, inp);
    }
    let mut out: Vec<LineRange> = Vec::new();
    if v.len() == 0 {
        assert(seq_lines(out@) =~= seq_lines(s));
        return out;
    }
    let mut lo: u32 = lr_start_exec(&v[0]);
    let mut hi: u32 = lr_end_exec(&v[0]);
    let mut saw_single: bool = match v[0] {
        LineRange::Single(_) => true,
        LineRange::Range(_, _) => false,
    };
    assert(s.take(1) =~= seq![s[0]]);
    assert forall|l: int| seq_has(s.take(1), l) <==> (seq_has(out@, l) || lo <= l <= hi) by {
        lemma_seq_has_push(Seq::empty(), s[0], l);
        assert(Seq::<LineRange>::empty().push(s[0]) =~= s.take(1));
    }
    assert(lo == hi ==> (saw_single <==> s.take(1).contains(LineRange::Single(lo)))) by {
        if s.take(1).contains(LineRange::Single(lo)) {
            let k = choose|k: int| 0 <= k < s.take(1).len() && #[trigger] s.take(1)[k]
                == LineRange::Single(lo);
            assert(k == 0);
        }
        if saw_single {
            assert(s.take(1)[0] == LineRange::Single(lo));
        }
    }
    let mut i: usize = 1;
    while i < v.len()
        invariant
            s == v@,
            sorted_by_start(s),
            all_valid(s),
            1 <= i <= s.len(),
            lo <= hi,
            all_valid(out@),
            forall|a: int, b: int|
                0 <= a < b < out@.len() ==> lr_end(#[trigger] out@[a]) + 1 < lr_start(
                    #[trigger] out@[b],
                ),
            out@.len() > 0 ==> lr_end(out@.last()) + 1 < lo,
            forall|l: int| seq_has(s.take(i as int), l) <==> (seq_has(out@, l) || lo <= l <= hi),
            forall|k: int|
                0 <= k < i ==> lr_end(#[trigger] s[k]) + 1 < lo || (lo <= lr_start(s[k])
                    && lr_end(s[k]) <= hi),
            lo <= lr_start(s[i - 1]),
            lo == hi ==> (saw_single <==> s.take(i as int).contains(LineRange::Single(lo))),
            forall|a: int|
                0 <= a < out@.len() && lr_start(#[trigger] out@[a]) == lr_end(out@[a]) ==> ((
                out@[a] is Single) <==> s.contains(LineRange::Single(lr_start(out@[a]) as u32))),
        decreases s.len() - i,
    {
        let e = v[i];
        let es = lr_start_exec(&e);
        let ee = lr_end_exec(&e);
        let e_single = match e {
            LineRange::Single(_) => true,
            LineRange::Range(_, _) => false,
        };
        assert(s.take(i + 1) =~= s.take(i as int).push(e));
        assert(lr_start(s[i - 1]) <= es);
        if (es as u64) <= (hi as u64) + 1 {
            let ghost old_hi = hi;
            if ee > hi {
                hi = ee;
            }
            if e_single {
                saw_single = true;
            }
            proof {
                assert forall|l: int|
                    seq_has(s.take(i + 1), l) <==> (seq_has(out@, l) || lo <= l <= hi) by {
                    lemma_seq_has_push(s.take(i as int), e, l);
                }
                if lo == hi {
                    assert(old_hi == lo);
                    assert forall|x: LineRange|
                        s.take(i + 1).contains(x) <==> (s.take(i as int).contains(x) || x == e) by {
                        if s.take(i + 1).contains(x) {
                            let k = choose|k: int| 0 <= k < s.take(i + 1).len() && #[trigger] s.take(i + 1)[k] == x;
                            if k < i {
                                assert(s.take(i as int)[k] == x);
                            }
                        }
                        if s.take(i as int).contains(x) {
                            let k = choose|k: int| 0 <= k < s.take(i as int).len() && #[trigger] s.take(i as int)[k] == x;
                            assert(s.take(i + 1)[k] == x);
                        }
                        if x == e {
                            assert(s.take(i + 1)[i as int] == x);
                        }
                    }
                    assert(lr_valid(e));
                    if e_single {
                        assert(e == LineRange::Single(lo));
                    } else {
                        assert(e != LineRange::Single(lo));
                    }
                }
            }
        } else {
            let r = component_range(lo, hi, saw_single);
            let ghost old_out = out@;
            out.push(r);
            proof {
                assert(lr_valid(e));
                assert forall|l: int| (seq_has(out@, l) || es <= l <= ee) <==> seq_has(
                    s.take(i + 1),
                    l,
                ) by {
                    lemma_seq_has_push(old_out, r, l);
                    lemma_seq_has_push(s.take(i as int), e, l);
                }
                if lo == hi {
                    assert forall|k: int| i <= k < s.len() implies s[k] != LineRange::Single(
                        lo,
                    ) by {
                        assert(lr_start(s[i as int]) <= lr_start(s[k]));
                    }
                    if s.contains(LineRange::Single(lo)) {
                        let k = choose|k: int| 0 <= k < s.len() && #[trigger] s[k] == LineRange::Single(lo);
                        assert(s.take(i as int)[k] == LineRange::Single(lo));
                    }
                    if s.take(i as int).contains(LineRange::Single(lo)) {
                        let k = choose|k: int|
                            0 <= k < s.take(i as int).len() && #[trigger] s.take(i as int)[k]
                                == LineRange::Single(lo);
                        assert(s[k] == LineRange::Single(lo));
                    }
                }
                if es == ee {
                    if s.take(i + 1).contains(LineRange::Single(es)) {
                        let k = choose|k: int|
                            0 <= k < s.take(i + 1).len() && #[trigger] s.take(i + 1)[k]
                                == LineRange::Single(es);
                        if k < i {
                            assert(lr_end(s[k]) + 1 < lo || lr_end(s[k]) <= hi);
                        }
                    }
                    if e_single {
                        assert(s.take(i + 1)[i as int] == LineRange::Single(es));
                    }
                }
            }
            lo = es;
            hi = ee;
            saw_single = e_single;
        }
        i = i + 1;
    }
    let r = component_range(lo, hi, saw_single);
    let ghost old_out = out@;
    out.push(r);
    proof {
        assert(s.take(i as int) =~= s);
        assert forall|l: int| seq_has(out@, l) <==> seq_has(s, l) by {
            lemma_seq_has_push(old_out, r, l);
        }
        assert(seq_lines(out@) =~= seq_lines(s));
        assert forall|a: int|
            0 <= a < out@.len() && lr_start(#[trigger] out@[a]) == lr_end(out@[a]) implies ((
            out@[a] is Single) <==> inp.contains(LineRange::Single(lr_start(out@[a]) as u32))) by {
            let x = LineRange::Single(lr_start(out@[a]) as u32);
            assert(s.contains(x) <==> inp.contains(x));
        }
    }
    out
}


/// The merge test of `AttributionEntry::ranges_can_merge`: the two ranges
/// overlap or touch.
pub open spec fn ranges_can_merge_spec(a: LineRange, b: LineRange) -> bool {
    match (a, b) {
        (LineRange::Single(l1), LineRange::Single(l2)) => -1 <= l1 - l2 <= 1,
        (LineRange::Single(l), LineRange::Range(s, e)) => l >= (if s >= 1 {
            s - 1
        } else {
            0
        }) && l <= e + 1,
        (LineRange::Range(s, e), LineRange::Single(l)) => l >= (if s >= 1 {
            s - 1
        } else {
            0
        }) && l <= e + 1,
        (LineRange::Range(s1, e1), LineRange::Range(s2, e2)) => s1 <= e2 + 1 && s2 <= e1 + 1,
    }
}

/// The merge test does not overflow: the ends it adds one to are below `u32::MAX`.
pub open spec fn merge_test_in_range(a: LineRange, b: LineRange) -> bool {
    match (a, b) {
        (LineRange::Single(_), LineRange::Single(_)) => true,
        (LineRange::Single(_), LineRange::Range(_, e)) => e < u32::MAX,
        (LineRange::Range(_, e), LineRange::Single(_)) => e < u32::MAX,
        (LineRange::Range(_, e1), LineRange::Range(_, e2)) => e1 < u32::MAX && e2 < u32::MAX,
    }
}

/// The entry's ranges holding line `line`.
pub open spec fn entry_has_line(e: AttributionEntry, line: int) -> bool {
    seq_has(e.lines@, line)
}

impl AttributionEntry {
    /// Adds ranges of lines; the entry's ranges become the normal form of the
    /// old ranges together with the new ones.
    pub fn add_lines(&mut self, lines: &[LineRange])
        requires
            all_valid(old(self).lines@ + lines@),
        ensures
            is_normal_form_of(final(self).lines@, old(self).lines@ + lines@),
            final(self).author_key == old(self).author_key,
            final(self).prompt_session_id == old(self).prompt_session_id,
            final(self).prompt_turn == old(self).prompt_turn,
    {
        let mut i: usize = 0;
        let ghost start = self.lines@;
        while i < lines.len()
            invariant
                0 <= i <= lines@.len(),
                self.lines@ == start + lines@.take(i as int),
                self.author_key == old(self).author_key,
                self.prompt_session_id == old(self).prompt_session_id,
                self.prompt_turn == old(self).prompt_turn,
                start == old(self).lines@,
            decreases lines@.len() - i,
        {
            self.lines.push(lines[i]);
            i = i + 1;
            assert(self.lines@ =~= start + lines@.take(i as int));
        }
        assert(lines@.take(i as int) =~= lines@);
        self.deduplicate_and_merge_ranges();
    }

    /// Removes the lines of `to_remove`: of valid ranges, exactly the lines
    /// that `to_remove` holds go.
    pub fn remove_lines(&mut self, to_remove: &[LineRange])
        ensures
            final(self).lines@ == remove_lines_spec(old(self).lines@, to_remove@),
            all_valid(old(self).lines@) ==> all_valid(final(self).lines@) && seq_lines(
                final(self).lines@,
            ) == seq_lines(old(self).lines@).difference(seq_lines(to_remove@)),
            final(self).author_key == old(self).author_key,
            final(self).prompt_session_id == old(self).prompt_session_id,
            final(self).prompt_turn == old(self).prompt_turn,
    {
        let mut cur: Vec<LineRange> = Vec::new();
        cur.append(&mut self.lines);
        let ghost start = cur@;
        assert(start == old(self).lines@);
        let mut j: usize = 0;
        assert(to_remove@.take(0) =~= Seq::<LineRange>::empty());
        while j < to_remove.len()
            invariant
                0 <= j <= to_remove@.len(),
                cur@ == remove_lines_spec(start, to_remove@.take(j as int)),
            decreases to_remove@.len() - j,
        {
            let b = to_remove[j];
            let mut next: Vec<LineRange> = Vec::new();
            let mut i: usize = 0;
            assert(cur@.take(0) =~= Seq::<LineRange>::empty());
            while i < cur.len()
                invariant
                    0 <= i <= cur@.len(),
                    next@ == remove_each(cur@.take(i as int), b),
                decreases cur@.len() - i,
            {
                let mut parts = cur[i].remove(&b);
                assert(cur@.take(i + 1).drop_last() =~= cur@.take(i as int));
                next.append(&mut parts);
                i = i + 1;
            }
            assert(cur@.take(i as int) =~= cur@);
            assert(to_remove@.take(j + 1).drop_last() =~= to_remove@.take(j as int));
            cur = next;
            j = j + 1;
        }
        assert(to_remove@.take(j as int) =~= to_remove@);
        proof {
            if all_valid(start) {
                lemma_remove_lines_difference(start, to_remove@);
            }
        }
        self.lines = cur;
    }

    /// The entry holds no range.
    pub fn is_empty(&self) -> (r: bool)
        ensures
            r == (self.lines@.len() == 0),
    {
        self.lines.len() == 0
    }

    /// Some range of the entry holds `line`.
    pub fn contains_line(&self, line: u32) -> (r: bool)
        ensures
            r == seq_has(self.lines@, line as int),
    {
        let mut i: usize = 0;
        while i < self.lines.len()
            invariant
                0 <= i <= self.lines@.len(),
                forall|k: int| 0 <= k < i ==> !crate::line_range::lr_has(#[trigger] self.lines@[k], line as int),
            decreases self.lines@.len() - i,
        {
            if self.lines[i].contains(line) {
                return true;
            }
            i = i + 1;
        }
        false
    }

    /// Replaces the entry's ranges by their normal form.
    pub fn deduplicate_and_merge_ranges(&mut self)
        requires
            all_valid(old(self).lines@),
        ensures
            is_normal_form_of(final(self).lines@, old(self).lines@),
            final(self).author_key == old(self).author_key,
            final(self).prompt_session_id == old(self).prompt_session_id,
            final(self).prompt_turn == old(self).prompt_turn,
    {
        let mut lines: Vec<LineRange> = Vec::new();
        std::mem::swap(&mut lines, &mut self.lines);
        self.lines = normal_form(lines);
    }

    /// The two ranges overlap or touch.
    pub fn ranges_can_merge(range1: &LineRange, range2: &LineRange) -> (r: bool)
        requires
            merge_test_in_range(*range1, *range2),
        ensures
            r == ranges_can_merge_spec(*range1, *range2),
    {
        match (range1, range2) {
            (LineRange::Single(l1), LineRange::Single(l2)) => {
                if *l1 >= *l2 {
                    *l1 - *l2 <= 1
                } else {
                    *l2 - *l1 <= 1
                }
            },
            (LineRange::Single(l), LineRange::Range(start, end)) => {
                let low = if *start >= 1 { *start - 1 } else { 0 };
                *l >= low && *l <= *end + 1
            },
            (LineRange::Range(start, end), LineRange::Single(l)) => {
                let low = if *start >= 1 { *start - 1 } else { 0 };
                *l >= low && *l <= *end + 1
            },
            (LineRange::Range(start1, end1), LineRange::Range(start2, end2)) => {
                *start1 <= *end2 + 1 && *start2 <= *end1 + 1
            },
        }
    }

    /// The range from the smaller first line to the larger last line of the
    /// two ranges; a `Single` when these coincide.
    pub fn merge_ranges(range1: &LineRange, range2: &LineRange) -> (r: LineRange)
        ensures
            lr_start(r) == if lr_start(*range1) <= lr_start(*range2) {
                lr_start(*range1)
            } else {
                lr_start(*range2)
            },
            lr_end(r) == if lr_end(*range1) >= lr_end(*range2) {
                lr_end(*range1)
            } else {
                lr_end(*range2)
            },
            (r is Single) == (lr_start(r) == lr_end(r)),
    {
        let (start1, end1) = (lr_start_exec(range1), lr_end_exec(range1));
        let (start2, end2) = (lr_start_exec(range2), lr_end_exec(range2));
        let merged_start = if start1 <= start2 { start1 } else { start2 };
        let merged_end = if end1 >= end2 { end1 } else { end2 };
        if merged_start == merged_end {
            LineRange::Single(merged_start)
        } else {
            LineRange::Range(merged_start, merged_end)
        }
    }
}


/// The separation and representation conditions of a normal form, relative to
/// the ranges `input` it stands for.
pub open spec fn normal_shape(out: Seq<LineRange>, input: Seq<LineRange>) -> bool {
    &&& all_valid(out)
    &&& forall|i: int, j: int|
        0 <= i < j < out.len() ==> lr_end(#[trigger] out[i]) + 1 < lr_start(#[trigger] out[j])
    &&& forall|i: int|
        0 <= i < out.len() && lr_start(#[trigger] out[i]) == lr_end(out[i]) ==> ((out[i] is Single)
            <==> input.contains(LineRange::Single(lr_start(out[i]) as u32)))
}

/// Two normal shapes holding the same lines, relative to the same input, are equal.
proof fn lemma_normal_shape_unique(a: Seq<LineRange>, b: Seq<LineRange>, input: Seq<LineRange>)
    requires
        normal_shape(a, input),
        normal_shape(b, input),
        seq_lines(a) == seq_lines(b),
    ensures
        a == b,
    decreases a.len(),
{
    assert(forall|l: int| seq_has(a, l) == seq_lines(a).contains(l));
    assert(forall|l: int| seq_has(b, l) == seq_lines(b).contains(l));
    if a.len() == 0 {
        if b.len() > 0 {
            assert(crate::line_range::lr_has(b[0], lr_start(b[0])));
            assert(seq_has(b, lr_start(b[0])));
        }
        assert(a =~= b);
    } else {
        assert(crate::line_range::lr_has(a[0], lr_start(a[0])));
        assert(seq_has(a, lr_start(a[0])));
        assert(b.len() > 0);
        assert(crate::line_range::lr_has(b[0], lr_start(b[0])));
        assert(seq_has(b, lr_start(b[0])));
        let sa = lr_start(a[0]);
        let sb = lr_start(b[0]);
        let ea = lr_end(a[0]);
        let eb = lr_end(b[0]);
        // the first start is the smallest line
        assert(sb >= sa) by {
            let k = choose|k: int| 0 <= k < a.len() && crate::line_range::lr_has(#[trigger] a[k], sb);
            if k > 0 {
                assert(lr_end(a[0]) + 1 < lr_start(a[k]));
            }
        }
        assert(sa >= sb) by {
            let k = choose|k: int| 0 <= k < b.len() && crate::line_range::lr_has(#[trigger] b[k], sa);
            if k > 0 {
                assert(lr_end(b[0]) + 1 < lr_start(b[k]));
            }
        }
        // the first end is where the lines first stop
        assert(ea == eb) by {
            if ea < eb {
                assert(crate::line_range::lr_has(b[0], ea + 1));
                assert(seq_has(b, ea + 1));
                let k = choose|k: int| 0 <= k < a.len() && crate::line_range::lr_has(#[trigger] a[k], ea + 1);
                if k > 0 {
                    assert(lr_end(a[0]) + 1 < lr_start(a[k]));
                }
            }
            if eb < ea {
                assert(crate::line_range::lr_has(a[0], eb + 1));
                assert(seq_has(a, eb + 1));
                let k = choose|k: int| 0 <= k < b.len() && crate::line_range::lr_has(#[trigger] b[k], eb + 1);
                if k > 0 {
                    assert(lr_end(b[0]) + 1 < lr_start(b[k]));
                }
            }
        }
        assert(a[0] == b[0]) by {
            assert(lr_valid(a[0]));
            assert(lr_valid(b[0]));
        }
        let ra = a.drop_first();
        let rb = b.drop_first();
        assert(normal_shape(ra, input)) by {
            assert forall|i: int, j: int| 0 <= i < j < ra.len() implies lr_end(#[trigger] ra[i]) + 1
                < lr_start(#[trigger] ra[j]) by {
                assert(ra[i] == a[i + 1]);
                assert(ra[j] == a[j + 1]);
            }
        }
        assert(normal_shape(rb, input)) by {
            assert forall|i: int, j: int| 0 <= i < j < rb.len() implies lr_end(#[trigger] rb[i]) + 1
                < lr_start(#[trigger] rb[j]) by {
                assert(rb[i] == b[i + 1]);
                assert(rb[j] == b[j + 1]);
            }
        }
        assert forall|l: int| seq_has(ra, l) <==> seq_has(rb, l) by {
            if seq_has(ra, l) {
                let k = choose|k: int| 0 <= k < ra.len() && crate::line_range::lr_has(#[trigger] ra[k], l);
                assert(crate::line_range::lr_has(a[k + 1], l));
                assert(lr_end(a[0]) + 1 < lr_start(a[k + 1]));
                assert(seq_has(a, l));
                let m = choose|m: int| 0 <= m < b.len() && crate::line_range::lr_has(#[trigger] b[m], l);
                assert(m > 0);
                assert(crate::line_range::lr_has(rb[m - 1], l));
            }
            if seq_has(rb, l) {
                let k = choose|k: int| 0 <= k < rb.len() && crate::line_range::lr_has(#[trigger] rb[k], l);
                assert(crate::line_range::lr_has(b[k + 1], l));
                assert(lr_end(b[0]) + 1 < lr_start(b[k + 1]));
                assert(seq_has(b, l));
                let m = choose|m: int| 0 <= m < a.len() && crate::line_range::lr_has(#[trigger] a[m], l);
                assert(m > 0);
                assert(crate::line_range::lr_has(ra[m - 1], l));
            }
        }
        assert(seq_lines(ra) =~= seq_lines(rb));
        lemma_normal_shape_unique(ra, rb, input);
        assert(a =~= b) by {
            assert forall|i: int| 0 <= i < a.len() implies a[i] == b[i] by {
                if i > 0 {
                    assert(a[i] == ra[i - 1]);
                    assert(b[i] == rb[i - 1]);
                }
            }
        }
    }
}

/// The normal form of the ranges `input` (see `is_normal_form_of`).
pub open spec fn normal_form_spec(input: Seq<LineRange>) -> Seq<LineRange> {
    choose|out: Seq<LineRange>| is_normal_form_of(out, input)
}

/// A normal form of `input` is the normal form of `input`.
pub proof fn lemma_normal_form_spec(out: Seq<LineRange>, input: Seq<LineRange>)
    requires
        is_normal_form_of(out, input),
    ensures
        normal_form_spec(input) == out,
{
    let c = normal_form_spec(input);
    assert(is_normal_form_of(c, input));
    lemma_normal_shape_unique(c, out, input);
}

/// The increasing sequence of the distinct numbers of `s`.
pub open spec fn sorted_set_of(s: Seq<u32>) -> Seq<u32> {
    choose|t: Seq<u32>|
        strictly_increasing(t) && forall|x: u32| #[trigger] t.contains(x) <==> s.contains(x)
}

/// Two strictly increasing sequences with the same elements are equal.
proof fn lemma_sorted_set_unique(a: Seq<u32>, b: Seq<u32>)
    requires
        strictly_increasing(a),
        strictly_increasing(b),
        forall|x: u32| #![trigger a.contains(x)] #![trigger b.contains(x)] a.contains(x) <==> b.contains(x),
    ensures
        a == b,
    decreases a.len(),
{
    if a.len() == 0 {
        if b.len() > 0 {
            assert(b.contains(b[0]));
        }
        assert(a =~= b);
    } else {
        assert(a.contains(a[0]));
        assert(b.len() > 0);
        assert(b.contains(b[0]));
        assert(a[0] == b[0]) by {
            let i = choose|i: int| 0 <= i < b.len() && b[i] == a[0];
            let j = choose|j: int| 0 <= j < a.len() && a[j] == b[0];
            if i > 0 {
                assert(b[0] < b[i]);
            }
            if j > 0 {
                assert(a[0] < a[j]);
            }
        }
        let ra = a.drop_first();
        let rb = b.drop_first();
        assert forall|x: u32| #![trigger ra.contains(x)] #![trigger rb.contains(x)] ra.contains(x) <==> rb.contains(x) by {
            if ra.contains(x) {
                let i = choose|i: int| 0 <= i < ra.len() && ra[i] == x;
                assert(a[i + 1] == x);
                assert(a.contains(x));
                let j = choose|j: int| 0 <= j < b.len() && b[j] == x;
                assert(a[0] < a[i + 1]);
                assert(j > 0);
                assert(rb[j - 1] == x);
            }
            if rb.contains(x) {
                let i = choose|i: int| 0 <= i < rb.len() && rb[i] == x;
                assert(b[i + 1] == x);
                assert(b.contains(x));
                let j = choose|j: int| 0 <= j < a.len() && a[j] == x;
                assert(b[0] < b[i + 1]);
                assert(j > 0);
                assert(ra[j - 1] == x);
            }
        }
        lemma_sorted_set_unique(ra, rb);
        assert(a =~= b) by {
            assert forall|i: int| 0 <= i < a.len() implies a[i] == b[i] by {
                if i > 0 {
                    assert(a[i] == ra[i - 1]);
                    assert(b[i] == rb[i - 1]);
                }
            }
        }
    }
}

/// Sorts line numbers and removes duplicates.
pub fn sort_dedup(v: &Vec<u32>) -> (r: Vec<u32>)
    ensures
        r@ == sorted_set_of(v@),
        strictly_increasing(r@),
{
    let mut r: Vec<u32> = Vec::new();
    let mut i: usize = 0;
    while i < v.len()
        invariant
            0 <= i <= v@.len(),
            strictly_increasing(r@),
            forall|x: u32| #[trigger] r@.contains(x) <==> v@.take(i as int).contains(x),
        decreases v@.len() - i,
    {
        let x = v[i];
        let mut p: usize = 0;
        while p < r.len() && r[p] < x
            invariant
                0 <= p <= r@.len(),
                forall|k: int| 0 <= k < p ==> r@[k] < x,
            decreases r@.len() - p,
        {
            p = p + 1;
        }
        let ghost old_r = r@;
        assert(v@.take(i + 1) =~= v@.take(i as int).push(x));
        if p < r.len() && r[p] == x {
            assert forall|y: u32| #[trigger] r@.contains(y) <==> v@.take(i + 1).contains(y) by {
                if v@.take(i + 1).contains(y) {
                    let k = choose|k: int| 0 <= k < v@.take(i + 1).len() && #[trigger] v@.take(i + 1)[k] == y;
                    if k < i {
                        assert(v@.take(i as int)[k] == y);
                    }
                }
                if r@.contains(y) {
                    assert(v@.take(i as int).contains(y));
                    let k = choose|k: int| 0 <= k < v@.take(i as int).len() && #[trigger] v@.take(i as int)[k] == y;
                    assert(v@.take(i + 1)[k] == y);
                }
            }
        } else {
            r.insert(p, x);
            assert(r@ =~= old_r.insert(p as int, x));
            assert(strictly_increasing(r@)) by {
                assert forall|a: int, b: int| 0 <= a < b < r@.len() implies r@[a] < r@[b] by {
                    if a < p && b == p {
                    } else if a < p && b > p {
                        assert(r@[b] == old_r[b - 1]);
                        if b - 1 > p {
                            assert(old_r[p as int] < old_r[b - 1]);
                        }
                    } else if a == p {
                        assert(r@[b] == old_r[b - 1]);
                        if b - 1 > p {
                            assert(old_r[p as int] < old_r[b - 1]);
                        }
                    } else if a > p {
                        assert(r@[a] == old_r[a - 1]);
                        assert(r@[b] == old_r[b - 1]);
                    }
                }
            }
            assert forall|y: u32| #[trigger] r@.contains(y) <==> v@.take(i + 1).contains(y) by {
                if v@.take(i + 1).contains(y) {
                    let k = choose|k: int| 0 <= k < v@.take(i + 1).len() && #[trigger] v@.take(i + 1)[k] == y;
                    if k < i {
                        assert(v@.take(i as int)[k] == y);
                        assert(old_r.contains(y));
                        let m = choose|m: int| 0 <= m < old_r.len() && old_r[m] == y;
                        if m < p {
                            assert(r@[m] == y);
                        } else {
                            assert(r@[m + 1] == y);
                        }
                    } else {
                        assert(r@[p as int] == y);
                    }
                }
                if r@.contains(y) {
                    let k = choose|k: int| 0 <= k < r@.len() && r@[k] == y;
                    if k == p {
                        assert(v@.take(i + 1)[i as int] == y);
                    } else {
                        let m = if k < p { k } else { k - 1 };
                        assert(old_r[m] == y);
                        assert(old_r.contains(y));
                        assert(v@.take(i as int).contains(y));
                        let q = choose|q: int| 0 <= q < v@.take(i as int).len() && #[trigger] v@.take(i as int)[q] == y;
                        assert(v@.take(i + 1)[q] == y);
                    }
                }
            }
        }
        i = i + 1;
    }
    proof {
        assert(v@.take(i as int) =~= v@);
        let c = sorted_set_of(v@);
        assert(strictly_increasing(c) && forall|x: u32| #[trigger] c.contains(x) <==> v@.contains(x));
        lemma_sorted_set_unique(c, r@);
    }
    r
}

/// The version written into new authorship logs.
pub const AUTHORSHIP_LOG_VERSION: &'static str = "authorship/2.0.0";

/// An author: user name and email.
#[derive(Debug, Clone, PartialEq, Eq)]
pub struct Author {
    pub username: String,
    pub email: String,
}

impl View for Author {
    type V = (Seq<char>, Seq<char>);

    open spec fn view(&self) -> (Seq<char>, Seq<char>) {
        (self.username@, self.email@)
    }
}

/// A prompt session: the agent, its messages, and how many of the lines it
/// wrote made it into the commit.
#[derive(Debug, Clone, PartialEq, Eq)]
pub struct PromptRecord {
    pub agent_id: AgentId,
    pub messages: Vec<Message>,
    pub accepted_lines: u32,
}

impl View for PromptRecord {
    /// The agent (tool, session id, model), the messages and the accepted
    /// lines.
    type V = ((Seq<char>, Seq<char>, Seq<char>), Seq<(nat, Seq<char>, Option<Seq<char>>)>, u32);

    open spec fn view(&self) -> ((Seq<char>, Seq<char>, Seq<char>), Seq<(nat, Seq<char>, Option<Seq<char>>)>, u32) {
        (self.agent_id@, messages_view(self.messages@), self.accepted_lines)
    }
}

impl CopyView for Author {
    fn copy_view(&self) -> (r: Self) {
        Author { username: self.username.clone(), email: self.email.clone() }
    }
}

impl CopyView for PromptRecord {
    fn copy_view(&self) -> (r: Self) {
        PromptRecord {
            agent_id: self.agent_id.copy(),
            messages: crate::working_log::copy_messages(&self.messages),
            accepted_lines: self.accepted_lines,
        }
    }
}

/// Per-file attributions, in the order they were created.
pub type FileAttributions = Vec<AttributionEntry>;

/// The authorship log of a commit.
pub struct AuthorshipLog {
    pub files: StrMap<FileAttributions>,
    pub authors: StrMap<Author>,
    /// Prompt session id -> prompt session.
    pub prompts: StrMap<PromptRecord>,
    pub schema_version: String,
    pub base_commit_sha: String,
}

/// The SHA-256 digest of `data`.
pub uninterp spec fn sha256_digest(data: Seq<u8>) -> Seq<u8>;

/// Computes the SHA-256 digest of `data` with `sha2::Sha256::digest`.
///
/// Claims that the result is the (named) SHA-256 digest of the bytes, a
/// function of the bytes alone, and that it has 32 bytes, the output size of
/// SHA-256.
#[verifier::external_body]
pub(crate) fn sha256(data: &[u8]) -> (r: Vec<u8>)
    ensures
        r@ == sha256_digest(data@),
        r@.len() == 32,
{
    sha2::Sha256::digest(data).to_vec()
}

/// The lowercase hexadecimal digit for `n < 16`.
pub open spec fn hex_digit(n: u8) -> char {
    if n < 10 {
        (n + 48) as char
    } else {
        (n + 87) as char
    }
}

/// The lowercase hexadecimal text of `bytes`, two digits per byte, high first.
pub open spec fn hex_lower(bytes: Seq<u8>) -> Seq<char>
    decreases bytes.len(),
{
    if bytes.len() == 0 {
        seq![]
    } else {
        hex_lower(bytes.drop_last()) + seq![
            hex_digit(bytes.last() / 16),
            hex_digit(bytes.last() % 16),
        ]
    }
}

pub(crate) fn hex_digit_exec(n: u8) -> (c: char)
    requires
        n < 16,
    ensures
        c == hex_digit(n),
{
    if n < 10 {
        (n + 48) as char
    } else {
        (n + 87) as char
    }
}

/// The bytes that identify an author: user name, `|`, email, in UTF-8.
pub open spec fn author_key_input(username: Seq<char>, email: Seq<char>) -> Seq<u8> {
    vstd::utf8::encode_utf8(username) + seq![124u8] + vstd::utf8::encode_utf8(email)
}

/// The key of an author: the first 8 lowercase hexadecimal digits of the
/// SHA-256 digest of its identifying bytes.
pub open spec fn author_key_spec(username: Seq<char>, email: Seq<char>) -> Seq<char> {
    hex_lower(sha256_digest(author_key_input(username, email))).take(8)
}

/// The position of the entry that answers for `line`: scanning from the last
/// entry back, the first that holds the line and whose author is known.
pub open spec fn line_entry_index(
    es: Seq<AttributionEntry>,
    line: int,
    authors: Seq<(Seq<char>, Author)>,
) -> Option<int>
    decreases es.len(),
{
    if es.len() == 0 {
        None
    } else if seq_has(es.last().lines@, line) && lookup(authors, es.last().author_key@) is Some {
        Some(es.len() - 1)
    } else {
        line_entry_index(es.drop_last(), line, authors)
    }
}

/// The prompt an entry refers to: its session's record and its turn, when it
/// names both and the session is known.
pub open spec fn entry_prompt(
    e: AttributionEntry,
    prompts: Seq<(Seq<char>, PromptRecord)>,
) -> Option<(PromptRecord, u32)> {
    match (e.prompt_session_id, e.prompt_turn) {
        (Some(sid), Some(turn)) => match lookup(prompts, sid@) {
            Some(p) => Some((p, turn)),
            None => None,
        },
        _ => None,
    }
}

/// The author, and the prompt if any, of `line` of `file` (later entries win).
pub open spec fn line_attribution_spec(log: AuthorshipLog, file: Seq<char>, line: int) -> Option<
    (Author, Option<(PromptRecord, u32)>),
> {
    match lookup(log.files@, file) {
        None => None,
        Some(es) => match line_entry_index(es@, line, log.authors@) {
            None => None,
            Some(i) => Some(
                (
                    lookup(log.authors@, es@[i].author_key@).unwrap(),
                    entry_prompt(es@[i], log.prompts@),
                ),
            ),
        },
    }
}

/// Hexadecimal text has two digits per byte.
pub proof fn lemma_hex_len(bytes: Seq<u8>)
    ensures
        hex_lower(bytes).len() == 2 * bytes.len(),
    decreases bytes.len(),
{
    if bytes.len() > 0 {
        lemma_hex_len(bytes.drop_last());
    }
}

impl AuthorshipLog {
    /// The three maps are well formed.
    pub open spec fn wf(&self) -> bool {
        self.files.wf() && self.authors.wf() && self.prompts.wf()
    }

    /// An empty log of the current version with no base commit.
    pub fn new() -> (r: Self)
        ensures
            r.wf(),
            r.files@.len() == 0,
            r.authors@.len() == 0,
            r.prompts@.len() == 0,
            r.schema_version@ == AUTHORSHIP_LOG_VERSION@,
            r.base_commit_sha@.len() == 0,
    {
        AuthorshipLog {
            files: StrMap::new(),
            authors: StrMap::new(),
            prompts: StrMap::new(),
            schema_version: AUTHORSHIP_LOG_VERSION.to_owned(),
            base_commit_sha: String::new(),
        }
    }

    /// A stable key for an author: the first 8 lowercase hexadecimal digits of
    /// the SHA-256 digest of `username|email`.
    pub fn generate_author_key(author: &Author) -> (r: String)
        ensures
            r@ == author_key_spec(author.username@, author.email@),
    {
        let u = author.username.as_str().as_bytes();
        let e = author.email.as_str().as_bytes();
        let mut data: Vec<u8> = Vec::new();
        let mut i: usize = 0;
        while i < u.len()
            invariant
                0 <= i <= u@.len(),
                data@ == u@.take(i as int),
            decreases u@.len() - i,
        {
            data.push(u[i]);
            i = i + 1;
            assert(data@ =~= u@.take(i as int));
        }
        data.push(124u8);
        let mut j: usize = 0;
        while j < e.len()
            invariant
                0 <= j <= e@.len(),
                data@ == u@ + seq![124u8] + e@.take(j as int),
            decreases e@.len() - j,
        {
            data.push(e[j]);
            j = j + 1;
            assert(data@ =~= u@ + seq![124u8] + e@.take(j as int));
        }
        proof {
            assert(u@.take(i as int) =~= u@);
            assert(e@.take(j as int) =~= e@);
            assert(data@ =~= author_key_input(author.username@, author.email@));
        }
        let digest = sha256(data.as_slice());
        let mut hex: Vec<char> = Vec::new();
        let mut k: usize = 0;
        while k < digest.len()
            invariant
                0 <= k <= digest@.len(),
                hex@ == hex_lower(digest@.take(k as int)),
            decreases digest@.len() - k,
        {
            let b = digest[k];
            hex.push(hex_digit_exec(b / 16));
            hex.push(hex_digit_exec(b % 16));
            assert(digest@.take(k + 1).drop_last() =~= digest@.take(k as int));
            k = k + 1;
            assert(hex@ =~= hex_lower(digest@.take(k as int)));
        }
        assert(digest@.take(k as int) =~= digest@);
        proof {
            lemma_hex_len(digest@);
        }
        let mut r = String::new();
        let mut q: usize = 0;
        while q < 8
            invariant
                0 <= q <= 8,
                hex@.len() == 64,
                r@ == hex@.take(q as int),
            decreases 8 - q,
        {
            crate::text::push_char(&mut r, hex[q]);
            q = q + 1;
            assert(r@ =~= hex@.take(q as int));
        }
        r
    }

    /// The author, and the prompt if any, of line `line` of `file`: the
    /// latest entry of the file that holds the line and whose author is known
    /// answers.
    pub fn get_line_attribution(&self, file: &str, line: u32) -> (r: Option<
        (&Author, Option<(&PromptRecord, u32)>),
    >)
        requires
            self.wf(),
        ensures
            r is None <==> line_attribution_spec(*self, file@, line as int) is None,
            r matches Some((a, p)) ==> line_attribution_spec(*self, file@, line as int) == Some(
                (
                    *a,
                    match p {
                        Some((pr, t)) => Some((*pr, t)),
                        None => None::<(PromptRecord, u32)>,
                    },
                ),
            ),
    {
        let entries = match self.files.get(file) {
            Some(es) => es,
            None => {
                assert(lookup(self.files@, file@) is None);
                assert(line_attribution_spec(*self, file@, line as int) is None);
                return None;
            },
        };
        let ghost es = entries@;
        let mut i: usize = entries.len();
        assert(es.take(i as int) =~= es);
        while i > 0
            invariant
                0 <= i <= es.len(),
                es == entries@,
                line_entry_index(es, line as int, self.authors@) == line_entry_index(
                    es.take(i as int),
                    line as int,
                    self.authors@,
                ),
                self.wf(),
                lookup(self.files@, file@) == Some(*entries),
            decreases i,
        {
            let e = &entries[i - 1];
            assert(es.take(i as int).drop_last() =~= es.take(i - 1));
            assert(es.take(i as int).last() == es[i - 1]);
            if e.contains_line(line) {
                if let Some(author) = self.authors.get(e.author_key.as_str()) {
                    let prompt = match (&e.prompt_session_id, e.prompt_turn) {
                        (Some(session), Some(turn)) => match self.prompts.get(session.as_str()) {
                            Some(p) => Some((p, turn)),
                            None => None,
                        },
                        _ => None,
                    };
                    assert(line_entry_index(es, line as int, self.authors@) == Some(i - 1));
                    assert(entry_prompt(es[i - 1], self.prompts@) == match prompt {
                        Some((pr, t)) => Some((*pr, t)),
                        None => None::<(PromptRecord, u32)>,
                    });
                    return Some((author, prompt));
                }
            }
            i = i - 1;
        }
        assert(es.take(0) =~= Seq::<AttributionEntry>::empty());
        assert(line_entry_index(es, line as int, self.authors@) is None);
        assert(lookup(self.files@, file@) == Some(*entries));
        assert(line_attribution_spec(*self, file@, line as int) is None);
        None
    }

    /// The attributions of `file`, added (empty) when the file has none.
    pub fn get_or_create_file(&mut self, file: &str) -> (r: &mut FileAttributions)
        requires
            old(self).wf(),
        ensures
            match lookup(old(self).files@, file@) {
                Some(v) => *r == v,
                None => r@.len() == 0,
            },
            forall|k: Seq<char>|
                lookup(final(self).files@, k) == if k == file@ {
                    Some(*final(r))
                } else {
                    lookup(old(self).files@, k)
                },
            final(self).wf(),
            final(self).authors == old(self).authors,
            final(self).prompts == old(self).prompts,
            final(self).schema_version == old(self).schema_version,
            final(self).base_commit_sha == old(self).base_commit_sha,
    {
        if !self.files.contains_key(file) {
            self.files.insert(file.to_owned(), Vec::new());
        }
        let idx = match self.files.index_of(file) {
            Some(i) => i,
            None => 0,
        };
        proof {
            crate::str_map::lemma_lookup(self.files@, file@);
            crate::str_map::lemma_lookup_update(self.files@, idx as int);
        }
        self.files.value_at_mut(idx)
    }
}


/// The view of an attribution entry: lines, author key, prompt session, turn.
pub open spec fn entry_view(e: AttributionEntry) -> (
    Seq<LineRange>,
    Seq<char>,
    Option<Seq<char>>,
    Option<u32>,
) {
    (e.lines@, e.author_key@, opt_str_view(e.prompt_session_id), e.prompt_turn)
}

/// The views of a sequence of attribution entries.
pub open spec fn entries_view(es: Seq<AttributionEntry>) -> Seq<
    (Seq<LineRange>, Seq<char>, Option<Seq<char>>, Option<u32>),
> {
    es.map_values(|e: AttributionEntry| entry_view(e))
}

/// The map that a sequence with unique keys stands for.
pub open spec fn sm_map<V>(s: Seq<(Seq<char>, V)>) -> Map<Seq<char>, V> {
    Map::new(|k: Seq<char>| lookup(s, k) is Some, |k: Seq<char>| lookup(s, k).unwrap())
}

/// The files of a log: path -> views of its attribution entries.
pub open spec fn files_model(log: AuthorshipLog) -> Map<
    Seq<char>,
    Seq<(Seq<LineRange>, Seq<char>, Option<Seq<char>>, Option<u32>)>,
> {
    sm_map(log.files@).map_values(|v: Vec<AttributionEntry>| entries_view(v@))
}

/// The authors of a log: key -> (user name, email).
pub open spec fn authors_model(log: AuthorshipLog) -> Map<Seq<char>, (Seq<char>, Seq<char>)> {
    sm_map(log.authors@).map_values(|a: Author| a@)
}

/// The prompt sessions of a log: id -> ((tool, id, model), messages,
/// accepted lines).
pub open spec fn prompts_model(log: AuthorshipLog) -> Map<
    Seq<char>,
    ((Seq<char>, Seq<char>, Seq<char>), Seq<(nat, Seq<char>, Option<Seq<char>>)>, u32),
> {
    sm_map(log.prompts@).map_values(
        |p: PromptRecord| (p.agent_id@, messages_view(p.messages@), p.accepted_lines),
    )
}

/// The state that `from_working_log` builds: files, authors and prompts.
pub type LogState = (
    Map<Seq<char>, Seq<(Seq<LineRange>, Seq<char>, Option<Seq<char>>, Option<u32>)>>,
    Map<Seq<char>, (Seq<char>, Seq<char>)>,
    Map<Seq<char>, ((Seq<char>, Seq<char>, Seq<char>), Seq<(nat, Seq<char>, Option<Seq<char>>)>, u32)>,
);

/// The model of a log as a `LogState`.
pub open spec fn log_state(log: AuthorshipLog) -> LogState {
    (files_model(log), authors_model(log), prompts_model(log))
}

/// The line range of a working-log line.
pub open spec fn line_to_range(l: Line) -> LineRange {
    match l {
        Line::Single(x) => LineRange::Single(x),
        Line::Range(a, b) => LineRange::Range(a, b),
    }
}

/// Each entry loses the ranges `rm` (see `AttributionEntry::remove_lines`).
pub open spec fn remove_from_entries(
    es: Seq<(Seq<LineRange>, Seq<char>, Option<Seq<char>>, Option<u32>)>,
    rm: Seq<LineRange>,
) -> Seq<(Seq<LineRange>, Seq<char>, Option<Seq<char>>, Option<u32>)> {
    es.map_values(
        |e: (Seq<LineRange>, Seq<char>, Option<Seq<char>>, Option<u32>)|
            (remove_lines_spec(e.0, rm), e.1, e.2, e.3),
    )
}

/// Deleted lines, one after the other, leave every entry.
pub open spec fn apply_deletions(
    es: Seq<(Seq<LineRange>, Seq<char>, Option<Seq<char>>, Option<u32>)>,
    dels: Seq<Line>,
) -> Seq<(Seq<LineRange>, Seq<char>, Option<Seq<char>>, Option<u32>)>
    decreases dels.len(),
{
    if dels.len() == 0 {
        es
    } else {
        remove_from_entries(apply_deletions(es, dels.drop_last()), seq![line_to_range(dels.last())])
    }
}

/// The line numbers of a working-log line.
pub open spec fn expand_line(l: Line) -> Seq<u32> {
    crate::line_range::expand_spec(line_to_range(l))
}

/// The line numbers of working-log lines, in the order given.
pub open spec fn expand_lines(ls: Seq<Line>) -> Seq<u32>
    decreases ls.len(),
{
    if ls.len() == 0 {
        seq![]
    } else {
        expand_lines(ls.drop_last()) + expand_line(ls.last())
    }
}

/// The position of the first entry with this author and prompt.
pub open spec fn find_entry(
    es: Seq<(Seq<LineRange>, Seq<char>, Option<Seq<char>>, Option<u32>)>,
    key: Seq<char>,
    sid: Option<Seq<char>>,
    turn: Option<u32>,
) -> Option<int>
    decreases es.len(),
{
    if es.len() == 0 {
        None
    } else {
        match find_entry(es.drop_last(), key, sid, turn) {
            Some(j) => Some(j),
            None => if es.last().1 == key && es.last().2 == sid && es.last().3 == turn {
                Some(es.len() - 1)
            } else {
                None
            },
        }
    }
}

/// The ranges `ltr` join the entry of this author and prompt, or a new one.
pub open spec fn add_to_entries(
    es: Seq<(Seq<LineRange>, Seq<char>, Option<Seq<char>>, Option<u32>)>,
    ltr: Seq<LineRange>,
    key: Seq<char>,
    sid: Option<Seq<char>>,
    turn: Option<u32>,
) -> Seq<(Seq<LineRange>, Seq<char>, Option<Seq<char>>, Option<u32>)> {
    match find_entry(es, key, sid, turn) {
        Some(j) => es.update(j, (normal_form_spec(es[j].0 + ltr), es[j].1, es[j].2, es[j].3)),
        None => es.push((normal_form_spec(ltr), key, sid, turn)),
    }
}

/// One working-log entry applied to the state: its deleted lines leave every
/// entry of the file, then its added lines leave every entry and join the
/// entry of the checkpoint's author and prompt.
pub open spec fn apply_entry(
    st: LogState,
    e: WorkingLogEntry,
    author: Seq<char>,
    sid: Option<Seq<char>>,
    turn: Option<u32>,
) -> LogState {
    let (files, authors, prompts) = st;
    let fe0 = if files.contains_key(e.file@) {
        files[e.file@]
    } else {
        seq![]
    };
    let fe1 = apply_deletions(fe0, e.deleted_lines@);
    let added = sorted_set_of(expand_lines(e.added_lines@));
    if added.len() == 0 {
        (files.insert(e.file@, fe1), authors, prompts)
    } else {
        let key = author_key_spec(author, seq![]);
        let authors2 = if authors.contains_key(key) {
            authors
        } else {
            authors.insert(key, (author, seq![]))
        };
        let ltr = crate::line_range::compress_spec(added);
        (
            files.insert(e.file@, add_to_entries(remove_from_entries(fe1, ltr), ltr, key, sid, turn)),
            authors2,
            prompts,
        )
    }
}

/// The entries of a checkpoint applied in order.
pub open spec fn apply_entries(
    st: LogState,
    es: Seq<WorkingLogEntry>,
    author: Seq<char>,
    sid: Option<Seq<char>>,
    turn: Option<u32>,
) -> LogState
    decreases es.len(),
{
    if es.len() == 0 {
        st
    } else {
        apply_entry(apply_entries(st, es.drop_last(), author, sid, turn), es.last(), author, sid, turn)
    }
}

/// The prompt session of a checkpoint and its latest turn, when it has both
/// an agent and a transcript.
pub open spec fn session_of(c: Checkpoint) -> (Option<Seq<char>>, Option<u32>) {
    match (c.agent_id, c.transcript) {
        (Some(a), Some(t)) => (
            Some(a.id@),
            Some((if t.messages@.len() >= 1 {
                t.messages@.len() - 1
            } else {
                0
            }) as u32),
        ),
        _ => (None, None),
    }
}

/// The prompt sessions after a checkpoint: its session is recorded (with no
/// accepted lines yet), and its messages replace the recorded ones when
/// there are more of them.
pub open spec fn update_prompts(
    prompts: Map<Seq<char>, ((Seq<char>, Seq<char>, Seq<char>), Seq<(nat, Seq<char>, Option<Seq<char>>)>, u32)>,
    c: Checkpoint,
) -> Map<Seq<char>, ((Seq<char>, Seq<char>, Seq<char>), Seq<(nat, Seq<char>, Option<Seq<char>>)>, u32)> {
    match (c.agent_id, c.transcript) {
        (Some(a), Some(t)) => {
            let sid = a.id@;
            let msgs = messages_view(t.messages@);
            if !prompts.contains_key(sid) {
                prompts.insert(sid, (a@, msgs, 0u32))
            } else if prompts[sid].1.len() < msgs.len() {
                prompts.insert(sid, (prompts[sid].0, msgs, prompts[sid].2))
            } else {
                prompts
            }
        },
        _ => prompts,
    }
}

/// One checkpoint applied to the state.
pub open spec fn apply_checkpoint(st: LogState, c: Checkpoint) -> LogState {
    let st1 = (st.0, st.1, update_prompts(st.2, c));
    apply_entries(st1, c.entries@, c.author@, session_of(c).0, session_of(c).1)
}

/// Checkpoints applied in order.
pub open spec fn apply_checkpoints(st: LogState, cs: Seq<Checkpoint>) -> LogState
    decreases cs.len(),
{
    if cs.len() == 0 {
        st
    } else {
        apply_checkpoint(apply_checkpoints(st, cs.drop_last()), cs.last())
    }
}

/// The files that keep at least one entry with lines.
pub open spec fn drop_empty_files(
    files: Map<Seq<char>, Seq<(Seq<LineRange>, Seq<char>, Option<Seq<char>>, Option<u32>)>>,
) -> Map<Seq<char>, Seq<(Seq<LineRange>, Seq<char>, Option<Seq<char>>, Option<u32>)>> {
    files.restrict(
        Set::new(
            |k: Seq<char>|
                exists|i: int| 0 <= i < files[k].len() && (#[trigger] files[k][i]).0.len() > 0,
        ),
    )
}

/// The state before any checkpoint.
pub open spec fn empty_state() -> LogState {
    (Map::empty(), Map::empty(), Map::empty())
}


/// A change of lookups that sets one key is a map insertion.
pub proof fn lemma_sm_map_insert<V>(s: Seq<(Seq<char>, V)>, t: Seq<(Seq<char>, V)>, key: Seq<char>, v: V)
    requires
        forall|k: Seq<char>| lookup(t, k) == if k == key {
            Some(v)
        } else {
            lookup(s, k)
        },
    ensures
        sm_map(t) == sm_map(s).insert(key, v),
{
    assert(sm_map(t) =~= sm_map(s).insert(key, v));
}

/// Removing a range from each of valid ranges leaves valid ranges holding
/// exactly their lines that the range does not hold.
pub proof fn lemma_remove_each(lines: Seq<LineRange>, b: LineRange)
    requires
        all_valid(lines),
    ensures
        all_valid(remove_each(lines, b)),
        seq_lines(remove_each(lines, b)) == seq_lines(lines).difference(lr_lines(b)),
    decreases lines.len(),
{
    if lines.len() > 0 {
        let p = lines.drop_last();
        assert(all_valid(p)) by {
            assert forall|i: int| 0 <= i < p.len() implies lr_valid(#[trigger] p[i]) by {
                assert(p[i] == lines[i]);
            }
        }
        lemma_remove_each(p, b);
        assert(lr_valid(lines[lines.len() - 1]));
        crate::line_range::lemma_remove_is_difference(lines.last(), b);
        let x = remove_each(p, b);
        let y = lr_remove(lines.last(), b);
        assert forall|i: int| 0 <= i < (x + y).len() implies lr_valid(#[trigger] (x + y)[i]) by {
            if i < x.len() {
                assert((x + y)[i] == x[i]);
            } else {
                assert((x + y)[i] == y[i - x.len()]);
            }
        }
        assert forall|l: int| seq_has(x + y, l) <==> (seq_has(lines, l) && !lr_has(b, l)) by {
            assert(seq_lines(x).contains(l) == seq_has(x, l));
            assert(seq_lines(y).contains(l) == seq_has(y, l));
            assert(seq_lines(p).contains(l) == seq_has(p, l));
            assert(lr_lines(lines.last()).contains(l) == lr_has(lines.last(), l));
            assert(lr_lines(b).contains(l) == lr_has(b, l));
            if seq_has(x + y, l) {
                let k = choose|k: int| 0 <= k < (x + y).len() && lr_has(#[trigger] (x + y)[k], l);
                if k < x.len() {
                    assert((x + y)[k] == x[k]);
                    let q = choose|q: int| 0 <= q < p.len() && lr_has(#[trigger] p[q], l);
                    assert(lines[q] == p[q]);
                } else {
                    assert((x + y)[k] == y[k - x.len()]);
                    assert(seq_has(y, l));
                    assert(lr_has(lines[lines.len() - 1], l));
                }
            }
            if seq_has(lines, l) && !lr_has(b, l) {
                let q = choose|q: int| 0 <= q < lines.len() && lr_has(#[trigger] lines[q], l);
                if q < p.len() {
                    assert(p[q] == lines[q]);
                    assert(seq_has(p, l));
                    let k = choose|k: int| 0 <= k < x.len() && lr_has(#[trigger] x[k], l);
                    assert((x + y)[k] == x[k]);
                } else {
                    assert(seq_has(y, l));
                    let k = choose|k: int| 0 <= k < y.len() && lr_has(#[trigger] y[k], l);
                    assert((x + y)[k + x.len()] == y[k]);
                }
            }
        }
        assert(seq_lines(x + y) =~= seq_lines(lines).difference(lr_lines(b)));
    } else {
        assert(seq_lines(remove_each(lines, b)) =~= seq_lines(lines).difference(lr_lines(b)));
    }
}

/// Removing ranges from valid ranges leaves valid ranges holding exactly
/// their lines that none of the removed ranges holds.
pub proof fn lemma_remove_lines_difference(lines: Seq<LineRange>, rm: Seq<LineRange>)
    requires
        all_valid(lines),
    ensures
        all_valid(remove_lines_spec(lines, rm)),
        seq_lines(remove_lines_spec(lines, rm)) == seq_lines(lines).difference(seq_lines(rm)),
    decreases rm.len(),
{
    if rm.len() > 0 {
        let p = rm.drop_last();
        lemma_remove_lines_difference(lines, p);
        lemma_remove_each(remove_lines_spec(lines, p), rm.last());
        assert forall|l: int| seq_has(rm, l) <==> (seq_has(p, l) || lr_has(rm.last(), l)) by {
            if seq_has(rm, l) {
                let q = choose|q: int| 0 <= q < rm.len() && lr_has(#[trigger] rm[q], l);
                if q < p.len() {
                    assert(p[q] == rm[q]);
                }
            }
            if seq_has(p, l) {
                let q = choose|q: int| 0 <= q < p.len() && lr_has(#[trigger] p[q], l);
                assert(rm[q] == p[q]);
            }
            if lr_has(rm.last(), l) {
                assert(lr_has(rm[rm.len() - 1], l));
            }
        }
        assert(seq_lines(remove_lines_spec(lines, rm)) =~= seq_lines(lines).difference(seq_lines(rm)));
    } else {
        assert(seq_lines(rm) =~= Set::<int>::empty());
        assert(seq_lines(lines).difference(seq_lines(rm)) =~= seq_lines(lines));
    }
}

/// Removing ranges from valid ranges leaves valid ranges.
pub proof fn lemma_remove_lines_valid(lines: Seq<LineRange>, rm: Seq<LineRange>)
    requires
        all_valid(lines),
    ensures
        all_valid(remove_lines_spec(lines, rm)),
{
    lemma_remove_lines_difference(lines, rm);
}

/// Every entry of `es` has valid ranges.
pub open spec fn entries_valid(es: Seq<(Seq<LineRange>, Seq<char>, Option<Seq<char>>, Option<u32>)>) -> bool {
    forall|i: int| 0 <= i < es.len() ==> all_valid(#[trigger] es[i].0)
}

/// Every entry of every file has valid ranges.
pub open spec fn state_valid(st: LogState) -> bool {
    forall|k: Seq<char>| #[trigger] st.0.contains_key(k) ==> entries_valid(st.0[k])
}

/// Removes the ranges `rm` from every entry.
fn remove_from_all_entries(fe: &mut Vec<AttributionEntry>, rm: &[LineRange])
    requires
        entries_valid(entries_view(old(fe)@)),
    ensures
        entries_view(final(fe)@) == remove_from_entries(entries_view(old(fe)@), rm@),
        entries_valid(entries_view(final(fe)@)),
{
    let ghost before = entries_view(fe@);
    let mut k: usize = 0;
    while k < fe.len()
        invariant
            0 <= k <= fe@.len(),
            before.len() == fe@.len(),
            forall|j: int| 0 <= j < k ==> #[trigger] entry_view(fe@[j]) == (
                remove_lines_spec(before[j].0, rm@),
                before[j].1,
                before[j].2,
                before[j].3,
            ),
            forall|j: int| k <= j < fe@.len() ==> #[trigger] entry_view(fe@[j]) == before[j],
            entries_valid(before),
        decreases fe@.len() - k,
    {
        let ghost prev = fe@;
        assert(entry_view(prev[k as int]) == before[k as int]);
        fe[k].remove_lines(rm);
        assert(fe@ == prev.update(k as int, fe@[k as int]));
        assert(forall|j: int| 0 <= j < fe@.len() && j != k ==> fe@[j] == prev[j]);
        k = k + 1;
    }
    assert(entries_view(fe@) =~= remove_from_entries(before, rm@));
    assert forall|i: int| 0 <= i < fe@.len() implies all_valid(#[trigger] entries_view(fe@)[i].0) by {
        lemma_remove_lines_valid(before[i].0, rm@);
    }
}

/// The range of a working-log line.
fn line_to_range_exec(l: &Line) -> (r: LineRange)
    ensures
        r == line_to_range(*l),
{
    match l {
        Line::Single(x) => LineRange::Single(*x),
        Line::Range(a, b) => LineRange::Range(*a, *b),
    }
}

/// Whether two optional strings are equal.
fn opt_str_eq(a: &Option<String>, b: &Option<String>) -> (r: bool)
    ensures
        r == (opt_str_view(*a) == opt_str_view(*b)),
{
    match (a, b) {
        (Some(x), Some(y)) => *x == *y,
        (None, None) => true,
        _ => false,
    }
}

/// The position of the first entry with this author and prompt.
fn find_entry_exec(fe: &Vec<AttributionEntry>, key: &String, sid: &Option<String>, turn: Option<u32>) -> (r: Option<usize>)
    ensures
        match r {
            Some(j) => j < fe@.len() && find_entry(entries_view(fe@), key@, opt_str_view(*sid), turn) == Some(j as int),
            None => find_entry(entries_view(fe@), key@, opt_str_view(*sid), turn) is None,
        },
{
    let ghost es = entries_view(fe@);
    let mut k: usize = 0;
    while k < fe.len()
        invariant
            0 <= k <= fe@.len(),
            es == entries_view(fe@),
            find_entry(es.take(k as int), key@, opt_str_view(*sid), turn) is None,
        decreases fe@.len() - k,
    {
        assert(es.take(k + 1).drop_last() =~= es.take(k as int));
        let e = &fe[k];
        if e.author_key == *key && opt_str_eq(&e.prompt_session_id, sid) && e.prompt_turn == turn {
            proof {
                lemma_find_entry_prefix(es, k as int + 1, key@, opt_str_view(*sid), turn);
            }
            return Some(k);
        }
        k = k + 1;
    }
    assert(es.take(k as int) =~= es);
    None
}

/// A match found in a prefix is the match of the whole sequence.
proof fn lemma_find_entry_prefix(
    es: Seq<(Seq<LineRange>, Seq<char>, Option<Seq<char>>, Option<u32>)>,
    n: int,
    key: Seq<char>,
    sid: Option<Seq<char>>,
    turn: Option<u32>,
)
    requires
        0 <= n <= es.len(),
        find_entry(es.take(n), key, sid, turn) is Some,
    ensures
        find_entry(es, key, sid, turn) == find_entry(es.take(n), key, sid, turn),
    decreases es.len() - n,
{
    if n < es.len() {
        assert(es.take(n + 1).drop_last() =~= es.take(n));
        lemma_find_entry_prefix(es, n + 1, key, sid, turn);
    } else {
        assert(es.take(n) =~= es);
    }
}


/// The line numbers of working-log lines, in the order given.
pub(crate) fn expand_lines_exec(ls: &Vec<Line>) -> (r: Vec<u32>)
    ensures
        r@ == expand_lines(ls@),
{
    let mut r: Vec<u32> = Vec::new();
    let mut i: usize = 0;
    while i < ls.len()
        invariant
            0 <= i <= ls@.len(),
            r@ == expand_lines(ls@.take(i as int)),
        decreases ls@.len() - i,
    {
        let mut part = line_to_range_exec(&ls[i]).expand();
        assert(ls@.take(i + 1).drop_last() =~= ls@.take(i as int));
        r.append(&mut part);
        i = i + 1;
    }
    assert(ls@.take(i as int) =~= ls@);
    r
}

/// Applies one working-log entry of a checkpoint by `author` in prompt
/// session `sid` at turn `turn` (see `apply_entry`).
fn apply_working_entry(
    log: &mut AuthorshipLog,
    e: &WorkingLogEntry,
    author: &String,
    sid: &Option<String>,
    turn: Option<u32>,
)
    requires
        old(log).wf(),
        state_valid(log_state(*old(log))),
    ensures
        final(log).wf(),
        state_valid(log_state(*final(log))),
        log_state(*final(log)) == apply_entry(log_state(*old(log)), *e, author@, opt_str_view(*sid), turn),
        final(log).schema_version == old(log).schema_version,
        final(log).base_commit_sha == old(log).base_commit_sha,
{
    let ghost st = log_state(*log);
    let ghost files0 = log.files@;
    let mut fe: Vec<AttributionEntry> = Vec::new();
    proof {
        crate::str_map::lemma_lookup(files0, e.file@);
    }
    match log.files.index_of(e.file.as_str()) {
        Some(i) => {
            proof {
                crate::str_map::lemma_lookup_update(files0, i as int);
            }
            fe = log.files.swap_value_at(i, Vec::new());
        },
        None => {},
    }
    proof {
        if st.0.contains_key(e.file@) {
            assert(entries_view(fe@) == st.0[e.file@]);
        } else {
            assert(fe@ =~= Seq::<AttributionEntry>::empty());
            assert(entries_view(fe@) =~= seq![]);
        }
    }
    let ghost fe0 = entries_view(fe@);
    assert(entries_valid(fe0));
    let mut d: usize = 0;
    while d < e.deleted_lines.len()
        invariant
            0 <= d <= e.deleted_lines@.len(),
            entries_view(fe@) == apply_deletions(fe0, e.deleted_lines@.take(d as int)),
            entries_valid(entries_view(fe@)),
        decreases e.deleted_lines@.len() - d,
    {
        let r = line_to_range_exec(&e.deleted_lines[d]);
        let rm: Vec<LineRange> = vec![r];
        assert(rm@ =~= seq![line_to_range(e.deleted_lines@[d as int])]);
        remove_from_all_entries(&mut fe, rm.as_slice());
        assert(e.deleted_lines@.take(d + 1).drop_last() =~= e.deleted_lines@.take(d as int));
        d = d + 1;
    }
    assert(e.deleted_lines@.take(d as int) =~= e.deleted_lines@);
    let ghost fe1 = entries_view(fe@);
    let expanded = expand_lines_exec(&e.added_lines);
    let added = sort_dedup(&expanded);
    if added.len() > 0 {
        let author_struct = Author { username: author.clone(), email: String::new() };
        let key = AuthorshipLog::generate_author_key(&author_struct);
        assert(key@ == author_key_spec(author@, seq![]));
        if !log.authors.contains_key(key.as_str()) {
            let ghost a0 = log.authors@;
            log.authors.insert(key.clone(), author_struct);
            proof {
                lemma_sm_map_insert(a0, log.authors@, key@, author_struct);
                assert(authors_model(*log) =~= st.1.insert(key@, (author@, seq![])));
            }
        }
        assert(forall|i: int| 0 <= i < added@.len() - 1 ==> #[trigger] added@[i] < added@[i + 1]);
        let ltr = LineRange::compress_lines(added.as_slice());
        proof {
            crate::line_range::lemma_compress_lines(added@);
        }
        remove_from_all_entries(&mut fe, ltr.as_slice());
        let ghost fe2 = entries_view(fe@);
        match find_entry_exec(&fe, &key, sid, turn) {
            Some(j) => {
                let ghost prev = fe@;
                assert(entry_view(prev[j as int]) == fe2[j as int]);
                assert(all_valid(prev[j as int].lines@ + ltr@)) by {
                    assert(all_valid(fe2[j as int].0));
                    let c = prev[j as int].lines@ + ltr@;
                    assert forall|q: int| 0 <= q < c.len() implies lr_valid(#[trigger] c[q]) by {
                        if q < prev[j as int].lines@.len() {
                            assert(c[q] == prev[j as int].lines@[q]);
                        } else {
                            assert(c[q] == ltr@[q - prev[j as int].lines@.len()]);
                        }
                    }
                }
                fe[j].add_lines(ltr.as_slice());
                proof {
                    lemma_normal_form_spec(fe@[j as int].lines@, prev[j as int].lines@ + ltr@);
                    assert(fe@ == prev.update(j as int, fe@[j as int]));
                    assert(entries_view(fe@) =~= fe2.update(
                        j as int,
                        (normal_form_spec(fe2[j as int].0 + ltr@), fe2[j as int].1, fe2[j as int].2, fe2[j as int].3),
                    ));
                }
            },
            None => {
                let mut new_rec = AttributionEntry {
                    lines: Vec::new(),
                    author_key: key,
                    prompt_session_id: crate::working_log::copy_opt_string(sid),
                    prompt_turn: turn,
                };
                assert(new_rec.lines@ + ltr@ =~= ltr@);
                new_rec.add_lines(ltr.as_slice());
                proof {
                    lemma_normal_form_spec(new_rec.lines@, ltr@);
                }
                let ghost prev = fe@;
                fe.push(new_rec);
                proof {
                    assert(fe@ == prev.push(new_rec));
                    assert(entries_view(fe@) =~= fe2.push((normal_form_spec(ltr@), key@, opt_str_view(*sid), turn)));
                }
            },
        }
        assert(entries_view(fe@) == add_to_entries(remove_from_entries(fe1, ltr@), ltr@, author_key_spec(author@, seq![]), opt_str_view(*sid), turn));
        assert(entries_valid(entries_view(fe@))) by {
            assert forall|q: int| 0 <= q < entries_view(fe@).len() implies all_valid(#[trigger] entries_view(fe@)[q].0) by {
                assert(entries_view(fe@)[q] == entry_view(fe@[q]));
            }
        }
    }
    let ghost files1 = log.files@;
    let ghost fev = entries_view(fe@);
    log.files.insert(e.file.clone(), fe);
    proof {
        assert forall|k: Seq<char>| lookup(files1, k) == if k == e.file@ { lookup(files1, k) } else { lookup(files0, k) } by {}
        lemma_sm_map_insert(files0, log.files@, e.file@, fe);
        assert(files_model(*log) =~= st.0.insert(e.file@, fev));
    }
}


/// Records the prompt session of a checkpoint (see `update_prompts`) and
/// returns its session id and latest turn (see `session_of`).
fn record_prompt(log: &mut AuthorshipLog, c: &Checkpoint) -> (r: (Option<String>, Option<u32>))
    requires
        old(log).wf(),
    ensures
        final(log).wf(),
        prompts_model(*final(log)) == update_prompts(prompts_model(*old(log)), *c),
        final(log).files == old(log).files,
        final(log).authors == old(log).authors,
        final(log).schema_version == old(log).schema_version,
        final(log).base_commit_sha == old(log).base_commit_sha,
        (opt_str_view(r.0), r.1) == session_of(*c),
{
    match (&c.agent_id, &c.transcript) {
        (Some(agent), Some(transcript)) => {
            let n = transcript.messages.len();
            let ghost p0 = log.prompts@;
            proof {
                crate::str_map::lemma_lookup(p0, agent.id@);
            }
            match log.prompts.index_of(agent.id.as_str()) {
                Some(i) => {
                    if log.prompts.value_at(i).messages.len() < n {
                        let rec = log.prompts.value_at_mut(i);
                        rec.messages = crate::working_log::copy_messages(&transcript.messages);
                        proof {
                            crate::str_map::lemma_lookup_update(p0, i as int);
                            lemma_sm_map_insert(p0, log.prompts@, agent.id@, log.prompts@[i as int].1);
                            assert(prompts_model(*log) =~= update_prompts(prompts_model(*old(log)), *c));
                        }
                    } else {
                        assert(prompts_model(*log) =~= update_prompts(prompts_model(*old(log)), *c));
                    }
                },
                None => {
                    let rec = PromptRecord {
                        agent_id: agent.copy(),
                        messages: crate::working_log::copy_messages(&transcript.messages),
                        accepted_lines: 0,
                    };
                    log.prompts.insert(agent.id.clone(), rec);
                    proof {
                        lemma_sm_map_insert(p0, log.prompts@, agent.id@, rec);
                        assert(prompts_model(*log) =~= update_prompts(prompts_model(*old(log)), *c));
                    }
                },
            }
            let turn: u32 = if n >= 1 {
                (n - 1) as u32
            } else {
                0
            };
            (Some(agent.id.clone()), Some(turn))
        },
        _ => (None, None),
    }
}

/// Keeps the files that have an entry with lines (see `drop_empty_files`).
fn drop_empty_files_exec(files: &mut StrMap<FileAttributions>)
    requires
        old(files).wf(),
    ensures
        final(files).wf(),
        sm_map(final(files)@).map_values(|v: Vec<AttributionEntry>| entries_view(v@)) == drop_empty_files(
            sm_map(old(files)@).map_values(|v: Vec<AttributionEntry>| entries_view(v@)),
        ),
{
    let ghost orig = files@;
    let mut kept: StrMap<FileAttributions> = StrMap::new();
    let n = files.len();
    let mut i: usize = 0;
    while i < n
        invariant
            0 <= i <= n,
            n == orig.len(),
            files@.len() == n,
            kept.wf(),
            forall|j: int| i <= j < n ==> #[trigger] files@[j] == orig[j],
            keys_sorted(orig),
            forall|k: Seq<char>|
                lookup(kept@, k) == match lookup(orig.take(i as int), k) {
                    Some(v) => if has_lines(v@) {
                        Some(v)
                    } else {
                        None
                    },
                    None => None,
                },
        decreases n - i,
    {
        let key = files.key_at(i).clone();
        let v = files.swap_value_at(i, Vec::new());
        assert(orig.take(i + 1).drop_last() =~= orig.take(i as int));
        let mut non_empty = false;
        let mut q: usize = 0;
        while q < v.len()
            invariant
                0 <= q <= v@.len(),
                non_empty == exists|x: int| 0 <= x < q && (#[trigger] v@[x]).lines@.len() > 0,
            decreases v@.len() - q,
        {
            if !v[q].is_empty() {
                non_empty = true;
            }
            q = q + 1;
        }
        assert(non_empty == has_lines(v@));
        let ghost kept0 = kept@;
        proof {
            assert(orig.take(i + 1).last() == orig[i as int]);
            assert(key@ == orig[i as int].0 && v == orig[i as int].1);
            let t = orig.take(i as int);
            assert(keys_sorted(t));
            assert forall|j: int| 0 <= j < t.len() implies t[j].0 != key@ by {
                assert(t[j] == orig[j]);
                assert(seq_lt(orig[j].0, orig[i as int].0));
                crate::str_map::lemma_seq_lt_trichotomy(orig[j].0, orig[j].0);
            }
            crate::str_map::lemma_lookup(t, key@);
        }
        if non_empty {
            kept.insert(key, v);
        }
        i = i + 1;
    }
    assert(orig.take(n as int) =~= orig);
    proof {
        let m = sm_map(orig).map_values(|v: Vec<AttributionEntry>| entries_view(v@));
        let lhs = sm_map(kept@).map_values(|v: Vec<AttributionEntry>| entries_view(v@));
        let rhs = drop_empty_files(m);
        assert forall|k: Seq<char>| m.contains_key(k) implies (has_lines(lookup(orig, k).unwrap()@) <==> exists|x: int| 0 <= x < m[k].len() && (#[trigger] m[k][x]).0.len() > 0) by {
            let v = lookup(orig, k).unwrap();
            assert(m[k] == entries_view(v@));
            if has_lines(v@) {
                let x = choose|x: int| 0 <= x < v@.len() && (#[trigger] v@[x]).lines@.len() > 0;
                assert(m[k][x] == entry_view(v@[x]));
            }
            if exists|x: int| 0 <= x < m[k].len() && (#[trigger] m[k][x]).0.len() > 0 {
                let x = choose|x: int| 0 <= x < m[k].len() && (#[trigger] m[k][x]).0.len() > 0;
                assert(m[k][x] == entry_view(v@[x]));
            }
        }
        assert forall|k: Seq<char>| #[trigger] lhs.contains_key(k) <==> rhs.contains_key(k) by {
            assert(lhs.contains_key(k) <==> lookup(kept@, k) is Some);
        }
        assert forall|k: Seq<char>| #[trigger] lhs.contains_key(k) implies lhs[k] == rhs[k] by {
            assert(lookup(kept@, k) == lookup(orig, k));
        }
        assert(lhs =~= rhs);
    }
    *files = kept;
}

/// Some entry has lines.
pub open spec fn has_lines(es: Seq<AttributionEntry>) -> bool {
    exists|x: int| 0 <= x < es.len() && (#[trigger] es[x]).lines@.len() > 0
}


/// What `AuthorshipLog::from_working_log` builds from checkpoints: they are
/// applied in order to the empty state, then files left without lines are
/// dropped.
pub open spec fn from_working_log_model(cs: Seq<Checkpoint>) -> LogState {
    let st = apply_checkpoints(empty_state(), cs);
    (drop_empty_files(st.0), st.1, st.2)
}

impl AuthorshipLog {
    /// Builds the authorship log of checkpoints, with no base commit.
    pub fn from_working_log(checkpoints: &[Checkpoint]) -> (r: Self)
        ensures
            r.wf(),
            log_state(r) == from_working_log_model(checkpoints@),
            r.schema_version@ == AUTHORSHIP_LOG_VERSION@,
            r.base_commit_sha@.len() == 0,
    {
        let r = Self::from_working_log_with_base_commit(checkpoints, "");
        proof {
            reveal_strlit("");
        }
        r
    }

    /// Builds the authorship log of checkpoints on base commit
    /// `base_commit_sha`. Each checkpoint records its prompt session, then
    /// each of its entries removes its deleted lines from every attribution
    /// of the file and gives its added lines to the checkpoint's author and
    /// prompt (see `apply_checkpoints`); files left without lines are dropped.
    pub fn from_working_log_with_base_commit(checkpoints: &[Checkpoint], base_commit_sha: &str) -> (r:
        Self)
        ensures
            r.wf(),
            log_state(r) == from_working_log_model(checkpoints@),
            r.schema_version@ == AUTHORSHIP_LOG_VERSION@,
            r.base_commit_sha@ == base_commit_sha@,
    {
        let mut log = AuthorshipLog::new();
        log.base_commit_sha = base_commit_sha.to_owned();
        proof {
            assert(files_model(log) =~= Map::empty());
            assert(authors_model(log) =~= Map::empty());
            assert(prompts_model(log) =~= Map::empty());
            assert(checkpoints@.take(0) =~= Seq::<Checkpoint>::empty());
        }
        let mut i: usize = 0;
        while i < checkpoints.len()
            invariant
                0 <= i <= checkpoints@.len(),
                log.wf(),
                state_valid(log_state(log)),
                log_state(log) == apply_checkpoints(empty_state(), checkpoints@.take(i as int)),
                log.schema_version@ == AUTHORSHIP_LOG_VERSION@,
                log.base_commit_sha@ == base_commit_sha@,
            decreases checkpoints@.len() - i,
        {
            let c = &checkpoints[i];
            let ghost st0 = log_state(log);
            let (sid, turn) = record_prompt(&mut log, c);
            assert(log_state(log) == (st0.0, st0.1, update_prompts(st0.2, *c)));
            let ghost st1 = log_state(log);
            let mut j: usize = 0;
            assert(c.entries@.take(0) =~= Seq::<WorkingLogEntry>::empty());
            while j < c.entries.len()
                invariant
                    0 <= j <= c.entries@.len(),
                    log.wf(),
                    state_valid(log_state(log)),
                    log_state(log) == apply_entries(st1, c.entries@.take(j as int), c.author@, opt_str_view(sid), turn),
                    log.schema_version@ == AUTHORSHIP_LOG_VERSION@,
                    log.base_commit_sha@ == base_commit_sha@,
                decreases c.entries@.len() - j,
            {
                apply_working_entry(&mut log, &c.entries[j], &c.author, &sid, turn);
                assert(c.entries@.take(j + 1).drop_last() =~= c.entries@.take(j as int));
                j = j + 1;
            }
            assert(c.entries@.take(j as int) =~= c.entries@);
            assert(checkpoints@.take(i + 1).drop_last() =~= checkpoints@.take(i as int));
            i = i + 1;
        }
        assert(checkpoints@.take(i as int) =~= checkpoints@);
        drop_empty_files_exec(&mut log.files);
        log
    }
}


/// The display line of an attribution entry: a newline, two spaces, the
/// debugging text of its ranges, its author key and its prompt session
/// (empty when none), separated by spaces.
pub open spec fn entry_display(e: AttributionEntry) -> Seq<char> {
    seq!['\n', ' ', ' '] + debug_list_spec(e.lines@) + seq![' '] + e.author_key@ + seq![' '] + match e.prompt_session_id {
        Some(p) => p@,
        None => seq![],
    }
}

/// The display lines of attribution entries.
pub open spec fn entries_display(es: Seq<AttributionEntry>) -> Seq<char>
    decreases es.len(),
{
    if es.len() == 0 {
        seq![]
    } else {
        entries_display(es.drop_last()) + entry_display(es.last())
    }
}

/// The display text of files' attributions: each file's path, its entries'
/// lines, then a newline.
pub open spec fn files_display(fs: Seq<(Seq<char>, FileAttributions)>) -> Seq<char>
    decreases fs.len(),
{
    if fs.len() == 0 {
        seq![]
    } else {
        files_display(fs.drop_last()) + fs.last().0 + entries_display(fs.last().1@) + seq!['\n']
    }
}

impl AuthorshipLog {
    /// The display text of the log (see `files_display`), files in path
    /// order.
    pub fn to_string(&self) -> (r: String)
        ensures
            r@ == files_display(self.files@),
    {
        let mut s = String::new();
        let n = self.files.len();
        let mut i: usize = 0;
        assert(self.files@.take(0) =~= Seq::<(Seq<char>, FileAttributions)>::empty());
        while i < n
            invariant
                0 <= i <= n == self.files@.len(),
                s@ == files_display(self.files@.take(i as int)),
            decreases n - i,
        {
            let ghost before = s@;
            push_str_chars(&mut s, self.files.key_at(i).as_str());
            let es = self.files.value_at(i);
            let mut j: usize = 0;
            assert(es@.take(0) =~= Seq::<AttributionEntry>::empty());
            while j < es.len()
                invariant
                    0 <= j <= es@.len(),
                    s@ == before + self.files@[i as int].0 + entries_display(es@.take(j as int)),
                decreases es@.len() - j,
            {
                let ghost b2 = s@;
                let e = &es[j];
                push_str_chars(&mut s, "\n  ");
                push_debug_list(&mut s, e.lines.as_slice());
                push_char(&mut s, ' ');
                push_str_chars(&mut s, e.author_key.as_str());
                push_char(&mut s, ' ');
                match &e.prompt_session_id {
                    Some(p) => push_str_chars(&mut s, p.as_str()),
                    None => {},
                }
                proof {
                    reveal_strlit("\n  ");
                }
                assert(s@ =~= b2 + entry_display(*e));
                assert(es@.take(j + 1).drop_last() =~= es@.take(j as int));
                j = j + 1;
                assert(s@ =~= before + self.files@[i as int].0 + entries_display(es@.take(j as int)));
            }
            assert(es@.take(j as int) =~= es@);
            push_char(&mut s, '\n');
            assert(self.files@.take(i + 1).drop_last() =~= self.files@.take(i as int));
            i = i + 1;
            assert(s@ =~= files_display(self.files@.take(i as int)));
        }
        assert(self.files@.take(i as int) =~= self.files@);
        s
    }
}

} // verus!
