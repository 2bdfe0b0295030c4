//! Single lines and inclusive ranges of lines, and sets of them.
use vstd::prelude::*;
use crate::text::{dec_spec, push_char, push_dec, push_str_chars};

verus! {

/// Either a single line or an inclusive range of lines.
#[derive(Debug, Clone, Copy, PartialEq, Eq, Structural, PartialOrd, Ord, Hash)]
pub enum LineRange {
    Single(u32),
    /// start, end (inclusive)
    Range(u32, u32),
}

/// The first line of a range.
pub open spec fn lr_start(r: LineRange) -> int {
    match r {
        LineRange::Single(l) => l as int,
        LineRange::Range(s, _) => s as int,
    }
}

/// The last line of a range.
pub open spec fn lr_end(r: LineRange) -> int {
    match r {
        LineRange::Single(l) => l as int,
        LineRange::Range(_, e) => e as int,
    }
}

/// A range whose start does not exceed its end.
pub open spec fn lr_valid(r: LineRange) -> bool {
    lr_start(r) <= lr_end(r)
}

/// The line `l` belongs to the range.
pub open spec fn lr_has(r: LineRange, l: int) -> bool {
    lr_start(r) <= l <= lr_end(r)
}

/// The set of lines of a range.
pub open spec fn lr_lines(r: LineRange) -> Set<int> {
    Set::new(|l: int| lr_has(r, l))
}

/// Some range of `s` holds the line `l`.
pub open spec fn seq_has(s: Seq<LineRange>, l: int) -> bool {
    exists|i: int| 0 <= i < s.len() && lr_has(#[trigger] s[i], l)
}

/// The set of lines of a sequence of ranges.
pub open spec fn seq_lines(s: Seq<LineRange>) -> Set<int> {
    Set::new(|l: int| seq_has(s, l))
}

/// The result of `LineRange::remove`, case by case.
pub open spec fn lr_remove(a: LineRange, b: LineRange) -> Seq<LineRange> {
    match (a, b) {
        (LineRange::Single(l), LineRange::Single(r)) => if l == r {
            seq![]
        } else {
            seq![a]
        },
        (LineRange::Single(l), LineRange::Range(s, e)) => if s <= l <= e {
            seq![]
        } else {
            seq![a]
        },
        (LineRange::Range(s, e), LineRange::Single(r)) => if r < s || r > e {
            seq![a]
        } else if r == s && r == e {
            seq![]
        } else if r == s {
            seq![LineRange::Range((s + 1) as u32, e)]
        } else if r == e {
            seq![LineRange::Range(s, (e - 1) as u32)]
        } else {
            seq![LineRange::Range(s, (r - 1) as u32), LineRange::Range((r + 1) as u32, e)]
        },
        (LineRange::Range(s1, e1), LineRange::Range(s2, e2)) => if s2 > e1 || e2 < s1 {
            seq![a]
        } else {
            let left = if s1 < s2 {
                seq![LineRange::Range(s1, (s2 - 1) as u32)]
            } else {
                seq![]
            };
            let right = if e1 > e2 {
                seq![LineRange::Range((e2 + 1) as u32, e1)]
            } else {
                seq![]
            };
            left + right
        },
    }
}

/// The overlap test of `LineRange::overlaps`: the ranges' bounds interleave.
pub open spec fn lr_overlaps(a: LineRange, b: LineRange) -> bool {
    lr_start(a) <= lr_end(b) && lr_start(b) <= lr_end(a)
}

/// The compression of a list of line numbers into runs of consecutive numbers:
/// each number extends the run before it when it follows that run's last line
/// directly, and starts a new run otherwise.
pub open spec fn compress_spec(lines: Seq<u32>) -> Seq<LineRange>
    decreases lines.len(),
{
    if lines.len() == 0 {
        seq![]
    } else {
        let r = compress_spec(lines.drop_last());
        let x = lines.last();
        if r.len() > 0 && lr_end(r.last()) + 1 == x {
            r.update(r.len() - 1, LineRange::Range(lr_start(r.last()) as u32, x))
        } else {
            r.push(LineRange::Single(x))
        }
    }
}

/// The lines of a range, in increasing order.
pub open spec fn expand_spec(r: LineRange) -> Seq<u32> {
    match r {
        LineRange::Single(l) => seq![l],
        LineRange::Range(s, e) => Seq::new(
            if s <= e {
                (e - s + 1) as nat
            } else {
                0
            },
            |i: int| (s + i) as u32,
        ),
    }
}

impl LineRange {
    /// The range holds `line`.
    pub fn contains(&self, line: u32) -> (r: bool)
        ensures
            r == lr_has(*self, line as int),
    {
        match self {
            LineRange::Single(l) => *l == line,
            LineRange::Range(start, end) => line >= *start && line <= *end,
        }
    }

    /// The bounds of the two ranges interleave (for valid ranges: they share a line).
    pub fn overlaps(&self, other: &LineRange) -> (r: bool)
        ensures
            r == lr_overlaps(*self, *other),
    {
        match (self, other) {
            (LineRange::Single(l1), LineRange::Single(l2)) => l1 == l2,
            (LineRange::Single(l), LineRange::Range(start, end)) => *l >= *start && *l <= *end,
            (LineRange::Range(start, end), LineRange::Single(l)) => *l >= *start && *l <= *end,
            (LineRange::Range(start1, end1), LineRange::Range(start2, end2)) => {
                start1 <= end2 && start2 <= end1
            },
        }
    }

    /// Removes the lines of `to_remove` from this range, returning the parts left.
    pub fn remove(&self, to_remove: &LineRange) -> (r: Vec<LineRange>)
        ensures
            r@ == lr_remove(*self, *to_remove),
    {
        let r = match (self, to_remove) {
            (LineRange::Single(l), LineRange::Single(r)) => {
                if l == r {
                    vec![]
                } else {
                    vec![*self]
                }
            },
            (LineRange::Single(l), LineRange::Range(start, end)) => {
                if *l >= *start && *l <= *end {
                    vec![]
                } else {
                    vec![*self]
                }
            },
            (LineRange::Range(start, end), LineRange::Single(r)) => {
                if *r < *start || *r > *end {
                    vec![*self]
                } else if *r == *start && *r == *end {
                    vec![]
                } else if *r == *start {
                    vec![LineRange::Range(*start + 1, *end)]
                } else if *r == *end {
                    vec![LineRange::Range(*start, *end - 1)]
                } else {
                    vec![LineRange::Range(*start, *r - 1), LineRange::Range(*r + 1, *end)]
                }
            },
            (LineRange::Range(start1, end1), LineRange::Range(start2, end2)) => {
                if *start2 > *end1 || *end2 < *start1 {
                    vec![*self]
                } else {
                    let mut result = Vec::new();
                    if *start1 < *start2 {
                        result.push(LineRange::Range(*start1, *start2 - 1));
                    }
                    if *end1 > *end2 {
                        result.push(LineRange::Range(*end2 + 1, *end1));
                    }
                    result
                }
            },
        };
        proof {
            assert(r@ =~= lr_remove(*self, *to_remove));
        }
        r
    }

    /// Compresses line numbers into runs of consecutive lines; a run of one
    /// line is a `Single`. Sorted, duplicate-free input gives the maximal runs.
    pub fn compress_lines(lines: &[u32]) -> (r: Vec<LineRange>)
        requires
            forall|i: int| 0 <= i < lines@.len() - 1 ==> #[trigger] lines@[i] < u32::MAX,
        ensures
            r@ == compress_spec(lines@),
    {
        let mut ranges: Vec<LineRange> = Vec::new();
        if lines.len() == 0 {
            return ranges;
        }
        let mut current_start = lines[0];
        let mut current_end = lines[0];
        let mut i: usize = 1;
        proof {
            assert(lines@.take(1).drop_last() =~= lines@.take(0));
            assert(compress_spec(lines@.take(0)) =~= Seq::<LineRange>::empty());
            assert(compress_spec(lines@.take(1)) =~= seq![LineRange::Single(lines@[0])]);
            assert(ranges@.push(LineRange::Single(current_start)) =~= seq![
                LineRange::Single(lines@[0]),
            ]);
        }
        while i < lines.len()
            invariant
                1 <= i <= lines@.len(),
                forall|k: int| 0 <= k < lines@.len() - 1 ==> #[trigger] lines@[k] < u32::MAX,
                current_end == lines@[i - 1],
                ranges@.push(
                    if current_start == current_end {
                        LineRange::Single(current_start)
                    } else {
                        LineRange::Range(current_start, current_end)
                    },
                ) == compress_spec(lines@.take(i as int)),
                current_start <= current_end,
            decreases lines@.len() - i,
        {
            let line = lines[i];
            assert(lines@.take(i + 1).drop_last() =~= lines@.take(i as int));
            if line == current_end + 1 {
                current_end = line;
            } else {
                if current_start == current_end {
                    ranges.push(LineRange::Single(current_start));
                } else {
                    ranges.push(LineRange::Range(current_start, current_end));
                }
                current_start = line;
                current_end = line;
            }
            i = i + 1;
        }
        assert(lines@.take(i as int) =~= lines@);
        if current_start == current_end {
            ranges.push(LineRange::Single(current_start));
        } else {
            ranges.push(LineRange::Range(current_start, current_end));
        }
        ranges
    }

    /// The lines of the range, in increasing order.
    pub fn expand(&self) -> (r: Vec<u32>)
        ensures
            r@ == expand_spec(*self),
    {
        match self {
            LineRange::Single(l) => vec![*l],
            LineRange::Range(start, end) => {
                let mut v: Vec<u32> = Vec::new();
                if *start <= *end {
                    let mut x: u64 = *start as u64;
                    while x <= *end as u64
                        invariant
                            *start <= x <= *end as u64 + 1,
                            v@ =~= Seq::new((x - *start) as nat, |i: int| (*start + i) as u32),
                        decreases *end as u64 + 1 - x,
                    {
                        v.push(x as u32);
                        x = x + 1;
                    }
                }
                proof {
                    assert(v@ =~= expand_spec(*self));
                }
                v
            },
        }
    }
}


/// Removing a range from a valid range leaves exactly the lines of the first
/// range that the second does not hold, as valid ranges.
pub proof fn lemma_remove_is_difference(a: LineRange, b: LineRange)
    requires
        lr_valid(a),
    ensures
        seq_lines(lr_remove(a, b)) == lr_lines(a).difference(lr_lines(b)),
        forall|i: int| 0 <= i < lr_remove(a, b).len() ==> lr_valid(#[trigger] lr_remove(a, b)[i]),
{
    let r = lr_remove(a, b);
    assert forall|l: int| seq_has(r, l) <==> (lr_has(a, l) && !lr_has(b, l)) by {
        if seq_has(r, l) {
            let i = choose|i: int| 0 <= i < r.len() && lr_has(#[trigger] r[i], l);
            assert(lr_has(r[i], l));
        }
        if lr_has(a, l) && !lr_has(b, l) {
            if r.len() > 0 && lr_has(r[0], l) {
            } else {
                assert(lr_has(r[1], l));
            }
        }
    }
    assert(seq_lines(r) =~= lr_lines(a).difference(lr_lines(b)));
}

/// A strictly increasing sequence of line numbers.
pub open spec fn strictly_increasing(s: Seq<u32>) -> bool {
    forall|i: int, j: int| 0 <= i < j < s.len() ==> s[i] < s[j]
}

/// For strictly increasing line numbers, compression gives valid ranges that
/// hold exactly those lines, in increasing order and separated by gaps.
pub proof fn lemma_compress_lines(s: Seq<u32>)
    requires
        strictly_increasing(s),
    ensures
        seq_lines(compress_spec(s)) == Set::new(|l: int| exists|i: int| 0 <= i < s.len() && s[i] == l),
        forall|i: int| 0 <= i < compress_spec(s).len() ==> lr_valid(#[trigger] compress_spec(s)[i]),
        forall|i: int, j: int|
            0 <= i < j < compress_spec(s).len() ==> lr_end(#[trigger] compress_spec(s)[i]) + 1
                < lr_start(#[trigger] compress_spec(s)[j]),
        s.len() > 0 ==> compress_spec(s).len() > 0 && lr_end(compress_spec(s).last()) == s.last(),
    decreases s.len(),
{
    if s.len() > 0 {
        let p = s.drop_last();
        assert(strictly_increasing(p));
        lemma_compress_lines(p);
        let r = compress_spec(p);
        let x = s.last();
        let target = Set::new(|l: int| exists|i: int| 0 <= i < s.len() && s[i] == l);
        let ptarget = Set::new(|l: int| exists|i: int| 0 <= i < p.len() && p[i] == l);
        let c = compress_spec(s);
        if p.len() > 0 {
            assert(p.last() < x);
        }
        assert forall|l: int| seq_has(c, l) <==> target.contains(l) by {
            if target.contains(l) {
                let i = choose|i: int| 0 <= i < s.len() && s[i] == l;
                if i < p.len() {
                    assert(p[i] == l);
                    assert(ptarget.contains(l));
                    assert(seq_has(r, l));
                    let k = choose|k: int| 0 <= k < r.len() && lr_has(#[trigger] r[k], l);
                    if k == r.len() - 1 && r.len() > 0 && lr_end(r.last()) + 1 == x {
                        assert(lr_has(c[k], l));
                    } else {
                        assert(lr_has(c[k], l));
                    }
                } else {
                    assert(lr_has(c.last(), l));
                }
            }
            if seq_has(c, l) {
                let k = choose|k: int| 0 <= k < c.len() && lr_has(#[trigger] c[k], l);
                if r.len() > 0 && lr_end(r.last()) + 1 == x {
                    if k == r.len() - 1 {
                        if l == x {
                            assert(s[s.len() - 1] == l);
                        } else {
                            assert(lr_has(r[k], l));
                            assert(seq_has(r, l));
                            assert(ptarget.contains(l));
                            let i = choose|i: int| 0 <= i < p.len() && p[i] == l;
                            assert(s[i] == l);
                        }
                    } else {
                        assert(lr_has(r[k], l));
                        assert(seq_has(r, l));
                        assert(ptarget.contains(l));
                        let i = choose|i: int| 0 <= i < p.len() && p[i] == l;
                        assert(s[i] == l);
                    }
                } else {
                    if k == r.len() {
                        assert(s[s.len() - 1] == l);
                    } else {
                        assert(lr_has(r[k], l));
                        assert(seq_has(r, l));
                        assert(ptarget.contains(l));
                        let i = choose|i: int| 0 <= i < p.len() && p[i] == l;
                        assert(s[i] == l);
                    }
                }
            }
        }
        assert(seq_lines(c) =~= target);
    }
}


/// Compressing any list of line numbers gives valid ranges that hold exactly
/// those lines.
pub proof fn lemma_compress_covers(s: Seq<u32>)
    ensures
        seq_lines(compress_spec(s)) == Set::new(|l: int| exists|i: int| 0 <= i < s.len() && s[i] == l),
        forall|i: int| 0 <= i < compress_spec(s).len() ==> lr_valid(#[trigger] compress_spec(s)[i]),
    decreases s.len(),
{
    if s.len() > 0 {
        let p = s.drop_last();
        lemma_compress_covers(p);
        let r = compress_spec(p);
        let x = s.last();
        let target = Set::new(|l: int| exists|i: int| 0 <= i < s.len() && s[i] == l);
        let ptarget = Set::new(|l: int| exists|i: int| 0 <= i < p.len() && p[i] == l);
        let c = compress_spec(s);
        let ext = r.len() > 0 && lr_end(r.last()) + 1 == x;
        assert forall|i: int| 0 <= i < c.len() implies lr_valid(#[trigger] c[i]) by {
            if i < r.len() && !(ext && i == r.len() - 1) {
                assert(c[i] == r[i]);
            }
        }
        assert forall|l: int| seq_has(c, l) <==> target.contains(l) by {
            if target.contains(l) {
                let i = choose|i: int| 0 <= i < s.len() && s[i] == l;
                if i < p.len() {
                    assert(p[i] == l);
                    assert(ptarget.contains(l));
                    assert(seq_has(r, l));
                    let k = choose|k: int| 0 <= k < r.len() && lr_has(#[trigger] r[k], l);
                    assert(lr_has(c[k], l));
                } else {
                    assert(lr_has(c.last(), l));
                }
            }
            if seq_has(c, l) {
                let k = choose|k: int| 0 <= k < c.len() && lr_has(#[trigger] c[k], l);
                if (ext && k == r.len() - 1 && l == x) || (!ext && k == r.len()) {
                    assert(s[s.len() - 1] == l);
                } else {
                    assert(lr_has(r[k], l));
                    assert(seq_has(r, l));
                    assert(ptarget.contains(l));
                    let i = choose|i: int| 0 <= i < p.len() && p[i] == l;
                    assert(s[i] == l);
                }
            }
        }
        assert(seq_lines(c) =~= target);
    } else {
        assert(seq_lines(compress_spec(s)) =~= Set::new(|l: int| exists|i: int| 0 <= i < s.len() && s[i] == l));
    }
}

/// The lines of ranges, range after range.
pub open spec fn expand_all(rs: Seq<LineRange>) -> Seq<u32>
    decreases rs.len(),
{
    if rs.len() == 0 {
        seq![]
    } else {
        expand_all(rs.drop_last()) + expand_spec(rs.last())
    }
}

/// Expanding the compressed runs of line numbers gives the numbers back, in
/// their order.
pub proof fn lemma_expand_compress(s: Seq<u32>)
    ensures
        expand_all(compress_spec(s)) == s,
    decreases s.len(),
{
    if s.len() > 0 {
        let p = s.drop_last();
        lemma_expand_compress(p);
        lemma_compress_covers(p);
        let r = compress_spec(p);
        let x = s.last();
        if r.len() > 0 && lr_end(r.last()) + 1 == x {
            let a = lr_start(r.last());
            assert(lr_valid(r[r.len() - 1]));
            let c = compress_spec(s);
            assert(c.drop_last() =~= r.drop_last());
            assert(c.last() == LineRange::Range(a as u32, x));
            assert(expand_spec(LineRange::Range(a as u32, x)) =~= expand_spec(r.last()).push(x));
            assert(expand_all(r) == expand_all(r.drop_last()) + expand_spec(r.last()));
            assert(expand_all(c) =~= expand_all(r).push(x));
        } else {
            assert(compress_spec(s).drop_last() =~= r);
            assert(expand_spec(LineRange::Single(x)) =~= seq![x]);
        }
        assert(s =~= p.push(x));
    } else {
        assert(expand_all(compress_spec(s)) =~= s);
    }
}

/// The display text of a range: `l` for a single line, `[start, end]` for a
/// range.
pub open spec fn display_spec(r: LineRange) -> Seq<char> {
    match r {
        LineRange::Single(l) => dec_spec(l as nat),
        LineRange::Range(a, b) => seq!['['] + dec_spec(a as nat) + seq![',', ' '] + dec_spec(b as nat) + seq![']'],
    }
}

/// The debugging text of a range: `Single(l)` or `Range(start, end)`.
pub open spec fn debug_spec(r: LineRange) -> Seq<char> {
    match r {
        LineRange::Single(l) => "Single("@ + dec_spec(l as nat) + seq![')'],
        LineRange::Range(a, b) => "Range("@ + dec_spec(a as nat) + seq![',', ' '] + dec_spec(b as nat) + seq![')'],
    }
}

/// The debugging text of a list of ranges: `[` then the ranges' texts
/// separated by `, ` then `]`.
pub open spec fn debug_list_spec(rs: Seq<LineRange>) -> Seq<char> {
    seq!['['] + debug_items(rs) + seq![']']
}

/// The debugging texts of ranges separated by `, `.
pub open spec fn debug_items(rs: Seq<LineRange>) -> Seq<char>
    decreases rs.len(),
{
    if rs.len() == 0 {
        seq![]
    } else if rs.len() == 1 {
        debug_spec(rs[0])
    } else {
        debug_items(rs.drop_last()) + seq![',', ' '] + debug_spec(rs.last())
    }
}

impl LineRange {
    /// The display text of the range (see `display_spec`).
    pub fn to_string(&self) -> (r: String)
        ensures
            r@ == display_spec(*self),
    {
        let mut s = String::new();
        match self {
            LineRange::Single(l) => push_dec(&mut s, *l),
            LineRange::Range(a, b) => {
                push_char(&mut s, '[');
                push_dec(&mut s, *a);
                push_char(&mut s, ',');
                push_char(&mut s, ' ');
                push_dec(&mut s, *b);
                push_char(&mut s, ']');
            },
        }
        assert(s@ =~= display_spec(*self));
        s
    }
}

/// Appends the debugging text of a range.
fn push_debug(s: &mut String, r: &LineRange)
    ensures
        final(s)@ == old(s)@ + debug_spec(*r),
{
    match r {
        LineRange::Single(l) => {
            push_str_chars(s, "Single(");
            push_dec(s, *l);
            push_char(s, ')');
        },
        LineRange::Range(a, b) => {
            push_str_chars(s, "Range(");
            push_dec(s, *a);
            push_char(s, ',');
            push_char(s, ' ');
            push_dec(s, *b);
            push_char(s, ')');
        },
    }
    assert(s@ =~= old(s)@ + debug_spec(*r));
}

/// Appends the debugging text of a list of ranges (see `debug_list_spec`).
pub fn push_debug_list(s: &mut String, rs: &[LineRange])
    ensures
        final(s)@ == old(s)@ + debug_list_spec(rs@),
{
    let ghost start = s@;
    push_char(s, '[');
    let mut i: usize = 0;
    assert(rs@.take(0) =~= Seq::<LineRange>::empty());
    while i < rs.len()
        invariant
            0 <= i <= rs@.len(),
            s@ == start + seq!['['] + debug_items(rs@.take(i as int)),
        decreases rs@.len() - i,
    {
        assert(rs@.take(i + 1).drop_last() =~= rs@.take(i as int));
        if i > 0 {
            push_char(s, ',');
            push_char(s, ' ');
        }
        push_debug(s, &rs[i]);
        i = i + 1;
        proof {
            if i == 1 {
                assert(rs@.take(1)[0] == rs@[0]);
            }
        }
        assert(s@ =~= start + seq!['['] + debug_items(rs@.take(i as int)));
    }
    assert(rs@.take(i as int) =~= rs@);
    push_char(s, ']');
    assert(s@ =~= start + debug_list_spec(rs@));
}

} // verus!
