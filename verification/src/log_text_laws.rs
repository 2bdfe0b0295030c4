//! What reading the text form of an authorship log gives back of what
//! writing it wrote.
use vstd::prelude::*;
use crate::authorship_log_v3::{
    deserialize_spec, entries_text, entry_text, file_text, first_divider, flush_file,
    format_line_ranges_spec, insert_by_start, is_divider, join_lines, join_ranges,
    lemma_find_char_at, lemma_line_ranges_roundtrip, lemma_split_concat, lemma_split_single,
    parse_line_ranges_spec, parse_section_spec, range_text, section_fold, section_step, section_text, serialize_spec,
    sort_by_start_spec, FileAttestationView, SectionState,
};
use crate::line_range::LineRange;
use crate::text::{
    dec_spec, find_char_spec, is_digit, is_ws, lemma_dec_digits, split_char, str_lines, strip_cr,
    trim_end_spec,
};

verus! {

/// Lines, each followed by a newline.
pub open spec fn unlines(ls: Seq<Seq<char>>) -> Seq<char>
    decreases ls.len(),
{
    if ls.len() == 0 {
        seq![]
    } else {
        unlines(ls.drop_last()) + ls.last() + seq!['\n']
    }
}

/// No line holds a newline.
pub open spec fn no_newlines(ls: Seq<Seq<char>>) -> bool {
    forall|i: int| 0 <= i < ls.len() ==> !(#[trigger] ls[i]).contains('\n')
}

/// No line ends with a carriage return.
pub open spec fn no_final_cr(ls: Seq<Seq<char>>) -> bool {
    forall|i: int| 0 <= i < ls.len() ==> strip_cr(#[trigger] ls[i]) == ls[i]
}

/// A text the metadata part of a log reads back as: it does not end with a
/// newline, and no carriage return stands just before a newline.
pub open spec fn readable_tail(j: Seq<char>) -> bool {
    &&& (j.len() == 0 || j.last() != '\n')
    &&& forall|i: int| 0 <= i < j.len() - 1 ==> !(#[trigger] j[i] == '\r' && j[i + 1] == '\n')
}

/// Writing lines one after another writes each group in turn.
proof fn lemma_unlines_add(a: Seq<Seq<char>>, b: Seq<Seq<char>>)
    ensures
        unlines(a + b) == unlines(a) + unlines(b),
    decreases b.len(),
{
    if b.len() == 0 {
        assert(a + b =~= a);
        assert(unlines(a) + unlines(b) =~= unlines(a));
    } else {
        lemma_unlines_add(a, b.drop_last());
        assert((a + b).drop_last() =~= a + b.drop_last());
        assert((a + b).last() == b.last());
        assert(unlines(a + b) =~= unlines(a) + unlines(b));
    }
}

/// Text made of newline-free lines, followed by more text, splits at
/// newlines into those lines and the pieces of the rest.
proof fn lemma_split_unlines(ls: Seq<Seq<char>>, rest: Seq<char>)
    requires
        no_newlines(ls),
    ensures
        split_char(unlines(ls) + rest, '\n') == ls + split_char(rest, '\n'),
    decreases ls.len(),
{
    if ls.len() == 0 {
        assert(unlines(ls) + rest =~= rest);
        assert(ls + split_char(rest, '\n') =~= split_char(rest, '\n'));
    } else {
        let p = ls.drop_last();
        let l = ls.last();
        assert(no_newlines(p)) by {
            assert forall|i: int| 0 <= i < p.len() implies !(#[trigger] p[i]).contains('\n') by {
                assert(p[i] == ls[i]);
            }
        }
        assert(!ls[ls.len() - 1].contains('\n'));
        let r2 = l + seq!['\n'] + rest;
        assert(unlines(ls) + rest =~= unlines(p) + r2);
        lemma_split_unlines(p, r2);
        lemma_split_concat(l, rest, '\n');
        lemma_split_single(l, '\n');
        assert(p + (seq![l] + split_char(rest, '\n')) =~= ls + split_char(rest, '\n'));
    }
}

/// The last piece of a split is empty exactly when the text is empty or
/// ends with the separator; else it ends with the text's last character.
proof fn lemma_split_last(s: Seq<char>, c: char)
    ensures
        split_char(s, c).len() >= 1,
        (split_char(s, c).last().len() == 0) <==> (s.len() == 0 || s.last() == c),
        split_char(s, c).last().len() > 0 ==> split_char(s, c).last().last() == s.last(),
    decreases s.len(),
{
    crate::text::lemma_split_char_len(s, c);
    if s.len() > 0 {
        lemma_split_last(s.drop_last(), c);
    }
}

/// Pieces of a text without a carriage return before a newline do not end
/// with a carriage return, but for the last.
proof fn lemma_split_no_cr(s: Seq<char>)
    requires
        forall|i: int| 0 <= i < s.len() - 1 ==> !(#[trigger] s[i] == '\r' && s[i + 1] == '\n'),
    ensures
        no_final_cr(split_char(s, '\n').drop_last()),
    decreases s.len(),
{
    let ps = split_char(s, '\n');
    crate::text::lemma_split_char_len(s, '\n');
    if s.len() > 0 {
        let p = s.drop_last();
        assert forall|i: int| 0 <= i < p.len() - 1 implies !(#[trigger] p[i] == '\r' && p[i + 1] == '\n') by {
            assert(p[i] == s[i] && p[i + 1] == s[i + 1]);
        }
        lemma_split_no_cr(p);
        lemma_split_last(p, '\n');
        let qs = split_char(p, '\n');
        if s.last() == '\n' {
            assert(ps == qs.push(Seq::<char>::empty()));
            assert(ps.drop_last() =~= qs);
            if qs.last().len() > 0 {
                assert(qs.last().last() == p.last());
                if p.last() == '\r' {
                    assert(s[p.len() - 1] == '\r' && s[p.len() as int] == '\n');
                }
            }
            assert forall|i: int| 0 <= i < qs.len() implies strip_cr(#[trigger] qs[i]) == qs[i] by {
                if i < qs.len() - 1 {
                    assert(qs.drop_last()[i] == qs[i]);
                }
            }
        } else {
            assert(ps.drop_last() =~= qs.drop_last());
        }
    }
}

/// Pieces joined with the separator give back the text.
proof fn lemma_join_split_lines(s: Seq<char>)
    ensures
        join_lines(split_char(s, '\n')) == s,
    decreases s.len(),
{
    crate::text::lemma_split_char_len(s, '\n');
    if s.len() == 0 {
        assert(split_char(s, '\n') =~= seq![Seq::<char>::empty()]);
        assert(s =~= Seq::<char>::empty());
    } else {
        let p = s.drop_last();
        lemma_join_split_lines(p);
        crate::text::lemma_split_char_len(p, '\n');
        let qs = split_char(p, '\n');
        if s.last() == '\n' {
            let ps = qs.push(Seq::<char>::empty());
            assert(ps.drop_last() =~= qs);
            assert(join_lines(ps) =~= p + seq!['\n'] + Seq::<char>::empty());
            assert(p.push('\n') =~= s);
        } else {
            let ps = qs.update(qs.len() - 1, qs.last().push(s.last()));
            if qs.len() == 1 {
                assert(join_lines(qs) == qs[0]);
                assert(join_lines(ps) == ps[0]);
                assert(ps[0] =~= s);
            } else {
                assert(ps.drop_last() =~= qs.drop_last());
                assert(join_lines(ps) =~= join_lines(qs).push(s.last()));
                assert(p.push(s.last()) =~= s);
            }
        }
    }
}

/// A text meant as the metadata part reads back as itself.
proof fn lemma_tail_roundtrip(j: Seq<char>)
    requires
        readable_tail(j),
    ensures
        join_lines(str_lines(j)) == j,
{
    let ps = split_char(j, '\n');
    lemma_split_last(j, '\n');
    lemma_split_no_cr(j);
    lemma_join_split_lines(j);
    let n = ps.len();
    let head = ps.take(n - 1).map_values(|p: Seq<char>| strip_cr(p));
    assert(head =~= ps.take(n - 1)) by {
        assert forall|i: int| 0 <= i < n - 1 implies #[trigger] head[i] == ps.take(n - 1)[i] by {
            assert(ps.drop_last()[i] == ps[i]);
        }
    }
    if ps[n - 1].len() == 0 {
        assert(j.len() == 0);
        assert(ps =~= seq![Seq::<char>::empty()]);
        assert(str_lines(j) =~= Seq::<Seq<char>>::empty());
        assert(j =~= Seq::<char>::empty());
    } else {
        assert(str_lines(j) =~= ps);
    }
}

/// Lines that hold no newline and do not end with a carriage return,
/// followed by more text, read back as themselves and then the lines of
/// the rest.
proof fn lemma_str_lines_unlines(ls: Seq<Seq<char>>, rest: Seq<char>)
    requires
        no_newlines(ls),
        no_final_cr(ls),
    ensures
        str_lines(unlines(ls) + rest) == ls + str_lines(rest),
{
    lemma_split_unlines(ls, rest);
    let pr = split_char(rest, '\n');
    crate::text::lemma_split_char_len(rest, '\n');
    let ps = ls + pr;
    let n = ps.len();
    let m = pr.len();
    assert(ps.take(n - 1) =~= ls + pr.take(m - 1));
    let f = |p: Seq<char>| strip_cr(p);
    assert((ls + pr.take(m - 1)).map_values(f) =~= ls + pr.take(m - 1).map_values(f)) by {
        assert forall|i: int| 0 <= i < ls.len() implies #[trigger] (ls + pr.take(m - 1)).map_values(f)[i] == ls[i] by {
            assert(strip_cr(ls[i]) == ls[i]);
        }
    }
    assert(ps[n - 1] == pr[m - 1]);
    if pr[m - 1].len() == 0 {
        assert(str_lines(unlines(ls) + rest) =~= ls + str_lines(rest));
    } else {
        assert(str_lines(unlines(ls) + rest) =~= ls + str_lines(rest));
    }
}


/// A character of the text of line ranges.
pub open spec fn range_char(c: char) -> bool {
    is_digit(c) || c == ',' || c == '-'
}

/// Sorting keeps the number of ranges.
proof fn lemma_sort_len(s: Seq<LineRange>)
    ensures
        sort_by_start_spec(s).len() == s.len(),
    decreases s.len(),
{
    if s.len() > 0 {
        lemma_sort_len(s.drop_last());
        lemma_insert_len(sort_by_start_spec(s.drop_last()), s.last());
    }
}

proof fn lemma_insert_len(t: Seq<LineRange>, x: LineRange)
    ensures
        insert_by_start(t, x).len() == t.len() + 1,
    decreases t.len(),
{
    if t.len() > 0 {
        lemma_insert_len(t.drop_last(), x);
    }
}

/// The text of a range is made of range characters and ends with a digit.
proof fn lemma_range_text_shape(r: LineRange)
    ensures
        range_text(r).len() > 0,
        is_digit(range_text(r).last()),
        forall|i: int| 0 <= i < range_text(r).len() ==> range_char(#[trigger] range_text(r)[i]),
{
    match r {
        LineRange::Single(l) => {
            lemma_dec_digits(l as nat);
            let t = dec_spec(l as nat);
            assert(is_digit(t[t.len() - 1]));
        },
        LineRange::Range(a, b) => {
            lemma_dec_digits(a as nat);
            lemma_dec_digits(b as nat);
            let da = dec_spec(a as nat);
            let db = dec_spec(b as nat);
            let t = da + seq!['-'] + db;
            assert(range_text(r) == t);
            assert(t.last() == db[db.len() - 1]);
            assert forall|i: int| 0 <= i < t.len() implies range_char(#[trigger] t[i]) by {
                if i < da.len() {
                    assert(t[i] == da[i]);
                } else if i > da.len() {
                    assert(t[i] == db[i - da.len() - 1]);
                }
            }
        },
    }
}

/// Joined range texts are made of range characters and end with a digit.
proof fn lemma_join_ranges_shape(t: Seq<LineRange>)
    requires
        t.len() > 0,
    ensures
        join_ranges(t).len() > 0,
        is_digit(join_ranges(t).last()),
        forall|i: int| 0 <= i < join_ranges(t).len() ==> range_char(#[trigger] join_ranges(t)[i]),
    decreases t.len(),
{
    lemma_range_text_shape(t.last());
    if t.len() > 1 {
        let p = t.drop_last();
        lemma_join_ranges_shape(p);
        let a = join_ranges(p);
        let b = range_text(t.last());
        let j = a + seq![','] + b;
        assert(join_ranges(t) == j);
        assert(j.last() == b[b.len() - 1]);
        assert forall|i: int| 0 <= i < j.len() implies range_char(#[trigger] j[i]) by {
            if i < a.len() {
                assert(j[i] == a[i]);
            } else if i > a.len() {
                assert(j[i] == b[i - a.len() - 1]);
            }
        }
    }
}

/// The line of an attestation entry, without its newline.
pub open spec fn entry_line(e: (Seq<char>, Seq<LineRange>)) -> Seq<char> {
    seq![' ', ' '] + e.0 + seq![' '] + format_line_ranges_spec(e.1)
}

/// The lines of a file's attestations: its path, then one line per entry.
pub open spec fn file_lines(f: FileAttestationView) -> Seq<Seq<char>> {
    seq![f.0] + f.1.map_values(|e: (Seq<char>, Seq<LineRange>)| entry_line(e))
}

/// The lines of an attestation section.
pub open spec fn section_lines(fs: Seq<FileAttestationView>) -> Seq<Seq<char>>
    decreases fs.len(),
{
    if fs.len() == 0 {
        seq![]
    } else {
        section_lines(fs.drop_last()) + file_lines(fs.last())
    }
}

/// An entry the text form can carry: a hash without spaces or newlines,
/// and at least one range.
pub open spec fn writable_entry(e: (Seq<char>, Seq<LineRange>)) -> bool {
    &&& !e.0.contains(' ')
    &&& !e.0.contains('\n')
    &&& e.1.len() > 0
}

/// A file the text form can carry: a path that is not empty, holds no
/// newline, does not end with white space, does not start with two spaces
/// and is not the divider; and at least one entry, each writable.
pub open spec fn writable_file(f: FileAttestationView) -> bool {
    &&& f.0.len() > 0
    &&& !f.0.contains('\n')
    &&& !is_ws(f.0.last())
    &&& !(f.0.len() >= 2 && f.0[0] == ' ' && f.0[1] == ' ')
    &&& !is_divider(f.0)
    &&& f.1.len() > 0
    &&& forall|i: int| 0 <= i < f.1.len() ==> writable_entry(#[trigger] f.1[i])
}

/// An entry with its ranges sorted by first line.
pub open spec fn sorted_entry(e: (Seq<char>, Seq<LineRange>)) -> (Seq<char>, Seq<LineRange>) {
    (e.0, sort_by_start_spec(e.1))
}

/// A file with the ranges of each entry sorted by first line.
pub open spec fn sorted_file(f: FileAttestationView) -> FileAttestationView {
    (f.0, f.1.map_values(|e: (Seq<char>, Seq<LineRange>)| sorted_entry(e)))
}

/// A line that reads back as itself and is not the divider.
pub open spec fn plain_line(l: Seq<char>) -> bool {
    !l.contains('\n') && strip_cr(l) == l && !is_divider(l)
}

/// Every line is plain.
pub open spec fn all_plain(ls: Seq<Seq<char>>) -> bool {
    forall|i: int| 0 <= i < ls.len() ==> plain_line(#[trigger] ls[i])
}

/// The entry lines written reproduce the entries' text.
proof fn lemma_entries_text(es: Seq<(Seq<char>, Seq<LineRange>)>)
    ensures
        entries_text(es) == unlines(es.map_values(|e: (Seq<char>, Seq<LineRange>)| entry_line(e))),
    decreases es.len(),
{
    let m = es.map_values(|e: (Seq<char>, Seq<LineRange>)| entry_line(e));
    if es.len() == 0 {
        assert(m =~= Seq::<Seq<char>>::empty());
    } else {
        lemma_entries_text(es.drop_last());
        assert(m.drop_last() =~= es.drop_last().map_values(|e: (Seq<char>, Seq<LineRange>)| entry_line(e)));
        assert(m.last() == entry_line(es.last()));
        assert(entry_text(es.last()) =~= entry_line(es.last()) + seq!['\n']);
        assert(entries_text(es) =~= unlines(m));
    }
}

/// The section lines written reproduce the section's text.
proof fn lemma_section_text(fs: Seq<FileAttestationView>)
    ensures
        section_text(fs) == unlines(section_lines(fs)),
    decreases fs.len(),
{
    if fs.len() > 0 {
        let f = fs.last();
        lemma_section_text(fs.drop_last());
        lemma_entries_text(f.1);
        let m = f.1.map_values(|e: (Seq<char>, Seq<LineRange>)| entry_line(e));
        lemma_unlines_add(seq![f.0], m);
        lemma_unlines_one(f.0);
        assert(file_text(f) =~= unlines(file_lines(f)));
        lemma_unlines_add(section_lines(fs.drop_last()), file_lines(f));
    }
}

/// Reading lines on from a state.
pub open spec fn fold_from(
    st: Result<SectionState, (nat, Seq<char>)>,
    b: Seq<Seq<char>>,
) -> Result<SectionState, (nat, Seq<char>)>
    decreases b.len(),
{
    if b.len() == 0 {
        st
    } else {
        section_step(fold_from(st, b.drop_last()), b.last())
    }
}

/// Reading `a` then `b` is reading `b` on from where `a` left off.
proof fn lemma_fold_add(st: Result<SectionState, (nat, Seq<char>)>, a: Seq<Seq<char>>, b: Seq<Seq<char>>)
    ensures
        fold_from(st, a + b) == fold_from(fold_from(st, a), b),
    decreases b.len(),
{
    if b.len() == 0 {
        assert(a + b =~= a);
    } else {
        lemma_fold_add(st, a, b.drop_last());
        assert((a + b).drop_last() =~= a + b.drop_last());
        assert((a + b).last() == b.last());
    }
}

/// Reading a section is reading its lines on from the start.
proof fn lemma_fold_section(ls: Seq<Seq<char>>)
    ensures
        section_fold(ls) == fold_from(Ok::<SectionState, (nat, Seq<char>)>((seq![], None)), ls),
    decreases ls.len(),
{
    if ls.len() > 0 {
        lemma_fold_section(ls.drop_last());
    }
}

/// The line of a writable entry is plain, and reading it adds the entry,
/// with sorted ranges, to the current file.
/// The line of a writable entry is plain, has no trailing white space, and
/// is two spaces, the hash, a space and the text of the sorted ranges.
proof fn lemma_entry_line(e: (Seq<char>, Seq<LineRange>))
    requires
        writable_entry(e),
    ensures
        plain_line(entry_line(e)),
        trim_end_spec(entry_line(e)) == entry_line(e),
        entry_line(e).len() >= 2,
        entry_line(e)[0] == ' ',
        entry_line(e)[1] == ' ',
        entry_line(e).skip(2) == e.0 + seq![' '] + format_line_ranges_spec(e.1),
{
    let h = e.0;
    let fmt = format_line_ranges_spec(e.1);
    lemma_sort_len(e.1);
    lemma_join_ranges_shape(sort_by_start_spec(e.1));
    let line = entry_line(e);
    assert(line == seq![' ', ' '] + h + seq![' '] + fmt);
    assert(line.last() == fmt[fmt.len() - 1]);
    assert(!is_ws(line.last()));
    assert(trim_end_spec(line) == line);
    assert(!line.contains('\n')) by {
        if line.contains('\n') {
            let k = choose|k: int| 0 <= k < line.len() && line[k] == '\n';
            if 2 <= k < 2 + h.len() {
                assert(h[k - 2] == '\n');
            } else if k > 2 + h.len() {
                assert(fmt[k - 3 - h.len()] == '\n');
                assert(range_char(fmt[k - 3 - h.len()]));
            }
        }
    }
    assert(!is_divider(line)) by {
        if is_divider(line) {
            assert(line[0] == ' ');
            assert(seq!['-', '-', '-'][0] == '-');
        }
    }
    assert(line.skip(2) =~= h + seq![' '] + fmt);
}

/// Reading an entry line: two spaces, a hash up to the first space, then
/// ranges that read back as `rs`, adds the entry to the current file.
proof fn lemma_step_on_entry_line(
    done: Seq<FileAttestationView>,
    f: FileAttestationView,
    line: Seq<char>,
    h: Seq<char>,
    fmt: Seq<char>,
    rs: Seq<LineRange>,
)
    requires
        trim_end_spec(line) == line,
        line.len() >= 2,
        line[0] == ' ',
        line[1] == ' ',
        find_char_spec(line.skip(2), ' ') == Some(h.len() as int),
        line.skip(2).take(h.len() as int) == h,
        line.skip(2).skip(h.len() as int + 1) == fmt,
        parse_line_ranges_spec(fmt) == Some(rs),
    ensures
        section_step(Ok((done, Some(f))), line) == Ok::<SectionState, (nat, Seq<char>)>(
            (done, Some((f.0, f.1.push((h, rs))))),
        ),
{
    reveal(section_step);
}

/// Reading the line of a writable entry adds the entry, with sorted ranges,
/// to the current file.
proof fn lemma_entry_step(done: Seq<FileAttestationView>, f: FileAttestationView, e: (Seq<char>, Seq<LineRange>))
    requires
        writable_entry(e),
    ensures
        plain_line(entry_line(e)),
        section_step(Ok((done, Some(f))), entry_line(e)) == Ok::<SectionState, (nat, Seq<char>)>(
            (done, Some((f.0, f.1.push(sorted_entry(e))))),
        ),
{
    lemma_entry_line(e);
    let h = e.0;
    let fmt = format_line_ranges_spec(e.1);
    let line = entry_line(e);
    let el = line.skip(2);
    assert forall|j: int| 0 <= j < h.len() implies el[j] != ' ' by {
        assert(el[j] == h[j]);
    }
    lemma_find_char_at(el, ' ', h.len() as int);
    assert(el.skip(h.len() as int + 1) =~= fmt);
    assert(el.take(h.len() as int) =~= h);
    lemma_line_ranges_roundtrip(e.1);
    lemma_step_on_entry_line(done, f, line, h, fmt, sort_by_start_spec(e.1));
}

/// Reading the lines of writable entries adds them, with sorted ranges, to
/// the current file.
proof fn lemma_entries_steps(
    done: Seq<FileAttestationView>,
    f: FileAttestationView,
    es: Seq<(Seq<char>, Seq<LineRange>)>,
)
    requires
        forall|i: int| 0 <= i < es.len() ==> writable_entry(#[trigger] es[i]),
    ensures
        all_plain(es.map_values(|e: (Seq<char>, Seq<LineRange>)| entry_line(e))),
        fold_from(Ok((done, Some(f))), es.map_values(|e: (Seq<char>, Seq<LineRange>)| entry_line(e)))
            == Ok::<SectionState, (nat, Seq<char>)>(
            (done, Some((f.0, f.1 + es.map_values(|e: (Seq<char>, Seq<LineRange>)| sorted_entry(e))))),
        ),
    decreases es.len(),
{
    let m = es.map_values(|e: (Seq<char>, Seq<LineRange>)| entry_line(e));
    let s = es.map_values(|e: (Seq<char>, Seq<LineRange>)| sorted_entry(e));
    if es.len() == 0 {
        assert(m =~= Seq::<Seq<char>>::empty());
        assert(f.1 + s =~= f.1);
    } else {
        let p = es.drop_last();
        lemma_entries_steps(done, f, p);
        let mp = p.map_values(|e: (Seq<char>, Seq<LineRange>)| entry_line(e));
        let sp = p.map_values(|e: (Seq<char>, Seq<LineRange>)| sorted_entry(e));
        assert(m.drop_last() =~= mp);
        assert(m.last() == entry_line(es.last()));
        assert(writable_entry(es[es.len() - 1]));
        lemma_entry_step(done, (f.0, f.1 + sp), es.last());
        assert((f.1 + sp).push(sorted_entry(es.last())) =~= f.1 + s);
        assert forall|i: int| 0 <= i < m.len() implies plain_line(#[trigger] m[i]) by {
            if i < mp.len() {
                assert(m[i] == mp[i]);
            }
        }
    }
}

/// One line read as text and a newline.
proof fn lemma_unlines_one(x: Seq<char>)
    ensures
        unlines(seq![x]) == x + seq!['\n'],
{
    assert(seq![x].drop_last() =~= Seq::<Seq<char>>::empty());
    assert(unlines(Seq::<Seq<char>>::empty()) == Seq::<char>::empty());
    assert(seq![x].last() == x);
    assert(Seq::<char>::empty() + x =~= x);
}

/// Lines of two plain groups are plain.
proof fn lemma_all_plain_add(a: Seq<Seq<char>>, b: Seq<Seq<char>>)
    requires
        all_plain(a),
        all_plain(b),
    ensures
        all_plain(a + b),
{
    assert forall|i: int| 0 <= i < (a + b).len() implies plain_line(#[trigger] (a + b)[i]) by {
        if i < a.len() {
            assert((a + b)[i] == a[i]);
        } else {
            assert((a + b)[i] == b[i - a.len()]);
        }
    }
}

/// The path line of a writable file is plain, and reading it closes the
/// current file (kept when it has entries) and opens this one.
proof fn lemma_path_step(done: Seq<FileAttestationView>, cur: Option<FileAttestationView>, f: FileAttestationView)
    requires
        writable_file(f),
    ensures
        plain_line(f.0),
        section_step(Ok((done, cur)), f.0) == Ok::<SectionState, (nat, Seq<char>)>(
            (flush_file(done, cur), Some((f.0, seq![]))),
        ),
{
    reveal(section_step);
    assert(trim_end_spec(f.0) == f.0);
    assert(strip_cr(f.0) == f.0);
}

/// What reading the lines of writable files leaves: the files with sorted
/// ranges, the last one still open.
pub open spec fn section_state(fs: Seq<FileAttestationView>) -> Result<SectionState, (nat, Seq<char>)> {
    if fs.len() == 0 {
        Ok((seq![], None))
    } else {
        Ok(
            (
                fs.drop_last().map_values(|f: FileAttestationView| sorted_file(f)),
                Some(sorted_file(fs.last())),
            ),
        )
    }
}

/// Reading the lines of sections then of one more file: the path line,
/// then the entry lines.
proof fn lemma_file_fold(q: Seq<FileAttestationView>, f: FileAttestationView)
    ensures
        section_fold(section_lines(q) + file_lines(f)) == fold_from(
            fold_from(section_fold(section_lines(q)), seq![f.0]),
            f.1.map_values(|e: (Seq<char>, Seq<LineRange>)| entry_line(e)),
        ),
        fold_from(section_fold(section_lines(q)), seq![f.0]) == section_step(section_fold(section_lines(q)), f.0),
{
    let es = f.1.map_values(|e: (Seq<char>, Seq<LineRange>)| entry_line(e));
    let before = section_fold(section_lines(q));
    lemma_fold_section(section_lines(q));
    lemma_fold_section(section_lines(q) + file_lines(f));
    let init = Ok::<SectionState, (nat, Seq<char>)>((seq![], None));
    lemma_fold_add(init, section_lines(q), file_lines(f));
    lemma_fold_add(before, seq![f.0], es);
    assert(seq![f.0].drop_last() =~= Seq::<Seq<char>>::empty());
    assert(seq![f.0].last() == f.0);
    assert(fold_from(before, Seq::<Seq<char>>::empty()) == before);
}

/// Reading the lines of one more writable file closes the one before and
/// leaves this one open.
proof fn lemma_file_step(q: Seq<FileAttestationView>, f: FileAttestationView)
    requires
        q.len() > 0 ==> writable_file(q.last()),
        writable_file(f),
        section_fold(section_lines(q)) == section_state(q),
    ensures
        section_fold(section_lines(q) + file_lines(f)) == section_state(q.push(f)),
        all_plain(file_lines(f)),
{
    let before = section_state(q);
    let es = f.1.map_values(|e: (Seq<char>, Seq<LineRange>)| entry_line(e));
    let done = q.map_values(|g: FileAttestationView| sorted_file(g));
    let cur = if q.len() == 0 { None } else { Some(sorted_file(q.last())) };
    let d0 = if q.len() == 0 { Seq::<FileAttestationView>::empty() } else {
        q.drop_last().map_values(|g: FileAttestationView| sorted_file(g))
    };
    assert(before == Ok::<SectionState, (nat, Seq<char>)>((d0, cur)));
    assert(flush_file(d0, cur) =~= done) by {
        if q.len() > 0 {
            assert(sorted_file(q.last()).1.len() == q.last().1.len());
        }
    }
    lemma_path_step(d0, cur, f);
    lemma_entries_steps(done, (f.0, seq![]), f.1);
    let s = f.1.map_values(|e: (Seq<char>, Seq<LineRange>)| sorted_entry(e));
    assert(Seq::<(Seq<char>, Seq<LineRange>)>::empty() + s =~= s);
    lemma_file_fold(q, f);
    assert(fold_from(before, seq![f.0]) == Ok::<SectionState, (nat, Seq<char>)>((done, Some((f.0, seq![])))));
    assert(q.push(f).drop_last() =~= q);
    assert(section_state(q.push(f)) == Ok::<SectionState, (nat, Seq<char>)>((done, Some(sorted_file(f)))));
    assert(all_plain(seq![f.0]));
    lemma_all_plain_add(seq![f.0], es);
}

/// The lines of writable files are plain, and reading them gives the files
/// with sorted ranges, the last one still open.
proof fn lemma_section_steps(fs: Seq<FileAttestationView>)
    requires
        forall|i: int| 0 <= i < fs.len() ==> writable_file(#[trigger] fs[i]),
    ensures
        all_plain(section_lines(fs)),
        section_fold(section_lines(fs)) == section_state(fs),
    decreases fs.len(),
{
    if fs.len() == 0 {
        assert(section_lines(fs) =~= Seq::<Seq<char>>::empty());
    } else {
        let q = fs.drop_last();
        let f = fs.last();
        assert(writable_file(fs[fs.len() - 1]));
        assert forall|i: int| 0 <= i < q.len() implies writable_file(#[trigger] q[i]) by {
            assert(q[i] == fs[i]);
        }
        lemma_section_steps(q);
        if q.len() > 0 {
            assert(writable_file(q[q.len() - 1]));
        }
        lemma_file_step(q, f);
        assert(q.push(f) =~= fs);
        lemma_all_plain_add(section_lines(q), file_lines(f));
    }
}

/// The divider written after plain lines is the first one.
proof fn lemma_first_divider(ls: Seq<Seq<char>>, tail: Seq<Seq<char>>)
    requires
        all_plain(ls),
    ensures
        first_divider(ls.push(seq!['-', '-', '-']) + tail) == Some(ls.len() as int),
{
    let all = ls.push(seq!['-', '-', '-']) + tail;
    let d = ls.len() as int;
    assert(all[d] == seq!['-', '-', '-']);
    assert(is_divider(all[d]));
    assert forall|j: int| 0 <= j < d implies !is_divider(#[trigger] all[j]) by {
        assert(all[j] == ls[j]);
        assert(plain_line(ls[j]));
    }
    let k = choose|i: int|
        0 <= i < all.len() && is_divider(all[i]) && forall|j: int| 0 <= j < i ==> !is_divider(#[trigger] all[j]);
    assert(k == d) by {
        if k < d {
            assert(!is_divider(all[k]));
        } else if k > d {
            assert(!is_divider(all[d]));
        }
    }
}

/// Plain lines followed by the divider hold no newline and do not end with
/// a carriage return.
proof fn lemma_divider_after(sl: Seq<Seq<char>>)
    requires
        all_plain(sl),
    ensures
        no_newlines(sl.push(seq!['-', '-', '-'])),
        no_final_cr(sl.push(seq!['-', '-', '-'])),
{
    let div = seq!['-', '-', '-'];
    let l2 = sl.push(div);
    assert(!div.contains('\n')) by {
        if div.contains('\n') {
            let k = choose|k: int| 0 <= k < div.len() && div[k] == '\n';
            assert(div[k] == '-');
        }
    }
    assert forall|i: int| 0 <= i < l2.len() implies !(#[trigger] l2[i]).contains('\n') by {
        if i < sl.len() {
            assert(l2[i] == sl[i]);
            assert(plain_line(sl[i]));
        }
    }
    assert forall|i: int| 0 <= i < l2.len() implies strip_cr(#[trigger] l2[i]) == l2[i] by {
        if i < sl.len() {
            assert(l2[i] == sl[i]);
            assert(plain_line(sl[i]));
        }
    }
}

/// Reading a text whose lines are `ls`, with the first divider at `d`, the
/// section before it reading as `fs` and the lines after it joining into
/// `json`.
proof fn lemma_deserialize_parts(
    content: Seq<char>,
    ls: Seq<Seq<char>>,
    d: int,
    fs: Seq<FileAttestationView>,
    json: Seq<char>,
)
    requires
        str_lines(content) == ls,
        first_divider(ls) == Some(d),
        parse_section_spec(ls.take(d)) == Ok::<Seq<FileAttestationView>, (nat, Seq<char>)>(fs),
        join_lines(ls.skip(d + 1)) == json,
    ensures
        deserialize_spec(content) == Ok::<(Seq<FileAttestationView>, Seq<char>), (nat, Seq<char>)>((fs, json)),
{
}

/// Reading the section of writable files gives them back with sorted
/// ranges.
proof fn lemma_parse_section_of(fs: Seq<FileAttestationView>)
    requires
        forall|i: int| 0 <= i < fs.len() ==> writable_file(#[trigger] fs[i]),
    ensures
        all_plain(section_lines(fs)),
        parse_section_spec(section_lines(fs)) == Ok::<Seq<FileAttestationView>, (nat, Seq<char>)>(
            fs.map_values(|f: FileAttestationView| sorted_file(f)),
        ),
{
    lemma_section_steps(fs);
    if fs.len() > 0 {
        assert(fs.drop_last().map_values(|f: FileAttestationView| sorted_file(f)).push(sorted_file(fs.last()))
            =~= fs.map_values(|f: FileAttestationView| sorted_file(f)));
    } else {
        assert(fs.map_values(|f: FileAttestationView| sorted_file(f)) =~= Seq::<FileAttestationView>::empty());
    }
}

/// Writing an authorship log as text and reading it back gives back its
/// files, each entry's ranges sorted by first line, and the metadata text
/// unchanged: for files the text form can carry (see `writable_file`) and
/// metadata text that does not end with a newline and has no carriage
/// return before a newline.
pub proof fn lemma_log_text_roundtrip(fs: Seq<FileAttestationView>, json: Seq<char>)
    requires
        forall|i: int| 0 <= i < fs.len() ==> writable_file(#[trigger] fs[i]),
        readable_tail(json),
    ensures
        deserialize_spec(serialize_spec(fs, json)) == Ok::<(Seq<FileAttestationView>, Seq<char>), (nat, Seq<char>)>(
            (fs.map_values(|f: FileAttestationView| sorted_file(f)), json),
        ),
{
    let div = seq!['-', '-', '-'];
    let sl = section_lines(fs);
    lemma_parse_section_of(fs);
    lemma_section_text(fs);
    let l2 = sl.push(div);
    lemma_unlines_add(sl, seq![div]);
    lemma_unlines_one(div);
    assert(sl + seq![div] =~= l2);
    let content = serialize_spec(fs, json);
    assert(content =~= unlines(l2) + json);
    lemma_divider_after(sl);
    lemma_str_lines_unlines(l2, json);
    let ls = l2 + str_lines(json);
    lemma_first_divider(sl, str_lines(json));
    let d = sl.len() as int;
    assert(ls.take(d) =~= sl);
    assert(ls.skip(d + 1) =~= str_lines(json));
    lemma_tail_roundtrip(json);
    lemma_deserialize_parts(content, ls, d, fs.map_values(|f: FileAttestationView| sorted_file(f)), json);
}

/// Lines joined by newlines are the lines but the last, each followed by a
/// newline, then the last.
proof fn lemma_join_last(ls: Seq<Seq<char>>)
    requires
        ls.len() >= 1,
    ensures
        join_lines(ls) == unlines(ls.drop_last()) + ls.last(),
    decreases ls.len(),
{
    if ls.len() == 1 {
        assert(ls.drop_last() =~= Seq::<Seq<char>>::empty());
        assert(unlines(ls.drop_last()) + ls.last() =~= ls[0]);
    } else {
        let d = ls.drop_last();
        lemma_join_last(d);
        assert(join_lines(ls) =~= unlines(d) + ls.last());
    }
}

/// Joining two groups of lines, the second not empty, writes the first one
/// line after another and then joins the second.
proof fn lemma_join_append(a: Seq<Seq<char>>, b: Seq<Seq<char>>)
    requires
        b.len() >= 1,
    ensures
        join_lines(a + b) == unlines(a) + join_lines(b),
{
    lemma_join_last(a + b);
    lemma_join_last(b);
    assert((a + b).drop_last() =~= a + b.drop_last());
    lemma_unlines_add(a, b.drop_last());
    assert((a + b).last() == b.last());
    assert(join_lines(a + b) =~= unlines(a) + join_lines(b));
}

/// The lines of the divider alone are the divider.
proof fn lemma_str_lines_divider()
    ensures
        str_lines(seq!['-', '-', '-']) == seq![seq!['-', '-', '-']],
{
    let d1 = seq!['-'];
    let d2 = seq!['-', '-'];
    let d3 = seq!['-', '-', '-'];
    assert(d1.drop_last() =~= Seq::<char>::empty());
    assert(d2.drop_last() =~= d1);
    assert(d3.drop_last() =~= d2);
    assert(split_char(Seq::<char>::empty(), '\n') =~= seq![Seq::<char>::empty()]);
    assert(split_char(d1, '\n') =~= seq![d1]);
    assert(d2.last() == '-' && d3.last() == '-');
    assert(d1.push('-') =~= d2);
    assert(d2.push('-') =~= d3);
    let r1 = split_char(d1, '\n');
    assert(r1.len() == 1 && r1.last() == d1);
    assert(split_char(d2, '\n') == r1.update(0, d1.push('-')));
    assert(split_char(d2, '\n') =~= seq![d2]);
    let r2 = split_char(d2, '\n');
    assert(r2.len() == 1 && r2.last() == d2);
    assert(split_char(d3, '\n') == r2.update(0, d2.push('-')));
    assert(split_char(d3, '\n') =~= seq![d3]);
    assert(str_lines(d3) =~= seq![d3]);
}

/// Section lines and the divider, joined by newlines, read back as
/// themselves.
proof fn lemma_join_divider_last(sl: Seq<Seq<char>>)
    requires
        no_newlines(sl.push(seq!['-', '-', '-'])),
        no_final_cr(sl.push(seq!['-', '-', '-'])),
    ensures
        str_lines(join_lines(sl.push(seq!['-', '-', '-']))) == sl.push(seq!['-', '-', '-']),
{
    let div = seq!['-', '-', '-'];
    let l2 = sl.push(div);
    lemma_join_last(l2);
    assert(l2.drop_last() =~= sl);
    assert forall|i: int| 0 <= i < sl.len() implies !(#[trigger] sl[i]).contains('\n') && strip_cr(sl[i]) == sl[i] by {
        assert(sl[i] == l2[i]);
    }
    lemma_str_lines_unlines(sl, div);
    lemma_str_lines_divider();
    assert(sl + seq![div] =~= l2);
}

/// The lines of a written log, joined by newlines, have the same lines as
/// the written text.
proof fn lemma_reader_lines(fs: Seq<FileAttestationView>, json: Seq<char>)
    requires
        forall|i: int| 0 <= i < fs.len() ==> writable_file(#[trigger] fs[i]),
        readable_tail(json),
    ensures
        str_lines(join_lines(str_lines(serialize_spec(fs, json)))) == str_lines(serialize_spec(fs, json)),
{
    let div = seq!['-', '-', '-'];
    let sl = section_lines(fs);
    lemma_parse_section_of(fs);
    lemma_section_text(fs);
    let l2 = sl.push(div);
    lemma_unlines_add(sl, seq![div]);
    lemma_unlines_one(div);
    assert(sl + seq![div] =~= l2);
    let content = serialize_spec(fs, json);
    assert(content =~= unlines(l2) + json);
    lemma_divider_after(sl);
    lemma_str_lines_unlines(l2, json);
    lemma_tail_roundtrip(json);
    let j = str_lines(json);
    let all = l2 + j;
    if j.len() == 0 {
        assert(all =~= l2);
        lemma_join_divider_last(sl);
    } else {
        lemma_join_append(l2, j);
    }
}

/// What a reader of the written text gives back: reading the lines of a
/// written log, joined by newlines, gives the files (their entries' ranges
/// sorted) and the metadata text that were written.
pub proof fn lemma_reader_roundtrip(fs: Seq<FileAttestationView>, json: Seq<char>)
    requires
        forall|i: int| 0 <= i < fs.len() ==> writable_file(#[trigger] fs[i]),
        readable_tail(json),
    ensures
        deserialize_spec(join_lines(str_lines(serialize_spec(fs, json)))) == Ok::<
            (Seq<FileAttestationView>, Seq<char>),
            (nat, Seq<char>),
        >((fs.map_values(|f: FileAttestationView| sorted_file(f)), json)),
{
    lemma_log_text_roundtrip(fs, json);
    lemma_reader_lines(fs, json);
}

} // verus!
