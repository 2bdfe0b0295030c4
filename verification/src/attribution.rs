//! Character- and line-based attribution of file content to authors.
//!
//! Character attributions are half-open byte ranges `[start, end)` of the
//! file content; line attributions are inclusive, 1-indexed line ranges.
use vstd::prelude::*;
use vstd::string::StringSliceAdditionalSpecFns;
use diff_match_patch_rs::{Compat, DiffMatchPatch, Ops};

verus! {

/// A single attribution range of the file content. Ranges may overlap.
#[derive(Debug, Clone, PartialEq, Eq, Hash)]
pub struct Attribution {
    /// Position where this attribution starts (inclusive).
    pub start: usize,
    /// Position where this attribution ends (exclusive).
    pub end: usize,
    /// Identifier of the author of this range.
    pub author_id: String,
    /// Timestamp of the attribution (milliseconds since the epoch).
    pub ts: u128,
}

/// Attribution of an inclusive, 1-indexed range of lines.
#[derive(Debug, Clone, PartialEq, Eq, Hash)]
pub struct LineAttribution {
    /// First line of the range (inclusive, 1-indexed).
    pub start_line: u32,
    /// Last line of the range (inclusive, 1-indexed).
    pub end_line: u32,
    /// Identifier of the author of this range.
    pub author_id: String,
}

impl View for Attribution {
    type V = (usize, usize, Seq<char>, u128);

    open spec fn view(&self) -> Self::V {
        (self.start, self.end, self.author_id@, self.ts)
    }
}

impl View for LineAttribution {
    type V = (u32, u32, Seq<char>);

    open spec fn view(&self) -> Self::V {
        (self.start_line, self.end_line, self.author_id@)
    }
}

/// The views of a sequence of attributions.
pub open spec fn attrs_view(s: Seq<Attribution>) -> Seq<(usize, usize, Seq<char>, u128)> {
    s.map_values(|a: Attribution| a@)
}

/// The views of a sequence of line attributions.
pub open spec fn line_attrs_view(s: Seq<LineAttribution>) -> Seq<(u32, u32, Seq<char>)> {
    s.map_values(|a: LineAttribution| a@)
}

/// The half-open ranges `[s1, e1)` and `[s2, e2)` share a position.
pub open spec fn half_open_overlap(s1: int, e1: int, s2: int, e2: int) -> bool {
    s1 < e2 && e1 > s2
}

/// The larger of two integers.
pub open spec fn max_int(a: int, b: int) -> int {
    if a >= b { a } else { b }
}

/// The smaller of two integers.
pub open spec fn min_int(a: int, b: int) -> int {
    if a <= b { a } else { b }
}

impl LineAttribution {
    pub fn new(start_line: u32, end_line: u32, author_id: String) -> (r: Self)
        ensures
            r.start_line == start_line,
            r.end_line == end_line,
            r.author_id == author_id,
    {
        LineAttribution { start_line, end_line, author_id }
    }

    /// The number of lines this attribution covers.
    pub fn line_count(&self) -> (r: u32)
        requires
            self.start_line <= self.end_line ==> self.end_line - self.start_line < u32::MAX,
        ensures
            r == if self.start_line > self.end_line { 0int } else { self.end_line - self.start_line + 1 },
    {
        if self.start_line > self.end_line {
            0
        } else {
            self.end_line - self.start_line + 1
        }
    }

    /// The range covers no line.
    pub fn is_empty(&self) -> (r: bool)
        ensures
            r == (self.start_line > self.end_line),
    {
        self.start_line > self.end_line
    }

    /// This attribution shares a line with the inclusive range `[start_line, end_line]`.
    pub fn overlaps(&self, start_line: u32, end_line: u32) -> (r: bool)
        ensures
            r == (self.start_line <= end_line && self.end_line >= start_line),
    {
        self.start_line <= end_line && self.end_line >= start_line
    }

    /// The lines this attribution shares with the inclusive range `[start_line, end_line]`.
    pub fn intersection(&self, start_line: u32, end_line: u32) -> (r: Option<(u32, u32)>)
        ensures
            ({
                let lo = max_int(self.start_line as int, start_line as int);
                let hi = min_int(self.end_line as int, end_line as int);
                r == if lo <= hi { Some((lo as u32, hi as u32)) } else { None::<(u32, u32)> }
            }),
    {
        let overlap_start = if self.start_line >= start_line { self.start_line } else { start_line };
        let overlap_end = if self.end_line <= end_line { self.end_line } else { end_line };
        if overlap_start <= overlap_end {
            Some((overlap_start, overlap_end))
        } else {
            None
        }
    }
}

impl Attribution {
    pub fn new(start: usize, end: usize, author_id: String, ts: u128) -> (r: Self)
        ensures
            r.start == start,
            r.end == end,
            r.author_id == author_id,
            r.ts == ts,
    {
        Attribution { start, end, author_id, ts }
    }

    /// The length of the range.
    pub fn len(&self) -> (r: usize)
        requires
            self.start <= self.end,
        ensures
            r == self.end - self.start,
    {
        self.end - self.start
    }

    /// The range covers no position.
    pub fn is_empty(&self) -> (r: bool)
        ensures
            r == (self.start >= self.end),
    {
        self.start >= self.end
    }

    /// This attribution shares a position with the half-open range `[start, end)`.
    pub fn overlaps(&self, start: usize, end: usize) -> (r: bool)
        ensures
            r == half_open_overlap(self.start as int, self.end as int, start as int, end as int),
    {
        self.start < end && self.end > start
    }

    /// The positions this attribution shares with the half-open range `[start, end)`.
    pub fn intersection(&self, start: usize, end: usize) -> (r: Option<(usize, usize)>)
        ensures
            ({
                let lo = max_int(self.start as int, start as int);
                let hi = min_int(self.end as int, end as int);
                r == if lo < hi { Some((lo as usize, hi as usize)) } else { None::<(usize, usize)> }
            }),
    {
        let overlap_start = if self.start >= start { self.start } else { start };
        let overlap_end = if self.end <= end { self.end } else { end };
        if overlap_start < overlap_end {
            Some((overlap_start, overlap_end))
        } else {
            None
        }
    }
}


/// The newline byte.
pub open spec fn newline() -> u8 {
    10u8
}

/// The lines of `b` as half-open byte ranges `[start, end)`; each range holds
/// its terminating newline, and the last line may lack one. Each byte extends
/// the line of the byte before it, unless that byte ended a line.
pub open spec fn line_split(b: Seq<u8>) -> Seq<(int, int)>
    decreases b.len(),
{
    if b.len() == 0 {
        Seq::empty()
    } else {
        let prev = line_split(b.drop_last());
        let n = b.len() as int;
        if prev.len() > 0 && b[n - 2] != newline() {
            prev.update(prev.len() - 1, (prev.last().0, n))
        } else {
            prev.push((n - 1, n))
        }
    }
}

/// Line boundaries of a content: line `k` (1-indexed) is the byte range
/// `line_ranges[k - 1]`.
pub struct LineBoundaries {
    line_ranges: Vec<(usize, usize)>,
}

impl View for LineBoundaries {
    type V = Seq<(int, int)>;

    closed spec fn view(&self) -> Seq<(int, int)> {
        self.line_ranges@.map_values(|r: (usize, usize)| (r.0 as int, r.1 as int))
    }
}

impl LineBoundaries {
    /// Computes the line boundaries of `content`.
    pub fn new(content: &str) -> (r: Self)
        ensures
            r@ == line_split(content.spec_bytes()),
    {
        let bytes = content.as_bytes();
        let mut line_ranges: Vec<(usize, usize)> = Vec::new();
        let mut i: usize = 0;
        while i < bytes.len()
            invariant
                0 <= i <= bytes@.len(),
                line_ranges@.map_values(|r: (usize, usize)| (r.0 as int, r.1 as int))
                    == line_split(bytes@.take(i as int)),
                forall|k: int| 0 <= k < line_ranges@.len() ==> #[trigger] line_ranges@[k].1 <= i,
                (line_ranges@.len() == 0) == (i == 0),
            decreases bytes@.len() - i,
        {
            let ghost prev = bytes@.take(i as int);
            assert(bytes@.take(i + 1).drop_last() =~= prev);
            let n = line_ranges.len();
            if n > 0 && bytes[i - 1] != 10u8 {
                let start = line_ranges[n - 1].0;
                line_ranges.set(n - 1, (start, i + 1));
            } else {
                line_ranges.push((i, i + 1));
            }
            i = i + 1;
            assert(line_ranges@.map_values(|r: (usize, usize)| (r.0 as int, r.1 as int))
                =~= line_split(bytes@.take(i as int)));
        }
        assert(bytes@.take(i as int) =~= bytes@);
        LineBoundaries { line_ranges }
    }

    /// The number of lines (truncated to `u32`).
    pub fn line_count(&self) -> (r: u32)
        ensures
            r == self@.len() as u32,
    {
        self.line_ranges.len() as u32
    }

    /// The byte range of line `line_num` (1-indexed), if there is such a line.
    pub fn get_line_range(&self, line_num: u32) -> (r: Option<(usize, usize)>)
        ensures
            r == if 1 <= line_num <= self@.len() {
                Some(
                    (self@[line_num - 1].0 as usize, self@[line_num - 1].1 as usize),
                )
            } else {
                None::<(usize, usize)>
            },
    {
        if line_num < 1 || line_num as usize > self.line_ranges.len() {
            None
        } else {
            Some(self.line_ranges[line_num as usize - 1])
        }
    }
}


/// The character range that a line attribution `la` covers in a content whose
/// lines are `lines`: from the start of its first line to the end of its last
/// line, if both lines exist.
pub open spec fn line_attr_to_char(
    la: (u32, u32, Seq<char>),
    lines: Seq<(int, int)>,
    ts: u128,
) -> Option<(usize, usize, Seq<char>, u128)> {
    if 1 <= la.0 <= lines.len() && 1 <= la.1 <= lines.len() {
        Some((lines[la.0 - 1].0 as usize, lines[la.1 - 1].1 as usize, la.2, ts))
    } else {
        None
    }
}

/// The character attributions for line attributions `las`, in order; line
/// attributions naming a missing line give nothing.
pub open spec fn line_attrs_to_chars(
    las: Seq<(u32, u32, Seq<char>)>,
    lines: Seq<(int, int)>,
    ts: u128,
) -> Seq<(usize, usize, Seq<char>, u128)>
    decreases las.len(),
{
    if las.len() == 0 {
        Seq::empty()
    } else {
        let rest = line_attrs_to_chars(las.drop_last(), lines, ts);
        match line_attr_to_char(las.last(), lines, ts) {
            Some(a) => rest.push(a),
            None => rest,
        }
    }
}

/// Copies an attribution field by field.
pub fn copy_attribution(a: &Attribution) -> (r: Attribution)
    ensures
        r@ == a@,
{
    Attribution::new(a.start, a.end, a.author_id.clone(), a.ts)
}

/// Converts line attributions into character attributions covering the same
/// lines of `content`: each becomes the range from the start of its first
/// line to the end of its last line, stamped with `ts`.
pub fn line_attributions_to_attributions(
    line_attributions: &Vec<LineAttribution>,
    content: &str,
    ts: u128,
) -> (result: Vec<Attribution>)
    ensures
        attrs_view(result@) == line_attrs_to_chars(
            line_attrs_view(line_attributions@),
            line_split(content.spec_bytes()),
            ts,
        ),
{
    let ghost lines = line_split(content.spec_bytes());
    if line_attributions.len() == 0 || content.as_bytes().len() == 0 {
        proof {
            if line_attributions@.len() != 0 {
                lemma_no_lines_no_chars(line_attrs_view(line_attributions@), lines, ts);
            }
            assert(line_attrs_view(line_attributions@) =~= Seq::empty()
                || lines.len() == 0);
        }
        return Vec::new();
    }
    let boundaries = LineBoundaries::new(content);
    let mut result: Vec<Attribution> = Vec::new();
    let mut i: usize = 0;
    while i < line_attributions.len()
        invariant
            0 <= i <= line_attributions@.len(),
            boundaries@ == lines,
            attrs_view(result@) == line_attrs_to_chars(
                line_attrs_view(line_attributions@.take(i as int)),
                lines,
                ts,
            ),
        decreases line_attributions@.len() - i,
    {
        let line_attr = &line_attributions[i];
        let start_range = boundaries.get_line_range(line_attr.start_line);
        let end_range = boundaries.get_line_range(line_attr.end_line);
        assert(line_attrs_view(line_attributions@.take(i + 1)).drop_last()
            =~= line_attrs_view(line_attributions@.take(i as int)));
        if let (Some((start_char, _)), Some((_, end_char))) = (start_range, end_range) {
            result.push(Attribution::new(start_char, end_char, line_attr.author_id.clone(), ts));
        }
        i = i + 1;
        assert(attrs_view(result@) =~= line_attrs_to_chars(
            line_attrs_view(line_attributions@.take(i as int)),
            lines,
            ts,
        ));
    }
    assert(line_attributions@.take(i as int) =~= line_attributions@);
    result
}

/// Without lines, no line attribution covers any character.
proof fn lemma_no_lines_no_chars(
    las: Seq<(u32, u32, Seq<char>)>,
    lines: Seq<(int, int)>,
    ts: u128,
)
    requires
        lines.len() == 0,
    ensures
        line_attrs_to_chars(las, lines, ts) == Seq::<(usize, usize, Seq<char>, u128)>::empty(),
    decreases las.len(),
{
    if las.len() > 0 {
        lemma_no_lines_no_chars(las.drop_last(), lines, ts);
    }
}


/// The identifier of human-authored content.
pub open spec fn human_id() -> Seq<char> {
    seq!['h', 'u', 'm', 'a', 'n']
}

/// The identifier of human-authored content, as a string.
pub fn human_author() -> (r: String)
    ensures
        r@ == human_id(),
{
    let r = "human".to_owned();
    proof {
        reveal_strlit("human");
        assert(r@ =~= human_id());
    }
    r
}

/// `b` is one of the bytes that `char::is_whitespace` accepts among ASCII
/// characters: tab, line feed, vertical tab, form feed, carriage return, space.
pub open spec fn is_ascii_ws(b: u8) -> bool {
    b == 9 || b == 10 || b == 11 || b == 12 || b == 13 || b == 32
}

/// The UTF-8 encoding of a non-ASCII white-space character starts at byte `i`:
/// U+0085, U+00A0, U+1680, U+2000..=U+200A, U+2028, U+2029, U+202F, U+205F or
/// U+3000, which with the ASCII ones are all of Unicode's White_Space.
pub open spec fn multibyte_ws_at(b: Seq<u8>, i: int) -> bool {
    ||| (i + 1 < b.len() && b[i] == 0xC2u8 && (b[i + 1] == 0x85u8 || b[i + 1] == 0xA0u8))
    ||| (i + 2 < b.len() && b[i] == 0xE1u8 && b[i + 1] == 0x9Au8 && b[i + 2] == 0x80u8)
    ||| (i + 2 < b.len() && b[i] == 0xE2u8 && b[i + 1] == 0x80u8 && ((0x80u8 <= b[i + 2]
        <= 0x8Au8) || b[i + 2] == 0xA8u8 || b[i + 2] == 0xA9u8 || b[i + 2] == 0xAFu8))
    ||| (i + 2 < b.len() && b[i] == 0xE2u8 && b[i + 1] == 0x81u8 && b[i + 2] == 0x9Fu8)
    ||| (i + 2 < b.len() && b[i] == 0xE3u8 && b[i + 1] == 0x80u8 && b[i + 2] == 0x80u8)
}

/// A character that is not white space starts at byte `i` of the UTF-8 text `b`.
pub open spec fn starts_non_ws_char(b: Seq<u8>, i: int) -> bool {
    ||| (b[i] < 0x80u8 && !is_ascii_ws(b[i]))
    ||| (b[i] >= 0xC0u8 && !multibyte_ws_at(b, i))
}

/// Whether a non-white-space character starts at byte `i`.
fn starts_non_whitespace(b: &[u8], i: usize) -> (r: bool)
    requires
        i < b@.len(),
    ensures
        r == starts_non_ws_char(b@, i as int),
{
    let c = b[i];
    if c < 0x80u8 {
        !(c == 9 || c == 10 || c == 11 || c == 12 || c == 13 || c == 32)
    } else if c < 0xC0u8 {
        false
    } else {
        let n = b.len();
        let ws = (n - i > 1 && c == 0xC2u8 && (b[i + 1] == 0x85u8 || b[i + 1] == 0xA0u8))
            || (n - i > 2 && c == 0xE1u8 && b[i + 1] == 0x9Au8 && b[i + 2] == 0x80u8)
            || (n - i > 2 && c == 0xE2u8 && b[i + 1] == 0x80u8 && ((0x80u8 <= b[i + 2]
            && b[i + 2] <= 0x8Au8) || b[i + 2] == 0xA8u8 || b[i + 2] == 0xA9u8 || b[i + 2]
            == 0xAFu8)) || (n - i > 2 && c == 0xE2u8 && b[i + 1] == 0x81u8 && b[i + 2]
            == 0x9Fu8) || (n - i > 2 && c == 0xE3u8 && b[i + 1] == 0x80u8 && b[i + 2]
            == 0x80u8);
        !ws
    }
}

/// The number of characters that are not white space starting in the bytes
/// `[lo, hi)` of the UTF-8 text `b`.
pub open spec fn nws_count(b: Seq<u8>, lo: int, hi: int) -> nat
    decreases hi - lo,
{
    if hi <= lo {
        0
    } else {
        nws_count(b, lo, hi - 1) + if starts_non_ws_char(b, hi - 1) {
            1nat
        } else {
            0nat
        }
    }
}

/// A count of characters is at most the number of bytes.
proof fn lemma_nws_count_le(b: Seq<u8>, lo: int, hi: int)
    ensures
        nws_count(b, lo, hi) <= if hi > lo { hi - lo } else { 0 },
    decreases hi - lo,
{
    if hi > lo {
        lemma_nws_count_le(b, lo, hi - 1);
    }
}

/// The number of characters that are not white space in the bytes
/// `[lo, hi)`.
fn count_non_whitespace(b: &[u8], lo: usize, hi: usize) -> (r: usize)
    requires
        hi <= b@.len(),
    ensures
        r == nws_count(b@, lo as int, hi as int),
{
    if hi <= lo {
        return 0;
    }
    let mut n: usize = 0;
    let mut i = lo;
    while i < hi
        invariant
            lo <= i <= hi,
            hi <= b@.len(),
            n == nws_count(b@, lo as int, i as int),
        decreases hi - i,
    {
        proof {
            lemma_nws_count_le(b@, lo as int, i as int);
        }
        if starts_non_whitespace(b, i) {
            n = n + 1;
        }
        i = i + 1;
    }
    n
}

/// The non-white-space characters of the line `[ls, le)` that attribution
/// `a` covers.
pub open spec fn line_share(a: (usize, usize, Seq<char>, u128), ls: int, le: int, b: Seq<u8>) -> nat {
    if half_open_overlap(a.0 as int, a.1 as int, ls, le) {
        nws_count(b, max_int(ls, a.0 as int), min_int(le, a.1 as int))
    } else {
        0
    }
}

/// The non-white-space characters of the line `[ls, le)` that the
/// attributions of author `who` cover, added up.
pub open spec fn author_share(
    attrs: Seq<(usize, usize, Seq<char>, u128)>,
    who: Seq<char>,
    ls: int,
    le: int,
    b: Seq<u8>,
) -> nat
    decreases attrs.len(),
{
    if attrs.len() == 0 {
        0
    } else {
        author_share(attrs.drop_last(), who, ls, le, b) + if attrs.last().2 == who {
            line_share(attrs.last(), ls, le, b)
        } else {
            0nat
        }
    }
}

/// Among the attributions `attrs` (a prefix of `all`) that cover a
/// non-white-space character of the line `[ls, le)`, the first one whose
/// author covers the most such characters over all of `all`.
pub open spec fn dominant_attr(
    attrs: Seq<(usize, usize, Seq<char>, u128)>,
    all: Seq<(usize, usize, Seq<char>, u128)>,
    ls: int,
    le: int,
    b: Seq<u8>,
) -> Option<(usize, usize, Seq<char>, u128)>
    decreases attrs.len(),
{
    if attrs.len() == 0 {
        None
    } else {
        let prev = dominant_attr(attrs.drop_last(), all, ls, le, b);
        let a = attrs.last();
        if line_share(a, ls, le, b) > 0 && (prev is None || author_share(all, a.2, ls, le, b)
            > author_share(all, prev.unwrap().2, ls, le, b)) {
            Some(a)
        } else {
            prev
        }
    }
}

/// The author of the line `[ls, le)`: the one whose attributions cover the
/// most characters of the line that are not white space (on a tie, the one
/// whose counting attribution comes first); the human identifier when no
/// attribution covers such a character.
pub open spec fn dominant_author(
    attrs: Seq<(usize, usize, Seq<char>, u128)>,
    ls: int,
    le: int,
    b: Seq<u8>,
) -> Seq<char> {
    match dominant_attr(attrs, attrs, ls, le, b) {
        Some(a) => a.2,
        None => human_id(),
    }
}

/// The non-white-space characters of the line that each attribution covers.
fn line_shares(attributions: &Vec<Attribution>, bytes: &[u8], line_start: usize, line_end: usize) -> (r: Vec<usize>)
    requires
        line_end <= bytes@.len(),
    ensures
        r@.len() == attributions@.len(),
        forall|i: int|
            0 <= i < r@.len() ==> r@[i] == line_share(
                attributions@[i]@,
                line_start as int,
                line_end as int,
                bytes@,
            ),
{
    let mut r: Vec<usize> = Vec::new();
    let mut i: usize = 0;
    while i < attributions.len()
        invariant
            0 <= i <= attributions@.len(),
            line_end <= bytes@.len(),
            r@.len() == i,
            forall|k: int|
                0 <= k < i ==> r@[k] == line_share(
                    attributions@[k]@,
                    line_start as int,
                    line_end as int,
                    bytes@,
                ),
        decreases attributions@.len() - i,
    {
        let a = &attributions[i];
        let mut c: usize = 0;
        if a.overlaps(line_start, line_end) {
            let lo = if line_start >= a.start { line_start } else { a.start };
            let hi = if line_end <= a.end { line_end } else { a.end };
            c = count_non_whitespace(bytes, lo, hi);
        }
        r.push(c);
        i = i + 1;
    }
    r
}

/// The share of author `who` over attributions is at most their number
/// times the line's length.
proof fn lemma_author_share_le(
    attrs: Seq<(usize, usize, Seq<char>, u128)>,
    who: Seq<char>,
    ls: int,
    le: int,
    b: Seq<u8>,
)
    requires
        0 <= ls <= le,
    ensures
        author_share(attrs, who, ls, le, b) <= attrs.len() * (le - ls),
    decreases attrs.len(),
{
    if attrs.len() > 0 {
        let a = attrs.last();
        lemma_author_share_le(attrs.drop_last(), who, ls, le, b);
        if half_open_overlap(a.0 as int, a.1 as int, ls, le) {
            lemma_nws_count_le(b, max_int(ls, a.0 as int), min_int(le, a.1 as int));
        }
        assert(line_share(a, ls, le, b) <= le - ls);
        let n = attrs.len() as int;
        let w = le - ls;
        assert((n - 1) * w + w == n * w) by (nonlinear_arith);
    }
}

/// The share, on the line, of the author of each attribution.
fn author_shares(
    attributions: &Vec<Attribution>,
    shares: &Vec<usize>,
    Ghost(ls): Ghost<int>,
    Ghost(le): Ghost<int>,
    Ghost(b): Ghost<Seq<u8>>,
) -> (r: Vec<u128>)
    requires
        0 <= ls <= le <= usize::MAX,
        shares@.len() == attributions@.len(),
        forall|i: int| 0 <= i < shares@.len() ==> shares@[i] == line_share(attributions@[i]@, ls, le, b),
    ensures
        r@.len() == attributions@.len(),
        forall|i: int|
            0 <= i < r@.len() ==> r@[i] == author_share(
                attrs_view(attributions@),
                attributions@[i]@.2,
                ls,
                le,
                b,
            ),
{
    let mut r: Vec<u128> = Vec::new();
    let ghost all = attrs_view(attributions@);
    let mut i: usize = 0;
    while i < attributions.len()
        invariant
            0 <= i <= attributions@.len(),
            0 <= ls <= le <= usize::MAX,
            all == attrs_view(attributions@),
            shares@.len() == attributions@.len(),
            forall|k: int| 0 <= k < shares@.len() ==> shares@[k] == line_share(attributions@[k]@, ls, le, b),
            r@.len() == i,
            forall|k: int| 0 <= k < i ==> r@[k] == author_share(all, attributions@[k]@.2, ls, le, b),
        decreases attributions@.len() - i,
    {
        let who = &attributions[i].author_id;
        let mut t: u128 = 0;
        let mut j: usize = 0;
        assert(all.take(0) =~= Seq::<(usize, usize, Seq<char>, u128)>::empty());
        while j < attributions.len()
            invariant
                0 <= j <= attributions@.len(),
                0 <= ls <= le <= usize::MAX,
                all == attrs_view(attributions@),
                shares@.len() == attributions@.len(),
                forall|k: int| 0 <= k < shares@.len() ==> shares@[k] == line_share(attributions@[k]@, ls, le, b),
                t == author_share(all.take(j as int), who@, ls, le, b),
            decreases attributions@.len() - j,
        {
            assert(all.take(j + 1).drop_last() =~= all.take(j as int));
            assert(all.take(j + 1).last() == attributions@[j as int]@);
            proof {
                lemma_author_share_le(all.take(j + 1), who@, ls, le, b);
                let n = j + 1;
                let w = le - ls;
                assert(n * w <= 0xffff_ffff_ffff_ffffint * 0xffff_ffff_ffff_ffffint) by (nonlinear_arith)
                    requires
                        0 <= n <= 0xffff_ffff_ffff_ffffint,
                        0 <= w <= 0xffff_ffff_ffff_ffffint,
                ;
            }
            if crate::str_map::str_eq(attributions[j].author_id.as_str(), who.as_str()) {
                t = t + shares[j] as u128;
            }
            j = j + 1;
        }
        assert(all.take(j as int) =~= all);
        r.push(t);
        i = i + 1;
    }
    r
}

/// Finds the dominant author of line `line_num`: the author whose
/// attributions cover the most characters of the line that are not white
/// space (on a tie, the one whose counting attribution comes first); the
/// human identifier if no attribution covers such a character.
pub fn find_dominant_author_for_line(
    line_num: u32,
    boundaries: &LineBoundaries,
    attributions: &Vec<Attribution>,
    full_content: &str,
) -> (r: String)
    requires
        1 <= line_num <= boundaries@.len(),
        boundaries@ == line_split(full_content.spec_bytes()),
    ensures
        r@ == dominant_author(
            attrs_view(attributions@),
            boundaries@[line_num - 1].0,
            boundaries@[line_num - 1].1,
            full_content.spec_bytes(),
        ),
{
    let bytes = full_content.as_bytes();
    let (line_start, line_end) = match boundaries.get_line_range(line_num) {
        Some(r) => r,
        None => (0, 0),
    };
    proof {
        lemma_line_split_bounds(bytes@);
    }
    let ghost ls = line_start as int;
    let ghost le = line_end as int;
    let ghost all = attrs_view(attributions@);
    let shares = line_shares(attributions, bytes, line_start, line_end);
    let totals = author_shares(attributions, &shares, Ghost(ls), Ghost(le), Ghost(bytes@));
    let mut best: Option<usize> = None;
    let mut i: usize = 0;
    while i < attributions.len()
        invariant
            0 <= i <= attributions@.len(),
            all == attrs_view(attributions@),
            shares@.len() == attributions@.len(),
            totals@.len() == attributions@.len(),
            forall|k: int| 0 <= k < shares@.len() ==> shares@[k] == line_share(attributions@[k]@, ls, le, bytes@),
            forall|k: int|
                0 <= k < totals@.len() ==> totals@[k] == author_share(all, attributions@[k]@.2, ls, le, bytes@),
            best matches Some(k) ==> k < i,
            dominant_attr(all.take(i as int), all, ls, le, bytes@) == match best {
                Some(k) => Some(attributions@[k as int]@),
                None => None::<(usize, usize, Seq<char>, u128)>,
            },
        decreases attributions@.len() - i,
    {
        assert(all.take(i + 1).drop_last() =~= all.take(i as int));
        assert(all.take(i + 1).last() == attributions@[i as int]@);
        if shares[i] > 0 {
            match best {
                None => {
                    best = Some(i);
                },
                Some(k) => {
                    if totals[i] > totals[k] {
                        best = Some(i);
                    }
                },
            }
        }
        i = i + 1;
    }
    assert(all.take(i as int) =~= all);
    match best {
        Some(k) => attributions[k].author_id.clone(),
        None => human_author(),
    }
}

/// Every line of `line_split(b)` lies within `b`, and lines are nonempty and in order.
pub proof fn lemma_line_split_bounds(b: Seq<u8>)
    ensures
        forall|k: int|
            0 <= k < line_split(b).len() ==> 0 <= (#[trigger] line_split(b)[k]).0 < line_split(
                b,
            )[k].1 <= b.len(),
        line_split(b).len() <= b.len(),
    decreases b.len(),
{
    if b.len() > 0 {
        lemma_line_split_bounds(b.drop_last());
    }
}


/// The runs of consecutive lines with the same author, scanning
/// `authors` (line `k + 1` has author `authors[k]`, `None` for no author):
/// the runs already closed, and the run still open (its first line and author).
pub open spec fn runs_state(authors: Seq<Option<Seq<char>>>) -> (
    Seq<(u32, u32, Seq<char>)>,
    Option<(u32, Seq<char>)>,
)
    decreases authors.len(),
{
    if authors.len() == 0 {
        (Seq::empty(), None)
    } else {
        let (closed, open) = runs_state(authors.drop_last());
        let line = authors.len() as u32;
        match (open, authors.last()) {
            (None, None) => (closed, None),
            (None, Some(a)) => (closed, Some((line, a))),
            (Some((st, cur)), None) => (closed.push((st, (line - 1) as u32, cur)), None),
            (Some((st, cur)), Some(a)) => if cur == a {
                (closed, Some((st, cur)))
            } else {
                (closed.push((st, (line - 1) as u32, cur)), Some((line, a)))
            },
        }
    }
}

/// The maximal runs of consecutive lines with the same author, as inclusive
/// line ranges; lines without an author belong to no run.
pub open spec fn merged_runs(authors: Seq<Option<Seq<char>>>) -> Seq<(u32, u32, Seq<char>)> {
    let (closed, open) = runs_state(authors);
    match open {
        Some((st, cur)) => closed.push((st, authors.len() as u32, cur)),
        None => closed,
    }
}

/// The views of a sequence of optional authors.
pub open spec fn opt_authors_view(s: Seq<Option<String>>) -> Seq<Option<Seq<char>>> {
    s.map_values(|o: Option<String>| match o {
        Some(a) => Some(a@),
        None => None,
    })
}

/// Merges consecutive lines with the same author into line ranges; line
/// `k + 1` has author `line_authors[k]`.
pub fn merge_consecutive_line_attributions(line_authors: Vec<Option<String>>) -> (r: Vec<
    LineAttribution,
>)
    requires
        line_authors@.len() <= u32::MAX,
    ensures
        line_attrs_view(r@) == merged_runs(opt_authors_view(line_authors@)),
{
    let ghost all = opt_authors_view(line_authors@);
    let mut result: Vec<LineAttribution> = Vec::new();
    let line_count = line_authors.len();
    let mut current_author: Option<String> = None;
    let mut current_start: u32 = 0;
    let mut idx: usize = 0;
    while idx < line_count
        invariant
            0 <= idx <= line_count,
            line_count == line_authors@.len(),
            line_count <= u32::MAX,
            all == opt_authors_view(line_authors@),
            ({
                let (closed, open) = runs_state(all.take(idx as int));
                &&& line_attrs_view(result@) == closed
                &&& open == match current_author {
                    Some(a) => Some((current_start, a@)),
                    None => None::<(u32, Seq<char>)>,
                }
            }),
            current_author is Some ==> 1 <= current_start <= idx,
        decreases line_count - idx,
    {
        assert(all.take(idx + 1).drop_last() =~= all.take(idx as int));
        let line_num = (idx + 1) as u32;
        let author = match &line_authors[idx] {
            Some(a) => Some(a.clone()),
            None => None,
        };
        assert(all.take(idx + 1).last() == match author {
            Some(a) => Some(a@),
            None => None::<Seq<char>>,
        });
        match author {
            None => {
                match current_author {
                    None => {},
                    Some(cur) => {
                        result.push(LineAttribution::new(current_start, line_num - 1, cur));
                        current_author = None;
                    },
                }
            },
            Some(new_author) => {
                match current_author {
                    None => {
                        current_author = Some(new_author);
                        current_start = line_num;
                    },
                    Some(cur) => {
                        if cur == new_author {
                            current_author = Some(cur);
                        } else {
                            result.push(LineAttribution::new(current_start, line_num - 1, cur));
                            current_author = Some(new_author);
                            current_start = line_num;
                        }
                    },
                }
            },
        }
        idx = idx + 1;
        proof {
            let (closed, open) = runs_state(all.take(idx as int));
            assert(line_attrs_view(result@) =~= closed);
        }
    }
    assert(all.take(idx as int) =~= all);
    match current_author {
        Some(author) => {
            result.push(LineAttribution::new(current_start, line_count as u32, author));
        },
        None => {},
    }
    assert(line_attrs_view(result@) =~= merged_runs(all));
    result
}


/// The dominant author of each line of the content `b`.
pub open spec fn line_authors(
    attrs: Seq<(usize, usize, Seq<char>, u128)>,
    b: Seq<u8>,
) -> Seq<Option<Seq<char>>> {
    let lines = line_split(b);
    Seq::new(lines.len(), |k: int| Some(dominant_author(attrs, lines[k].0, lines[k].1, b)))
}

/// `s` without the ranges attributed to the human identifier.
pub open spec fn without_human(s: Seq<(u32, u32, Seq<char>)>) -> Seq<(u32, u32, Seq<char>)>
    decreases s.len(),
{
    if s.len() == 0 {
        s
    } else {
        let rest = without_human(s.drop_last());
        if s.last().2 == human_id() {
            rest
        } else {
            rest.push(s.last())
        }
    }
}

/// The line attributions that `attributions_to_line_attributions` computes.
pub open spec fn char_attrs_to_lines(
    attrs: Seq<(usize, usize, Seq<char>, u128)>,
    b: Seq<u8>,
) -> Seq<(u32, u32, Seq<char>)> {
    if b.len() == 0 || attrs.len() == 0 {
        Seq::empty()
    } else {
        without_human(merged_runs(line_authors(attrs, b)))
    }
}

/// Converts character attributions into line attributions: each line gets its
/// dominant author (see `find_dominant_author_for_line`), consecutive lines
/// with the same author are merged, and human-authored ranges are dropped.
pub fn attributions_to_line_attributions(attributions: &Vec<Attribution>, content: &str) -> (r:
    Vec<LineAttribution>)
    requires
        line_split(content.spec_bytes()).len() <= u32::MAX,
    ensures
        line_attrs_view(r@) == char_attrs_to_lines(
            attrs_view(attributions@),
            content.spec_bytes(),
        ),
{
    let bytes = content.as_bytes();
    if bytes.len() == 0 || attributions.len() == 0 {
        return Vec::new();
    }
    let boundaries = LineBoundaries::new(content);
    let line_count = boundaries.line_count();
    let ghost attrs = attrs_view(attributions@);
    let ghost target = line_authors(attrs, bytes@);
    let mut line_authors_vec: Vec<Option<String>> = Vec::new();
    let mut k: u32 = 0;
    while k < line_count
        invariant
            0 <= k <= line_count,
            line_count == boundaries@.len(),
            boundaries@ == line_split(bytes@),
            bytes@ == content.spec_bytes(),
            attrs == attrs_view(attributions@),
            target == line_authors(attrs, bytes@),
            opt_authors_view(line_authors_vec@) == target.take(k as int),
        decreases line_count - k,
    {
        let author = find_dominant_author_for_line(k + 1, &boundaries, attributions, content);
        assert(target[k as int] == Some(author@));
        assert(target.len() == line_count);
        assert(target.take(k as int).len() == k);
        assert(line_authors_vec@.len() == k);
        let ghost a = author@;
        let ghost old_v = line_authors_vec@;
        line_authors_vec.push(Some(author));
        assert(line_authors_vec@ == old_v.push(Some(author)));
        assert(opt_authors_view(line_authors_vec@)[k as int] == Some(a));
        assert(opt_authors_view(line_authors_vec@).len() == k + 1);
        k = k + 1;
        assert(opt_authors_view(line_authors_vec@) =~= target.take(k as int));
    }
    assert(target.take(k as int) =~= target);
    let merged = merge_consecutive_line_attributions(line_authors_vec);
    let human = human_author();
    let mut result: Vec<LineAttribution> = Vec::new();
    let mut i: usize = 0;
    let ghost merged_view = line_attrs_view(merged@);
    while i < merged.len()
        invariant
            0 <= i <= merged@.len(),
            merged_view == line_attrs_view(merged@),
            human@ == human_id(),
            line_attrs_view(result@) == without_human(merged_view.take(i as int)),
        decreases merged@.len() - i,
    {
        assert(merged_view.take(i + 1).drop_last() =~= merged_view.take(i as int));
        let la = &merged[i];
        if !(la.author_id == human) {
            result.push(LineAttribution::new(la.start_line, la.end_line, la.author_id.clone()));
        }
        i = i + 1;
        assert(line_attrs_view(result@) =~= without_human(merged_view.take(i as int)));
    }
    assert(merged_view.take(i as int) =~= merged_view);
    result
}


/// No attribution of `attrs` covers position `i`.
pub open spec fn uncovered(attrs: Seq<(usize, usize, Seq<char>, u128)>, i: int) -> bool {
    forall|k: int| 0 <= k < attrs.len() ==> !half_open_overlap(
        #[trigger] attrs[k].0 as int,
        attrs[k].1 as int,
        i,
        i + 1,
    )
}

/// The maximal runs of uncovered positions among `[0, n)`, in order, as
/// half-open ranges.
pub open spec fn gap_runs(attrs: Seq<(usize, usize, Seq<char>, u128)>, n: int) -> Seq<
    (int, int),
>
    decreases n,
{
    if n <= 0 {
        Seq::empty()
    } else {
        let r = gap_runs(attrs, n - 1);
        if uncovered(attrs, n - 1) {
            if r.len() > 0 && r.last().1 == n - 1 {
                r.update(r.len() - 1, (r.last().0, n))
            } else {
                r.push((n - 1, n))
            }
        } else {
            r
        }
    }
}

/// The attributions of `runs` to `author` at time `ts`.
pub open spec fn runs_to_attrs(runs: Seq<(int, int)>, author: Seq<char>, ts: u128) -> Seq<
    (usize, usize, Seq<char>, u128),
> {
    runs.map_values(|r: (int, int)| (r.0 as usize, r.1 as usize, author, ts))
}

/// Whether some attribution of `attrs` covers position `i`.
fn is_covered(attrs: &[Attribution], i: usize) -> (r: bool)
    ensures
        r == !uncovered(attrs_view(attrs@), i as int),
{
    let mut k: usize = 0;
    while k < attrs.len()
        invariant
            0 <= k <= attrs@.len(),
            forall|j: int|
                0 <= j < k ==> !half_open_overlap(
                    #[trigger] attrs_view(attrs@)[j].0 as int,
                    attrs_view(attrs@)[j].1 as int,
                    i as int,
                    i + 1,
                ),
        decreases attrs@.len() - k,
    {
        if attrs[k].start <= i && attrs[k].end > i {
            assert(half_open_overlap(
                attrs_view(attrs@)[k as int].0 as int,
                attrs_view(attrs@)[k as int].1 as int,
                i as int,
                i + 1,
            ));
            return true;
        }
        k = k + 1;
    }
    false
}

/// Attributes every position of `content` that no attribution covers to
/// `author`: the result is `prev_attributions` followed by one attribution
/// per maximal run of uncovered positions, in order.
pub fn attribute_unattributed_ranges(
    content: &str,
    prev_attributions: &[Attribution],
    author: &str,
    ts: u128,
) -> (r: Vec<Attribution>)
    ensures
        attrs_view(r@) == attrs_view(prev_attributions@) + runs_to_attrs(
            gap_runs(attrs_view(prev_attributions@), content.spec_bytes().len() as int),
            author@,
            ts,
        ),
{
    let n = content.as_bytes().len();
    let ghost prev = attrs_view(prev_attributions@);
    let mut runs: Vec<(usize, usize)> = Vec::new();
    let mut i: usize = 0;
    while i < n
        invariant
            0 <= i <= n,
            prev == attrs_view(prev_attributions@),
            runs@.map_values(|r: (usize, usize)| (r.0 as int, r.1 as int)) == gap_runs(
                prev,
                i as int,
            ),
            forall|k: int| 0 <= k < runs@.len() ==> #[trigger] runs@[k].1 <= i,
        decreases n - i,
    {
        if !is_covered(prev_attributions, i) {
            let m = runs.len();
            if m > 0 && runs[m - 1].1 == i {
                let s = runs[m - 1].0;
                runs.set(m - 1, (s, i + 1));
            } else {
                runs.push((i, i + 1));
            }
        }
        i = i + 1;
        assert(runs@.map_values(|r: (usize, usize)| (r.0 as int, r.1 as int)) =~= gap_runs(
            prev,
            i as int,
        ));
    }
    let mut result: Vec<Attribution> = Vec::new();
    let mut j: usize = 0;
    while j < prev_attributions.len()
        invariant
            0 <= j <= prev_attributions@.len(),
            prev == attrs_view(prev_attributions@),
            attrs_view(result@) == prev.take(j as int),
            result@.len() == j,
            prev.len() == prev_attributions@.len(),
        decreases prev_attributions@.len() - j,
    {
        result.push(copy_attribution(&prev_attributions[j]));
        j = j + 1;
        assert(attrs_view(result@) =~= prev.take(j as int));
    }
    assert(prev.take(j as int) =~= prev);
    let ghost runs_int = runs@.map_values(|r: (usize, usize)| (r.0 as int, r.1 as int));
    let mut q: usize = 0;
    while q < runs.len()
        invariant
            0 <= q <= runs@.len(),
            runs_int == runs@.map_values(|r: (usize, usize)| (r.0 as int, r.1 as int)),
            attrs_view(result@) == prev + runs_to_attrs(runs_int.take(q as int), author@, ts),
            result@.len() == prev.len() + q,
            runs_int.len() == runs@.len(),
        decreases runs@.len() - q,
    {
        let (s, e) = runs[q];
        let ghost old_r = attrs_view(result@);
        result.push(Attribution::new(s, e, author.to_owned(), ts));
        assert(attrs_view(result@) =~= old_r.push((s, e, author@, ts)));
        assert(runs_to_attrs(runs_int.take(q + 1), author@, ts) =~= runs_to_attrs(
            runs_int.take(q as int),
            author@,
            ts,
        ).push((s, e, author@, ts)));
        q = q + 1;
        assert(attrs_view(result@) =~= prev + runs_to_attrs(
            runs_int.take(q as int),
            author@,
            ts,
        ));
    }
    assert(runs_int.take(q as int) =~= runs_int);
    result
}


/// `a` sorts before `b` by (start, end, author).
pub open spec fn attr_key_lt(a: (usize, usize, Seq<char>, u128), b: (usize, usize, Seq<char>, u128)) -> bool {
    a.0 < b.0 || (a.0 == b.0 && (a.1 < b.1 || (a.1 == b.1 && crate::str_map::seq_lt(a.2, b.2))))
}

/// Inserts `x` into `t` after every attribution whose key is not greater.
pub open spec fn insert_by_key(
    t: Seq<(usize, usize, Seq<char>, u128)>,
    x: (usize, usize, Seq<char>, u128),
) -> Seq<(usize, usize, Seq<char>, u128)>
    decreases t.len(),
{
    if t.len() == 0 {
        seq![x]
    } else if !attr_key_lt(x, t.last()) {
        t.push(x)
    } else {
        insert_by_key(t.drop_last(), x).push(t.last())
    }
}

/// Attributions sorted by (start, end, author), equal keys keeping their
/// order (a stable sort).
pub open spec fn sort_by_key_spec(s: Seq<(usize, usize, Seq<char>, u128)>) -> Seq<(usize, usize, Seq<char>, u128)>
    decreases s.len(),
{
    if s.len() == 0 {
        seq![]
    } else {
        insert_by_key(sort_by_key_spec(s.drop_last()), s.last())
    }
}

/// `s` without elements equal to the one just before them.
pub open spec fn dedup_spec(s: Seq<(usize, usize, Seq<char>, u128)>) -> Seq<(usize, usize, Seq<char>, u128)>
    decreases s.len(),
{
    if s.len() == 0 {
        seq![]
    } else {
        let r = dedup_spec(s.drop_last());
        if s.len() >= 2 && s[s.len() - 2] == s.last() {
            r
        } else {
            r.push(s.last())
        }
    }
}

proof fn lemma_insert_by_key(
    t: Seq<(usize, usize, Seq<char>, u128)>,
    x: (usize, usize, Seq<char>, u128),
    j: int,
)
    requires
        0 <= j <= t.len(),
        forall|k: int| j <= k < t.len() ==> attr_key_lt(x, #[trigger] t[k]),
        j > 0 ==> !attr_key_lt(x, t[j - 1]),
    ensures
        insert_by_key(t, x) == t.insert(j, x),
    decreases t.len(),
{
    if t.len() == 0 {
        assert(t.insert(j, x) =~= seq![x]);
    } else if j == t.len() {
        assert(t.insert(j, x) =~= t.push(x));
    } else {
        assert(attr_key_lt(x, t[t.len() - 1]));
        lemma_insert_by_key(t.drop_last(), x, j);
        assert(t.insert(j, x) =~= t.drop_last().insert(j, x).push(t.last()));
    }
}

/// Whether `a` sorts before `b` by (start, end, author).
fn attr_key_less(a: &Attribution, b: &Attribution) -> (r: bool)
    ensures
        r == attr_key_lt(a@, b@),
{
    if a.start != b.start {
        return a.start < b.start;
    }
    if a.end != b.end {
        return a.end < b.end;
    }
    crate::str_map::str_lt(a.author_id.as_str(), b.author_id.as_str())
}

/// Whether two attributions are equal.
fn attr_eq(a: &Attribution, b: &Attribution) -> (r: bool)
    ensures
        r == (a@ == b@),
{
    a.start == b.start && a.end == b.end && a.ts == b.ts && crate::str_map::str_eq(
        a.author_id.as_str(),
        b.author_id.as_str(),
    )
}

/// Sorts attributions by (start, end, author), stably, and drops each one
/// equal to the one before it.
pub fn merge_attributions(attributions: Vec<Attribution>) -> (r: Vec<Attribution>)
    ensures
        attrs_view(r@) == dedup_spec(sort_by_key_spec(attrs_view(attributions@))),
{
    let ghost av = attrs_view(attributions@);
    let mut sorted: Vec<Attribution> = Vec::new();
    let mut i: usize = 0;
    while i < attributions.len()
        invariant
            0 <= i <= attributions@.len(),
            av == attrs_view(attributions@),
            attrs_view(sorted@) == sort_by_key_spec(av.take(i as int)),
        decreases attributions@.len() - i,
    {
        let x = copy_attribution(&attributions[i]);
        let mut j: usize = sorted.len();
        while j > 0 && attr_key_less(&x, &sorted[j - 1])
            invariant
                0 <= j <= sorted@.len(),
                forall|k: int| j <= k < sorted@.len() ==> attr_key_lt(x@, #[trigger] attrs_view(sorted@)[k]),
            decreases j,
        {
            j = j - 1;
        }
        proof {
            lemma_insert_by_key(attrs_view(sorted@), x@, j as int);
            assert(av.take(i + 1).drop_last() =~= av.take(i as int));
            assert(av.take(i + 1).last() == x@);
        }
        let ghost before = attrs_view(sorted@);
        sorted.insert(j, x);
        assert(attrs_view(sorted@) =~= before.insert(j as int, x@));
        i = i + 1;
    }
    assert(av.take(i as int) =~= av);
    let ghost sv = attrs_view(sorted@);
    let mut r: Vec<Attribution> = Vec::new();
    let mut k: usize = 0;
    while k < sorted.len()
        invariant
            0 <= k <= sorted@.len(),
            sv == attrs_view(sorted@),
            attrs_view(r@) == dedup_spec(sv.take(k as int)),
        decreases sorted@.len() - k,
    {
        assert(sv.take(k + 1).drop_last() =~= sv.take(k as int));
        assert(sv.take(k + 1).last() == sv[k as int]);
        if k > 0 && attr_eq(&sorted[k - 1], &sorted[k]) {
            assert(sv.take(k + 1)[k - 1] == sv[k - 1]);
        } else {
            let ghost before = attrs_view(r@);
            let y = copy_attribution(&sorted[k]);
            r.push(y);
            assert(attrs_view(r@) =~= before.push(y@));
            proof {
                if k > 0 {
                    assert(sv.take(k + 1)[k - 1] == sv[k - 1]);
                }
            }
        }
        k = k + 1;
    }
    assert(sv.take(k as int) =~= sv);
    r
}

/// An operation of a character diff.
#[derive(Debug, Clone, Copy, PartialEq, Eq, Structural)]
pub enum DiffOp {
    Equal,
    Delete,
    Insert,
}

/// A deleted or inserted run of characters: its position in the old (for a
/// deletion) or new (for an insertion) content, and its text.
#[derive(Debug, Clone, PartialEq, Eq)]
pub struct TextEdit {
    pub start: usize,
    pub end: usize,
    pub text: Vec<char>,
}

/// The edits of a diff from position `old`/`new` on: (deletions,
/// insertions), each with its range in the content it belongs to.
pub open spec fn catalog_from(
    diffs: Seq<(DiffOp, Seq<char>)>,
    old: int,
    new: int,
) -> (Seq<(int, int, Seq<char>)>, Seq<(int, int, Seq<char>)>)
    decreases diffs.len(),
{
    if diffs.len() == 0 {
        (seq![], seq![])
    } else {
        let (op, text) = diffs[0];
        let n = text.len() as int;
        let rest = diffs.drop_first();
        match op {
            DiffOp::Equal => catalog_from(rest, old + n, new + n),
            DiffOp::Delete => {
                let c = catalog_from(rest, old + n, new);
                (seq![(old, old + n, text)] + c.0, c.1)
            },
            DiffOp::Insert => {
                let c = catalog_from(rest, old, new + n);
                (c.0, seq![(new, new + n, text)] + c.1)
            },
        }
    }
}

/// The views of edits.
pub open spec fn edits_view(s: Seq<TextEdit>) -> Seq<(int, int, Seq<char>)> {
    s.map_values(|e: TextEdit| (e.start as int, e.end as int, e.text@))
}

/// The views of diff operations.
pub open spec fn diffs_view(s: Seq<(DiffOp, Vec<char>)>) -> Seq<(DiffOp, Seq<char>)> {
    s.map_values(|d: (DiffOp, Vec<char>)| (d.0, d.1@))
}

/// The total length of the runs, counted from position `i`.
pub open spec fn runs_len(s: Seq<(DiffOp, Seq<char>)>) -> nat
    decreases s.len(),
{
    if s.len() == 0 {
        0
    } else {
        s[0].1.len() + runs_len(s.drop_first())
    }
}

proof fn lemma_catalog_split(diffs: Seq<(DiffOp, Seq<char>)>, k: int, old: int, new: int)
    requires
        0 <= k <= diffs.len(),
    ensures
        ({
            let a = catalog_from(diffs.take(k), old, new);
            let (o2, n2) = positions_after(diffs.take(k), old, new);
            let b = catalog_from(diffs.skip(k), o2, n2);
            catalog_from(diffs, old, new) == (a.0 + b.0, a.1 + b.1)
        }),
    decreases k,
{
    if k == 0 {
        assert(diffs.skip(0) =~= diffs);
        assert(diffs.take(0) =~= Seq::<(DiffOp, Seq<char>)>::empty());
        let b = catalog_from(diffs, old, new);
        assert(seq![] + b.0 =~= b.0);
        assert(seq![] + b.1 =~= b.1);
    } else {
        let (op, text) = diffs[0];
        let n = text.len() as int;
        let rest = diffs.drop_first();
        assert(diffs.take(k).drop_first() =~= rest.take(k - 1));
        assert(diffs.skip(k) =~= rest.skip(k - 1));
        assert(diffs.take(k)[0] == diffs[0]);
        match op {
            DiffOp::Equal => {
                lemma_catalog_split(rest, k - 1, old + n, new + n);
            },
            DiffOp::Delete => {
                lemma_catalog_split(rest, k - 1, old + n, new);
                let a2 = catalog_from(rest.take(k - 1), old + n, new);
                let (o2, n2) = positions_after(rest.take(k - 1), old + n, new);
                let b = catalog_from(rest.skip(k - 1), o2, n2);
                assert(seq![(old, old + n, text)] + (a2.0 + b.0) =~= (seq![(old, old + n, text)] + a2.0) + b.0);
            },
            DiffOp::Insert => {
                lemma_catalog_split(rest, k - 1, old, new + n);
                let a2 = catalog_from(rest.take(k - 1), old, new + n);
                let (o2, n2) = positions_after(rest.take(k - 1), old, new + n);
                let b = catalog_from(rest.skip(k - 1), o2, n2);
                assert(seq![(new, new + n, text)] + (a2.1 + b.1) =~= (seq![(new, new + n, text)] + a2.1) + b.1);
            },
        }
    }
}

/// The old and new positions after the runs, starting from `old`/`new`.
pub open spec fn positions_after(diffs: Seq<(DiffOp, Seq<char>)>, old: int, new: int) -> (int, int)
    decreases diffs.len(),
{
    if diffs.len() == 0 {
        (old, new)
    } else {
        let n = diffs[0].1.len() as int;
        let rest = diffs.drop_first();
        match diffs[0].0 {
            DiffOp::Equal => positions_after(rest, old + n, new + n),
            DiffOp::Delete => positions_after(rest, old + n, new),
            DiffOp::Insert => positions_after(rest, old, new + n),
        }
    }
}

proof fn lemma_positions_after_push(diffs: Seq<(DiffOp, Seq<char>)>, d: (DiffOp, Seq<char>), old: int, new: int)
    ensures
        positions_after(diffs.push(d), old, new) == ({
            let (o, n) = positions_after(diffs, old, new);
            let l = d.1.len() as int;
            match d.0 {
                DiffOp::Equal => (o + l, n + l),
                DiffOp::Delete => (o + l, n),
                DiffOp::Insert => (o, n + l),
            }
        }),
    decreases diffs.len(),
{
    if diffs.len() == 0 {
        assert(diffs.push(d).drop_first() =~= Seq::<(DiffOp, Seq<char>)>::empty());
        assert(diffs.push(d)[0] == d);
        let l = d.1.len() as int;
        let e = Seq::<(DiffOp, Seq<char>)>::empty();
        assert(positions_after(e, old + l, new + l) == (old + l, new + l));
        assert(positions_after(e, old + l, new) == (old + l, new));
        assert(positions_after(e, old, new + l) == (old, new + l));
    } else {
        let n = diffs[0].1.len() as int;
        assert(diffs.push(d).drop_first() =~= diffs.drop_first().push(d));
        assert(diffs.push(d)[0] == diffs[0]);
        match diffs[0].0 {
            DiffOp::Equal => lemma_positions_after_push(diffs.drop_first(), d, old + n, new + n),
            DiffOp::Delete => lemma_positions_after_push(diffs.drop_first(), d, old + n, new),
            DiffOp::Insert => lemma_positions_after_push(diffs.drop_first(), d, old, new + n),
        }
    }
}

/// Catalogs the deletions and insertions of a character diff, with their
/// positions in the old and new content (see `catalog_from`).
pub fn build_diff_catalog(diffs: &Vec<(DiffOp, Vec<char>)>) -> (r: (Vec<TextEdit>, Vec<TextEdit>))
    requires
        runs_len(diffs_view(diffs@)) <= usize::MAX,
    ensures
        (edits_view(r.0@), edits_view(r.1@)) == catalog_from(diffs_view(diffs@), 0, 0),
{
    let ghost dv = diffs_view(diffs@);
    let mut deletions: Vec<TextEdit> = Vec::new();
    let mut insertions: Vec<TextEdit> = Vec::new();
    let mut old_pos: usize = 0;
    let mut new_pos: usize = 0;
    let mut i: usize = 0;
    assert(dv.take(0) =~= Seq::<(DiffOp, Seq<char>)>::empty());
    assert(dv.skip(0) =~= dv);
    while i < diffs.len()
        invariant
            0 <= i <= diffs@.len(),
            dv == diffs_view(diffs@),
            runs_len(dv) <= usize::MAX,
            (old_pos as int, new_pos as int) == positions_after(dv.take(i as int), 0, 0),
            old_pos + runs_len(dv.skip(i as int)) <= runs_len(dv),
            new_pos + runs_len(dv.skip(i as int)) <= runs_len(dv),
            (edits_view(deletions@), edits_view(insertions@)) == catalog_from(dv.take(i as int), 0, 0),
        decreases diffs@.len() - i,
    {
        let op = diffs[i].0;
        let len = diffs[i].1.len();
        proof {
            lemma_positions_after_push(dv.take(i as int), dv[i as int], 0, 0);
            assert(dv.take(i + 1) =~= dv.take(i as int).push(dv[i as int]));
            lemma_catalog_split(dv.take(i + 1), i as int, 0, 0);
            assert(dv.take(i + 1).take(i as int) =~= dv.take(i as int));
            assert(dv.take(i + 1).skip(i as int) =~= seq![dv[i as int]]);
            assert(seq![dv[i as int]].drop_first() =~= Seq::<(DiffOp, Seq<char>)>::empty());
            lemma_runs_len_split(dv, i as int);
            lemma_catalog_single(dv[i as int], old_pos as int, new_pos as int);
        }
        let ghost d0 = edits_view(deletions@);
        let ghost i0 = edits_view(insertions@);
        match op {
            DiffOp::Equal => {
                old_pos = old_pos + len;
                new_pos = new_pos + len;
                assert(d0 + Seq::<(int, int, Seq<char>)>::empty() =~= d0);
                assert(i0 + Seq::<(int, int, Seq<char>)>::empty() =~= i0);
            },
            DiffOp::Delete => {
                let ghost before = edits_view(deletions@);
                let e = TextEdit { start: old_pos, end: old_pos + len, text: diffs[i].1.clone() };
                deletions.push(e);
                assert(edits_view(deletions@) =~= before + seq![(e.start as int, e.end as int, dv[i as int].1)]);
                assert(i0 + Seq::<(int, int, Seq<char>)>::empty() =~= i0);
                old_pos = old_pos + len;
            },
            DiffOp::Insert => {
                let ghost before = edits_view(insertions@);
                let e = TextEdit { start: new_pos, end: new_pos + len, text: diffs[i].1.clone() };
                insertions.push(e);
                assert(edits_view(insertions@) =~= before + seq![(e.start as int, e.end as int, dv[i as int].1)]);
                assert(d0 + Seq::<(int, int, Seq<char>)>::empty() =~= d0);
                new_pos = new_pos + len;
            },
        }
        i = i + 1;
    }
    assert(dv.take(i as int) =~= dv);
    (deletions, insertions)
}

proof fn lemma_catalog_single(d: (DiffOp, Seq<char>), o: int, n: int)
    ensures
        catalog_from(seq![d], o, n) == ({
            let l = d.1.len() as int;
            match d.0 {
                DiffOp::Equal => (Seq::<(int, int, Seq<char>)>::empty(), Seq::<(int, int, Seq<char>)>::empty()),
                DiffOp::Delete => (seq![(o, o + l, d.1)], Seq::<(int, int, Seq<char>)>::empty()),
                DiffOp::Insert => (Seq::<(int, int, Seq<char>)>::empty(), seq![(n, n + l, d.1)]),
            }
        }),
{
    let l = d.1.len() as int;
    let e = Seq::<(DiffOp, Seq<char>)>::empty();
    assert(seq![d].drop_first() =~= e);
    assert(seq![d][0] == d);
    assert(catalog_from(e, o + l, n + l) == (Seq::<(int, int, Seq<char>)>::empty(), Seq::<(int, int, Seq<char>)>::empty()));
    assert(catalog_from(e, o + l, n) == (Seq::<(int, int, Seq<char>)>::empty(), Seq::<(int, int, Seq<char>)>::empty()));
    assert(catalog_from(e, o, n + l) == (Seq::<(int, int, Seq<char>)>::empty(), Seq::<(int, int, Seq<char>)>::empty()));
    assert(seq![(o, o + l, d.1)] + Seq::<(int, int, Seq<char>)>::empty() =~= seq![(o, o + l, d.1)]);
    assert(seq![(n, n + l, d.1)] + Seq::<(int, int, Seq<char>)>::empty() =~= seq![(n, n + l, d.1)]);
}

proof fn lemma_runs_len_split(s: Seq<(DiffOp, Seq<char>)>, i: int)
    requires
        0 <= i < s.len(),
    ensures
        runs_len(s.skip(i)) == s[i].1.len() + runs_len(s.skip(i + 1)),
{
    assert(s.skip(i).drop_first() =~= s.skip(i + 1));
}

/// The old text a diff describes: its equal and deleted runs, in order.
pub open spec fn old_side(d: Seq<(DiffOp, Seq<char>)>) -> Seq<char>
    decreases d.len(),
{
    if d.len() == 0 {
        seq![]
    } else {
        (if d[0].0 == DiffOp::Insert {
            seq![]
        } else {
            d[0].1
        }) + old_side(d.drop_first())
    }
}

/// The new text a diff describes: its equal and inserted runs, in order.
pub open spec fn new_side(d: Seq<(DiffOp, Seq<char>)>) -> Seq<char>
    decreases d.len(),
{
    if d.len() == 0 {
        seq![]
    } else {
        (if d[0].0 == DiffOp::Delete {
            seq![]
        } else {
            d[0].1
        }) + new_side(d.drop_first())
    }
}

/// The runs of a diff are no longer than its two sides together.
proof fn lemma_runs_len_sides(d: Seq<(DiffOp, Seq<char>)>)
    ensures
        runs_len(d) <= old_side(d).len() + new_side(d).len(),
    decreases d.len(),
{
    if d.len() > 0 {
        lemma_runs_len_sides(d.drop_first());
    }
}

/// The character diff of two texts.
///
/// Calls `DiffMatchPatch::diff_main` (character mode, default deadline) and
/// turns each `Diff` into its operation and characters. Whatever diff it
/// returns, even one cut short by the deadline, describes the two texts:
/// its equal and deleted runs spell the old text, its equal and inserted
/// runs the new one. Which diff it is, is left unsaid; an error is passed
/// on as text.
#[verifier::external_body]
fn char_diff(old: &str, new: &str) -> (r: Result<Vec<(DiffOp, Vec<char>)>, String>)
    ensures
        r matches Ok(d) ==> old_side(diffs_view(d@)) == old@ && new_side(diffs_view(d@)) == new@,
{
    let diffs = DiffMatchPatch::new()
        .diff_main::<Compat>(old, new)
        .map_err(|e| format!("Diff computation failed: {:?}", e))?;
    Ok(diffs
        .iter()
        .map(|d| {
            let op = match d.op() {
                Ops::Equal => DiffOp::Equal,
                Ops::Delete => DiffOp::Delete,
                Ops::Insert => DiffOp::Insert,
            };
            (op, d.data().to_vec())
        })
        .collect())
}

/// The character diff of two contents and its catalog of deletions and
/// insertions (see `catalog_from`); an error when the diff could not be
/// computed.
pub fn diff_catalog(old: &str, new: &str) -> (r: Result<
    (Vec<(DiffOp, Vec<char>)>, Vec<TextEdit>, Vec<TextEdit>),
    String,
>)
    requires
        old@.len() + new@.len() <= usize::MAX,
    ensures
        r matches Ok((d, dels, ins)) ==> old_side(diffs_view(d@)) == old@ && new_side(diffs_view(d@))
            == new@ && (edits_view(dels@), edits_view(ins@)) == catalog_from(diffs_view(d@), 0, 0),
{
    match char_diff(old, new) {
        Ok(d) => {
            proof {
                lemma_runs_len_sides(diffs_view(d@));
            }
            let (dels, ins) = build_diff_catalog(&d);
            Ok((d, dels, ins))
        },
        Err(e) => Err(e),
    }
}

/// The attribution that an edit gives: its range, author and timestamp.
pub type AttrView = (usize, usize, Seq<char>, u128);

/// The parts of the attributions `attrs` that overlap `[a, b)`, in order,
/// moved so that `a` lands on `base`; each keeps its timestamp, or takes
/// `ts` when one is given.
pub open spec fn shifted(attrs: Seq<AttrView>, a: int, b: int, base: int, ts: Option<u128>) -> Seq<AttrView>
    decreases attrs.len(),
{
    if attrs.len() == 0 {
        seq![]
    } else {
        let r = shifted(attrs.drop_last(), a, b, base, ts);
        let x = attrs.last();
        let lo = max_int(x.0 as int, a);
        let hi = min_int(x.1 as int, b);
        if lo < hi {
            r.push(
                (
                    (base + (lo - a)) as usize,
                    (base + (hi - a)) as usize,
                    x.2,
                    match ts {
                        Some(t) => t,
                        None => x.3,
                    },
                ),
            )
        } else {
            r
        }
    }
}

/// The first position from `p` on where `hay` holds `needle` (like
/// `str::find` on the text from `p`).
pub open spec fn first_from(hay: Seq<char>, needle: Seq<char>, p: int) -> Option<int>
    decreases hay.len() + 1 - p,
{
    if p < 0 || p + needle.len() > hay.len() {
        None
    } else if hay.subrange(p, p + needle.len()) == needle {
        Some(p)
    } else {
        first_from(hay, needle, p + 1)
    }
}

/// The longest prefix of `text`, of at least 100 characters and at most `n`,
/// that `old` holds from position `from` on: where it first stands, and its
/// length.
pub open spec fn prefix_match(old: Seq<char>, text: Seq<char>, from: int, n: int) -> Option<(int, int)>
    decreases n,
{
    if n < 100 || n > text.len() {
        None
    } else {
        match first_from(old, text.take(n), from) {
            Some(p) => Some((p, n)),
            None => prefix_match(old, text, from, n - 1),
        }
    }
}

/// The state of the walk through a diff: position in the old and the new
/// text, number of deletions and of insertions seen, attributions so far.
pub type WalkState = (int, int, int, int, Seq<AttrView>);

/// The attributions an inserted run gets: the attributions of the longest
/// prefix of it (100 characters or more) that the old text holds from the
/// current position on, with the new timestamp, and the rest of the run,
/// or all of it when there is no such prefix or it carries no attribution,
/// to `author`.
pub open spec fn insert_attrs(
    old: Seq<char>,
    attrs: Seq<AttrView>,
    text: Seq<char>,
    op: int,
    np: int,
    author: Seq<char>,
    ts: u128,
) -> Seq<AttrView> {
    let len = text.len() as int;
    let whole = seq![(np as usize, (np + len) as usize, author, ts)];
    match prefix_match(old, text, op, len) {
        None => whole,
        Some((p, l)) => {
            let got = shifted(attrs, p, p + l, np, Some(ts)) + if l < len {
                seq![((np + l) as usize, (np + len) as usize, author, ts)]
            } else {
                seq![]
            };
            if got.len() > 0 {
                got
            } else {
                whole
            }
        },
    }
}

/// One run of the diff: an equal run carries the attributions it overlaps
/// to the new position; a deleted run adds what the move of that deletion
/// carries (nothing for a plain deletion); an inserted run that a move
/// brought adds nothing, any other gets `insert_attrs`.
pub open spec fn transform_step(
    st: WalkState,
    d: (DiffOp, Seq<char>),
    old: Seq<char>,
    attrs: Seq<AttrView>,
    author: Seq<char>,
    moved_insertions: Seq<bool>,
    moved: Seq<Seq<AttrView>>,
    ts: u128,
) -> WalkState {
    let (op, np, del, ins, out) = st;
    let len = d.1.len() as int;
    match d.0 {
        DiffOp::Equal => (op + len, np + len, del, ins, out + shifted(attrs, op, op + len, np, None)),
        DiffOp::Delete => (
            op + len,
            np,
            del + 1,
            ins,
            out + if 0 <= del < moved.len() {
                moved[del]
            } else {
                seq![]
            },
        ),
        DiffOp::Insert => if 0 <= ins < moved_insertions.len() && moved_insertions[ins] {
            (op, np + len, del, ins + 1, out)
        } else {
            (op, np + len, del, ins + 1, out + insert_attrs(old, attrs, d.1, op, np, author, ts))
        },
    }
}

/// The walk through the runs of a diff (see `transform_step`).
pub open spec fn transform_walk(
    diffs: Seq<(DiffOp, Seq<char>)>,
    old: Seq<char>,
    attrs: Seq<AttrView>,
    author: Seq<char>,
    moved_insertions: Seq<bool>,
    moved: Seq<Seq<AttrView>>,
    ts: u128,
) -> WalkState
    decreases diffs.len(),
{
    if diffs.len() == 0 {
        (0, 0, 0, 0, seq![])
    } else {
        transform_step(
            transform_walk(diffs.drop_last(), old, attrs, author, moved_insertions, moved, ts),
            diffs.last(),
            old,
            attrs,
            author,
            moved_insertions,
            moved,
            ts,
        )
    }
}

/// The attributions of the new text (see `transform_step`), before they are
/// merged.
pub open spec fn transform_spec(
    diffs: Seq<(DiffOp, Seq<char>)>,
    old: Seq<char>,
    attrs: Seq<AttrView>,
    author: Seq<char>,
    moved_insertions: Seq<bool>,
    moved: Seq<Seq<AttrView>>,
    ts: u128,
) -> Seq<AttrView> {
    transform_walk(diffs, old, attrs, author, moved_insertions, moved, ts).4
}

/// The views of groups of attributions.
pub open spec fn attr_groups_view(g: Seq<Vec<Attribution>>) -> Seq<Seq<AttrView>> {
    g.map_values(|v: Vec<Attribution>| attrs_view(v@))
}

/// Appends the parts of `attrs` that overlap `[a, b)`, moved so that `a`
/// lands on `base` (see `shifted`).
fn push_shifted(
    out: &mut Vec<Attribution>,
    attrs: &[Attribution],
    a: usize,
    b: usize,
    base: usize,
    ts: Option<u128>,
)
    requires
        a <= b,
        base + (b - a) <= usize::MAX,
    ensures
        attrs_view(final(out)@) == attrs_view(old(out)@) + shifted(attrs_view(attrs@), a as int, b as int, base as int, ts),
{
    let ghost start = attrs_view(out@);
    let mut i: usize = 0;
    assert(attrs_view(attrs@).take(0) =~= Seq::<AttrView>::empty());
    assert(start + shifted(attrs_view(attrs@).take(0), a as int, b as int, base as int, ts) =~= start);
    while i < attrs.len()
        invariant
            0 <= i <= attrs@.len(),
            a <= b,
            base + (b - a) <= usize::MAX,
            attrs_view(out@) == start + shifted(attrs_view(attrs@).take(i as int), a as int, b as int, base as int, ts),
        decreases attrs@.len() - i,
    {
        let ghost t = attrs_view(attrs@).take(i + 1);
        assert(t.drop_last() =~= attrs_view(attrs@).take(i as int));
        assert(t.last() == attrs@[i as int]@);
        let x = &attrs[i];
        match x.intersection(a, b) {
            Some((lo, hi)) => {
                let t2 = match ts {
                    Some(v) => v,
                    None => x.ts,
                };
                let na = Attribution::new(base + (lo - a), base + (hi - a), x.author_id.clone(), t2);
                let ghost before = attrs_view(out@);
                out.push(na);
                assert(attrs_view(out@) =~= before.push(na@));
            },
            None => {},
        }
        i = i + 1;
    }
    assert(attrs_view(attrs@).take(i as int) =~= attrs_view(attrs@));
}

/// The first position from `p` on where `hay` holds the first `n`
/// characters of `text` (see `first_from`).
fn find_prefix_from(hay: &[char], text: &[char], n: usize, p: usize) -> (r: Option<usize>)
    requires
        n <= text@.len(),
    ensures
        match r {
            Some(q) => first_from(hay@, text@.take(n as int), p as int) == Some(q as int),
            None => first_from(hay@, text@.take(n as int), p as int) is None,
        },
{
    let ghost nd = text@.take(n as int);
    let hl = hay.len();
    let mut q = p;
    while q <= hay.len() && n <= hay.len() - q
        invariant
            p <= q,
            hl == hay@.len(),
            nd == text@.take(n as int),
            n <= text@.len(),
            first_from(hay@, nd, p as int) == first_from(hay@, nd, q as int),
        decreases hay@.len() + 1 - q,
    {
        let mut k: usize = 0;
        let mut same = true;
        while k < n
            invariant
                0 <= k <= n,
                n <= text@.len(),
                hl == hay@.len(),
                q + n <= hay@.len(),
                same == forall|j: int| 0 <= j < k ==> hay@[q + j] == text@[j],
            decreases n - k,
        {
            if hay[q + k] != text[k] {
                same = false;
            }
            k = k + 1;
        }
        if same {
            assert(hay@.subrange(q as int, q + n) =~= nd);
            return Some(q);
        }
        assert(hay@.subrange(q as int, q + n) != nd) by {
            let j = choose|j: int| 0 <= j < n && !(hay@[q + j] == text@[j]);
            assert(hay@.subrange(q as int, q + n)[j] == hay@[q + j]);
        }
        q = q + 1;
    }
    None
}

/// The longest prefix of `text` (100 characters or more) that `old` holds
/// from `from` on (see `prefix_match`).
fn find_prefix_match(old: &[char], text: &[char], from: usize) -> (r: Option<(usize, usize)>)
    ensures
        match r {
            Some((p, l)) => prefix_match(old@, text@, from as int, text@.len() as int) == Some((p as int, l as int)),
            None => prefix_match(old@, text@, from as int, text@.len() as int) is None,
        },
{
    let mut n = text.len();
    while n >= 100
        invariant
            n <= text@.len(),
            prefix_match(old@, text@, from as int, text@.len() as int) == prefix_match(old@, text@, from as int, n as int),
        decreases n,
    {
        match find_prefix_from(old, text, n, from) {
            Some(p) => {
                return Some((p, n));
            },
            None => {},
        }
        n = n - 1;
    }
    None
}

/// Carries the attributions of the old text through a diff (see
/// `transform_spec`): `moved_insertions` marks the inserted runs that a
/// detected move brought, and `moved[k]` holds the attributions that the
/// move of the `k`-th deleted run carries, already placed in the new text.
/// Positions count characters, as the diff does.
pub fn transform_attributions(
    diffs: &[(DiffOp, Vec<char>)],
    old_content: &str,
    old_attributions: &[Attribution],
    current_author: &str,
    moved_insertions: &[bool],
    moved: &[Vec<Attribution>],
    ts: u128,
) -> (r: Vec<Attribution>)
    requires
        runs_len(diffs_view(diffs@)) <= usize::MAX,
    ensures
        attrs_view(r@) == transform_spec(
            diffs_view(diffs@),
            old_content@,
            attrs_view(old_attributions@),
            current_author@,
            moved_insertions@,
            attr_groups_view(moved@),
            ts,
        ),
{
    let ghost dv = diffs_view(diffs@);
    let ghost av = attrs_view(old_attributions@);
    let ghost mv = attr_groups_view(moved@);
    let old = crate::text::chars_of(old_content);
    let olen = old.len();
    let mut out: Vec<Attribution> = Vec::new();
    let mut old_pos: usize = 0;
    let mut new_pos: usize = 0;
    let mut del: usize = 0;
    let mut ins: usize = 0;
    let mut i: usize = 0;
    assert(dv.take(0) =~= Seq::<(DiffOp, Seq<char>)>::empty());
    while i < diffs.len()
        invariant
            0 <= i <= diffs@.len(),
            dv == diffs_view(diffs@),
            av == attrs_view(old_attributions@),
            mv == attr_groups_view(moved@),
            old@ == old_content@,
            olen == old@.len(),
            runs_len(dv) <= usize::MAX,
            old_pos <= runs_len(dv.take(i as int)),
            new_pos <= runs_len(dv.take(i as int)),
            del <= i,
            ins <= i,
            transform_walk(dv.take(i as int), old@, av, current_author@, moved_insertions@, mv, ts) == (
                old_pos as int,
                new_pos as int,
                del as int,
                ins as int,
                attrs_view(out@),
            ),
        decreases diffs@.len() - i,
    {
        let ghost t = dv.take(i + 1);
        assert(t.drop_last() =~= dv.take(i as int));
        assert(t.last() == (diffs@[i as int].0, diffs@[i as int].1@));
        proof {
            lemma_runs_len_take(dv, i as int);
        }
        let op = diffs[i].0;
        let text = &diffs[i].1;
        let len = text.len();
        match op {
            DiffOp::Equal => {
                push_shifted(&mut out, old_attributions, old_pos, old_pos + len, new_pos, None);
                old_pos = old_pos + len;
                new_pos = new_pos + len;
            },
            DiffOp::Delete => {
                if del < moved.len() {
                    let group = &moved[del];
                    let mut k: usize = 0;
                    let ghost before = attrs_view(out@);
                    assert(mv[del as int] == attrs_view(group@));
                    assert(attrs_view(group@).take(0) =~= Seq::<AttrView>::empty());
                    assert(before + attrs_view(group@).take(0) =~= before);
                    while k < group.len()
                        invariant
                            0 <= k <= group@.len(),
                            attrs_view(out@) == before + attrs_view(group@).take(k as int),
                        decreases group@.len() - k,
                    {
                        let g = &group[k];
                        let c = Attribution::new(g.start, g.end, g.author_id.clone(), g.ts);
                        assert(c@ == g@);
                        let ghost o0 = attrs_view(out@);
                        out.push(c);
                        assert(attrs_view(out@) =~= o0.push(c@));
                        assert(attrs_view(group@).take(k + 1) =~= attrs_view(group@).take(k as int).push(g@));
                        assert(attrs_view(out@) =~= before + attrs_view(group@).take(k + 1));
                        k = k + 1;
                    }
                    assert(attrs_view(group@).take(k as int) =~= attrs_view(group@));
                } else {
                    assert(attrs_view(out@) + Seq::<AttrView>::empty() =~= attrs_view(out@));
                }
                old_pos = old_pos + len;
                del = del + 1;
            },
            DiffOp::Insert => {
                let skip = ins < moved_insertions.len() && moved_insertions[ins];
                if !skip {
                    let ghost before = attrs_view(out@);
                    let whole = Attribution::new(new_pos, new_pos + len, current_author.to_owned(), ts);
                    match find_prefix_match(old.as_slice(), text.as_slice(), old_pos) {
                        None => {
                            out.push(whole);
                            assert(attrs_view(out@) =~= before + seq![whole@]);
                        },
                        Some((p, l)) => {
                            proof {
                                lemma_prefix_match_bounds(old@, text@, old_pos as int, len as int);
                            }
                            let mut got: Vec<Attribution> = Vec::new();
                            push_shifted(&mut got, old_attributions, p, p + l, new_pos, Some(ts));
                            if l < len {
                                let rest = Attribution::new(new_pos + l, new_pos + len, current_author.to_owned(), ts);
                                let ghost g0 = attrs_view(got@);
                                got.push(rest);
                                assert(attrs_view(got@) =~= g0 + seq![rest@]);
                            } else {
                                assert(attrs_view(got@) + Seq::<AttrView>::empty() =~= attrs_view(got@));
                            }
                            if got.len() > 0 {
                                let ghost g1 = attrs_view(got@);
                                out.append(&mut got);
                                assert(attrs_view(out@) =~= before + g1);
                            } else {
                                out.push(whole);
                                assert(attrs_view(out@) =~= before + seq![whole@]);
                            }
                        },
                    }
                }
                new_pos = new_pos + len;
                ins = ins + 1;
            },
        }
        i = i + 1;
    }
    assert(dv.take(i as int) =~= dv);
    out
}

/// The runs of a prefix of a diff, one run more, are that run longer.
proof fn lemma_runs_len_take(d: Seq<(DiffOp, Seq<char>)>, i: int)
    requires
        0 <= i < d.len(),
    ensures
        runs_len(d.take(i + 1)) == runs_len(d.take(i)) + d[i].1.len(),
        runs_len(d.take(i + 1)) <= runs_len(d),
    decreases d.len(),
{
    lemma_runs_len_prefix(d, i);
    lemma_runs_len_prefix(d, i + 1);
    lemma_runs_len_split(d, i);
}

/// The runs of a diff are those of a prefix and of the rest.
proof fn lemma_runs_len_prefix(d: Seq<(DiffOp, Seq<char>)>, k: int)
    requires
        0 <= k <= d.len(),
    ensures
        runs_len(d) == runs_len(d.take(k)) + runs_len(d.skip(k)),
    decreases k,
{
    if k == 0 {
        assert(d.take(0) =~= Seq::<(DiffOp, Seq<char>)>::empty());
        assert(d.skip(0) =~= d);
    } else {
        lemma_runs_len_prefix(d.drop_first(), k - 1);
        assert(d.drop_first().take(k - 1) =~= d.take(k).drop_first());
        assert(d.drop_first().skip(k - 1) =~= d.skip(k));
        assert(d.take(k)[0] == d[0]);
    }
}

/// A prefix match lies within the old text and is no longer than the run.
proof fn lemma_prefix_match_bounds(old: Seq<char>, text: Seq<char>, from: int, n: int)
    ensures
        prefix_match(old, text, from, n) matches Some((p, l)) ==> 0 <= p && p + l <= old.len() && 100 <= l <= n
            && l <= text.len(),
    decreases n,
{
    if n >= 100 && n <= text.len() {
        lemma_first_from_bounds(old, text.take(n), from);
        lemma_prefix_match_bounds(old, text, from, n - 1);
    }
}

/// A first position lies within the text.
proof fn lemma_first_from_bounds(hay: Seq<char>, needle: Seq<char>, p: int)
    ensures
        first_from(hay, needle, p) matches Some(q) ==> p <= q && 0 <= q && q + needle.len() <= hay.len(),
    decreases hay.len() + 1 - p,
{
    if !(p < 0 || p + needle.len() > hay.len()) && hay.subrange(p, p + needle.len()) != needle {
        lemma_first_from_bounds(hay, needle, p + 1);
    }
}

/// The two sides of a diff made of two parts are those of the parts.
proof fn lemma_sides_concat(a: Seq<(DiffOp, Seq<char>)>, b: Seq<(DiffOp, Seq<char>)>)
    ensures
        old_side(a + b) == old_side(a) + old_side(b),
        new_side(a + b) == new_side(a) + new_side(b),
    decreases a.len(),
{
    if a.len() == 0 {
        assert(a + b =~= b);
        assert(old_side(a) + old_side(b) =~= old_side(b));
        assert(new_side(a) + new_side(b) =~= new_side(b));
    } else {
        lemma_sides_concat(a.drop_first(), b);
        assert((a + b).drop_first() =~= a.drop_first() + b);
        assert((a + b)[0] == a[0]);
        let h_old: Seq<char> = if a[0].0 == DiffOp::Insert { seq![] } else { a[0].1 };
        let h_new: Seq<char> = if a[0].0 == DiffOp::Delete { seq![] } else { a[0].1 };
        assert(h_old + (old_side(a.drop_first()) + old_side(b)) =~= (h_old + old_side(a.drop_first())) + old_side(b));
        assert(h_new + (new_side(a.drop_first()) + new_side(b)) =~= (h_new + new_side(a.drop_first())) + new_side(b));
    }
}

/// The sides of a diff of one run.
proof fn lemma_sides_one(x: (DiffOp, Seq<char>))
    ensures
        old_side(seq![x]) == if x.0 == DiffOp::Insert {
            Seq::<char>::empty()
        } else {
            x.1
        },
        new_side(seq![x]) == if x.0 == DiffOp::Delete {
            Seq::<char>::empty()
        } else {
            x.1
        },
{
    let one = seq![x];
    assert(one.drop_first() =~= Seq::<(DiffOp, Seq<char>)>::empty());
    assert(old_side(one.drop_first()) == Seq::<char>::empty());
    assert(new_side(one.drop_first()) == Seq::<char>::empty());
    assert(one[0] == x);
    let h_old: Seq<char> = if x.0 == DiffOp::Insert { seq![] } else { x.1 };
    let h_new: Seq<char> = if x.0 == DiffOp::Delete { seq![] } else { x.1 };
    assert(h_old + Seq::<char>::empty() =~= h_old);
    assert(h_new + Seq::<char>::empty() =~= h_new);
}

/// The new side of a diff is no longer than its runs.
proof fn lemma_new_side_len(d: Seq<(DiffOp, Seq<char>)>)
    ensures
        new_side(d).len() <= runs_len(d),
    decreases d.len(),
{
    if d.len() > 0 {
        lemma_new_side_len(d.drop_first());
    }
}

/// After the walk through some runs, the positions are the lengths of the
/// old and the new text those runs spell.
proof fn lemma_walk_positions(
    d: Seq<(DiffOp, Seq<char>)>,
    old: Seq<char>,
    attrs: Seq<AttrView>,
    author: Seq<char>,
    moved_insertions: Seq<bool>,
    moved: Seq<Seq<AttrView>>,
    ts: u128,
)
    ensures
        transform_walk(d, old, attrs, author, moved_insertions, moved, ts).0 == old_side(d).len(),
        transform_walk(d, old, attrs, author, moved_insertions, moved, ts).1 == new_side(d).len(),
    decreases d.len(),
{
    if d.len() > 0 {
        let p = d.drop_last();
        lemma_walk_positions(p, old, attrs, author, moved_insertions, moved, ts);
        assert(p + seq![d.last()] =~= d);
        lemma_sides_concat(p, seq![d.last()]);
        lemma_sides_one(d.last());
    }
}

/// A step of the walk only appends attributions.
proof fn lemma_step_extends(
    st: WalkState,
    dd: (DiffOp, Seq<char>),
    old: Seq<char>,
    attrs: Seq<AttrView>,
    author: Seq<char>,
    moved_insertions: Seq<bool>,
    moved: Seq<Seq<AttrView>>,
    ts: u128,
)
    ensures
        ({
            let o = transform_step(st, dd, old, attrs, author, moved_insertions, moved, ts).4;
            o.len() >= st.4.len() && o.take(st.4.len() as int) == st.4
        }),
{
    let o = transform_step(st, dd, old, attrs, author, moved_insertions, moved, ts).4;
    assert(o.take(st.4.len() as int) =~= st.4);
}

/// The walk through a prefix of the runs gives a prefix of the
/// attributions.
proof fn lemma_walk_extends(
    d: Seq<(DiffOp, Seq<char>)>,
    old: Seq<char>,
    attrs: Seq<AttrView>,
    author: Seq<char>,
    moved_insertions: Seq<bool>,
    moved: Seq<Seq<AttrView>>,
    ts: u128,
    j: int,
)
    requires
        0 <= j <= d.len(),
    ensures
        ({
            let full = transform_walk(d, old, attrs, author, moved_insertions, moved, ts).4;
            let part = transform_walk(d.take(j), old, attrs, author, moved_insertions, moved, ts).4;
            part.len() <= full.len() && full.take(part.len() as int) == part
        }),
    decreases d.len(),
{
    let full = transform_walk(d, old, attrs, author, moved_insertions, moved, ts).4;
    if j == d.len() {
        assert(d.take(j) =~= d);
        assert(full.take(full.len() as int) =~= full);
    } else {
        let p = d.drop_last();
        assert(d.take(j) =~= p.take(j));
        lemma_walk_extends(p, old, attrs, author, moved_insertions, moved, ts, j);
        let wp = transform_walk(p, old, attrs, author, moved_insertions, moved, ts);
        lemma_step_extends(wp, d.last(), old, attrs, author, moved_insertions, moved, ts);
        let part = transform_walk(d.take(j), old, attrs, author, moved_insertions, moved, ts).4;
        assert(full.take(part.len() as int) =~= full.take(wp.4.len() as int).take(part.len() as int));
    }
}

/// The part of an attribution that a range overlaps is among the shifted
/// attributions.
proof fn lemma_shifted_has(attrs: Seq<AttrView>, a: int, b: int, base: int, i: int)
    requires
        0 <= i < attrs.len(),
        max_int(attrs[i].0 as int, a) < min_int(attrs[i].1 as int, b),
    ensures
        shifted(attrs, a, b, base, None).contains(
            (
                (base + (max_int(attrs[i].0 as int, a) - a)) as usize,
                (base + (min_int(attrs[i].1 as int, b) - a)) as usize,
                attrs[i].2,
                attrs[i].3,
            ),
        ),
    decreases attrs.len(),
{
    let r = shifted(attrs, a, b, base, None);
    let p = attrs.drop_last();
    if i == attrs.len() - 1 {
        assert(r[r.len() - 1] == r.last());
    } else {
        lemma_shifted_has(p, a, b, base, i);
        assert(p[i] == attrs[i]);
        let x = (
            (base + (max_int(attrs[i].0 as int, a) - a)) as usize,
            (base + (min_int(attrs[i].1 as int, b) - a)) as usize,
            attrs[i].2,
            attrs[i].3,
        );
        let q = shifted(p, a, b, base, None);
        let m = choose|m: int| 0 <= m < q.len() && q[m] == x;
        assert(r[m] == q[m]);
    }
}

/// Text a diff leaves equal keeps its authors: for an equal run that starts
/// at `op` in the old text and at `np` in the new one, the part of each old
/// attribution within the run is among the new attributions, moved by
/// `np - op`, with its author and timestamp, and there it covers the same
/// characters of the new text as it did of the old.
pub proof fn lemma_equal_run_keeps_authors(
    diffs: Seq<(DiffOp, Seq<char>)>,
    old: Seq<char>,
    attrs: Seq<AttrView>,
    author: Seq<char>,
    moved_insertions: Seq<bool>,
    moved: Seq<Seq<AttrView>>,
    ts: u128,
    k: int,
    i: int,
)
    requires
        runs_len(diffs) <= usize::MAX,
        0 <= k < diffs.len(),
        diffs[k].0 == DiffOp::Equal,
        0 <= i < attrs.len(),
        max_int(attrs[i].0 as int, old_side(diffs.take(k)).len() as int) < min_int(
            attrs[i].1 as int,
            (old_side(diffs.take(k)).len() + diffs[k].1.len()) as int,
        ),
    ensures
        ({
            let op = old_side(diffs.take(k)).len() as int;
            let np = new_side(diffs.take(k)).len() as int;
            let lo = max_int(attrs[i].0 as int, op);
            let hi = min_int(attrs[i].1 as int, (op + diffs[k].1.len()) as int);
            &&& 0 <= np + (lo - op) < np + (hi - op) <= new_side(diffs).len() <= usize::MAX
            &&& transform_spec(diffs, old, attrs, author, moved_insertions, moved, ts).contains(
                ((np + (lo - op)) as usize, (np + (hi - op)) as usize, attrs[i].2, attrs[i].3),
            )
            &&& new_side(diffs).subrange(np + (lo - op), np + (hi - op)) == old_side(diffs).subrange(lo, hi)
        }),
{
    let op = old_side(diffs.take(k)).len() as int;
    let np = new_side(diffs.take(k)).len() as int;
    let len = diffs[k].1.len() as int;
    lemma_new_side_len(diffs);
    lemma_side_positions(diffs, k);
    let lo = max_int(attrs[i].0 as int, op);
    let hi = min_int(attrs[i].1 as int, op + len);
    let t = diffs.take(k + 1);
    assert(t.drop_last() =~= diffs.take(k));
    assert(t.last() == diffs[k]);
    lemma_walk_positions(diffs.take(k), old, attrs, author, moved_insertions, moved, ts);
    let wk = transform_walk(diffs.take(k), old, attrs, author, moved_insertions, moved, ts);
    let wt = transform_walk(t, old, attrs, author, moved_insertions, moved, ts);
    let sh = shifted(attrs, op, op + len, np, None);
    assert(wt.4 == wk.4 + sh);
    lemma_shifted_has(attrs, op, op + len, np, i);
    let x = ((np + (lo - op)) as usize, (np + (hi - op)) as usize, attrs[i].2, attrs[i].3);
    let m = choose|m: int| 0 <= m < sh.len() && sh[m] == x;
    assert(wt.4[wk.4.len() + m] == x);
    lemma_walk_extends(diffs, old, attrs, author, moved_insertions, moved, ts, k + 1);
    let full = transform_spec(diffs, old, attrs, author, moved_insertions, moved, ts);
    assert(full.take(wt.4.len() as int)[wk.4.len() + m] == x);
    assert(full[wk.4.len() + m] == x);
    let rest = diffs.skip(k + 1);
    lemma_sides_one(diffs[k]);
    let os = old_side(diffs);
    let ns = new_side(diffs);
    assert(os =~= old_side(diffs.take(k)) + (diffs[k].1 + old_side(rest)));
    assert(ns =~= new_side(diffs.take(k)) + (diffs[k].1 + new_side(rest)));
    assert(ns.subrange(np + (lo - op), np + (hi - op)) =~= diffs[k].1.subrange(lo - op, hi - op));
    assert(os.subrange(lo, hi) =~= diffs[k].1.subrange(lo - op, hi - op));
}

/// New text goes to its editor: an inserted run of fewer than 100
/// characters that no move brought is, among the new attributions, one
/// attribution to `author` with the new timestamp, over the run's place in
/// the new text.
pub proof fn lemma_short_insert_goes_to_editor(
    diffs: Seq<(DiffOp, Seq<char>)>,
    old: Seq<char>,
    attrs: Seq<AttrView>,
    author: Seq<char>,
    moved_insertions: Seq<bool>,
    moved: Seq<Seq<AttrView>>,
    ts: u128,
    k: int,
)
    requires
        runs_len(diffs) <= usize::MAX,
        0 <= k < diffs.len(),
        diffs[k].0 == DiffOp::Insert,
        diffs[k].1.len() < 100,
        ({
            let n = diffs.take(k).filter(|d: (DiffOp, Seq<char>)| d.0 == DiffOp::Insert).len();
            !(n < moved_insertions.len() && moved_insertions[n as int])
        }),
    ensures
        ({
            let np = new_side(diffs.take(k)).len() as int;
            &&& np + diffs[k].1.len() <= new_side(diffs).len() <= usize::MAX
            &&& transform_spec(diffs, old, attrs, author, moved_insertions, moved, ts).contains(
                (np as usize, (np + diffs[k].1.len()) as usize, author, ts),
            )
            &&& new_side(diffs).subrange(np, np + diffs[k].1.len()) == diffs[k].1
        }),
{
    let np = new_side(diffs.take(k)).len() as int;
    let len = diffs[k].1.len() as int;
    lemma_new_side_len(diffs);
    lemma_side_positions(diffs, k);
    let t = diffs.take(k + 1);
    assert(t.drop_last() =~= diffs.take(k));
    assert(t.last() == diffs[k]);
    lemma_walk_positions(diffs.take(k), old, attrs, author, moved_insertions, moved, ts);
    lemma_walk_inserts(diffs.take(k), old, attrs, author, moved_insertions, moved, ts);
    let wk = transform_walk(diffs.take(k), old, attrs, author, moved_insertions, moved, ts);
    let wt = transform_walk(t, old, attrs, author, moved_insertions, moved, ts);
    let x = (np as usize, (np + len) as usize, author, ts);
    assert(insert_attrs(old, attrs, diffs[k].1, wk.0, np, author, ts) == seq![x]);
    assert(wt.4 == wk.4 + seq![x]);
    assert(wt.4[wk.4.len() as int] == x);
    lemma_walk_extends(diffs, old, attrs, author, moved_insertions, moved, ts, k + 1);
    let full = transform_spec(diffs, old, attrs, author, moved_insertions, moved, ts);
    assert(full.take(wt.4.len() as int)[wk.4.len() as int] == x);
    assert(full[wk.4.len() as int] == x);
    let rest = diffs.skip(k + 1);
    lemma_sides_one(diffs[k]);
    let ns = new_side(diffs);
    assert(ns =~= new_side(diffs.take(k)) + (diffs[k].1 + new_side(rest)));
    assert(ns.subrange(np, np + len) =~= diffs[k].1);
}

/// A run of a diff sits, on each side that holds it, after what the runs
/// before it spell.
proof fn lemma_side_positions(diffs: Seq<(DiffOp, Seq<char>)>, k: int)
    requires
        0 <= k < diffs.len(),
    ensures
        old_side(diffs) == old_side(diffs.take(k)) + (old_side(seq![diffs[k]]) + old_side(diffs.skip(k + 1))),
        new_side(diffs) == new_side(diffs.take(k)) + (new_side(seq![diffs[k]]) + new_side(diffs.skip(k + 1))),
{
    let rest = diffs.skip(k + 1);
    assert(diffs =~= diffs.take(k) + (seq![diffs[k]] + rest));
    lemma_sides_concat(diffs.take(k), seq![diffs[k]] + rest);
    lemma_sides_concat(seq![diffs[k]], rest);
}

/// Moved text follows its authors: for the `n`-th deleted run of the diff,
/// every attribution that its move carries (`moved[n]`) is among the new
/// attributions.
pub proof fn lemma_moved_run_keeps_authors(
    diffs: Seq<(DiffOp, Seq<char>)>,
    old: Seq<char>,
    attrs: Seq<AttrView>,
    author: Seq<char>,
    moved_insertions: Seq<bool>,
    moved: Seq<Seq<AttrView>>,
    ts: u128,
    k: int,
    j: int,
)
    requires
        0 <= k < diffs.len(),
        diffs[k].0 == DiffOp::Delete,
        ({
            let n = diffs.take(k).filter(|d: (DiffOp, Seq<char>)| d.0 == DiffOp::Delete).len();
            n < moved.len() && 0 <= j < moved[n as int].len()
        }),
    ensures
        transform_spec(diffs, old, attrs, author, moved_insertions, moved, ts).contains(
            moved[diffs.take(k).filter(|d: (DiffOp, Seq<char>)| d.0 == DiffOp::Delete).len() as int][j],
        ),
{
    let n = diffs.take(k).filter(|d: (DiffOp, Seq<char>)| d.0 == DiffOp::Delete).len() as int;
    let t = diffs.take(k + 1);
    assert(t.drop_last() =~= diffs.take(k));
    assert(t.last() == diffs[k]);
    lemma_walk_deletes(diffs.take(k), old, attrs, author, moved_insertions, moved, ts);
    let wk = transform_walk(diffs.take(k), old, attrs, author, moved_insertions, moved, ts);
    let wt = transform_walk(t, old, attrs, author, moved_insertions, moved, ts);
    assert(wt.4 == wk.4 + moved[n]);
    assert(wt.4[wk.4.len() + j] == moved[n][j]);
    lemma_walk_extends(diffs, old, attrs, author, moved_insertions, moved, ts, k + 1);
    let full = transform_spec(diffs, old, attrs, author, moved_insertions, moved, ts);
    assert(full.take(wt.4.len() as int)[wk.4.len() + j] == moved[n][j]);
    assert(full[wk.4.len() + j] == moved[n][j]);
}

/// The walk counts the deleted runs it passed.
proof fn lemma_walk_deletes(
    d: Seq<(DiffOp, Seq<char>)>,
    old: Seq<char>,
    attrs: Seq<AttrView>,
    author: Seq<char>,
    moved_insertions: Seq<bool>,
    moved: Seq<Seq<AttrView>>,
    ts: u128,
)
    ensures
        transform_walk(d, old, attrs, author, moved_insertions, moved, ts).2 == d.filter(
            |e: (DiffOp, Seq<char>)| e.0 == DiffOp::Delete,
        ).len(),
    decreases d.len(),
{
    reveal(Seq::filter);
    if d.len() > 0 {
        lemma_walk_deletes(d.drop_last(), old, attrs, author, moved_insertions, moved, ts);
    }
}

/// The walk counts the inserted runs it passed.
proof fn lemma_walk_inserts(
    d: Seq<(DiffOp, Seq<char>)>,
    old: Seq<char>,
    attrs: Seq<AttrView>,
    author: Seq<char>,
    moved_insertions: Seq<bool>,
    moved: Seq<Seq<AttrView>>,
    ts: u128,
)
    ensures
        transform_walk(d, old, attrs, author, moved_insertions, moved, ts).3 == d.filter(
            |e: (DiffOp, Seq<char>)| e.0 == DiffOp::Insert,
        ).len(),
    decreases d.len(),
{
    reveal(Seq::filter);
    if d.len() > 0 {
        lemma_walk_inserts(d.drop_last(), old, attrs, author, moved_insertions, moved, ts);
    }
}

} // verus!
