//! Commit statistics: lines added by people and by AI, and time spent
//! waiting for AI answers.
use vstd::prelude::*;
use crate::authorship_log::PromptRecord;
use crate::authorship_log_v3::{AttestationEntry, AuthorshipLogV3, FileAttestation};
use crate::line_range::LineRange;
use crate::str_map::{StrMap, lookup};
use crate::text::{
    chars_of, dec_spec, is_digit, push_char, push_dec_u64, lines_of, parse_u32, parse_u32_spec, seqs_view, split_char, split_chars,
    str_lines, trim_chars, trim_spec,
};
use crate::working_log::Message;

verus! {

/// The statistics of a commit.
#[derive(Debug, Clone)]
pub struct CommitStats {
    pub human_additions: u32,
    pub ai_additions: u32,
    pub ai_accepted: u32,
    /// Seconds.
    pub time_waiting_for_ai: u64,
    pub git_diff_deleted_lines: u32,
    pub git_diff_added_lines: u32,
}

/// The statistics of one file of a commit: added lines by author, deleted
/// lines, and all added lines.
pub struct FileStats {
    pub additions: StrMap<u32>,
    pub deletions: u32,
    pub total_additions: u32,
}

impl FileStats {
    /// A file with `deletions` deleted lines and no addition yet.
    pub fn new(deletions: u32) -> (r: Self)
        ensures
            r.additions.wf(),
            r.additions@.len() == 0,
            r.deletions == deletions,
            r.total_additions == 0,
    {
        FileStats { additions: StrMap::new(), deletions, total_additions: 0 }
    }

    /// Counts one added line by `author`.
    pub fn add_line(&mut self, author: &str)
        requires
            old(self).additions.wf(),
            old(self).total_additions < u32::MAX,
            match lookup(old(self).additions@, author@) {
                Some(n) => n < u32::MAX,
                None => true,
            },
        ensures
            final(self).additions.wf(),
            forall|k: Seq<char>|
                lookup(final(self).additions@, k) == if k == author@ {
                    Some(
                        (match lookup(old(self).additions@, author@) {
                            Some(n) => n + 1,
                            None => 1,
                        }) as u32,
                    )
                } else {
                    lookup(old(self).additions@, k)
                },
            final(self).deletions == old(self).deletions,
            final(self).total_additions == old(self).total_additions + 1,
    {
        let n: u32 = match self.additions.get(author) {
            Some(c) => *c + 1,
            None => 1,
        };
        self.additions.insert(author.to_owned(), n);
        self.total_additions = self.total_additions + 1;
    }
}

/// Why statistics could not be computed: a count that does not fit its
/// integer type, or a line range that ends before it starts.
#[derive(Debug, Clone, Copy, PartialEq, Eq, Structural)]
pub enum StatsError {
    ArithmeticOverflow,
}

/// The (added, deleted) counts one line of `git show --numstat` output adds:
/// lines that are blank or do not start with a digit count nothing; others
/// are `added<TAB>deleted<TAB>path`, a count that does not parse counting 0
/// (`-` for binary files).
pub open spec fn numstat_line(line: Seq<char>) -> (nat, nat) {
    if trim_spec(line).len() == 0 {
        (0, 0)
    } else if !(line.len() > 0 && is_digit(line[0])) {
        (0, 0)
    } else {
        let parts = split_char(line, '\t');
        if parts.len() >= 2 {
            let a: nat = match parse_u32_spec(parts[0]) {
                Some(x) => x as nat,
                None => 0,
            };
            let d: nat = if parts[1] == seq!['-'] {
                0
            } else {
                match parse_u32_spec(parts[1]) {
                    Some(x) => x as nat,
                    None => 0,
                }
            };
            (a, d)
        } else {
            (0, 0)
        }
    }
}

/// The (added, deleted) totals of numstat lines.
pub open spec fn numstat_totals(lines: Seq<Seq<char>>) -> (nat, nat)
    decreases lines.len(),
{
    if lines.len() == 0 {
        (0, 0)
    } else {
        let t = numstat_totals(lines.drop_last());
        let l = numstat_line(lines.last());
        (t.0 + l.0, t.1 + l.1)
    }
}

/// The (added, deleted) totals of `git show --numstat` output.
pub open spec fn numstat_spec(out: Seq<char>) -> (nat, nat) {
    numstat_totals(str_lines(out))
}

/// Totals of a prefix are no greater than the totals.
proof fn lemma_numstat_prefix(lines: Seq<Seq<char>>, k: int)
    requires
        0 <= k <= lines.len(),
    ensures
        numstat_totals(lines.take(k)).0 <= numstat_totals(lines).0,
        numstat_totals(lines.take(k)).1 <= numstat_totals(lines).1,
    decreases lines.len() - k,
{
    if k < lines.len() {
        lemma_numstat_prefix(lines, k + 1);
        assert(lines.take(k + 1).drop_last() =~= lines.take(k));
    } else {
        assert(lines.take(k) =~= lines);
    }
}

/// The counts one numstat line adds.
fn numstat_line_exec(line: &Vec<char>) -> (r: (u32, u32))
    ensures
        r.0 as nat == numstat_line(line@).0,
        r.1 as nat == numstat_line(line@).1,
{
    let t = trim_chars(line.as_slice());
    if t.len() == 0 {
        return (0, 0);
    }
    if !(line.len() > 0 && '0' <= line[0] && line[0] <= '9') {
        return (0, 0);
    }
    let parts = split_chars(line.as_slice(), '\t');
    let ghost ps = seqs_view(parts@);
    if parts.len() >= 2 {
        assert(ps[0] == parts@[0]@ && ps[1] == parts@[1]@);
        let a: u32 = match parse_u32(parts[0].as_slice()) {
            Some(x) => x,
            None => 0,
        };
        let dash = parts[1].len() == 1 && parts[1][0] == '-';
        assert(dash == (ps[1] == seq!['-'])) by {
            if parts[1]@.len() == 1 && parts[1]@[0] == '-' {
                assert(ps[1] =~= seq!['-']);
            }
        }
        let d: u32 = if dash {
            0
        } else {
            match parse_u32(parts[1].as_slice()) {
                Some(x) => x,
                None => 0,
            }
        };
        (a, d)
    } else {
        (0, 0)
    }
}

/// The (added, deleted) totals of `git show --numstat` output (see
/// `numstat_spec`), or `None` when a total does not fit in a `u32`.
pub fn parse_numstat(stdout: &str) -> (r: Option<(u32, u32)>)
    ensures
        match r {
            Some((a, d)) => a as nat == numstat_spec(stdout@).0 && d as nat == numstat_spec(stdout@).1,
            None => numstat_spec(stdout@).0 > u32::MAX || numstat_spec(stdout@).1 > u32::MAX,
        },
{
    let cs = chars_of(stdout);
    let lines = lines_of(cs.as_slice());
    let ghost ls = seqs_view(lines@);
    let mut added: u32 = 0;
    let mut deleted: u32 = 0;
    let mut i: usize = 0;
    while i < lines.len()
        invariant
            0 <= i <= lines@.len(),
            ls == seqs_view(lines@),
            ls == str_lines(stdout@),
            added as nat == numstat_totals(ls.take(i as int)).0,
            deleted as nat == numstat_totals(ls.take(i as int)).1,
        decreases lines@.len() - i,
    {
        let (a, d) = numstat_line_exec(&lines[i]);
        assert(ls.take(i + 1).drop_last() =~= ls.take(i as int));
        assert(ls.take(i + 1).last() == lines@[i as int]@);
        if a > u32::MAX - added || d > u32::MAX - deleted {
            proof {
                lemma_numstat_prefix(ls, i + 1);
            }
            return None;
        }
        added = added + a;
        deleted = deleted + d;
        i = i + 1;
    }
    assert(ls.take(i as int) =~= ls);
    Some((added, deleted))
}

/// The number of lines of a range.
pub open spec fn range_lines(r: LineRange) -> int {
    match r {
        LineRange::Single(_) => 1,
        LineRange::Range(s, e) => e - s + 1,
    }
}

/// The number of lines of ranges.
pub open spec fn ranges_lines(rs: Seq<LineRange>) -> int
    decreases rs.len(),
{
    if rs.len() == 0 {
        0
    } else {
        ranges_lines(rs.drop_last()) + range_lines(rs.last())
    }
}

/// No range ends before it starts.
pub open spec fn ranges_ordered(rs: Seq<LineRange>) -> bool {
    forall|i: int| 0 <= i < rs.len() ==> range_lines(#[trigger] rs[i]) >= 1
}

/// With ordered ranges, a prefix has no more lines than the whole.
proof fn lemma_ranges_lines_prefix(rs: Seq<LineRange>, k: int)
    requires
        ranges_ordered(rs),
        0 <= k <= rs.len(),
    ensures
        ranges_lines(rs.take(k)) <= ranges_lines(rs),
        ranges_lines(rs) >= 0,
    decreases rs.len() - k,
{
    if k < rs.len() {
        lemma_ranges_lines_prefix(rs, k + 1);
        assert(rs.take(k + 1).drop_last() =~= rs.take(k));
        assert(range_lines(rs[k]) >= 1);
    } else {
        assert(rs.take(k) =~= rs);
        lemma_ranges_lines_nonneg(rs);
    }
}

/// Ordered ranges have a non-negative number of lines.
proof fn lemma_ranges_lines_nonneg(rs: Seq<LineRange>)
    requires
        ranges_ordered(rs),
    ensures
        ranges_lines(rs) >= 0,
    decreases rs.len(),
{
    if rs.len() > 0 {
        assert(ranges_ordered(rs.drop_last())) by {
            assert forall|i: int| 0 <= i < rs.drop_last().len() implies range_lines(#[trigger] rs.drop_last()[i]) >= 1 by {
                assert(rs.drop_last()[i] == rs[i]);
            }
        }
        lemma_ranges_lines_nonneg(rs.drop_last());
        assert(range_lines(rs[rs.len() - 1]) >= 1);
    }
}

/// The number of lines of an entry's ranges, when its ranges are ordered
/// and the number fits in a `u32`.
fn entry_lines(rs: &Vec<LineRange>) -> (r: Option<u32>)
    ensures
        match r {
            Some(n) => ranges_ordered(rs@) && n as int == ranges_lines(rs@),
            None => !(ranges_ordered(rs@) && ranges_lines(rs@) <= u32::MAX),
        },
{
    let mut total: u32 = 0;
    let mut i: usize = 0;
    while i < rs.len()
        invariant
            0 <= i <= rs@.len(),
            ranges_ordered(rs@.take(i as int)),
            total as int == ranges_lines(rs@.take(i as int)),
        decreases rs@.len() - i,
    {
        assert(rs@.take(i + 1).drop_last() =~= rs@.take(i as int));
        let n: u32 = match rs[i] {
            LineRange::Single(_) => 1,
            LineRange::Range(s, e) => {
                if e < s {
                    assert(range_lines(rs@[i as int]) < 1);
                    return None;
                }
                if e - s == u32::MAX {
                    proof {
                        assert(ranges_ordered(rs@) ==> ranges_lines(rs@) > u32::MAX) by {
                            if ranges_ordered(rs@) {
                                lemma_ranges_lines_prefix(rs@, i + 1);
                                assert(ranges_ordered(rs@.take(i as int)));
                                lemma_ranges_lines_nonneg(rs@.take(i as int));
                            }
                        }
                    }
                    return None;
                }
                e - s + 1
            },
        };
        assert(n as int == range_lines(rs@[i as int]));
        if n > u32::MAX - total {
            proof {
                assert(ranges_ordered(rs@) ==> ranges_lines(rs@) > u32::MAX) by {
                    if ranges_ordered(rs@) {
                        lemma_ranges_lines_prefix(rs@, i + 1);
                    }
                }
            }
            return None;
        }
        total = total + n;
        i = i + 1;
        assert(ranges_ordered(rs@.take(i as int))) by {
            assert forall|q: int| 0 <= q < rs@.take(i as int).len() implies range_lines(#[trigger] rs@.take(i as int)[q]) >= 1 by {
                if q < i - 1 {
                    assert(rs@.take(i as int)[q] == rs@.take(i - 1)[q]);
                }
            }
        }
    }
    assert(rs@.take(i as int) =~= rs@);
    Some(total)
}

/// The whole seconds from the RFC 3339 time `from` to the RFC 3339 time
/// `to`, when both parse.
pub uninterp spec fn rfc3339_elapsed_seconds(from: Seq<char>, to: Seq<char>) -> Option<i64>;

/// Parses two RFC 3339 times with `chrono::DateTime::parse_from_rfc3339`
/// and returns the whole seconds of `to.signed_duration_since(from)`
/// (`TimeDelta::num_seconds`), or `None` when either does not parse.
///
/// Claims only that the result is a function of the two texts, given a name.
#[verifier::external_body]
fn elapsed_seconds_rfc3339(from: &str, to: &str) -> (r: Option<i64>)
    ensures
        r == rfc3339_elapsed_seconds(from@, to@),
{
    match (chrono::DateTime::parse_from_rfc3339(from), chrono::DateTime::parse_from_rfc3339(to)) {
        (Ok(a), Ok(b)) => Some(b.signed_duration_since(a).num_seconds()),
        _ => None,
    }
}

/// The seconds a user message waited for the answer that follows it: the
/// positive elapsed time between their timestamps, else 0.
pub open spec fn answer_wait(user_ts: Seq<char>, ai_ts: Seq<char>) -> nat {
    match rfc3339_elapsed_seconds(user_ts, ai_ts) {
        Some(d) => if d > 0 {
            d as nat
        } else {
            0
        },
        None => 0,
    }
}

/// The waiting time from message `i` on: a user message with a timestamp
/// directly answered by an assistant message with a timestamp adds its wait,
/// and the scan goes on after the answer; otherwise it goes on at the next
/// message.
pub open spec fn wait_from(m: Seq<Message>, i: int) -> nat
    decreases m.len() - i,
{
    if i < 0 || i >= m.len() - 1 {
        0
    } else {
        match (m[i], m[i + 1]) {
            (
                Message::User { timestamp: Some(u), .. },
                Message::Assistant { timestamp: Some(a), .. },
            ) => answer_wait(u@, a@) + wait_from(m, i + 2),
            _ => wait_from(m, i + 1),
        }
    }
}

/// The time spent waiting for AI in a transcript: nothing when it has at
/// most one message or ends with a user message.
pub open spec fn waiting_time_spec(m: Seq<Message>) -> nat {
    if m.len() <= 1 {
        0
    } else if m.last() is User {
        0
    } else {
        wait_from(m, 0)
    }
}

/// The time spent waiting for AI in a transcript (see `waiting_time_spec`),
/// or `None` when it does not fit in a `u64`.
pub fn calculate_waiting_time(messages: &Vec<Message>) -> (r: Option<u64>)
    ensures
        match r {
            Some(t) => t as nat == waiting_time_spec(messages@),
            None => waiting_time_spec(messages@) > u64::MAX,
        },
{
    let n = messages.len();
    if n <= 1 {
        return Some(0);
    }
    match &messages[n - 1] {
        Message::User { .. } => {
            return Some(0);
        },
        _ => {},
    }
    let mut total: u64 = 0;
    let mut i: usize = 0;
    while i < n - 1
        invariant
            n == messages@.len(),
            n >= 2,
            !(messages@.last() is User),
            0 <= i <= n,
            total as nat + wait_from(messages@, i as int) == wait_from(messages@, 0),
        decreases n - i,
    {
        let mut step: usize = 1;
        let mut w: u64 = 0;
        match (&messages[i], &messages[i + 1]) {
            (Message::User { timestamp: Some(u), .. }, Message::Assistant { timestamp: Some(a), .. }) => {
                match elapsed_seconds_rfc3339(u.as_str(), a.as_str()) {
                    Some(d) => {
                        if d > 0 {
                            w = d as u64;
                        }
                    },
                    None => {},
                }
                step = 2;
            },
            _ => {},
        }
        assert(wait_from(messages@, i as int) == w as nat + wait_from(messages@, i + step));
        if w > u64::MAX - total {
            assert(waiting_time_spec(messages@) == wait_from(messages@, 0));
            return None;
        }
        total = total + w;
        i = i + step;
    }
    assert(wait_from(messages@, i as int) == 0);
    Some(total)
}

/// Running totals: (human lines, AI lines, accepted AI lines, seconds
/// waiting for AI).
pub type Tally = (nat, nat, nat, nat);

/// An attestation entry counted: its lines are AI lines (all accepted) and
/// its prompt's waiting time counts when its hash names a known prompt,
/// human lines otherwise.
pub open spec fn entry_tally(t: Tally, e: AttestationEntry, prompts: Seq<(Seq<char>, PromptRecord)>) -> Tally {
    let n = ranges_lines(e.line_ranges@) as nat;
    match lookup(prompts, e.hash@) {
        Some(p) => (t.0, t.1 + n, t.2 + n, t.3 + waiting_time_spec(p.messages@)),
        None => (t.0 + n, t.1, t.2, t.3),
    }
}

/// Entries counted in order.
pub open spec fn entries_tally(t: Tally, es: Seq<AttestationEntry>, prompts: Seq<(Seq<char>, PromptRecord)>) -> Tally
    decreases es.len(),
{
    if es.len() == 0 {
        t
    } else {
        entry_tally(entries_tally(t, es.drop_last(), prompts), es.last(), prompts)
    }
}

/// Files counted in order.
pub open spec fn files_tally(t: Tally, fs: Seq<FileAttestation>, prompts: Seq<(Seq<char>, PromptRecord)>) -> Tally
    decreases fs.len(),
{
    if fs.len() == 0 {
        t
    } else {
        entries_tally(files_tally(t, fs.drop_last(), prompts), fs.last().entries@, prompts)
    }
}

/// Every entry's ranges are ordered with a line count that fits a `u32`.
pub open spec fn entries_countable(fs: Seq<FileAttestation>) -> bool {
    forall|i: int, j: int|
        0 <= i < fs.len() && 0 <= j < fs[i].entries@.len() ==> ranges_ordered(
            #[trigger] fs[i].entries@[j].line_ranges@,
        ) && ranges_lines(fs[i].entries@[j].line_ranges@) <= u32::MAX
}

/// The totals fit their integer types.
pub open spec fn tally_fits(t: Tally) -> bool {
    t.0 <= u32::MAX && t.1 <= u32::MAX && t.2 <= u32::MAX && t.3 <= u64::MAX
}

/// Later totals are no smaller.
pub open spec fn tally_le(a: Tally, b: Tally) -> bool {
    a.0 <= b.0 && a.1 <= b.1 && a.2 <= b.2 && a.3 <= b.3
}

/// Counting more entries never lowers a total.
proof fn lemma_entries_tally_mono(t: Tally, es: Seq<AttestationEntry>, prompts: Seq<(Seq<char>, PromptRecord)>, k: int)
    requires
        0 <= k <= es.len(),
        forall|j: int| 0 <= j < es.len() ==> ranges_ordered(#[trigger] es[j].line_ranges@),
    ensures
        tally_le(entries_tally(t, es.take(k), prompts), entries_tally(t, es, prompts)),
        tally_le(t, entries_tally(t, es.take(k), prompts)),
    decreases es.len() - k,
{
    if k < es.len() {
        lemma_entries_tally_mono(t, es, prompts, k + 1);
        assert(es.take(k + 1).drop_last() =~= es.take(k));
        assert(es.take(k + 1).last() == es[k]);
        lemma_ranges_lines_nonneg(es[k].line_ranges@);
    } else {
        assert(es.take(k) =~= es);
    }
    assert forall|j: int| 0 <= j < es.take(k).len() implies ranges_ordered(#[trigger] es.take(k)[j].line_ranges@) by {
        assert(es.take(k)[j] == es[j]);
    }
    lemma_entries_tally_base(t, es.take(k), prompts);
}

/// Counting entries never lowers a total.
proof fn lemma_entries_tally_base(t: Tally, es: Seq<AttestationEntry>, prompts: Seq<(Seq<char>, PromptRecord)>)
    requires
        forall|j: int| 0 <= j < es.len() ==> ranges_ordered(#[trigger] es[j].line_ranges@),
    ensures
        tally_le(t, entries_tally(t, es, prompts)),
    decreases es.len(),
{
    if es.len() > 0 {
        assert forall|j: int| 0 <= j < es.drop_last().len() implies ranges_ordered(#[trigger] es.drop_last()[j].line_ranges@) by {
            assert(es.drop_last()[j] == es[j]);
        }
        lemma_entries_tally_base(t, es.drop_last(), prompts);
        lemma_ranges_lines_nonneg(es[es.len() - 1].line_ranges@);
    }
}

/// Counting more files never lowers a total.
proof fn lemma_files_tally_mono(t: Tally, fs: Seq<FileAttestation>, prompts: Seq<(Seq<char>, PromptRecord)>, k: int)
    requires
        0 <= k <= fs.len(),
        entries_countable(fs),
    ensures
        tally_le(files_tally(t, fs.take(k), prompts), files_tally(t, fs, prompts)),
    decreases fs.len() - k,
{
    if k < fs.len() {
        lemma_files_tally_mono(t, fs, prompts, k + 1);
        assert(fs.take(k + 1).drop_last() =~= fs.take(k));
        assert(fs.take(k + 1).last() == fs[k]);
        assert forall|j: int| 0 <= j < fs[k].entries@.len() implies ranges_ordered(#[trigger] fs[k].entries@[j].line_ranges@) by {}
        lemma_entries_tally_base(files_tally(t, fs.take(k), prompts), fs[k].entries@, prompts);
    } else {
        assert(fs.take(k) =~= fs);
    }
}

/// The counts of an authorship log: (human lines, AI lines, accepted AI
/// lines, seconds waiting for AI); an error when a range ends before it
/// starts or a count does not fit its integer type.
pub fn analyze_authorship_log(log: &AuthorshipLogV3) -> (r: Result<(u32, u32, u32, u64), StatsError>)
    requires
        log.metadata.prompts.wf(),
    ensures
        match r {
            Ok((h, a, c, w)) => entries_countable(log.attestations@) && files_tally(
                (0, 0, 0, 0),
                log.attestations@,
                log.metadata.prompts@,
            ) == (h as nat, a as nat, c as nat, w as nat),
            Err(_) => !(entries_countable(log.attestations@) && tally_fits(
                files_tally((0, 0, 0, 0), log.attestations@, log.metadata.prompts@),
            )),
        },
{
    let ghost fs = log.attestations@;
    let ghost prompts = log.metadata.prompts@;
    let mut h: u32 = 0;
    let mut a: u32 = 0;
    let mut c: u32 = 0;
    let mut w: u64 = 0;
    let mut i: usize = 0;
    while i < log.attestations.len()
        invariant
            0 <= i <= fs.len(),
            fs == log.attestations@,
            prompts == log.metadata.prompts@,
            log.metadata.prompts.wf(),
            entries_countable(fs.take(i as int)),
            c == a,
            files_tally((0, 0, 0, 0), fs.take(i as int), prompts) == (h as nat, a as nat, c as nat, w as nat),
        decreases fs.len() - i,
    {
        let f = &log.attestations[i];
        assert(fs.take(i + 1).drop_last() =~= fs.take(i as int));
        assert(fs.take(i + 1).last() == *f);
        let ghost t0 = (h as nat, a as nat, c as nat, w as nat);
        let mut j: usize = 0;
        while j < f.entries.len()
            invariant
                0 <= j <= f.entries@.len(),
                i < fs.len(),
                fs == log.attestations@,
                *f == fs[i as int],
                prompts == log.metadata.prompts@,
                log.metadata.prompts.wf(),
                entries_countable(fs.take(i as int)),
                c == a,
                forall|q: int| 0 <= q < j ==> ranges_ordered(#[trigger] f.entries@[q].line_ranges@)
                    && ranges_lines(f.entries@[q].line_ranges@) <= u32::MAX,
                entries_tally(t0, f.entries@.take(j as int), prompts) == (h as nat, a as nat, c as nat, w as nat),
                t0 == files_tally((0, 0, 0, 0), fs.take(i as int), prompts),
            decreases f.entries@.len() - j,
        {
            let e = &f.entries[j];
            assert(f.entries@.take(j + 1).drop_last() =~= f.entries@.take(j as int));
            assert(f.entries@.take(j + 1).last() == *e);
            let n = match entry_lines(&e.line_ranges) {
                Some(n) => n,
                None => {
                    assert(!entries_countable(fs)) by {
                        assert(fs[i as int].entries@[j as int] == *e);
                    }
                    return Err(StatsError::ArithmeticOverflow);
                },
            };
            let ghost cur = (h as nat, a as nat, c as nat, w as nat);
            proof {
                crate::str_map::lemma_lookup(prompts, e.hash@);
            }
            match log.metadata.prompts.get(e.hash.as_str()) {
                Some(p) => {
                    let wt = calculate_waiting_time(&p.messages);
                    let overflow = match wt {
                        Some(x) => n > u32::MAX - a || x > u64::MAX - w,
                        None => true,
                    };
                    if overflow {
                        proof {
                            lemma_stats_overflow(log, i as int, j as int, cur);
                        }
                        return Err(StatsError::ArithmeticOverflow);
                    }
                    a = a + n;
                    c = c + n;
                    w = w + wt.unwrap();
                },
                None => {
                    if n > u32::MAX - h {
                        proof {
                            lemma_stats_overflow(log, i as int, j as int, cur);
                        }
                        return Err(StatsError::ArithmeticOverflow);
                    }
                    h = h + n;
                },
            }
            j = j + 1;
        }
        assert(f.entries@.take(j as int) =~= f.entries@);
        i = i + 1;
        assert(entries_countable(fs.take(i as int))) by {
            assert forall|x: int, y: int|
                0 <= x < fs.take(i as int).len() && 0 <= y < fs.take(i as int)[x].entries@.len() implies ranges_ordered(
                #[trigger] fs.take(i as int)[x].entries@[y].line_ranges@,
            ) && ranges_lines(fs.take(i as int)[x].entries@[y].line_ranges@) <= u32::MAX by {
                if x < i - 1 {
                    assert(fs.take(i as int)[x] == fs.take(i - 1)[x]);
                } else {
                    assert(fs.take(i as int)[x] == *f);
                }
            }
        }
    }
    assert(fs.take(i as int) =~= fs);
    Ok((h, a, c, w))
}

/// When counting entry `j` of file `i` overflows, the totals do not fit.
proof fn lemma_stats_overflow(log: &AuthorshipLogV3, i: int, j: int, cur: Tally)
    requires
        0 <= i < log.attestations@.len(),
        0 <= j < log.attestations@[i].entries@.len(),
        ranges_ordered(log.attestations@[i].entries@[j].line_ranges@),
        entries_tally(
            files_tally((0, 0, 0, 0), log.attestations@.take(i), log.metadata.prompts@),
            log.attestations@[i].entries@.take(j),
            log.metadata.prompts@,
        ) == cur,
        !tally_fits(
            entry_tally(cur, log.attestations@[i].entries@[j], log.metadata.prompts@),
        ),
    ensures
        !(entries_countable(log.attestations@) && tally_fits(
            files_tally((0, 0, 0, 0), log.attestations@, log.metadata.prompts@),
        )),
{
    let fs = log.attestations@;
    let ps = log.metadata.prompts@;
    if entries_countable(fs) {
        let es = fs[i].entries@;
        let t0 = files_tally((0, 0, 0, 0), fs.take(i), ps);
        assert forall|q: int| 0 <= q < es.len() implies ranges_ordered(#[trigger] es[q].line_ranges@) by {}
        lemma_entries_tally_mono(t0, es, ps, j + 1);
        assert(es.take(j + 1).drop_last() =~= es.take(j));
        assert(es.take(j + 1).last() == es[j]);
        lemma_files_tally_mono((0, 0, 0, 0), fs, ps, i + 1);
        assert(fs.take(i + 1).drop_last() =~= fs.take(i));
        assert(fs.take(i + 1).last() == fs[i]);
    }
}

/// The statistics of a commit from its `git show --numstat` output and its
/// authorship log: the diff's added and deleted lines; the log's AI lines
/// and waiting time; human lines as the added lines the AI did not write,
/// or the log's human lines when the AI wrote more than were added. An
/// error when a count does not fit its integer type.
pub fn stats_for_commit_stats(numstat_output: &str, authorship_log: &AuthorshipLogV3) -> (r: Result<
    CommitStats,
    StatsError,
>)
    requires
        authorship_log.metadata.prompts.wf(),
    ensures
        match r {
            Ok(s) => {
                let t = files_tally(
                    (0, 0, 0, 0),
                    authorship_log.attestations@,
                    authorship_log.metadata.prompts@,
                );
                &&& s.git_diff_added_lines as nat == numstat_spec(numstat_output@).0
                &&& s.git_diff_deleted_lines as nat == numstat_spec(numstat_output@).1
                &&& entries_countable(authorship_log.attestations@)
                &&& s.ai_additions as nat == t.1
                &&& s.ai_accepted as nat == t.2
                &&& s.time_waiting_for_ai as nat == t.3
                &&& s.human_additions as nat == if numstat_spec(numstat_output@).0 >= t.1 {
                    (numstat_spec(numstat_output@).0 - t.1) as nat
                } else {
                    t.0
                }
            },
            Err(_) => numstat_spec(numstat_output@).0 > u32::MAX || numstat_spec(numstat_output@).1
                > u32::MAX || !(entries_countable(authorship_log.attestations@) && tally_fits(
                files_tally((0, 0, 0, 0), authorship_log.attestations@, authorship_log.metadata.prompts@),
            )),
        },
{
    let (added, deleted) = match parse_numstat(numstat_output) {
        Some(x) => x,
        None => {
            return Err(StatsError::ArithmeticOverflow);
        },
    };
    let (h, a, c, w) = match analyze_authorship_log(authorship_log) {
        Ok(x) => x,
        Err(e) => {
            return Err(e);
        },
    };
    let human = if added >= a {
        added - a
    } else {
        h
    };
    Ok(
        CommitStats {
            human_additions: human,
            ai_additions: a,
            ai_accepted: c,
            time_waiting_for_ai: w,
            git_diff_deleted_lines: deleted,
            git_diff_added_lines: added,
        },
    )
}


/// The text of a waiting time of `secs` seconds: `<m>m <s>s` from a
/// minute on, `<s>s` below, `0s` for none.
pub open spec fn waiting_time_text(secs: u64) -> Seq<char> {
    if secs > 0 {
        let m = secs / 60;
        let s = secs % 60;
        if m > 0 {
            dec_spec(m as nat) + seq!['m', ' '] + dec_spec(s as nat) + seq!['s']
        } else {
            dec_spec(s as nat) + seq!['s']
        }
    } else {
        seq!['0', 's']
    }
}

/// The text of a waiting time (see `waiting_time_text`).
pub fn format_waiting_time(secs: u64) -> (r: String)
    ensures
        r@ == waiting_time_text(secs),
{
    let mut r = String::new();
    if secs > 0 {
        let m = secs / 60;
        let s = secs % 60;
        if m > 0 {
            push_dec_u64(&mut r, m);
            push_char(&mut r, 'm');
            push_char(&mut r, ' ');
        }
        push_dec_u64(&mut r, s);
        push_char(&mut r, 's');
    } else {
        push_char(&mut r, '0');
        push_char(&mut r, 's');
    }
    assert(r@ =~= waiting_time_text(secs));
    r
}

} // verus!
