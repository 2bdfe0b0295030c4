//! Checkpoints: line numbers consolidated into working-log lines.
use vstd::prelude::*;
use crate::authorship_log::{
    expand_lines, expand_lines_exec, hex_digit_exec, hex_lower, sha256, sha256_digest, sort_dedup, sorted_set_of,
};
use crate::str_map::StrMap;
use crate::line_range::{LineRange, compress_spec, seq_has};
use crate::working_log::{AgentId, AiTranscript, Checkpoint, Line, WorkingLogEntry};

verus! {

/// The working-log line of a range.
pub open spec fn range_to_line(r: LineRange) -> Line {
    match r {
        LineRange::Single(l) => Line::Single(l),
        LineRange::Range(a, b) => Line::Range(a, b),
    }
}

/// The consolidation of line numbers: their distinct values in increasing
/// order, grouped in runs of consecutive numbers, a run of one being a
/// single line.
pub open spec fn consolidate_spec(lines: Seq<u32>) -> Seq<Line> {
    compress_spec(sorted_set_of(lines)).map_values(|r: LineRange| range_to_line(r))
}

/// Consolidates line numbers into runs of consecutive lines (see
/// `consolidate_spec`).
pub fn consolidate_lines(lines: Vec<u32>) -> (r: Vec<Line>)
    ensures
        r@ == consolidate_spec(lines@),
{
    let sorted = sort_dedup(&lines);
    assert(forall|i: int| 0 <= i < sorted@.len() - 1 ==> #[trigger] sorted@[i] < sorted@[i + 1]);
    let ranges = LineRange::compress_lines(sorted.as_slice());
    let mut r: Vec<Line> = Vec::new();
    let mut i: usize = 0;
    while i < ranges.len()
        invariant
            0 <= i <= ranges@.len(),
            r@ == ranges@.take(i as int).map_values(|x: LineRange| range_to_line(x)),
        decreases ranges@.len() - i,
    {
        let l = match ranges[i] {
            LineRange::Single(x) => Line::Single(x),
            LineRange::Range(a, b) => Line::Range(a, b),
        };
        r.push(l);
        assert(ranges@.take(i + 1).map_values(|x: LineRange| range_to_line(x)) =~= ranges@.take(
            i as int,
        ).map_values(|x: LineRange| range_to_line(x)).push(l));
        i = i + 1;
    }
    assert(ranges@.take(i as int) =~= ranges@);
    r
}

/// The views of per-file line ranges (such as a file's unstaged lines, or
/// the lines a commit added to it).
pub open spec fn file_ranges_view(u: Seq<(String, Vec<LineRange>)>) -> Seq<(Seq<char>, Seq<LineRange>)> {
    u.map_values(|x: (String, Vec<LineRange>)| (x.0@, x.1@))
}

/// The ranges of file `f`: those of its first mention.
pub open spec fn ranges_of_file(u: Seq<(Seq<char>, Seq<LineRange>)>, f: Seq<char>) -> Option<Seq<LineRange>>
    decreases u.len(),
{
    if u.len() == 0 {
        None
    } else if u[0].0 == f {
        Some(u[0].1)
    } else {
        ranges_of_file(u.drop_first(), f)
    }
}

/// The numbers of `ls` that one of the ranges `rs` holds, in order.
pub open spec fn kept_lines(ls: Seq<u32>, rs: Seq<LineRange>) -> Seq<u32>
    decreases ls.len(),
{
    if ls.len() == 0 {
        seq![]
    } else {
        let r = kept_lines(ls.drop_last(), rs);
        if seq_has(rs, ls.last() as int) {
            r.push(ls.last())
        } else {
            r
        }
    }
}

/// What a working-log entry is: its file, added lines and deleted lines.
pub open spec fn entry_view(e: WorkingLogEntry) -> (Seq<char>, Seq<Line>, Seq<Line>) {
    (e.file@, e.added_lines@, e.deleted_lines@)
}

/// The views of entries.
pub open spec fn entries_view(es: Seq<WorkingLogEntry>) -> Seq<(Seq<char>, Seq<Line>, Seq<Line>)> {
    es.map_values(|e: WorkingLogEntry| entry_view(e))
}

/// An entry carried to the next commit: for a file with unstaged lines, its
/// added lines that are still unstaged (consolidated) and no deleted lines;
/// any other entry as it is.
pub open spec fn carried_entry(
    e: (Seq<char>, Seq<Line>, Seq<Line>),
    u: Seq<(Seq<char>, Seq<LineRange>)>,
) -> (Seq<char>, Seq<Line>, Seq<Line>) {
    match ranges_of_file(u, e.0) {
        Some(rs) => (e.0, consolidate_spec(kept_lines(expand_lines(e.1), rs)), seq![]),
        None => e,
    }
}

/// The entries carried to the next commit, those left with added lines.
pub open spec fn carried_entries(
    es: Seq<(Seq<char>, Seq<Line>, Seq<Line>)>,
    u: Seq<(Seq<char>, Seq<LineRange>)>,
) -> Seq<(Seq<char>, Seq<Line>, Seq<Line>)>
    decreases es.len(),
{
    if es.len() == 0 {
        seq![]
    } else {
        let r = carried_entries(es.drop_last(), u);
        let c = carried_entry(es.last(), u);
        if c.1.len() > 0 {
            r.push(c)
        } else {
            r
        }
    }
}

/// The checkpoints carried to the next commit: the position of each that
/// keeps an entry, and its carried entries.
pub open spec fn carried_checkpoints(
    cs: Seq<Checkpoint>,
    u: Seq<(Seq<char>, Seq<LineRange>)>,
) -> Seq<(int, Seq<(Seq<char>, Seq<Line>, Seq<Line>)>)>
    decreases cs.len(),
{
    if cs.len() == 0 {
        seq![]
    } else {
        let r = carried_checkpoints(cs.drop_last(), u);
        let es = carried_entries(entries_view(cs.last().entries@), u);
        if es.len() > 0 {
            r.push((cs.len() - 1, es))
        } else {
            r
        }
    }
}

/// The unstaged ranges of file `f`.
pub(crate) fn ranges_of_file_exec<'a>(unstaged: &'a [(String, Vec<LineRange>)], f: &String) -> (r: Option<&'a Vec<LineRange>>)
    ensures
        match r {
            Some(v) => ranges_of_file(file_ranges_view(unstaged@), f@) == Some(v@),
            None => ranges_of_file(file_ranges_view(unstaged@), f@) is None,
        },
{
    let ghost uv = file_ranges_view(unstaged@);
    let mut i: usize = 0;
    assert(uv.skip(0) =~= uv);
    while i < unstaged.len()
        invariant
            0 <= i <= unstaged@.len(),
            uv == file_ranges_view(unstaged@),
            ranges_of_file(uv, f@) == ranges_of_file(uv.skip(i as int), f@),
        decreases unstaged@.len() - i,
    {
        assert(uv.skip(i as int).drop_first() =~= uv.skip(i + 1));
        assert(uv.skip(i as int)[0] == (unstaged@[i as int].0@, unstaged@[i as int].1@));
        if crate::str_map::str_eq(unstaged[i].0.as_str(), f.as_str()) {
            return Some(&unstaged[i].1);
        }
        i = i + 1;
    }
    None
}

/// The numbers of `ls` that one of the ranges holds (see `kept_lines`).
fn keep_lines(ls: &Vec<u32>, rs: &Vec<LineRange>) -> (r: Vec<u32>)
    ensures
        r@ == kept_lines(ls@, rs@),
{
    let mut r: Vec<u32> = Vec::new();
    let mut i: usize = 0;
    assert(ls@.take(0) =~= Seq::<u32>::empty());
    while i < ls.len()
        invariant
            0 <= i <= ls@.len(),
            r@ == kept_lines(ls@.take(i as int), rs@),
        decreases ls@.len() - i,
    {
        let x = ls[i];
        assert(ls@.take(i + 1).drop_last() =~= ls@.take(i as int));
        let mut found = false;
        let mut j: usize = 0;
        while j < rs.len()
            invariant
                0 <= j <= rs@.len(),
                found == exists|k: int| 0 <= k < j && crate::line_range::lr_has(#[trigger] rs@[k], x as int),
            decreases rs@.len() - j,
        {
            if rs[j].contains(x) {
                found = true;
            }
            j = j + 1;
        }
        if found {
            r.push(x);
        }
        i = i + 1;
    }
    assert(ls@.take(i as int) =~= ls@);
    r
}

/// Carries a commit's working log to the next commit: of each checkpoint,
/// the entries of files with unstaged lines keep only their added lines that
/// are still unstaged and lose their deleted lines; entries left without
/// added lines, and checkpoints left without entries, are dropped (see
/// `carried_checkpoints`). All else of a checkpoint is kept.
pub fn carry_unstaged_lines(checkpoints: Vec<Checkpoint>, unstaged: &[(String, Vec<LineRange>)]) -> (r: Vec<
    Checkpoint,
>)
    ensures
        r@.len() == carried_checkpoints(checkpoints@, file_ranges_view(unstaged@)).len(),
        forall|k: int|
            0 <= k < r@.len() ==> {
                let (src, es) = #[trigger] carried_checkpoints(checkpoints@, file_ranges_view(unstaged@))[k];
                &&& 0 <= src < checkpoints@.len()
                &&& entries_view(r@[k].entries@) == es
                &&& r@[k].snapshot == checkpoints@[src].snapshot
                &&& r@[k].diff == checkpoints@[src].diff
                &&& r@[k].author == checkpoints@[src].author
                &&& r@[k].timestamp == checkpoints@[src].timestamp
                &&& r@[k].transcript == checkpoints@[src].transcript
                &&& r@[k].agent_id == checkpoints@[src].agent_id
            },
{
    let ghost cs0 = checkpoints@;
    let ghost uv = file_ranges_view(unstaged@);
    let mut rest = checkpoints;
    let total = rest.len();
    let mut r: Vec<Checkpoint> = Vec::new();
    let mut n: usize = 0;
    assert(cs0.take(0) =~= Seq::<Checkpoint>::empty());
    while rest.len() > 0
        invariant
            rest@ == cs0.skip(n as int),
            0 <= n <= cs0.len(),
            cs0.len() == total,
            uv == file_ranges_view(unstaged@),
            r@.len() == carried_checkpoints(cs0.take(n as int), uv).len(),
            forall|k: int|
                0 <= k < r@.len() ==> {
                    let (src, es) = #[trigger] carried_checkpoints(cs0.take(n as int), uv)[k];
                    &&& 0 <= src < n
                    &&& entries_view(r@[k].entries@) == es
                    &&& r@[k].snapshot == cs0[src].snapshot
                    &&& r@[k].diff == cs0[src].diff
                    &&& r@[k].author == cs0[src].author
                    &&& r@[k].timestamp == cs0[src].timestamp
                    &&& r@[k].transcript == cs0[src].transcript
                    &&& r@[k].agent_id == cs0[src].agent_id
                },
        decreases rest@.len(),
    {
        let mut c = rest.remove(0);
        assert(c == cs0[n as int]);
        let ghost ev0 = entries_view(c.entries@);
        let mut es: Vec<WorkingLogEntry> = Vec::new();
        std::mem::swap(&mut es, &mut c.entries);
        let mut out: Vec<WorkingLogEntry> = Vec::new();
        let mut m: usize = 0;
        let ghost es0 = es@;
        let etotal = es.len();
        assert(ev0 == entries_view(es0));
        assert(ev0.take(0) =~= Seq::<(Seq<char>, Seq<Line>, Seq<Line>)>::empty());
        while es.len() > 0
            invariant
                es@ == es0.skip(m as int),
                0 <= m <= es0.len(),
                es0.len() == etotal,
                ev0 == entries_view(es0),
                uv == file_ranges_view(unstaged@),
                entries_view(out@) == carried_entries(ev0.take(m as int), uv),
            decreases es@.len(),
        {
            let e = es.remove(0);
            assert(e == es0[m as int]);
            let ghost t = ev0.take(m + 1);
            assert(t.drop_last() =~= ev0.take(m as int));
            assert(t.last() == entry_view(e));
            let carried = match ranges_of_file_exec(unstaged, &e.file) {
                Some(rs) => {
                    let all = expand_lines_exec(&e.added_lines);
                    let kept = keep_lines(&all, rs);
                    let added = consolidate_lines(kept);
                    WorkingLogEntry { file: e.file, added_lines: added, deleted_lines: Vec::new() }
                },
                None => e,
            };
            assert(entry_view(carried) == carried_entry(entry_view(es0[m as int]), uv));
            if carried.added_lines.len() > 0 {
                let ghost before = entries_view(out@);
                out.push(carried);
                assert(entries_view(out@) =~= before.push(entry_view(carried)));
            }
            assert(es@ =~= es0.skip(m + 1));
            m = m + 1;
        }
        assert(m == es0.len());
        assert(ev0.take(m as int) =~= ev0);
        let ghost t = cs0.take(n + 1);
        assert(t.drop_last() =~= cs0.take(n as int));
        assert(t.last() == cs0[n as int]);
        if out.len() > 0 {
            c.entries = out;
            r.push(c);
        }
        assert(rest@ =~= cs0.skip(n + 1));
        n = n + 1;
    }
    assert(cs0.take(n as int) =~= cs0);
    r
}

/// The bytes hashed for a snapshot: each file's path and then its content
/// hash, in UTF-8, file after file in path order.
pub open spec fn snapshot_input(es: Seq<(Seq<char>, String)>) -> Seq<u8>
    decreases es.len(),
{
    if es.len() == 0 {
        seq![]
    } else {
        snapshot_input(es.drop_last()) + vstd::utf8::encode_utf8(es.last().0) + vstd::utf8::encode_utf8(
            es.last().1@,
        )
    }
}

/// The hash that names a checkpoint's snapshot: the SHA-256 digest, in
/// lowercase hexadecimal, of the files' paths and content hashes in path
/// order (see `snapshot_input`).
pub fn combined_snapshot_hash(file_hashes: &StrMap<String>) -> (r: String)
    ensures
        r@ == hex_lower(sha256_digest(snapshot_input(file_hashes@))),
{
    let mut data: Vec<u8> = Vec::new();
    let mut i: usize = 0;
    let n = file_hashes.len();
    assert(file_hashes@.take(0) =~= Seq::<(Seq<char>, String)>::empty());
    while i < n
        invariant
            0 <= i <= n,
            n == file_hashes@.len(),
            data@ == snapshot_input(file_hashes@.take(i as int)),
        decreases n - i,
    {
        let k = file_hashes.key_at(i).as_str().as_bytes();
        let v = file_hashes.value_at(i).as_str().as_bytes();
        let ghost before = data@;
        let mut j: usize = 0;
        while j < k.len()
            invariant
                0 <= j <= k@.len(),
                data@ == before + k@.take(j as int),
            decreases k@.len() - j,
        {
            data.push(k[j]);
            j = j + 1;
            assert(data@ =~= before + k@.take(j as int));
        }
        let ghost mid = data@;
        let mut j2: usize = 0;
        while j2 < v.len()
            invariant
                0 <= j2 <= v@.len(),
                data@ == mid + v@.take(j2 as int),
            decreases v@.len() - j2,
        {
            data.push(v[j2]);
            j2 = j2 + 1;
            assert(data@ =~= mid + v@.take(j2 as int));
        }
        proof {
            assert(k@.take(j as int) =~= k@);
            assert(v@.take(j2 as int) =~= v@);
            let t = file_hashes@.take(i + 1);
            assert(t.drop_last() =~= file_hashes@.take(i as int));
            assert(t.last() == file_hashes@[i as int]);
            assert(data@ =~= snapshot_input(t));
        }
        i = i + 1;
    }
    assert(file_hashes@.take(i as int) =~= file_hashes@);
    let digest = sha256(data.as_slice());
    hex_string(&digest)
}

/// The bytes in lowercase hexadecimal, two digits each.
fn hex_string(digest: &Vec<u8>) -> (r: String)
    ensures
        r@ == hex_lower(digest@),
{
    let mut r = String::new();
    let mut q: usize = 0;
    while q < digest.len()
        invariant
            0 <= q <= digest@.len(),
            r@ == hex_lower(digest@.take(q as int)),
        decreases digest@.len() - q,
    {
        let b = digest[q];
        crate::text::push_char(&mut r, hex_digit_exec(b / 16));
        crate::text::push_char(&mut r, hex_digit_exec(b % 16));
        assert(digest@.take(q + 1).drop_last() =~= digest@.take(q as int));
        q = q + 1;
        assert(r@ =~= hex_lower(digest@.take(q as int)));
    }
    assert(digest@.take(q as int) =~= digest@);
    r
}

/// The hash that names a file's saved content: the SHA-256 digest of its
/// UTF-8 bytes, in lowercase hexadecimal.
pub fn content_hash(content: &str) -> (r: String)
    ensures
        r@ == hex_lower(sha256_digest(vstd::utf8::encode_utf8(content@))),
{
    let bytes = content.as_bytes();
    let digest = sha256(bytes);
    hex_string(&digest)
}

/// The checkpoints a new checkpoint is added to: none after a reset, else
/// those already recorded.
pub open spec fn checkpoint_base(prior: Seq<Checkpoint>, reset: bool) -> Seq<Checkpoint> {
    if reset {
        seq![]
    } else {
        prior
    }
}

/// The entries of a new checkpoint: the changes against the base commit for
/// the first checkpoint (or the first after a reset), else those against the
/// last recorded state.
pub open spec fn checkpoint_changes(
    base: Seq<Checkpoint>,
    vs_base: Seq<WorkingLogEntry>,
    vs_last: Seq<WorkingLogEntry>,
) -> Seq<WorkingLogEntry> {
    if base.len() == 0 {
        vs_base
    } else {
        vs_last
    }
}

/// Records a checkpoint: a reset empties the working log; the first
/// checkpoint (or the first after a reset) takes the changes against the
/// base commit, a later one those against the last recorded state; with no
/// changes nothing is recorded; otherwise a checkpoint of the snapshot, the
/// author and those changes, carrying the agent and its transcript when an
/// agent made the edit, is appended. Its timestamp is the clock's.
pub fn record_checkpoint(
    prior: Vec<Checkpoint>,
    reset: bool,
    entries_vs_base: Vec<WorkingLogEntry>,
    entries_vs_last: Vec<WorkingLogEntry>,
    snapshot: String,
    author: String,
    agent: Option<(AgentId, AiTranscript)>,
) -> (r: Vec<Checkpoint>)
    ensures
        ({
            let b = checkpoint_base(prior@, reset);
            let e = checkpoint_changes(b, entries_vs_base@, entries_vs_last@);
            if e.len() == 0 {
                r@ == b
            } else {
                &&& r@.len() == b.len() + 1
                &&& r@.drop_last() == b
                &&& r@.last().snapshot == snapshot
                &&& r@.last().author == author
                &&& r@.last().entries@ == e
                &&& r@.last().diff@.len() == 0
                &&& match agent {
                    Some((a, t)) => r@.last().agent_id == Some(a) && r@.last().transcript == Some(t),
                    None => r@.last().agent_id is None && r@.last().transcript is None,
                }
            }
        }),
{
    let mut r: Vec<Checkpoint> = if reset {
        Vec::new()
    } else {
        prior
    };
    let entries = if r.len() == 0 {
        entries_vs_base
    } else {
        entries_vs_last
    };
    if entries.len() == 0 {
        return r;
    }
    let mut c = Checkpoint::new(snapshot, String::new(), author, entries);
    match agent {
        Some((a, t)) => {
            c.transcript = Some(t);
            c.agent_id = Some(a);
        },
        None => {},
    }
    let ghost b = r@;
    r.push(c);
    assert(r@.drop_last() =~= b);
    r
}

} // verus!
