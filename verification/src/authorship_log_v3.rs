//! The text form of an authorship log: for each file, its path and one
//! indented line per prompt with the line ranges it wrote; then a `---`
//! divider; then the metadata (authors and prompts) as JSON.
use vstd::prelude::*;
use crate::authorship_log::{AttributionEntry, Author, AuthorshipLog, PromptRecord};
use crate::line_range::{LineRange, lr_start};
use crate::str_map::{StrMap, views_of};
use crate::text::{
    chars_of, dec_spec, find_char, find_char_spec, lines_of, parse_u32, parse_u32_spec, push_char,
    push_chars, push_dec, push_str_chars, seqs_view, slice_chars, split_char, split_chars, str_lines,
    string_of, trim_end_len, trim_end_spec,
};

verus! {

/// The version of the text format.
pub const AUTHORSHIP_LOG_V3_VERSION: &'static str = "authorship/3.0.0";

/// The metadata below the divider: format version, base commit, authors and
/// prompt sessions.
pub struct AuthorshipMetadata {
    pub schema_version: String,
    pub base_commit_sha: String,
    pub authors: StrMap<Author>,
    pub prompts: StrMap<PromptRecord>,
}

impl AuthorshipMetadata {
    /// Empty metadata of the current format version.
    pub fn new() -> (r: Self)
        ensures
            r.schema_version@ == AUTHORSHIP_LOG_V3_VERSION@,
            r.base_commit_sha@.len() == 0,
            r.authors@.len() == 0,
            r.prompts@.len() == 0,
            r.authors.wf(),
            r.prompts.wf(),
    {
        AuthorshipMetadata {
            schema_version: AUTHORSHIP_LOG_V3_VERSION.to_owned(),
            base_commit_sha: String::new(),
            authors: StrMap::new(),
            prompts: StrMap::new(),
        }
    }
}

/// A prompt's hash (its session id) and the line ranges it wrote.
#[derive(Debug, Clone, PartialEq, Eq)]
pub struct AttestationEntry {
    pub hash: String,
    pub line_ranges: Vec<LineRange>,
}

impl View for AttestationEntry {
    type V = (Seq<char>, Seq<LineRange>);

    open spec fn view(&self) -> (Seq<char>, Seq<LineRange>) {
        (self.hash@, self.line_ranges@)
    }
}

impl AttestationEntry {
    pub fn new(hash: String, line_ranges: Vec<LineRange>) -> (r: Self)
        ensures
            r.hash == hash,
            r.line_ranges == line_ranges,
    {
        AttestationEntry { hash, line_ranges }
    }
}

/// The attestations of one file.
#[derive(Debug, Clone, PartialEq, Eq)]
pub struct FileAttestation {
    pub file_path: String,
    pub entries: Vec<AttestationEntry>,
}

/// The view of a file's attestations: its path and its entries' views.
pub type FileAttestationView = (Seq<char>, Seq<(Seq<char>, Seq<LineRange>)>);

/// The views of attestation entries.
pub open spec fn entries_views(es: Seq<AttestationEntry>) -> Seq<(Seq<char>, Seq<LineRange>)> {
    es.map_values(|e: AttestationEntry| e@)
}

impl View for FileAttestation {
    type V = FileAttestationView;

    open spec fn view(&self) -> FileAttestationView {
        (self.file_path@, entries_views(self.entries@))
    }
}

/// The views of files' attestations.
pub open spec fn files_views(fs: Seq<FileAttestation>) -> Seq<FileAttestationView> {
    fs.map_values(|f: FileAttestation| f@)
}

impl FileAttestation {
    /// A file with no attestation yet.
    pub fn new(file_path: String) -> (r: Self)
        ensures
            r.file_path == file_path,
            r.entries@.len() == 0,
    {
        FileAttestation { file_path, entries: Vec::new() }
    }

    /// Appends an entry.
    pub fn add_entry(&mut self, entry: AttestationEntry)
        ensures
            final(self).file_path == old(self).file_path,
            final(self).entries@ == old(self).entries@.push(entry),
    {
        self.entries.push(entry);
    }
}

/// An authorship log in the text format.
pub struct AuthorshipLogV3 {
    pub attestations: Vec<FileAttestation>,
    pub metadata: AuthorshipMetadata,
}

/// The attestations of a file's attribution entries: the entries that name a
/// prompt session, with the session id as hash (the others are human work).
pub open spec fn ai_entries(es: Seq<AttributionEntry>) -> Seq<(Seq<char>, Seq<LineRange>)>
    decreases es.len(),
{
    if es.len() == 0 {
        seq![]
    } else {
        let r = ai_entries(es.drop_last());
        match es.last().prompt_session_id {
            Some(sid) => r.push((sid@, es.last().lines@)),
            None => r,
        }
    }
}

/// The attestations of a log's files, in path order, without the files that
/// have none.
pub open spec fn attestations_of(files: Seq<(Seq<char>, Vec<AttributionEntry>)>) -> Seq<
    FileAttestationView,
>
    decreases files.len(),
{
    if files.len() == 0 {
        seq![]
    } else {
        let r = attestations_of(files.drop_last());
        let a = ai_entries(files.last().1@);
        if a.len() > 0 {
            r.push((files.last().0, a))
        } else {
            r
        }
    }
}

/// A file's attestation entries are its attribution entries that name a
/// prompt session, in order, each as the session id and its lines.
pub proof fn lemma_ai_entries_are_prompt_entries(es: Seq<AttributionEntry>)
    ensures
        ai_entries(es) == es.filter(|e: AttributionEntry| e.prompt_session_id is Some).map_values(
            |e: AttributionEntry| (e.prompt_session_id.unwrap()@, e.lines@),
        ),
    decreases es.len(),
{
    reveal(Seq::filter);
    let pred = |e: AttributionEntry| e.prompt_session_id is Some;
    let f = |e: AttributionEntry| (e.prompt_session_id.unwrap()@, e.lines@);
    if es.len() == 0 {
        assert(es.filter(pred).map_values(f) =~= Seq::<(Seq<char>, Seq<LineRange>)>::empty());
    } else {
        lemma_ai_entries_are_prompt_entries(es.drop_last());
        let sub = es.drop_last().filter(pred);
        if pred(es.last()) {
            assert(sub.push(es.last()).map_values(f) =~= sub.map_values(f).push(f(es.last())));
        }
    }
}

/// The attestations of a log are, in path order, the files that have an
/// entry naming a prompt session, each with exactly those entries (session
/// id as hash, same lines); every such file is there and no other.
pub proof fn lemma_attestations_are_prompt_files(files: Seq<(Seq<char>, Vec<AttributionEntry>)>)
    ensures
        attestations_of(files) == files.filter(
            |x: (Seq<char>, Vec<AttributionEntry>)|
                x.1@.filter(|e: AttributionEntry| e.prompt_session_id is Some).len() > 0,
        ).map_values(
            |x: (Seq<char>, Vec<AttributionEntry>)|
                (
                    x.0,
                    x.1@.filter(|e: AttributionEntry| e.prompt_session_id is Some).map_values(
                        |e: AttributionEntry| (e.prompt_session_id.unwrap()@, e.lines@),
                    ),
                ),
        ),
    decreases files.len(),
{
    reveal(Seq::filter);
    let pred = |x: (Seq<char>, Vec<AttributionEntry>)|
        x.1@.filter(|e: AttributionEntry| e.prompt_session_id is Some).len() > 0;
    let f = |x: (Seq<char>, Vec<AttributionEntry>)|
        (
            x.0,
            x.1@.filter(|e: AttributionEntry| e.prompt_session_id is Some).map_values(
                |e: AttributionEntry| (e.prompt_session_id.unwrap()@, e.lines@),
            ),
        );
    if files.len() == 0 {
        assert(files.filter(pred).map_values(f) =~= Seq::<FileAttestationView>::empty());
    } else {
        lemma_attestations_are_prompt_files(files.drop_last());
        lemma_ai_entries_are_prompt_entries(files.last().1@);
        let sub = files.drop_last().filter(pred);
        if pred(files.last()) {
            assert(sub.push(files.last()).map_values(f) =~= sub.map_values(f).push(f(files.last())));
        }
    }
}

impl AuthorshipLogV3 {
    /// An empty log with empty metadata.
    pub fn new() -> (r: Self)
        ensures
            r.attestations@.len() == 0,
            r.metadata.schema_version@ == AUTHORSHIP_LOG_V3_VERSION@,
            r.metadata.base_commit_sha@.len() == 0,
            r.metadata.authors@.len() == 0,
            r.metadata.prompts@.len() == 0,
            r.metadata.authors.wf(),
            r.metadata.prompts.wf(),
    {
        AuthorshipLogV3 { attestations: Vec::new(), metadata: AuthorshipMetadata::new() }
    }

    /// Converts a log: its base commit, authors and prompts become the
    /// metadata, and for each file the entries made by a prompt become
    /// attestations (hash = session id); files left without any are omitted.
    pub fn from_authorship_log(log: &AuthorshipLog) -> (r: Self)
        ensures
            files_views(r.attestations@) == attestations_of(log.files@),
            files_views(r.attestations@) == log.files@.filter(
                |x: (Seq<char>, Vec<AttributionEntry>)|
                    x.1@.filter(|e: AttributionEntry| e.prompt_session_id is Some).len() > 0,
            ).map_values(
                |x: (Seq<char>, Vec<AttributionEntry>)|
                    (
                        x.0,
                        x.1@.filter(|e: AttributionEntry| e.prompt_session_id is Some).map_values(
                            |e: AttributionEntry| (e.prompt_session_id.unwrap()@, e.lines@),
                        ),
                    ),
            ),
            r.metadata.schema_version@ == AUTHORSHIP_LOG_V3_VERSION@,
            r.metadata.base_commit_sha@ == log.base_commit_sha@,
            views_of(r.metadata.authors@) == views_of(log.authors@),
            views_of(r.metadata.prompts@) == views_of(log.prompts@),
            log.authors.wf() ==> r.metadata.authors.wf(),
            log.prompts.wf() ==> r.metadata.prompts.wf(),
    {
        let mut v3 = AuthorshipLogV3::new();
        v3.metadata.base_commit_sha = log.base_commit_sha.clone();
        v3.metadata.authors = log.authors.copy();
        v3.metadata.prompts = log.prompts.copy();
        let n = log.files.len();
        let mut i: usize = 0;
        while i < n
            invariant
                0 <= i <= n,
                n == log.files@.len(),
                files_views(v3.attestations@) == attestations_of(log.files@.take(i as int)),
                v3.metadata.schema_version@ == AUTHORSHIP_LOG_V3_VERSION@,
                v3.metadata.base_commit_sha@ == log.base_commit_sha@,
                views_of(v3.metadata.authors@) == views_of(log.authors@),
                views_of(v3.metadata.prompts@) == views_of(log.prompts@),
                log.authors.wf() ==> v3.metadata.authors.wf(),
                log.prompts.wf() ==> v3.metadata.prompts.wf(),
            decreases n - i,
        {
            let path = log.files.key_at(i);
            let attributions = log.files.value_at(i);
            let mut fa = FileAttestation::new(path.clone());
            let mut j: usize = 0;
            while j < attributions.len()
                invariant
                    0 <= j <= attributions@.len(),
                    fa.file_path@ == path@,
                    entries_views(fa.entries@) == ai_entries(attributions@.take(j as int)),
                decreases attributions@.len() - j,
            {
                let a = &attributions[j];
                assert(attributions@.take(j + 1).drop_last() =~= attributions@.take(j as int));
                match &a.prompt_session_id {
                    Some(sid) => {
                        let ghost before = entries_views(fa.entries@);
                        let entry = AttestationEntry::new(sid.clone(), a.lines.clone());
                        fa.add_entry(entry);
                        assert(entries_views(fa.entries@) =~= before.push(entry@));
                    },
                    None => {},
                }
                j = j + 1;
            }
            assert(attributions@.take(j as int) =~= attributions@);
            assert(log.files@.take(i + 1).drop_last() =~= log.files@.take(i as int));
            assert(log.files@.take(i + 1).last() == log.files@[i as int]);
            if fa.entries.len() > 0 {
                let ghost before = files_views(v3.attestations@);
                v3.attestations.push(fa);
                assert(files_views(v3.attestations@) =~= before.push(fa@));
            }
            i = i + 1;
        }
        assert(log.files@.take(i as int) =~= log.files@);
        proof {
            lemma_attestations_are_prompt_files(log.files@);
        }
        v3
    }
}

/// Inserts `x` into `t` after every range that starts no later than it.
pub open spec fn insert_by_start(t: Seq<LineRange>, x: LineRange) -> Seq<LineRange>
    decreases t.len(),
{
    if t.len() == 0 {
        seq![x]
    } else if lr_start(t.last()) <= lr_start(x) {
        t.push(x)
    } else {
        insert_by_start(t.drop_last(), x).push(t.last())
    }
}

/// `s` sorted by first line, ranges with the same first line keeping their
/// order (a stable sort).
pub open spec fn sort_by_start_spec(s: Seq<LineRange>) -> Seq<LineRange>
    decreases s.len(),
{
    if s.len() == 0 {
        seq![]
    } else {
        insert_by_start(sort_by_start_spec(s.drop_last()), s.last())
    }
}

/// Inserting at a position found by scanning back past the ranges that
/// start later is `insert_by_start`.
proof fn lemma_insert_by_start(t: Seq<LineRange>, x: LineRange, j: int)
    requires
        0 <= j <= t.len(),
        forall|k: int| j <= k < t.len() ==> lr_start(#[trigger] t[k]) > lr_start(x),
        j > 0 ==> lr_start(t[j - 1]) <= lr_start(x),
    ensures
        insert_by_start(t, x) == t.insert(j, x),
    decreases t.len(),
{
    if t.len() == 0 {
        assert(t.insert(j, x) =~= seq![x]);
    } else if j == t.len() {
        assert(t.insert(j, x) =~= t.push(x));
    } else {
        assert(lr_start(t[t.len() - 1]) > lr_start(x));
        lemma_insert_by_start(t.drop_last(), x, j);
        assert(t.insert(j, x) =~= t.drop_last().insert(j, x).push(t.last()));
    }
}

/// The first line of a range.
fn start_of(r: &LineRange) -> (s: u32)
    ensures
        s == lr_start(*r),
{
    match r {
        LineRange::Single(l) => *l,
        LineRange::Range(a, _) => *a,
    }
}

/// Sorts ranges by first line, stably.
fn sort_ranges_by_start(rs: &[LineRange]) -> (r: Vec<LineRange>)
    ensures
        r@ == sort_by_start_spec(rs@),
{
    let mut r: Vec<LineRange> = Vec::new();
    let mut i: usize = 0;
    while i < rs.len()
        invariant
            0 <= i <= rs@.len(),
            r@ == sort_by_start_spec(rs@.take(i as int)),
        decreases rs@.len() - i,
    {
        let x = rs[i];
        let sx = start_of(&x);
        let mut j: usize = r.len();
        while j > 0 && start_of(&r[j - 1]) > sx
            invariant
                0 <= j <= r@.len(),
                sx == lr_start(x),
                forall|k: int| j <= k < r@.len() ==> lr_start(#[trigger] r@[k]) > lr_start(x),
            decreases j,
        {
            j = j - 1;
        }
        proof {
            lemma_insert_by_start(r@, x, j as int);
            assert(rs@.take(i + 1).drop_last() =~= rs@.take(i as int));
        }
        r.insert(j, x);
        i = i + 1;
    }
    assert(rs@.take(i as int) =~= rs@);
    r
}

/// The text of a range: `l` for a single line, `start-end` for a range.
pub open spec fn range_text(r: LineRange) -> Seq<char> {
    match r {
        LineRange::Single(l) => dec_spec(l as nat),
        LineRange::Range(a, b) => dec_spec(a as nat) + seq!['-'] + dec_spec(b as nat),
    }
}

/// The texts of ranges joined by commas.
pub open spec fn join_ranges(rs: Seq<LineRange>) -> Seq<char>
    decreases rs.len(),
{
    if rs.len() == 0 {
        seq![]
    } else if rs.len() == 1 {
        range_text(rs[0])
    } else {
        join_ranges(rs.drop_last()) + seq![','] + range_text(rs.last())
    }
}

/// The text of line ranges: sorted by first line, comma separated, a
/// range written `start-end`.
pub open spec fn format_line_ranges_spec(rs: Seq<LineRange>) -> Seq<char> {
    join_ranges(sort_by_start_spec(rs))
}

/// Appends the text of a range.
fn push_range(s: &mut String, r: &LineRange)
    ensures
        final(s)@ == old(s)@ + range_text(*r),
{
    match r {
        LineRange::Single(l) => push_dec(s, *l),
        LineRange::Range(a, b) => {
            push_dec(s, *a);
            push_char(s, '-');
            push_dec(s, *b);
        },
    }
    assert(s@ =~= old(s)@ + range_text(*r));
}

/// Formats line ranges (see `format_line_ranges_spec`), e.g. `1,2,19-222`.
pub fn format_line_ranges(ranges: &[LineRange]) -> (r: String)
    ensures
        r@ == format_line_ranges_spec(ranges@),
{
    let sorted = sort_ranges_by_start(ranges);
    let mut r = String::new();
    let mut i: usize = 0;
    assert(sorted@.take(0) =~= Seq::<LineRange>::empty());
    while i < sorted.len()
        invariant
            0 <= i <= sorted@.len(),
            r@ == join_ranges(sorted@.take(i as int)),
        decreases sorted@.len() - i,
    {
        assert(sorted@.take(i + 1).drop_last() =~= sorted@.take(i as int));
        if i > 0 {
            push_char(&mut r, ',');
        }
        push_range(&mut r, &sorted[i]);
        i = i + 1;
        proof {
            if i == 1 {
                assert(sorted@.take(1)[0] == sorted@[0]);
            }
            assert(r@ =~= join_ranges(sorted@.take(i as int)));
        }
    }
    assert(sorted@.take(i as int) =~= sorted@);
    r
}


/// The line of an attestation entry: two spaces, the hash, a space, the
/// ranges, a newline.
pub open spec fn entry_text(e: (Seq<char>, Seq<LineRange>)) -> Seq<char> {
    seq![' ', ' '] + e.0 + seq![' '] + format_line_ranges_spec(e.1) + seq!['\n']
}

/// The lines of attestation entries.
pub open spec fn entries_text(es: Seq<(Seq<char>, Seq<LineRange>)>) -> Seq<char>
    decreases es.len(),
{
    if es.len() == 0 {
        seq![]
    } else {
        entries_text(es.drop_last()) + entry_text(es.last())
    }
}

/// A file's path on its own line, then its entries.
pub open spec fn file_text(f: FileAttestationView) -> Seq<char> {
    f.0 + seq!['\n'] + entries_text(f.1)
}

/// The attestation section: each file in turn.
pub open spec fn section_text(fs: Seq<FileAttestationView>) -> Seq<char>
    decreases fs.len(),
{
    if fs.len() == 0 {
        seq![]
    } else {
        section_text(fs.drop_last()) + file_text(fs.last())
    }
}

/// The whole text: attestation section, divider line, metadata JSON.
pub open spec fn serialize_spec(fs: Seq<FileAttestationView>, metadata_json: Seq<char>) -> Seq<char> {
    section_text(fs) + seq!['-', '-', '-', '\n'] + metadata_json
}

/// Appends the attestation section.
fn push_section(s: &mut String, fs: &Vec<FileAttestation>)
    ensures
        final(s)@ == old(s)@ + section_text(files_views(fs@)),
{
    let ghost fv = files_views(fs@);
    let mut i: usize = 0;
    assert(fv.take(0) =~= Seq::<FileAttestationView>::empty());
    while i < fs.len()
        invariant
            0 <= i <= fs@.len(),
            fv == files_views(fs@),
            s@ == old(s)@ + section_text(fv.take(i as int)),
        decreases fs@.len() - i,
    {
        let f = &fs[i];
        let ghost before = s@;
        push_str_chars(s, f.file_path.as_str());
        push_char(s, '\n');
        let ghost ev = entries_views(f.entries@);
        let mut j: usize = 0;
        assert(ev.take(0) =~= Seq::<(Seq<char>, Seq<LineRange>)>::empty());
        assert(s@ =~= before + f.file_path@ + seq!['\n'] + entries_text(ev.take(0)));
        while j < f.entries.len()
            invariant
                0 <= j <= f.entries@.len(),
                ev == entries_views(f.entries@),
                s@ == before + f.file_path@ + seq!['\n'] + entries_text(ev.take(j as int)),
            decreases f.entries@.len() - j,
        {
            let e = &f.entries[j];
            let ghost b2 = s@;
            push_char(s, ' ');
            push_char(s, ' ');
            push_str_chars(s, e.hash.as_str());
            push_char(s, ' ');
            let t = format_line_ranges(e.line_ranges.as_slice());
            push_str_chars(s, t.as_str());
            push_char(s, '\n');
            assert(s@ =~= b2 + entry_text(e@));
            assert(ev.take(j + 1).drop_last() =~= ev.take(j as int));
            assert(ev.take(j + 1).last() == e@);
            j = j + 1;
            assert(s@ =~= before + f.file_path@ + seq!['\n'] + entries_text(ev.take(j as int)));
        }
        assert(ev.take(j as int) =~= ev);
        assert(fv.take(i + 1).drop_last() =~= fv.take(i as int));
        assert(fv.take(i + 1).last() == f@);
        i = i + 1;
        assert(s@ =~= old(s)@ + section_text(fv.take(i as int)));
    }
    assert(fv.take(i as int) =~= fv);
}

impl AuthorshipLogV3 {
    /// The text of the log with metadata JSON `metadata_json`: the
    /// attestation section, a `---` line, then the JSON.
    pub fn serialize_to_string(&self, metadata_json: &str) -> (r: String)
        ensures
            r@ == serialize_spec(files_views(self.attestations@), metadata_json@),
    {
        let mut r = String::new();
        self.serialize_to_writer(metadata_json, &mut r);
        r
    }

    /// Writes the text of the log with metadata JSON `metadata_json` to
    /// `writer` (see `serialize_to_string`).
    pub fn serialize_to_writer(&self, metadata_json: &str, writer: &mut String)
        ensures
            final(writer)@ == old(writer)@ + serialize_spec(files_views(self.attestations@), metadata_json@),
    {
        push_section(writer, &self.attestations);
        push_char(writer, '-');
        push_char(writer, '-');
        push_char(writer, '-');
        push_char(writer, '\n');
        push_str_chars(writer, metadata_json);
        assert(writer@ =~= old(writer)@ + serialize_spec(files_views(self.attestations@), metadata_json@));
    }
}

/// Why a text in the authorship-log format could not be read.
#[derive(Debug, Clone, PartialEq, Eq)]
pub enum LogParseError {
    /// A line number that is not a `u32`.
    InvalidNumber,
    /// An indented entry line before any file path.
    EntryWithoutFile,
    /// An indented entry line with no space after its hash (the line without
    /// its indentation).
    InvalidEntry(String),
    /// No `---` divider line.
    MissingDivider,
}

impl View for LogParseError {
    /// The kind (0 invalid number, 1 entry without file, 2 invalid entry,
    /// 3 missing divider) and the entry text of an invalid entry.
    type V = (nat, Seq<char>);

    open spec fn view(&self) -> (nat, Seq<char>) {
        match self {
            LogParseError::InvalidNumber => (0nat, seq![]),
            LogParseError::EntryWithoutFile => (1nat, seq![]),
            LogParseError::InvalidEntry(t) => (2nat, t@),
            LogParseError::MissingDivider => (3nat, seq![]),
        }
    }
}

/// The range a comma-separated piece denotes: `start-end` (split at the
/// first `-`) or a single line.
pub open spec fn parse_range_spec(p: Seq<char>) -> Option<LineRange> {
    match find_char_spec(p, '-') {
        Some(d) => match (parse_u32_spec(p.take(d)), parse_u32_spec(p.skip(d + 1))) {
            (Some(a), Some(b)) => Some(LineRange::Range(a, b)),
            _ => None,
        },
        None => match parse_u32_spec(p) {
            Some(l) => Some(LineRange::Single(l)),
            None => None,
        },
    }
}

/// The ranges of comma-separated pieces, empty pieces skipped; `None` when
/// a piece is not a range.
pub open spec fn parse_pieces(ps: Seq<Seq<char>>) -> Option<Seq<LineRange>>
    decreases ps.len(),
{
    if ps.len() == 0 {
        Some(seq![])
    } else {
        match parse_pieces(ps.drop_last()) {
            None => None,
            Some(r) => if ps.last().len() == 0 {
                Some(r)
            } else {
                match parse_range_spec(ps.last()) {
                    Some(x) => Some(r.push(x)),
                    None => None,
                }
            },
        }
    }
}

/// The ranges of a text like `1,2,19-222`.
pub open spec fn parse_line_ranges_spec(s: Seq<char>) -> Option<Seq<LineRange>> {
    parse_pieces(split_char(s, ','))
}

/// The range a piece denotes.
fn parse_range(p: &[char]) -> (r: Option<LineRange>)
    ensures
        r == parse_range_spec(p@),
{
    let found = find_char(p, '-');
    match found {
        Some(d) => {
            let n = p.len();
            let a = slice_chars(p, 0, d);
            let b = slice_chars(p, d + 1, n);
            assert(a@ =~= p@.take(d as int));
            assert(b@ =~= p@.skip(d + 1));
            match (parse_u32(a.as_slice()), parse_u32(b.as_slice())) {
                (Some(x), Some(y)) => Some(LineRange::Range(x, y)),
                _ => None,
            }
        },
        None => match parse_u32(p) {
            Some(l) => Some(LineRange::Single(l)),
            None => None,
        },
    }
}

/// Parses line ranges from their text (see `parse_line_ranges_spec`).
fn parse_line_ranges_chars(s: &[char]) -> (r: Result<Vec<LineRange>, LogParseError>)
    ensures
        match r {
            Ok(v) => parse_line_ranges_spec(s@) == Some(v@),
            Err(e) => parse_line_ranges_spec(s@) is None && e == LogParseError::InvalidNumber,
        },
{
    let pieces = split_chars(s, ',');
    let ghost ps = seqs_view(pieces@);
    let mut r: Vec<LineRange> = Vec::new();
    let mut i: usize = 0;
    while i < pieces.len()
        invariant
            0 <= i <= pieces@.len(),
            ps == seqs_view(pieces@),
            ps == split_char(s@, ','),
            parse_pieces(ps.take(i as int)) == Some(r@),
        decreases pieces@.len() - i,
    {
        assert(ps.take(i + 1).drop_last() =~= ps.take(i as int));
        assert(ps[i as int] == pieces@[i as int]@);
        let p = &pieces[i];
        if p.len() > 0 {
            match parse_range(p.as_slice()) {
                Some(x) => r.push(x),
                None => {
                    proof {
                        lemma_parse_pieces_none(ps, i as int + 1);
                    }
                    return Err(LogParseError::InvalidNumber);
                },
            }
        }
        i = i + 1;
    }
    assert(ps.take(i as int) =~= ps);
    Ok(r)
}

/// A failure in a prefix is a failure of the whole.
proof fn lemma_parse_pieces_none(ps: Seq<Seq<char>>, n: int)
    requires
        0 <= n <= ps.len(),
        parse_pieces(ps.take(n)) is None,
    ensures
        parse_pieces(ps) is None,
    decreases ps.len() - n,
{
    if n < ps.len() {
        assert(ps.take(n + 1).drop_last() =~= ps.take(n));
        lemma_parse_pieces_none(ps, n + 1);
    } else {
        assert(ps.take(n) =~= ps);
    }
}

/// Parses line ranges from a text like `1,2,19-222` (no spaces): comma
/// separated, empty pieces skipped, `start-end` for a range.
pub fn parse_line_ranges(input: &str) -> (r: Result<Vec<LineRange>, LogParseError>)
    ensures
        match r {
            Ok(v) => parse_line_ranges_spec(input@) == Some(v@),
            Err(e) => parse_line_ranges_spec(input@) is None && e == LogParseError::InvalidNumber,
        },
{
    let cs = chars_of(input);
    parse_line_ranges_chars(cs.as_slice())
}


/// The state of reading the attestation section: the files read, and the
/// file being read.
pub type SectionState = (Seq<FileAttestationView>, Option<FileAttestationView>);

/// The files read, with the current one added when it has entries.
pub open spec fn flush_file(done: Seq<FileAttestationView>, cur: Option<FileAttestationView>) -> Seq<
    FileAttestationView,
> {
    match cur {
        Some(f) => if f.1.len() > 0 {
            done.push(f)
        } else {
            done
        },
        None => done,
    }
}

/// One line of the attestation section read (trailing white space ignored):
/// a blank line is skipped; a line indented by two spaces is an entry of the
/// current file, its hash up to the first space and its ranges after; any
/// other line starts a new file.
#[verifier::opaque]
pub open spec fn section_step(st: Result<SectionState, (nat, Seq<char>)>, raw: Seq<char>) -> Result<
    SectionState,
    (nat, Seq<char>),
> {
    match st {
        Err(e) => Err(e),
        Ok((done, cur)) => {
            let line = trim_end_spec(raw);
            if line.len() == 0 {
                Ok((done, cur))
            } else if line.len() >= 2 && line[0] == ' ' && line[1] == ' ' {
                let el = line.skip(2);
                match find_char_spec(el, ' ') {
                    None => Err((2nat, el)),
                    Some(p) => match parse_line_ranges_spec(el.skip(p + 1)) {
                        None => Err((0nat, seq![])),
                        Some(rs) => match cur {
                            None => Err((1nat, seq![])),
                            Some(f) => Ok((done, Some((f.0, f.1.push((el.take(p), rs)))))),
                        },
                    },
                }
            } else {
                Ok((flush_file(done, cur), Some((line, seq![]))))
            }
        },
    }
}

/// The lines of the attestation section read in order.
pub open spec fn section_fold(lines: Seq<Seq<char>>) -> Result<SectionState, (nat, Seq<char>)>
    decreases lines.len(),
{
    if lines.len() == 0 {
        Ok((seq![], None))
    } else {
        section_step(section_fold(lines.drop_last()), lines.last())
    }
}

/// The files of an attestation section (files without entries omitted),
/// or the first error.
pub open spec fn parse_section_spec(lines: Seq<Seq<char>>) -> Result<
    Seq<FileAttestationView>,
    (nat, Seq<char>),
> {
    match section_fold(lines) {
        Ok((done, cur)) => Ok(flush_file(done, cur)),
        Err(e) => Err(e),
    }
}

/// The view of an optional file.
pub open spec fn opt_file_view(f: Option<FileAttestation>) -> Option<FileAttestationView> {
    match f {
        Some(x) => Some(x@),
        None => None,
    }
}

/// An error that occurs in a prefix is the error of the whole.
proof fn lemma_section_fold_err(ls: Seq<Seq<char>>, n: int)
    requires
        0 <= n <= ls.len(),
        section_fold(ls.take(n)) is Err,
    ensures
        section_fold(ls) == section_fold(ls.take(n)),
    decreases ls.len() - n,
{
    reveal(section_step);
    if n < ls.len() {
        assert(ls.take(n + 1).drop_last() =~= ls.take(n));
        lemma_section_fold_err(ls, n + 1);
    } else {
        assert(ls.take(n) =~= ls);
    }
}

/// Reads the attestation section (see `parse_section_spec`).
fn parse_attestation_section(lines: &Vec<Vec<char>>) -> (r: Result<Vec<FileAttestation>, LogParseError>)
    ensures
        match r {
            Ok(v) => parse_section_spec(seqs_view(lines@)) == Ok::<Seq<FileAttestationView>, (nat, Seq<char>)>(files_views(v@)),
            Err(e) => parse_section_spec(seqs_view(lines@)) == Err::<Seq<FileAttestationView>, (nat, Seq<char>)>(e@),
        },
{
    reveal(section_step);
    let ghost ls = seqs_view(lines@);
    let mut done: Vec<FileAttestation> = Vec::new();
    let mut cur: Option<FileAttestation> = None;
    let mut i: usize = 0;
    assert(files_views(done@) =~= Seq::<FileAttestationView>::empty());
    assert(ls.take(0) =~= Seq::<Seq<char>>::empty());
    while i < lines.len()
        invariant
            0 <= i <= lines@.len(),
            ls == seqs_view(lines@),
            section_fold(ls.take(i as int)) == Ok::<SectionState, (nat, Seq<char>)>((files_views(done@), opt_file_view(cur))),
        decreases lines@.len() - i,
    {
        reveal(section_step);
        let raw = &lines[i];
        assert(ls.take(i + 1).drop_last() =~= ls.take(i as int));
        assert(ls.take(i + 1).last() == raw@);
        let n = trim_end_len(raw.as_slice());
        let line = slice_chars(raw.as_slice(), 0, n);
        assert(line@ =~= trim_end_spec(raw@));
        if n == 0 {
        } else if n >= 2 && line[0] == ' ' && line[1] == ' ' {
            let el = slice_chars(line.as_slice(), 2, n);
            assert(el@ =~= line@.skip(2));
            let found = find_char(el.as_slice(), ' ');
            match found {
                None => {
                    let e = LogParseError::InvalidEntry(string_of(el.as_slice()));
                    proof {
                        lemma_section_fold_err(ls, i + 1);
                    }
                    return Err(e);
                },
                Some(p) => {
                    let m = el.len();
                    let rest = slice_chars(el.as_slice(), p + 1, m);
                    assert(rest@ =~= el@.skip(p + 1));
                    match parse_line_ranges_chars(rest.as_slice()) {
                        Err(e) => {
                            proof {
                                lemma_section_fold_err(ls, i + 1);
                            }
                            return Err(e);
                        },
                        Ok(rs) => {
                            let hash = slice_chars(el.as_slice(), 0, p);
                            assert(hash@ =~= el@.take(p as int));
                            match cur {
                                None => {
                                    proof {
                                        lemma_section_fold_err(ls, i + 1);
                                    }
                                    return Err(LogParseError::EntryWithoutFile);
                                },
                                Some(mut f) => {
                                    let entry = AttestationEntry::new(string_of(hash.as_slice()), rs);
                                    let ghost fv = f@;
                                    f.add_entry(entry);
                                    assert(entries_views(f.entries@) =~= fv.1.push(entry@));
                                    cur = Some(f);
                                },
                            }
                        },
                    }
                },
            }
        } else {
            let ghost before = files_views(done@);
            match cur {
                Some(f) => {
                    if f.entries.len() > 0 {
                        done.push(f);
                        assert(files_views(done@) =~= before.push(f@));
                    }
                },
                None => {},
            }
            let nf = FileAttestation::new(string_of(line.as_slice()));
            assert(entries_views(nf.entries@) =~= Seq::<(Seq<char>, Seq<LineRange>)>::empty());
            cur = Some(nf);
        }
        i = i + 1;
    }
    assert(ls.take(i as int) =~= ls);
    let ghost before = files_views(done@);
    match cur {
        Some(f) => {
            if f.entries.len() > 0 {
                done.push(f);
                assert(files_views(done@) =~= before.push(f@));
            }
        },
        None => {},
    }
    Ok(done)
}


/// The divider line between attestations and metadata.
pub open spec fn is_divider(l: Seq<char>) -> bool {
    l == seq!['-', '-', '-']
}

/// The position of the first divider line, if any.
pub open spec fn first_divider(ls: Seq<Seq<char>>) -> Option<int> {
    if exists|i: int| 0 <= i < ls.len() && is_divider(#[trigger] ls[i]) {
        Some(
            choose|i: int|
                0 <= i < ls.len() && is_divider(ls[i]) && forall|j: int| 0 <= j < i ==> !is_divider(
                    #[trigger] ls[j],
                ),
        )
    } else {
        None
    }
}

/// Lines joined with newlines between them.
pub open spec fn join_lines(ls: Seq<Seq<char>>) -> Seq<char>
    decreases ls.len(),
{
    if ls.len() == 0 {
        seq![]
    } else if ls.len() == 1 {
        ls[0]
    } else {
        join_lines(ls.drop_last()) + seq!['\n'] + ls.last()
    }
}

/// What reading a text gives: the files of the attestation section before
/// the first `---` line, and the metadata JSON text after it (its lines
/// joined by newlines); or the first error.
pub open spec fn deserialize_spec(content: Seq<char>) -> Result<
    (Seq<FileAttestationView>, Seq<char>),
    (nat, Seq<char>),
> {
    let ls = str_lines(content);
    match first_divider(ls) {
        None => Err((3nat, seq![])),
        Some(d) => match parse_section_spec(ls.take(d)) {
            Err(e) => Err(e),
            Ok(fs) => Ok((fs, join_lines(ls.skip(d + 1)))),
        },
    }
}

/// Whether a line is the divider.
fn is_divider_line(l: &Vec<char>) -> (r: bool)
    ensures
        r == is_divider(l@),
{
    if l.len() == 3 && l[0] == '-' && l[1] == '-' && l[2] == '-' {
        assert(l@ =~= seq!['-', '-', '-']);
        true
    } else {
        false
    }
}

/// The text of an authorship log split in its parts: the files of its
/// attestation section and its metadata JSON text (see `deserialize_spec`).
pub fn deserialize_from_string(content: &str) -> (r: Result<(Vec<FileAttestation>, String), LogParseError>)
    ensures
        match r {
            Ok((fs, json)) => deserialize_spec(content@) == Ok::<(Seq<FileAttestationView>, Seq<char>), (nat, Seq<char>)>((files_views(fs@), json@)),
            Err(e) => deserialize_spec(content@) == Err::<(Seq<FileAttestationView>, Seq<char>), (nat, Seq<char>)>(e@),
        },
{
    let cs = chars_of(content);
    let lines = lines_of(cs.as_slice());
    let ghost ls = seqs_view(lines@);
    let mut d: usize = 0;
    while d < lines.len() && !is_divider_line(&lines[d])
        invariant
            0 <= d <= lines@.len(),
            ls == seqs_view(lines@),
            forall|j: int| 0 <= j < d ==> !is_divider(#[trigger] ls[j]),
        decreases lines@.len() - d,
    {
        assert(ls[d as int] == lines@[d as int]@);
        d = d + 1;
    }
    if d == lines.len() {
        assert(!exists|i: int| 0 <= i < ls.len() && is_divider(#[trigger] ls[i]));
        return Err(LogParseError::MissingDivider);
    }
    proof {
        assert(ls[d as int] == lines@[d as int]@);
        let k = choose|i: int|
            0 <= i < ls.len() && is_divider(ls[i]) && forall|j: int| 0 <= j < i ==> !is_divider(
                #[trigger] ls[j],
            );
        assert(k == d) by {
            if k < d {
                assert(!is_divider(ls[k]));
            } else if k > d {
                assert(!is_divider(ls[d as int]));
            }
        }
    }
    let mut head: Vec<Vec<char>> = Vec::new();
    let mut i: usize = 0;
    while i < d
        invariant
            0 <= i <= d < lines@.len(),
            ls == seqs_view(lines@),
            seqs_view(head@) == ls.take(i as int),
        decreases d - i,
    {
        let l = slice_chars(lines[i].as_slice(), 0, lines[i].len());
        assert(l@ =~= lines@[i as int]@);
        let ghost before = seqs_view(head@);
        head.push(l);
        assert(seqs_view(head@) =~= before.push(l@));
        assert(ls.take(i + 1) =~= ls.take(i as int).push(ls[i as int]));
        i = i + 1;
    }
    let fs = match parse_attestation_section(&head) {
        Ok(v) => v,
        Err(e) => {
            return Err(e);
        },
    };
    let mut json = String::new();
    let mut j: usize = d + 1;
    assert(ls.skip(d + 1).take(0) =~= Seq::<Seq<char>>::empty());
    while j < lines.len()
        invariant
            d + 1 <= j <= lines@.len(),
            ls == seqs_view(lines@),
            json@ == join_lines(ls.skip(d + 1).take(j - d - 1)),
        decreases lines@.len() - j,
    {
        let ghost t = ls.skip(d + 1).take(j - d - 1 + 1);
        assert(t.drop_last() =~= ls.skip(d + 1).take(j - d - 1));
        assert(t.last() == lines@[j as int]@);
        if j > d + 1 {
            push_char(&mut json, '\n');
        }
        push_chars(&mut json, lines[j].as_slice());
        proof {
            if j == d + 1 {
                assert(t.len() == 1 && t[0] == lines@[j as int]@);
            }
        }
        j = j + 1;
        assert(json@ =~= join_lines(ls.skip(d + 1).take(j - d - 1)));
    }
    assert(ls.skip(d + 1).take(j - d - 1) =~= ls.skip(d + 1));
    Ok((fs, json))
}

/// The views of strings.
pub open spec fn lines_view(ls: Seq<String>) -> Seq<Seq<char>> {
    ls.map_values(|l: String| l@)
}

/// Reads a log from the lines a reader yields: they are joined by newlines
/// and the result is read as text (see `deserialize_from_string`), so the
/// lines of a written log read back as what was written.
pub fn deserialize_from_reader(lines: &[String]) -> (r: Result<(Vec<FileAttestation>, String), LogParseError>)
    ensures
        match r {
            Ok((fs, json)) => deserialize_spec(join_lines(lines_view(lines@))) == Ok::<(Seq<FileAttestationView>, Seq<char>), (nat, Seq<char>)>((files_views(fs@), json@)),
            Err(e) => deserialize_spec(join_lines(lines_view(lines@))) == Err::<(Seq<FileAttestationView>, Seq<char>), (nat, Seq<char>)>(e@),
        },
{
    let mut content = String::new();
    let mut i: usize = 0;
    assert(lines_view(lines@.take(0)) =~= Seq::<Seq<char>>::empty());
    while i < lines.len()
        invariant
            0 <= i <= lines@.len(),
            content@ == join_lines(lines_view(lines@.take(i as int))),
        decreases lines@.len() - i,
    {
        let ghost t = lines_view(lines@.take(i + 1));
        assert(t.drop_last() =~= lines_view(lines@.take(i as int)));
        assert(t.last() == lines@[i as int]@);
        if i > 0 {
            push_char(&mut content, '\n');
        }
        push_str_chars(&mut content, lines[i].as_str());
        proof {
            if i == 0 {
                assert(t.len() == 1);
                assert(content@ =~= t[0]);
            } else {
                assert(content@ =~= join_lines(t.drop_last()) + seq!['\n'] + t.last());
            }
        }
        i = i + 1;
    }
    assert(lines@.take(i as int) =~= lines@);
    deserialize_from_string(content.as_str())
}


/// Splitting text joined by a separator splits both sides.
pub(crate) proof fn lemma_split_concat(a: Seq<char>, b: Seq<char>, c: char)
    ensures
        split_char(a + seq![c] + b, c) == split_char(a, c) + split_char(b, c),
    decreases b.len(),
{
    crate::text::lemma_split_char_len(a, c);
    if b.len() == 0 {
        assert(a + seq![c] + b =~= a.push(c));
        assert((a.push(c)).drop_last() =~= a);
        assert(split_char(b, c) =~= seq![Seq::<char>::empty()]);
        assert(split_char(a, c).push(Seq::<char>::empty()) =~= split_char(a, c) + split_char(b, c));
    } else {
        let b2 = b.drop_last();
        lemma_split_concat(a, b2, c);
        crate::text::lemma_split_char_len(b2, c);
        let whole = a + seq![c] + b;
        assert(whole.drop_last() =~= a + seq![c] + b2);
        assert(whole.last() == b.last());
        let sa = split_char(a, c);
        let sb2 = split_char(b2, c);
        if b.last() == c {
            assert((sa + sb2).push(Seq::<char>::empty()) =~= sa + sb2.push(Seq::<char>::empty()));
        } else {
            let u = sa + sb2;
            assert(u.update(u.len() - 1, u.last().push(b.last())) =~= sa + sb2.update(
                sb2.len() - 1,
                sb2.last().push(b.last()),
            ));
        }
    }
}

/// Text without the separator is one piece.
pub(crate) proof fn lemma_split_single(s: Seq<char>, c: char)
    requires
        !s.contains(c),
    ensures
        split_char(s, c) == seq![s],
    decreases s.len(),
{
    if s.len() == 0 {
        assert(s =~= Seq::<char>::empty());
    } else {
        let p = s.drop_last();
        assert(!p.contains(c)) by {
            if p.contains(c) {
                let k = choose|k: int| 0 <= k < p.len() && p[k] == c;
                assert(s[k] == c);
            }
        }
        lemma_split_single(p, c);
        assert(s[s.len() - 1] != c);
        assert(p.push(s.last()) =~= s);
        assert(seq![p].update(0, p.push(s.last())) =~= seq![s]);
    }
}

/// The text of a range holds no comma, and starts with a digit.
pub(crate) proof fn lemma_range_text_chars(r: LineRange)
    ensures
        !range_text(r).contains(','),
        range_text(r).len() > 0,
{
    match r {
        LineRange::Single(l) => {
            crate::text::lemma_dec_no_char(l as nat, ',');
            crate::text::lemma_dec_digits(l as nat);
        },
        LineRange::Range(a, b) => {
            crate::text::lemma_dec_no_char(a as nat, ',');
            crate::text::lemma_dec_no_char(b as nat, ',');
            crate::text::lemma_dec_digits(a as nat);
            let t = range_text(r);
            let da = dec_spec(a as nat);
            let db = dec_spec(b as nat);
            assert(t == da + seq!['-'] + db);
            if t.contains(',') {
                let k = choose|k: int| 0 <= k < t.len() && t[k] == ',';
                if k < da.len() {
                    assert(da[k] == ',');
                } else if k > da.len() {
                    assert(db[k - da.len() - 1] == ',');
                }
            }
        },
    }
}

/// The first position of `c` in `s` is `d` when `s[d]` is `c` and no
/// earlier character is.
pub(crate) proof fn lemma_find_char_at(s: Seq<char>, c: char, d: int)
    requires
        0 <= d < s.len(),
        s[d] == c,
        forall|j: int| 0 <= j < d ==> s[j] != c,
    ensures
        find_char_spec(s, c) == Some(d),
{
    let k = choose|i: int| 0 <= i < s.len() && s[i] == c && forall|j: int| 0 <= j < i ==> s[j] != c;
    assert(k == d) by {
        if k < d {
            assert(s[k] != c);
        } else if k > d {
            assert(s[d] != c);
        }
    }
}

/// The text of a single line reads back as the single line.
proof fn lemma_parse_single_text(l: u32)
    ensures
        parse_range_spec(range_text(LineRange::Single(l))) == Some(LineRange::Single(l)),
{
    crate::text::lemma_dec_no_char(l as nat, '-');
    crate::text::lemma_parse_dec(l);
    let t = dec_spec(l as nat);
    assert(range_text(LineRange::Single(l)) == t);
    assert(!(exists|i: int| 0 <= i < t.len() && t[i] == '-'));
}

/// The text of a range of lines reads back as the range.
proof fn lemma_parse_range_of_text(a: u32, b: u32)
    ensures
        parse_range_spec(range_text(LineRange::Range(a, b))) == Some(LineRange::Range(a, b)),
{
    crate::text::lemma_dec_no_char(a as nat, '-');
    crate::text::lemma_parse_dec(a);
    crate::text::lemma_parse_dec(b);
    let da = dec_spec(a as nat);
    let db = dec_spec(b as nat);
    let t = da + seq!['-'] + db;
    assert(range_text(LineRange::Range(a, b)) == t);
    let d = da.len() as int;
    assert forall|j: int| 0 <= j < d implies t[j] != '-' by {
        assert(t[j] == da[j]);
    }
    lemma_find_char_at(t, '-', d);
    assert(t.take(d) =~= da);
    assert(t.skip(d + 1) =~= db);
}

/// The text of a range reads back as the range.
proof fn lemma_parse_range_text(r: LineRange)
    ensures
        parse_range_spec(range_text(r)) == Some(r),
{
    match r {
        LineRange::Single(l) => lemma_parse_single_text(l),
        LineRange::Range(a, b) => lemma_parse_range_of_text(a, b),
    }
}

/// Ranges written then read give back the ranges, sorted by first line.
pub proof fn lemma_line_ranges_roundtrip(rs: Seq<LineRange>)
    ensures
        parse_line_ranges_spec(format_line_ranges_spec(rs)) == Some(sort_by_start_spec(rs)),
{
    let t = sort_by_start_spec(rs);
    if t.len() == 0 {
        assert(join_ranges(t) =~= Seq::<char>::empty());
        let ps = split_char(Seq::<char>::empty(), ',');
        assert(ps =~= seq![Seq::<char>::empty()]);
        assert(ps.drop_last() =~= Seq::<Seq<char>>::empty());
        assert(parse_pieces(ps.drop_last()) == Some(Seq::<LineRange>::empty()));
        assert(t =~= Seq::<LineRange>::empty());
    } else {
        lemma_join_split(t);
        lemma_parse_pieces_texts(t);
    }
}

/// Joined range texts split back into the texts.
proof fn lemma_join_split(t: Seq<LineRange>)
    requires
        t.len() >= 1,
    ensures
        split_char(join_ranges(t), ',') == t.map_values(|r: LineRange| range_text(r)),
    decreases t.len(),
{
    if t.len() == 1 {
        lemma_range_text_chars(t[0]);
        lemma_split_single(range_text(t[0]), ',');
        assert(t.map_values(|r: LineRange| range_text(r)) =~= seq![range_text(t[0])]);
    } else {
        let p = t.drop_last();
        lemma_join_split(p);
        lemma_range_text_chars(t.last());
        lemma_split_concat(join_ranges(p), range_text(t.last()), ',');
        lemma_split_single(range_text(t.last()), ',');
        assert(t.map_values(|r: LineRange| range_text(r)) =~= p.map_values(|r: LineRange| range_text(r))
            + seq![range_text(t.last())]);
    }
}

/// The texts of ranges read back as the ranges.
proof fn lemma_parse_pieces_texts(t: Seq<LineRange>)
    ensures
        parse_pieces(t.map_values(|r: LineRange| range_text(r))) == Some(t),
    decreases t.len(),
{
    if t.len() > 0 {
        let p = t.drop_last();
        lemma_parse_pieces_texts(p);
        let ps = t.map_values(|r: LineRange| range_text(r));
        assert(ps.drop_last() =~= p.map_values(|r: LineRange| range_text(r)));
        lemma_range_text_chars(t.last());
        lemma_parse_range_text(t.last());
        assert(p.push(t.last()) =~= t);
    } else {
        assert(t.map_values(|r: LineRange| range_text(r)) =~= Seq::<Seq<char>>::empty());
        assert(t =~= Seq::<LineRange>::empty());
    }
}

} // verus!
