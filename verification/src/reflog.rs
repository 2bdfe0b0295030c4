//! Notes that record which branch a merge commit came from, and the choice of
//! the commits whose authorship has to be rebuilt.
use vstd::prelude::*;
use crate::git_sync::strs_view;
use crate::text::{chars_of, is_ws, is_ws_char, seqs_view, split_char, split_chars, string_of};

verus! {

/// The words of `s` read so far, and the word being read, after the
/// characters of `s` in order: white space ends a word.
pub open spec fn words_state(s: Seq<char>) -> (Seq<Seq<char>>, Seq<char>)
    decreases s.len(),
{
    if s.len() == 0 {
        (Seq::empty(), Seq::empty())
    } else {
        let (done, cur) = words_state(s.drop_last());
        if is_ws(s.last()) {
            if cur.len() > 0 {
                (done.push(cur), Seq::empty())
            } else {
                (done, Seq::empty())
            }
        } else {
            (done, cur.push(s.last()))
        }
    }
}

/// The maximal runs of characters that are not white space, in order (like
/// `str::split_whitespace`).
pub open spec fn words(s: Seq<char>) -> Seq<Seq<char>> {
    let (done, cur) = words_state(s);
    if cur.len() > 0 {
        done.push(cur)
    } else {
        done
    }
}

/// The words of `s` (see `words`).
pub fn split_words(s: &str) -> (r: Vec<Vec<char>>)
    ensures
        seqs_view(r@) == words(s@),
{
    let cs = chars_of(s);
    let mut done: Vec<Vec<char>> = Vec::new();
    let mut cur: Vec<char> = Vec::new();
    let mut i: usize = 0;
    assert(cs@.take(0) =~= Seq::<char>::empty());
    while i < cs.len()
        invariant
            0 <= i <= cs@.len(),
            cs@ == s@,
            (seqs_view(done@), cur@) == words_state(cs@.take(i as int)),
        decreases cs@.len() - i,
    {
        let x = cs[i];
        assert(cs@.take(i + 1).drop_last() =~= cs@.take(i as int));
        assert(cs@.take(i + 1).last() == x);
        let ghost before = seqs_view(done@);
        if is_ws_char(x) {
            if cur.len() > 0 {
                let mut piece: Vec<char> = Vec::new();
                std::mem::swap(&mut piece, &mut cur);
                done.push(piece);
                assert(seqs_view(done@) =~= before.push(piece@));
            }
        } else {
            cur.push(x);
        }
        i = i + 1;
    }
    assert(cs@.take(i as int) =~= cs@);
    if cur.len() > 0 {
        let ghost before = seqs_view(done@);
        done.push(cur);
        assert(seqs_view(done@) =~= before.push(cur@));
    }
    done
}

/// What a branch note says: its first two words, the branch's name and the
/// commit at its head, when it has two words.
pub open spec fn reflog_note_spec(note: Seq<char>) -> Option<(Seq<char>, Seq<char>)> {
    if words(note).len() >= 2 {
        Some((words(note)[0], words(note)[1]))
    } else {
        None
    }
}

/// Reads a branch note `"<branch> <head commit>"` (see `reflog_note_spec`);
/// `None` when it has fewer than two words.
pub fn parse_reflog_note(note: &str) -> (r: Option<(String, String)>)
    ensures
        match r {
            Some((b, h)) => reflog_note_spec(note@) == Some((b@, h@)),
            None => reflog_note_spec(note@) is None,
        },
{
    let ws = split_words(note);
    if ws.len() >= 2 {
        assert(seqs_view(ws@)[0] == ws@[0]@);
        assert(seqs_view(ws@)[1] == ws@[1]@);
        Some((string_of(ws[0].as_slice()), string_of(ws[1].as_slice())))
    } else {
        None
    }
}

/// The remote of a branch's name: the part before its first `/` (all of it
/// when it has none).
pub fn extract_remote(refname: &str) -> (r: Option<String>)
    ensures
        r matches Some(x) && x@ == split_char(refname@, '/')[0],
{
    let cs = chars_of(refname);
    let parts = split_chars(cs.as_slice(), '/');
    proof {
        crate::text::lemma_split_char_len(cs@, '/');
    }
    assert(seqs_view(parts@)[0] == parts@[0]@);
    Some(string_of(parts[0].as_slice()))
}

/// Whether `s` is one of `v`.
pub open spec fn listed(v: Seq<Seq<char>>, s: Seq<char>) -> bool {
    exists|i: int| 0 <= i < v.len() && v[i] == s
}

/// The commits of `all`, in order, that are not listed in `with_notes`.
pub open spec fn without_notes_spec(all: Seq<Seq<char>>, with_notes: Seq<Seq<char>>) -> Seq<Seq<char>>
    decreases all.len(),
{
    if all.len() == 0 {
        Seq::empty()
    } else {
        let rest = without_notes_spec(all.drop_last(), with_notes);
        if listed(with_notes, all.last()) {
            rest
        } else {
            rest.push(all.last())
        }
    }
}

/// Whether `s` is one of `v`.
pub(crate) fn is_listed(v: &[String], s: &str) -> (r: bool)
    ensures
        r == listed(strs_view(v@), s@),
{
    let mut i: usize = 0;
    while i < v.len()
        invariant
            0 <= i <= v@.len(),
            forall|j: int| 0 <= j < i ==> v@[j]@ != s@,
        decreases v@.len() - i,
    {
        if crate::str_map::str_eq(v[i].as_str(), s) {
            assert(strs_view(v@)[i as int] == s@);
            return true;
        }
        i = i + 1;
    }
    assert forall|j: int| 0 <= j < strs_view(v@).len() implies strs_view(v@)[j] != s@ by {
        assert(strs_view(v@)[j] == v@[j]@);
    }
    false
}

/// The commits of `all`, in order, that `with_notes` does not list: those
/// whose authorship has to be rebuilt.
pub fn commits_without_notes(all: &[String], with_notes: &[String]) -> (r: Vec<String>)
    ensures
        strs_view(r@) == without_notes_spec(strs_view(all@), strs_view(with_notes@)),
{
    let mut r: Vec<String> = Vec::new();
    let mut i: usize = 0;
    while i < all.len()
        invariant
            0 <= i <= all@.len(),
            strs_view(r@) == without_notes_spec(strs_view(all@.take(i as int)), strs_view(with_notes@)),
        decreases all@.len() - i,
    {
        assert(strs_view(all@.take(i + 1)).drop_last() =~= strs_view(all@.take(i as int)));
        assert(strs_view(all@.take(i + 1)).last() == all@[i as int]@);
        if !is_listed(with_notes, all[i].as_str()) {
            let ghost before = strs_view(r@);
            r.push(all[i].clone());
            assert(strs_view(r@) =~= before.push(all@[i as int]@));
        }
        i = i + 1;
    }
    assert(all@.take(i as int) =~= all@);
    r
}

} // verus!
