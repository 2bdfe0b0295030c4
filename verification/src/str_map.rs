//! A map from strings to values, ordered by key like `BTreeMap<String, V>`.
use vstd::prelude::*;
use crate::text::chars_of;

verus! {

/// `a` comes before `b` in lexicographic order of characters (the order of
/// `String`, since UTF-8 keeps the order of code points).
pub open spec fn seq_lt(a: Seq<char>, b: Seq<char>) -> bool
    decreases a.len(),
{
    if a.len() == 0 {
        b.len() > 0
    } else if b.len() == 0 {
        false
    } else if a[0] < b[0] {
        true
    } else if a[0] > b[0] {
        false
    } else {
        seq_lt(a.drop_first(), b.drop_first())
    }
}

/// The lexicographic order is irreflexive and total.
pub proof fn lemma_seq_lt_trichotomy(a: Seq<char>, b: Seq<char>)
    ensures
        !seq_lt(a, a),
        seq_lt(a, b) || a == b || seq_lt(b, a),
        !(seq_lt(a, b) && seq_lt(b, a)),
    decreases a.len(),
{
    if a.len() > 0 {
        lemma_seq_lt_trichotomy(a.drop_first(), a.drop_first());
        if b.len() > 0 {
            lemma_seq_lt_trichotomy(a.drop_first(), b.drop_first());
            if a[0] == b[0] && a.drop_first() == b.drop_first() {
                assert forall|k: int| 0 < k < a.len() implies a[k] == b[k] by {
                    assert(a.drop_first()[k - 1] == b.drop_first()[k - 1]);
                }
                assert(a =~= b);
            }
        }
    } else if b.len() == 0 {
        assert(a =~= b);
    }
}

/// The lexicographic order is transitive.
pub proof fn lemma_seq_lt_transitive(a: Seq<char>, b: Seq<char>, c: Seq<char>)
    requires
        seq_lt(a, b),
        seq_lt(b, c),
    ensures
        seq_lt(a, c),
    decreases a.len(),
{
    if a.len() > 0 && b.len() > 0 && c.len() > 0 {
        if a[0] == b[0] && b[0] == c[0] {
            lemma_seq_lt_transitive(a.drop_first(), b.drop_first(), c.drop_first());
        }
    }
}

/// Whether two strings are equal.
pub fn str_eq(a: &str, b: &str) -> (r: bool)
    ensures
        r == (a@ == b@),
{
    let x = chars_of(a);
    let y = chars_of(b);
    if x.len() != y.len() {
        assert(a@.len() != b@.len());
        return false;
    }
    let mut i: usize = 0;
    while i < x.len()
        invariant
            0 <= i <= x@.len(),
            x@.len() == y@.len(),
            x@ == a@,
            y@ == b@,
            forall|k: int| 0 <= k < i ==> x@[k] == y@[k],
        decreases x@.len() - i,
    {
        if x[i] != y[i] {
            assert(a@[i as int] != b@[i as int]);
            return false;
        }
        i = i + 1;
    }
    assert(x@ =~= y@);
    true
}

/// Whether `a` comes before `b` in lexicographic order.
pub fn str_lt(a: &str, b: &str) -> (r: bool)
    ensures
        r == seq_lt(a@, b@),
{
    let x = chars_of(a);
    let y = chars_of(b);
    let mut i: usize = 0;
    assert(a@.skip(0) =~= a@);
    assert(b@.skip(0) =~= b@);
    while i < x.len() && i < y.len()
        invariant
            0 <= i <= x@.len(),
            i <= y@.len(),
            x@ == a@,
            y@ == b@,
            seq_lt(a@, b@) == seq_lt(a@.skip(i as int), b@.skip(i as int)),
        decreases x@.len() - i,
    {
        let cx = x[i];
        let cy = y[i];
        assert(a@.skip(i as int).drop_first() =~= a@.skip(i + 1));
        assert(b@.skip(i as int).drop_first() =~= b@.skip(i + 1));
        if cx < cy {
            return true;
        }
        if cx > cy {
            return false;
        }
        i = i + 1;
    }
    i == x.len() && i < y.len()
}


/// The keys of `s` are in strictly increasing order.
pub open spec fn keys_sorted<V>(s: Seq<(Seq<char>, V)>) -> bool {
    forall|i: int, j: int| 0 <= i < j < s.len() ==> seq_lt(#[trigger] s[i].0, #[trigger] s[j].0)
}

/// The value that `s` associates with key `k`, if any (the last entry with
/// that key wins; in a map with sorted keys there is at most one).
pub open spec fn lookup<V>(s: Seq<(Seq<char>, V)>, k: Seq<char>) -> Option<V>
    decreases s.len(),
{
    if s.len() == 0 {
        None
    } else if s.last().0 == k {
        Some(s.last().1)
    } else {
        lookup(s.drop_last(), k)
    }
}

/// In a sequence with sorted keys, the lookup of a key finds its entry, and
/// finds nothing for a key that no entry has.
pub proof fn lemma_lookup<V>(s: Seq<(Seq<char>, V)>, k: Seq<char>)
    requires
        keys_sorted(s),
    ensures
        forall|i: int| 0 <= i < s.len() && s[i].0 == k ==> lookup(s, k) == Some(s[i].1),
        (forall|i: int| 0 <= i < s.len() ==> s[i].0 != k) ==> lookup(s, k) is None,
        lookup(s, k) is Some ==> exists|i: int| 0 <= i < s.len() && s[i].0 == k,
    decreases s.len(),
{
    if s.len() > 0 {
        let p = s.drop_last();
        assert(keys_sorted(p));
        lemma_lookup(p, k);
        assert forall|i: int| 0 <= i < s.len() && s[i].0 == k implies lookup(s, k) == Some(
            s[i].1,
        ) by {
            if i < s.len() - 1 {
                assert(seq_lt(s[i].0, s[s.len() - 1].0));
                lemma_seq_lt_trichotomy(s[i].0, s[i].0);
                assert(p[i] == s[i]);
            }
        }
        if lookup(s, k) is Some && s.last().0 != k {
            let i = choose|i: int| 0 <= i < p.len() && p[i].0 == k;
            assert(s[i] == p[i]);
        }
    }
}

/// Changing the value of one entry keeps the keys sorted and changes the
/// lookup of that entry's key only.
pub proof fn lemma_lookup_update<V>(s: Seq<(Seq<char>, V)>, i: int)
    requires
        keys_sorted(s),
        0 <= i < s.len(),
    ensures
        forall|v: V|
            #![trigger s.update(i, (s[i].0, v))]
            keys_sorted(s.update(i, (s[i].0, v))) && forall|k: Seq<char>|
                lookup(s.update(i, (s[i].0, v)), k) == if k == s[i].0 {
                    Some(v)
                } else {
                    lookup(s, k)
                },
{
    assert forall|v: V|
        #![trigger s.update(i, (s[i].0, v))]
        keys_sorted(s.update(i, (s[i].0, v))) && forall|k: Seq<char>|
            lookup(s.update(i, (s[i].0, v)), k) == if k == s[i].0 {
                Some(v)
            } else {
                lookup(s, k)
            } by {
        let t = s.update(i, (s[i].0, v));
        assert(t.len() == s.len());
        assert forall|a: int, b: int| 0 <= a < b < t.len() implies seq_lt(
            #[trigger] t[a].0,
            #[trigger] t[b].0,
        ) by {
            assert(t[a].0 == s[a].0);
            assert(t[b].0 == s[b].0);
        }
        assert(keys_sorted(t));
        assert(t[i] == (s[i].0, v));
        assert forall|k: Seq<char>| lookup(t, k) == if k == s[i].0 {
            Some(v)
        } else {
            lookup(s, k)
        } by {
            lemma_lookup(t, k);
            lemma_lookup(s, k);
            if k != s[i].0 {
                if lookup(s, k) is Some {
                    let j = choose|j: int| 0 <= j < s.len() && s[j].0 == k;
                    assert(t[j] == s[j]);
                }
                if lookup(t, k) is Some {
                    let j = choose|j: int| 0 <= j < t.len() && t[j].0 == k;
                    assert(t[j] == s[j]);
                }
            }
        }
    }
}

/// A map from strings to values with its entries in increasing key order.
pub struct StrMap<V> {
    entries: Vec<(String, V)>,
}

impl<V> View for StrMap<V> {
    type V = Seq<(Seq<char>, V)>;

    closed spec fn view(&self) -> Seq<(Seq<char>, V)> {
        self.entries@.map_values(|e: (String, V)| (e.0@, e.1))
    }
}

impl<V> StrMap<V> {
    /// The entries' keys are in strictly increasing order.
    pub open spec fn wf(&self) -> bool {
        keys_sorted(self@)
    }

    /// An empty map.
    pub fn new() -> (r: Self)
        ensures
            r.wf(),
            r@ == Seq::<(Seq<char>, V)>::empty(),
    {
        let r = StrMap { entries: Vec::new() };
        assert(r@ =~= Seq::<(Seq<char>, V)>::empty());
        r
    }

    /// The number of entries.
    pub fn len(&self) -> (r: usize)
        ensures
            r == self@.len(),
    {
        self.entries.len()
    }

    /// The map has no entry.
    pub fn is_empty(&self) -> (r: bool)
        ensures
            r == (self@.len() == 0),
    {
        self.entries.len() == 0
    }

    /// The position of the entry with key `key`, if any.
    pub fn index_of(&self, key: &str) -> (r: Option<usize>)
        ensures
            match r {
                Some(i) => i < self@.len() && self@[i as int].0 == key@,
                None => forall|i: int| 0 <= i < self@.len() ==> self@[i].0 != key@,
            },
    {
        let mut i: usize = 0;
        while i < self.entries.len()
            invariant
                0 <= i <= self.entries@.len(),
                forall|k: int| 0 <= k < i ==> self@[k].0 != key@,
            decreases self.entries@.len() - i,
        {
            if str_eq(self.entries[i].0.as_str(), key) {
                return Some(i);
            }
            i = i + 1;
        }
        None
    }

    /// The value for `key`, if any.
    pub fn get(&self, key: &str) -> (r: Option<&V>)
        requires
            self.wf(),
        ensures
            match r {
                Some(v) => lookup(self@, key@) == Some(*v),
                None => lookup(self@, key@) is None,
            },
    {
        proof {
            lemma_lookup(self@, key@);
        }
        match self.index_of(key) {
            Some(i) => Some(&self.entries[i].1),
            None => None,
        }
    }

    /// The map has an entry with key `key`.
    pub fn contains_key(&self, key: &str) -> (r: bool)
        requires
            self.wf(),
        ensures
            r == (lookup(self@, key@) is Some),
    {
        proof {
            lemma_lookup(self@, key@);
        }
        self.index_of(key).is_some()
    }

    /// The key of entry `i`.
    pub fn key_at(&self, i: usize) -> (r: &String)
        requires
            i < self@.len(),
        ensures
            r@ == self@[i as int].0,
    {
        &self.entries[i].0
    }

    /// The value of entry `i`.
    pub fn value_at(&self, i: usize) -> (r: &V)
        requires
            i < self@.len(),
        ensures
            *r == self@[i as int].1,
    {
        &self.entries[i].1
    }

    /// The value of entry `i`, to change it in place.
    pub fn value_at_mut(&mut self, i: usize) -> (r: &mut V)
        requires
            i < old(self)@.len(),
        ensures
            *r == old(self)@[i as int].1,
            final(self)@ == old(self)@.update(i as int, (old(self)@[i as int].0, *final(r))),
    {
        &mut self.entries[i].1
    }

    /// Sets the value of entry `i` to `v` and hands back the value it had.
    pub fn swap_value_at(&mut self, i: usize, v: V) -> (r: V)
        requires
            i < old(self)@.len(),
        ensures
            r == old(self)@[i as int].1,
            final(self)@ == old(self)@.update(i as int, (old(self)@[i as int].0, v)),
    {
        let mut v = v;
        let slot = &mut self.entries[i].1;
        std::mem::swap(slot, &mut v);
        proof {
            assert(self@ =~= old(self)@.update(i as int, (old(self)@[i as int].0, self.entries@[i as int].1)));
        }
        v
    }

    /// Maps with the same keys in the same order are alike well-formed.
    pub proof fn lemma_same_keys_wf(a: &Self, b: &Self)
        requires
            a.wf(),
            a@.len() == b@.len(),
            forall|i: int| 0 <= i < a@.len() ==> #[trigger] a@[i].0 == b@[i].0,
        ensures
            b.wf(),
    {
        assert forall|x: int, y: int| 0 <= x < y < b@.len() implies seq_lt(
            #[trigger] b@[x].0,
            #[trigger] b@[y].0,
        ) by {
            assert(a@[x].0 == b@[x].0);
            assert(a@[y].0 == b@[y].0);
        }
    }

    /// Removes entry `i`.
    pub fn remove_at(&mut self, i: usize)
        requires
            i < old(self)@.len(),
        ensures
            final(self)@ == old(self)@.remove(i as int),
            old(self).wf() ==> final(self).wf(),
    {
        let _ = self.entries.remove(i);
        assert(self@ =~= old(self)@.remove(i as int));
        assert(old(self).wf() ==> self.wf()) by {
            if old(self).wf() {
                assert forall|a: int, b: int| 0 <= a < b < self@.len() implies seq_lt(
                    #[trigger] self@[a].0,
                    #[trigger] self@[b].0,
                ) by {
                    let oa = if a < i { a } else { a + 1 };
                    let ob = if b < i { b } else { b + 1 };
                    assert(self@[a] == old(self)@[oa]);
                    assert(self@[b] == old(self)@[ob]);
                }
            }
        }
    }

    /// Sets the value for `key`, adding an entry at its place in key order
    /// when there is none.
    pub fn insert(&mut self, key: String, value: V)
        requires
            old(self).wf(),
        ensures
            final(self).wf(),
            forall|k: Seq<char>|
                lookup(final(self)@, k) == if k == key@ {
                    Some(value)
                } else {
                    lookup(old(self)@, k)
                },
            final(self)@.len() == old(self)@.len() + if lookup(old(self)@, key@) is Some {
                0int
            } else {
                1int
            },
    {
        proof {
            lemma_lookup(self@, key@);
        }
        let n = self.entries.len();
        let mut i: usize = 0;
        while i < n
            invariant
                0 <= i <= n,
                n == self.entries@.len(),
                self@ == old(self)@,
                keys_sorted(self@),
                forall|k: int| 0 <= k < i ==> seq_lt(#[trigger] self@[k].0, key@),
            ensures
                0 <= i <= n,
                n == self.entries@.len(),
                self@ == old(self)@,
                keys_sorted(self@),
                forall|k: int| 0 <= k < i ==> seq_lt(#[trigger] self@[k].0, key@),
                i < n ==> !seq_lt(self@[i as int].0, key@),
            decreases n - i,
        {
            if !str_lt(self.entries[i].0.as_str(), key.as_str()) {
                break ;
            }
            i = i + 1;
        }
        let ghost old_s = self@;
        if i < n && str_eq(self.entries[i].0.as_str(), key.as_str()) {
            let slot = &mut self.entries[i];
            slot.1 = value;
            proof {
                assert(self@ =~= old_s.update(i as int, (key@, value)));
                assert forall|a: int, b: int| 0 <= a < b < self@.len() implies seq_lt(
                    #[trigger] self@[a].0,
                    #[trigger] self@[b].0,
                ) by {
                    assert(old_s[a].0 == self@[a].0);
                    assert(old_s[b].0 == self@[b].0);
                }
                assert(keys_sorted(self@));
                assert(old_s[i as int].0 == key@);
                assert(self@[i as int] == (key@, value));
                lemma_lookup(self@, key@);
                assert(lookup(self@, key@) == Some(value));
                assert forall|k: Seq<char>| lookup(self@, k) == if k == key@ {
                    Some(value)
                } else {
                    lookup(old_s, k)
                } by {
                    lemma_lookup(self@, k);
                    lemma_lookup(old_s, k);
                    if k != key@ {
                        if lookup(old_s, k) is Some {
                            let j = choose|j: int| 0 <= j < old_s.len() && old_s[j].0 == k;
                            assert(self@[j] == old_s[j]);
                        }
                        if lookup(self@, k) is Some {
                            let j = choose|j: int| 0 <= j < self@.len() && self@[j].0 == k;
                            assert(self@[j] == old_s[j]);
                        }
                    }
                }
            }
        } else {
            proof {
                if i < n {
                    lemma_seq_lt_trichotomy(self@[i as int].0, key@);
                    assert(seq_lt(key@, self@[i as int].0));
                }
            }
            let ghost kv = key@;
            self.entries.insert(i, (key, value));
            proof {
                assert(self@ =~= old_s.insert(i as int, (kv, value)));
                assert forall|a: int, b: int| 0 <= a < b < self@.len() implies seq_lt(
                    #[trigger] self@[a].0,
                    #[trigger] self@[b].0,
                ) by {
                    if a < i && b == i {
                    } else if a < i && b > i {
                        assert(seq_lt(old_s[a].0, kv));
                        assert(self@[b] == old_s[b - 1]);
                        assert(seq_lt(kv, old_s[i as int].0));
                        if b - 1 > i {
                            assert(seq_lt(old_s[i as int].0, old_s[b - 1].0));
                            lemma_seq_lt_transitive(kv, old_s[i as int].0, old_s[b - 1].0);
                        }
                        lemma_seq_lt_transitive(old_s[a].0, kv, old_s[b - 1].0);
                    } else if a == i {
                        assert(self@[b] == old_s[b - 1]);
                        if b - 1 > i {
                            assert(seq_lt(old_s[i as int].0, old_s[b - 1].0));
                            lemma_seq_lt_transitive(kv, old_s[i as int].0, old_s[b - 1].0);
                        }
                    } else if a > i {
                        assert(self@[a] == old_s[a - 1]);
                        assert(self@[b] == old_s[b - 1]);
                    } else {
                        assert(self@[a] == old_s[a]);
                        assert(self@[b] == old_s[b]);
                    }
                }
                assert forall|j: int| 0 <= j < old_s.len() implies old_s[j].0 != kv by {
                    if j < i {
                        lemma_seq_lt_trichotomy(old_s[j].0, kv);
                    } else {
                        if j > i {
                            assert(seq_lt(old_s[i as int].0, old_s[j].0));
                            lemma_seq_lt_transitive(kv, old_s[i as int].0, old_s[j].0);
                        }
                        lemma_seq_lt_trichotomy(kv, old_s[j].0);
                    }
                }
                assert forall|k: Seq<char>| lookup(self@, k) == if k == kv {
                    Some(value)
                } else {
                    lookup(old_s, k)
                } by {
                    lemma_lookup(self@, k);
                    lemma_lookup(old_s, k);
                    assert(self@[i as int] == (kv, value));
                    if k != kv {
                        if lookup(old_s, k) is Some {
                            let j = choose|j: int| 0 <= j < old_s.len() && old_s[j].0 == k;
                            if j < i {
                                assert(self@[j] == old_s[j]);
                            } else {
                                assert(self@[j + 1] == old_s[j]);
                            }
                        }
                        if lookup(self@, k) is Some {
                            let j = choose|j: int| 0 <= j < self@.len() && self@[j].0 == k;
                            if j < i {
                                assert(self@[j] == old_s[j]);
                            } else if j > i {
                                assert(self@[j] == old_s[j - 1]);
                            }
                        }
                    }
                }
            }
        }
    }
}


/// A value that can be copied field by field, the copy having the same view.
pub trait CopyView: View + Sized {
    fn copy_view(&self) -> (r: Self)
        ensures
            r@ == self@;
}

/// The entries of a map with their values taken by view.
pub open spec fn views_of<V: View>(s: Seq<(Seq<char>, V)>) -> Seq<(Seq<char>, V::V)> {
    s.map_values(|e: (Seq<char>, V)| (e.0, e.1@))
}

impl<V: CopyView> StrMap<V> {
    /// A copy with the same keys, in the same order, and values of the same views.
    pub fn copy(&self) -> (r: Self)
        ensures
            views_of(r@) == views_of(self@),
            r@.len() == self@.len(),
            forall|i: int| 0 <= i < self@.len() ==> #[trigger] r@[i].0 == self@[i].0,
            self.wf() ==> r.wf(),
    {
        let mut entries: Vec<(String, V)> = Vec::new();
        let mut i: usize = 0;
        while i < self.entries.len()
            invariant
                0 <= i <= self.entries@.len(),
                entries@.len() == i,
                forall|j: int| 0 <= j < i ==> #[trigger] entries@[j].0@ == self@[j].0 && entries@[j].1@
                    == self@[j].1@,
            decreases self.entries@.len() - i,
        {
            let k = self.entries[i].0.clone();
            let v = self.entries[i].1.copy_view();
            entries.push((k, v));
            i = i + 1;
        }
        let r = StrMap { entries };
        assert(views_of(r@) =~= views_of(self@));
        proof {
            if self.wf() {
                StrMap::lemma_same_keys_wf(self, &r);
            }
        }
        r
    }
}

} // verus!
