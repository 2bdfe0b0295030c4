//! JSON values as the presets read them, and the accessors they read them
//! with.
use vstd::prelude::*;

verus! {

/// A JSON value. Each value but `null` and the booleans also carries the
/// compact JSON text it was read from, which a transcript keeps as a tool's
/// input; an array or object that the library builds carries an empty text.
#[derive(Debug, PartialEq, Eq)]
pub enum JsonValue {
    Null,
    Bool(bool),
    /// A number that is a whole number within `i64`, and its JSON text.
    Int(i64, String),
    /// Any other number, by its JSON text.
    Num(String),
    /// A string: its value and its JSON text.
    Str(String, String),
    /// An array: its items and its JSON text.
    Array(Vec<JsonValue>, String),
    /// An object: its members in order and its JSON text.
    Object(Vec<(String, JsonValue)>, String),
}

/// The value of the first member named `key`.
pub open spec fn member(ms: Seq<(String, JsonValue)>, key: Seq<char>) -> Option<JsonValue>
    decreases ms.len(),
{
    if ms.len() == 0 {
        None
    } else if ms[0].0@ == key {
        Some(ms[0].1)
    } else {
        member(ms.drop_first(), key)
    }
}

/// The member `key` of `v`, when `v` is an object that has one.
pub open spec fn jget(v: Option<JsonValue>, key: Seq<char>) -> Option<JsonValue> {
    match v {
        Some(JsonValue::Object(ms, _)) => member(ms@, key),
        _ => None,
    }
}

/// The value of `v`, when it is a string.
pub open spec fn jstr(v: Option<JsonValue>) -> Option<Seq<char>> {
    match v {
        Some(JsonValue::Str(s, _)) => Some(s@),
        _ => None,
    }
}

/// The JSON text of `v`, when it is a string.
pub open spec fn jstr_text(v: Option<JsonValue>) -> Option<Seq<char>> {
    match v {
        Some(JsonValue::Str(_, t)) => Some(t@),
        _ => None,
    }
}

/// The value of `v`, when it is a whole number within `i64`.
pub open spec fn jint(v: Option<JsonValue>) -> Option<i64> {
    match v {
        Some(JsonValue::Int(n, _)) => Some(n),
        _ => None,
    }
}

/// The items of `v`, when it is an array.
pub open spec fn jarr(v: Option<JsonValue>) -> Option<Seq<JsonValue>> {
    match v {
        Some(JsonValue::Array(a, _)) => Some(a@),
        _ => None,
    }
}

/// The compact JSON text of a value.
pub open spec fn json_text(v: JsonValue) -> Seq<char> {
    match v {
        JsonValue::Null => "null"@,
        JsonValue::Bool(b) => if b {
            "true"@
        } else {
            "false"@
        },
        JsonValue::Int(_, t) => t@,
        JsonValue::Num(t) => t@,
        JsonValue::Str(_, t) => t@,
        JsonValue::Array(_, t) => t@,
        JsonValue::Object(_, t) => t@,
    }
}

/// The first of two options that holds a value.
pub open spec fn or_else<T>(a: Option<T>, b: Option<T>) -> Option<T> {
    match a {
        Some(x) => Some(x),
        None => b,
    }
}

/// The value a reference points to.
pub open spec fn deref_opt(v: Option<&JsonValue>) -> Option<JsonValue> {
    match v {
        Some(x) => Some(*x),
        None => None,
    }
}

/// The member `key` of `v` (`Value::get`).
pub fn get<'a>(v: Option<&'a JsonValue>, key: &str) -> (r: Option<&'a JsonValue>)
    ensures
        deref_opt(r) == jget(deref_opt(v), key@),
{
    match v {
        Some(JsonValue::Object(ms, _)) => {
            let mut i: usize = 0;
            assert(ms@.skip(0) =~= ms@);
            while i < ms.len()
                invariant
                    0 <= i <= ms@.len(),
                    jget(deref_opt(v), key@) == member(ms@, key@),
                    member(ms@, key@) == member(ms@.skip(i as int), key@),
                decreases ms@.len() - i,
            {
                assert(ms@.skip(i as int).drop_first() =~= ms@.skip(i + 1));
                assert(ms@.skip(i as int)[0] == ms@[i as int]);
                if crate::str_map::str_eq(ms[i].0.as_str(), key) {
                    return Some(&ms[i].1);
                }
                i = i + 1;
            }
            None
        },
        _ => None,
    }
}

/// The value of `v`, when it is a string (`Value::as_str`).
pub fn as_str<'a>(v: Option<&'a JsonValue>) -> (r: Option<&'a String>)
    ensures
        match r {
            Some(s) => jstr(deref_opt(v)) == Some(s@),
            None => jstr(deref_opt(v)) is None,
        },
{
    match v {
        Some(JsonValue::Str(s, _)) => Some(s),
        _ => None,
    }
}

/// The JSON text of `v`, when it is a string.
pub fn as_str_text<'a>(v: Option<&'a JsonValue>) -> (r: Option<&'a String>)
    ensures
        match r {
            Some(s) => jstr_text(deref_opt(v)) == Some(s@),
            None => jstr_text(deref_opt(v)) is None,
        },
{
    match v {
        Some(JsonValue::Str(_, t)) => Some(t),
        _ => None,
    }
}

/// The value of `v`, when it is a whole number within `i64`
/// (`Value::as_i64`).
pub fn as_i64(v: Option<&JsonValue>) -> (r: Option<i64>)
    ensures
        r == jint(deref_opt(v)),
{
    match v {
        Some(JsonValue::Int(n, _)) => Some(*n),
        _ => None,
    }
}

/// The items of `v`, when it is an array (`Value::as_array`).
pub fn as_array<'a>(v: Option<&'a JsonValue>) -> (r: Option<&'a Vec<JsonValue>>)
    ensures
        match r {
            Some(a) => jarr(deref_opt(v)) == Some(a@),
            None => jarr(deref_opt(v)) is None,
        },
{
    match v {
        Some(JsonValue::Array(a, _)) => Some(a),
        _ => None,
    }
}

/// The compact JSON text of a value.
pub fn json_text_of(v: &JsonValue) -> (r: String)
    ensures
        r@ == json_text(*v),
{
    match v {
        JsonValue::Null => "null".to_owned(),
        JsonValue::Bool(b) => if *b {
            "true".to_owned()
        } else {
            "false".to_owned()
        },
        JsonValue::Int(_, t) => t.clone(),
        JsonValue::Num(t) => t.clone(),
        JsonValue::Str(_, t) => t.clone(),
        JsonValue::Array(_, t) => t.clone(),
        JsonValue::Object(_, t) => t.clone(),
    }
}

/// What a JSON value holds, without the texts it carries: the value as
/// JSON compares it.
pub enum JView {
    Null,
    Bool(bool),
    Int(i64),
    /// A number outside `i64` or not whole, by its JSON text.
    Num(Seq<char>),
    Str(Seq<char>),
    Array(Seq<JView>),
    Object(Seq<(Seq<char>, JView)>),
}

/// What a JSON value holds (see `JView`).
pub open spec fn jview(v: JsonValue) -> JView
    decreases v,
{
    match v {
        JsonValue::Null => JView::Null,
        JsonValue::Bool(b) => JView::Bool(b),
        JsonValue::Int(n, _) => JView::Int(n),
        JsonValue::Num(t) => JView::Num(t@),
        JsonValue::Str(s, _) => JView::Str(s@),
        JsonValue::Array(xs, _) => JView::Array(jviews(xs@)),
        JsonValue::Object(ms, _) => JView::Object(jmembers(ms@)),
    }
}

/// What each of the values holds, in order.
pub open spec fn jviews(s: Seq<JsonValue>) -> Seq<JView>
    decreases s,
{
    if s.len() == 0 {
        Seq::empty()
    } else {
        jviews(s.subrange(0, s.len() - 1)).push(jview(s[s.len() - 1]))
    }
}

/// The members' names and what their values hold, in order.
pub open spec fn jmembers(s: Seq<(String, JsonValue)>) -> Seq<(Seq<char>, JView)>
    decreases s,
{
    if s.len() == 0 {
        Seq::empty()
    } else {
        jmembers(s.subrange(0, s.len() - 1)).push((s[s.len() - 1].0@, jview(s[s.len() - 1].1)))
    }
}

/// `jviews` maps each value by `jview`.
pub proof fn lemma_jviews(s: Seq<JsonValue>)
    ensures
        jviews(s).len() == s.len(),
        forall|i: int| 0 <= i < s.len() ==> #[trigger] jviews(s)[i] == jview(s[i]),
    decreases s.len(),
{
    if s.len() > 0 {
        lemma_jviews(s.subrange(0, s.len() - 1));
    }
}

/// `jmembers` maps each member by its name's view and `jview`.
pub proof fn lemma_jmembers(s: Seq<(String, JsonValue)>)
    ensures
        jmembers(s).len() == s.len(),
        forall|i: int| 0 <= i < s.len() ==> #[trigger] jmembers(s)[i] == (s[i].0@, jview(s[i].1)),
    decreases s.len(),
{
    if s.len() > 0 {
        lemma_jmembers(s.subrange(0, s.len() - 1));
    }
}

/// A copy of a JSON value.
pub fn json_clone(v: &JsonValue) -> (r: JsonValue)
    ensures
        jview(r) == jview(*v),
    decreases v,
{
    match v {
        JsonValue::Null => JsonValue::Null,
        JsonValue::Bool(b) => JsonValue::Bool(*b),
        JsonValue::Int(n, t) => JsonValue::Int(*n, t.clone()),
        JsonValue::Num(t) => JsonValue::Num(t.clone()),
        JsonValue::Str(x, t) => JsonValue::Str(x.clone(), t.clone()),
        JsonValue::Array(xs, t) => {
            let mut out: Vec<JsonValue> = Vec::new();
            let mut i: usize = 0;
            while i < xs.len()
                invariant
                    0 <= i <= xs@.len(),
                    *v == JsonValue::Array(*xs, *t),
                    out@.len() == i,
                    forall|j: int| 0 <= j < i ==> jview(#[trigger] out@[j]) == jview(xs@[j]),
                decreases xs@.len() - i,
            {
                proof {
                    let ghost w = *v;
                    assert(w->Array_0 == *xs);
                    assert(decreases_to!(w => w->Array_0));
                    assert(decreases_to!(*xs => xs[i as int]));
                }
                let c = json_clone(&xs[i]);
                out.push(c);
                i = i + 1;
            }
            proof {
                lemma_jviews(out@);
                lemma_jviews(xs@);
                assert(jviews(out@) =~= jviews(xs@));
            }
            JsonValue::Array(out, t.clone())
        },
        JsonValue::Object(ms, t) => {
            let mut out: Vec<(String, JsonValue)> = Vec::new();
            let mut i: usize = 0;
            while i < ms.len()
                invariant
                    0 <= i <= ms@.len(),
                    *v == JsonValue::Object(*ms, *t),
                    out@.len() == i,
                    forall|j: int|
                        0 <= j < i ==> (#[trigger] out@[j]).0@ == ms@[j].0@ && jview(out@[j].1) == jview(
                            ms@[j].1,
                        ),
                decreases ms@.len() - i,
            {
                proof {
                    let ghost w = *v;
                    assert(w->Object_0 == *ms);
                    assert(decreases_to!(w => w->Object_0));
                    assert(decreases_to!(*ms => ms[i as int]));
                    assert(decreases_to!(ms[i as int] => ms[i as int].1));
                }
                let c = json_clone(&ms[i].1);
                out.push((ms[i].0.clone(), c));
                i = i + 1;
            }
            proof {
                lemma_jmembers(out@);
                lemma_jmembers(ms@);
                assert(jmembers(out@) =~= jmembers(ms@));
            }
            JsonValue::Object(out, t.clone())
        },
    }
}

/// Whether two JSON values hold the same (`==` on `serde_json::Value`):
/// arrays item by item, objects member by member in order.
pub fn json_equal(a: &JsonValue, b: &JsonValue) -> (r: bool)
    ensures
        r == (jview(*a) == jview(*b)),
    decreases a,
{
    match (a, b) {
        (JsonValue::Null, JsonValue::Null) => true,
        (JsonValue::Bool(x), JsonValue::Bool(y)) => *x == *y,
        (JsonValue::Int(x, _), JsonValue::Int(y, _)) => *x == *y,
        (JsonValue::Num(x), JsonValue::Num(y)) => crate::str_map::str_eq(x.as_str(), y.as_str()),
        (JsonValue::Str(x, _), JsonValue::Str(y, _)) => crate::str_map::str_eq(x.as_str(), y.as_str()),
        (JsonValue::Array(xs, xt), JsonValue::Array(ys, yt)) => {
            proof {
                lemma_jviews(xs@);
                lemma_jviews(ys@);
            }
            if xs.len() != ys.len() {
                assert(jviews(xs@).len() != jviews(ys@).len());
                return false;
            }
            let mut i: usize = 0;
            while i < xs.len()
                invariant
                    0 <= i <= xs@.len(),
                    *a == JsonValue::Array(*xs, *xt),
                    *b == JsonValue::Array(*ys, *yt),
                    xs@.len() == ys@.len(),
                    jviews(xs@).len() == xs@.len(),
                    jviews(ys@).len() == ys@.len(),
                    forall|k: int| 0 <= k < xs@.len() ==> #[trigger] jviews(xs@)[k] == jview(xs@[k]),
                    forall|k: int| 0 <= k < ys@.len() ==> #[trigger] jviews(ys@)[k] == jview(ys@[k]),
                    forall|j: int| 0 <= j < i ==> jview(#[trigger] xs@[j]) == jview(ys@[j]),
                decreases xs@.len() - i,
            {
                proof {
                    assert(decreases_to!(xs => xs[i as int]));
                }
                if !json_equal(&xs[i], &ys[i]) {
                    assert(jviews(xs@)[i as int] != jviews(ys@)[i as int]);
                    return false;
                }
                i = i + 1;
            }
            assert(jviews(xs@) =~= jviews(ys@));
            true
        },
        (JsonValue::Object(xs, xt), JsonValue::Object(ys, yt)) => {
            proof {
                lemma_jmembers(xs@);
                lemma_jmembers(ys@);
            }
            if xs.len() != ys.len() {
                assert(jmembers(xs@).len() != jmembers(ys@).len());
                return false;
            }
            let mut i: usize = 0;
            while i < xs.len()
                invariant
                    0 <= i <= xs@.len(),
                    *a == JsonValue::Object(*xs, *xt),
                    *b == JsonValue::Object(*ys, *yt),
                    xs@.len() == ys@.len(),
                    jmembers(xs@).len() == xs@.len(),
                    jmembers(ys@).len() == ys@.len(),
                    forall|k: int| 0 <= k < xs@.len() ==> #[trigger] jmembers(xs@)[k] == (xs@[k].0@, jview(xs@[k].1)),
                    forall|k: int| 0 <= k < ys@.len() ==> #[trigger] jmembers(ys@)[k] == (ys@[k].0@, jview(ys@[k].1)),
                    forall|j: int| 0 <= j < i ==> #[trigger] jmembers(xs@)[j] == jmembers(ys@)[j],
                decreases xs@.len() - i,
            {
                proof {
                    assert(decreases_to!(xs => xs[i as int]));
                    assert(decreases_to!(xs[i as int] => xs[i as int].1));
                }
                if !crate::str_map::str_eq(xs[i].0.as_str(), ys[i].0.as_str()) {
                    assert(jmembers(xs@)[i as int] != jmembers(ys@)[i as int]);
                    return false;
                }
                if !json_equal(&xs[i].1, &ys[i].1) {
                    assert(jmembers(xs@)[i as int] != jmembers(ys@)[i as int]);
                    return false;
                }
                assert(jmembers(xs@)[i as int] == jmembers(ys@)[i as int]);
                i = i + 1;
            }
            assert(jmembers(xs@) =~= jmembers(ys@));
            true
        },
        _ => false,
    }
}

} // verus!
