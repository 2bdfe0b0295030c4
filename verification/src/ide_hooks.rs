//! The hooks that git-ai installs into the settings of coding agents: merging
//! them into what a settings file already holds, without duplicates.
use vstd::prelude::*;
use crate::json::{
    JView, JsonValue, jmembers, json_clone, json_equal, jview, jviews, lemma_jmembers, lemma_jviews,
};
use crate::str_map::str_eq;

verus! {

/// The position of the first member named `key`.
pub open spec fn member_index(ms: Seq<(Seq<char>, JView)>, key: Seq<char>) -> Option<int>
    decreases ms.len(),
{
    if ms.len() == 0 {
        None
    } else if ms[0].0 == key {
        Some(0)
    } else {
        match member_index(ms.drop_first(), key) {
            Some(i) => Some(i + 1),
            None => None,
        }
    }
}

/// The value of the first member named `key`.
pub open spec fn vmember(ms: Seq<(Seq<char>, JView)>, key: Seq<char>) -> Option<JView> {
    match member_index(ms, key) {
        Some(i) => Some(ms[i].1),
        None => None,
    }
}

/// The member `key` of `v`, when `v` is an object (`Value::get`).
pub open spec fn vget(v: JView, key: Seq<char>) -> Option<JView> {
    match v {
        JView::Object(ms) => vmember(ms, key),
        _ => None,
    }
}

/// The value of `v`, when it is a string.
pub open spec fn vstr(v: Option<JView>) -> Option<Seq<char>> {
    match v {
        Some(JView::Str(s)) => Some(s),
        _ => None,
    }
}

/// The items of `v`, when it is an array.
pub open spec fn varr(v: Option<JView>) -> Option<Seq<JView>> {
    match v {
        Some(JView::Array(a)) => Some(a),
        _ => None,
    }
}

/// The members with `key` set to `val` (`Map::insert`): the first member
/// named `key` takes the value, or a new member comes last.
pub open spec fn vinsert(ms: Seq<(Seq<char>, JView)>, key: Seq<char>, val: JView) -> Seq<(Seq<char>, JView)> {
    match member_index(ms, key) {
        Some(i) => ms.update(i, (key, val)),
        None => ms.push((key, val)),
    }
}

/// `member_index` is the first position that holds the name.
pub proof fn lemma_member_index(ms: Seq<(Seq<char>, JView)>, key: Seq<char>)
    ensures
        match member_index(ms, key) {
            Some(i) => 0 <= i < ms.len() && ms[i].0 == key && forall|j: int| 0 <= j < i ==> ms[j].0 != key,
            None => forall|j: int| 0 <= j < ms.len() ==> ms[j].0 != key,
        },
    decreases ms.len(),
{
    if ms.len() > 0 {
        lemma_member_index(ms.drop_first(), key);
        if ms[0].0 != key {
            match member_index(ms.drop_first(), key) {
                Some(i) => {
                    assert forall|j: int| 0 <= j < i + 1 implies ms[j].0 != key by {
                        if j > 0 {
                            assert(ms[j] == ms.drop_first()[j - 1]);
                        }
                    }
                },
                None => {
                    assert forall|j: int| 0 <= j < ms.len() implies ms[j].0 != key by {
                        if j > 0 {
                            assert(ms[j] == ms.drop_first()[j - 1]);
                        }
                    }
                },
            }
        }
    }
}

/// The position of the first member of `ms` named `key`.
fn member_position(ms: &Vec<(String, JsonValue)>, key: &str) -> (r: Option<usize>)
    ensures
        match r {
            Some(i) => i < ms@.len() && member_index(jmembers(ms@), key@) == Some(i as int),
            None => member_index(jmembers(ms@), key@) is None,
        },
{
    proof {
        lemma_jmembers(ms@);
        lemma_member_index(jmembers(ms@), key@);
    }
    let mut i: usize = 0;
    while i < ms.len()
        invariant
            0 <= i <= ms@.len(),
            jmembers(ms@).len() == ms@.len(),
            forall|k: int| 0 <= k < ms@.len() ==> #[trigger] jmembers(ms@)[k] == (ms@[k].0@, jview(ms@[k].1)),
            forall|j: int| 0 <= j < i ==> (#[trigger] jmembers(ms@)[j]).0 != key@,
        decreases ms@.len() - i,
    {
        if str_eq(ms[i].0.as_str(), key) {
            assert(jmembers(ms@)[i as int].0 == key@);
            proof {
                lemma_member_index(jmembers(ms@), key@);
            }
            return Some(i);
        }
        assert(jmembers(ms@)[i as int].0 != key@);
        i = i + 1;
    }
    None
}

/// The member `key` of `v`, when `v` is an object that has one.
fn obj_get<'a>(v: &'a JsonValue, key: &str) -> (r: Option<&'a JsonValue>)
    ensures
        match r {
            Some(x) => vget(jview(*v), key@) == Some(jview(*x)),
            None => vget(jview(*v), key@) is None,
        },
{
    match v {
        JsonValue::Object(ms, _) => {
            proof {
                lemma_jmembers(ms@);
            }
            match member_position(ms, key) {
                Some(i) => Some(&ms[i].1),
                None => None,
            }
        },
        _ => None,
    }
}

/// The value of `v`, when it is a string.
fn str_of<'a>(v: Option<&'a JsonValue>) -> (r: Option<&'a String>)
    ensures
        match r {
            Some(s) => v is Some && vstr(Some(jview(*v->0))) == Some(s@),
            None => v is None || vstr(Some(jview(*v->0))) is None,
        },
{
    match v {
        Some(JsonValue::Str(s, _)) => Some(s),
        _ => None,
    }
}

/// The items of `v`, when it is an array.
fn arr_of<'a>(v: Option<&'a JsonValue>) -> (r: Option<&'a Vec<JsonValue>>)
    ensures
        match r {
            Some(a) => v is Some && varr(Some(jview(*v->0))) == Some(jviews(a@)),
            None => v is None || varr(Some(jview(*v->0))) is None,
        },
{
    match v {
        Some(JsonValue::Array(a, _)) => Some(a),
        _ => None,
    }
}

/// The members with `key` set to `val` (see `vinsert`).
fn members_insert(ms: Vec<(String, JsonValue)>, key: &str, val: JsonValue) -> (r: Vec<(String, JsonValue)>)
    ensures
        jmembers(r@) == vinsert(jmembers(ms@), key@, jview(val)),
{
    let mut ms = ms;
    proof {
        lemma_jmembers(ms@);
    }
    let k = key.to_owned();
    let ghost v = jview(val);
    match member_position(&ms, key) {
        Some(i) => {
            let ghost before = ms@;
            ms.set(i, (k, val));
            proof {
                lemma_jmembers(ms@);
                assert(jmembers(ms@) =~= jmembers(before).update(i as int, (key@, v)));
            }
        },
        None => {
            let ghost before = ms@;
            ms.push((k, val));
            proof {
                lemma_jmembers(ms@);
                assert(jmembers(ms@) =~= jmembers(before).push((key@, v)));
            }
        },
    }
    ms
}

/// Copies of the values, in order.
fn clone_items(xs: &Vec<JsonValue>) -> (r: Vec<JsonValue>)
    ensures
        jviews(r@) == jviews(xs@),
{
    let mut out: Vec<JsonValue> = Vec::new();
    let mut i: usize = 0;
    while i < xs.len()
        invariant
            0 <= i <= xs@.len(),
            out@.len() == i,
            forall|j: int| 0 <= j < i ==> jview(#[trigger] out@[j]) == jview(xs@[j]),
        decreases xs@.len() - i,
    {
        out.push(json_clone(&xs[i]));
        i = i + 1;
    }
    proof {
        lemma_jviews(out@);
        lemma_jviews(xs@);
        assert(jviews(out@) =~= jviews(xs@));
    }
    out
}

/// Copies of the members, in order.
fn clone_members(ms: &Vec<(String, JsonValue)>) -> (r: Vec<(String, JsonValue)>)
    ensures
        jmembers(r@) == jmembers(ms@),
{
    let mut out: Vec<(String, JsonValue)> = Vec::new();
    let mut i: usize = 0;
    while i < ms.len()
        invariant
            0 <= i <= ms@.len(),
            out@.len() == i,
            forall|j: int|
                0 <= j < i ==> (#[trigger] out@[j]).0@ == ms@[j].0@ && jview(out@[j].1) == jview(ms@[j].1),
        decreases ms@.len() - i,
    {
        out.push((ms[i].0.clone(), json_clone(&ms[i].1)));
        i = i + 1;
    }
    proof {
        lemma_jmembers(out@);
        lemma_jmembers(ms@);
        assert(jmembers(out@) =~= jmembers(ms@));
    }
    out
}

/// The `command` of a hook, when it has one that is a string.
pub open spec fn hook_command(h: JView) -> Option<Seq<char>> {
    vstr(vget(h, "command"@))
}

/// Whether `hooks` already hold `d`: a hook equal to it, or one with the
/// same command.
pub open spec fn is_dup(hooks: Seq<JView>, d: JView) -> bool {
    exists|k: int|
        0 <= k < hooks.len() && (hooks[k] == d || (hook_command(d) is Some && #[trigger] hook_command(
            hooks[k],
        ) == hook_command(d)))
}

/// `hooks` with each of `ds` in turn appended, unless the list already
/// holds it (see `is_dup`).
pub open spec fn add_hooks(hooks: Seq<JView>, ds: Seq<JView>) -> Seq<JView>
    decreases ds.len(),
{
    if ds.len() == 0 {
        hooks
    } else {
        let acc = add_hooks(hooks, ds.drop_last());
        if is_dup(acc, ds.last()) {
            acc
        } else {
            acc.push(ds.last())
        }
    }
}

/// The `matcher` of a block of hooks, when it has one that is a string.
pub open spec fn block_matcher(b: JView) -> Option<Seq<char>> {
    vstr(vget(b, "matcher"@))
}

/// The position of the last block whose matcher is `m`.
pub open spec fn last_block(arr: Seq<JView>, m: Seq<char>) -> Option<int>
    decreases arr.len(),
{
    if arr.len() == 0 {
        None
    } else if block_matcher(arr.last()) == Some(m) {
        Some(arr.len() - 1)
    } else {
        last_block(arr.drop_last(), m)
    }
}

/// A new block for the matcher `m`, with no hooks.
pub open spec fn new_block(m: Seq<char>) -> JView {
    JView::Object(seq![("hooks"@, JView::Array(Seq::empty())), ("matcher"@, JView::Str(m))])
}

/// The block `b` with the hooks of the desired block `item` added to its
/// own (see `add_hooks`), when both have a list of hooks; else `b`.
pub open spec fn merged_block(b: JView, item: JView) -> JView {
    match (varr(vget(b, "hooks"@)), varr(vget(item, "hooks"@)), b) {
        (Some(th), Some(dh), JView::Object(ms)) => JView::Object(
            vinsert(ms, "hooks"@, JView::Array(add_hooks(th, dh))),
        ),
        _ => b,
    }
}

/// The blocks `arr` after the desired block `item`: its hooks go into the
/// last block with the same matcher, or into a new block at the end; an item
/// without a matcher changes nothing.
pub open spec fn item_step(arr: Seq<JView>, item: JView) -> Seq<JView> {
    match block_matcher(item) {
        None => arr,
        Some(m) => match last_block(arr, m) {
            Some(t) => arr.update(t, merged_block(arr[t], item)),
            None => arr.push(merged_block(new_block(m), item)),
        },
    }
}

/// The blocks `arr` after each of the desired blocks in turn.
pub open spec fn items_fold(arr: Seq<JView>, items: Seq<JView>) -> Seq<JView>
    decreases items.len(),
{
    if items.len() == 0 {
        arr
    } else {
        item_step(items_fold(arr, items.drop_last()), items.last())
    }
}

/// The members `ms` of the existing hooks after the desired list `key` of
/// `desired`: the existing list (empty when there is none) after each
/// desired block, set as `key`. Nothing changes when `desired` has no such
/// list.
pub open spec fn key_merge(ms: Seq<(Seq<char>, JView)>, desired: JView, key: Seq<char>) -> Seq<(Seq<char>, JView)> {
    match varr(vget(desired, key)) {
        None => ms,
        Some(ds) => {
            let existing = match varr(vmember(ms, key)) {
                Some(a) => a,
                None => Seq::empty(),
            };
            vinsert(ms, key, JView::Array(items_fold(existing, ds)))
        },
    }
}

/// The existing hooks (an empty object when there are none) with the
/// desired `PreToolUse` and `PostToolUse` blocks merged in (see
/// `key_merge`); unchanged when nothing is desired or they are not an
/// object.
pub open spec fn merge_hooks_spec(existing: Option<JView>, desired: Option<JView>) -> JView {
    let result = match existing {
        Some(e) => e,
        None => JView::Object(Seq::empty()),
    };
    match (desired, result) {
        (Some(d), JView::Object(ms)) => JView::Object(
            key_merge(key_merge(ms, d, "PreToolUse"@), d, "PostToolUse"@),
        ),
        _ => result,
    }
}

/// What an optional value holds.
pub open spec fn opt_jview(v: Option<&JsonValue>) -> Option<JView> {
    match v {
        Some(x) => Some(jview(*x)),
        None => None,
    }
}

/// `jviews` of a longer list.
proof fn lemma_jviews_push(s: Seq<JsonValue>, x: JsonValue)
    ensures
        jviews(s.push(x)) == jviews(s).push(jview(x)),
{
    assert(s.push(x).subrange(0, s.len() as int) =~= s);
}

/// `jviews` of a list with one value replaced.
proof fn lemma_jviews_update(s: Seq<JsonValue>, i: int, x: JsonValue)
    requires
        0 <= i < s.len(),
    ensures
        jviews(s.update(i, x)) == jviews(s).update(i, jview(x)),
{
    lemma_jviews(s);
    lemma_jviews(s.update(i, x));
    assert(jviews(s.update(i, x)) =~= jviews(s).update(i, jview(x)));
}

/// The `command` of a hook (see `hook_command`).
fn command_of(h: &JsonValue) -> (r: Option<&String>)
    ensures
        match r {
            Some(c) => hook_command(jview(*h)) == Some(c@),
            None => hook_command(jview(*h)) is None,
        },
{
    str_of(obj_get(h, "command"))
}

/// Whether `hooks` already hold `d` (see `is_dup`).
fn is_duplicate(hooks: &Vec<JsonValue>, d: &JsonValue) -> (r: bool)
    ensures
        r == is_dup(jviews(hooks@), jview(*d)),
{
    proof {
        lemma_jviews(hooks@);
    }
    let dc = command_of(d);
    let mut k: usize = 0;
    while k < hooks.len()
        invariant
            0 <= k <= hooks@.len(),
            jviews(hooks@).len() == hooks@.len(),
            forall|j: int| 0 <= j < hooks@.len() ==> #[trigger] jviews(hooks@)[j] == jview(hooks@[j]),
            match dc {
                Some(c) => hook_command(jview(*d)) == Some(c@),
                None => hook_command(jview(*d)) is None,
            },
            forall|j: int|
                0 <= j < k ==> !(jviews(hooks@)[j] == jview(*d) || (hook_command(jview(*d)) is Some
                    && #[trigger] hook_command(jviews(hooks@)[j]) == hook_command(jview(*d)))),
        decreases hooks@.len() - k,
    {
        if json_equal(&hooks[k], d) {
            assert(jviews(hooks@)[k as int] == jview(*d));
            return true;
        }
        let ec = command_of(&hooks[k]);
        match (dc, ec) {
            (Some(a), Some(b)) => {
                if str_eq(a.as_str(), b.as_str()) {
                    assert(hook_command(jviews(hooks@)[k as int]) == hook_command(jview(*d)));
                    return true;
                }
            },
            _ => {},
        }
        assert(hook_command(jviews(hooks@)[k as int]) == hook_command(jview(hooks@[k as int])));
        k = k + 1;
    }
    false
}

/// Adds each of `ds` in turn to `hooks`, unless they already hold it (see
/// `add_hooks`).
fn add_hooks_exec(hooks: &mut Vec<JsonValue>, ds: &Vec<JsonValue>)
    ensures
        jviews(final(hooks)@) == add_hooks(jviews(old(hooks)@), jviews(ds@)),
{
    let ghost h0 = jviews(hooks@);
    let mut i: usize = 0;
    assert(ds@.take(0) =~= Seq::<JsonValue>::empty());
    while i < ds.len()
        invariant
            0 <= i <= ds@.len(),
            jviews(hooks@) == add_hooks(h0, jviews(ds@.take(i as int))),
        decreases ds@.len() - i,
    {
        let ghost t = ds@.take(i + 1);
        assert(t.subrange(0, i as int) =~= ds@.take(i as int));
        assert(jviews(t).drop_last() =~= jviews(ds@.take(i as int)));
        assert(jviews(t).last() == jview(ds@[i as int]));
        proof {
            lemma_jviews(t);
        }
        if !is_duplicate(hooks, &ds[i]) {
            let c = json_clone(&ds[i]);
            let ghost before = hooks@;
            hooks.push(c);
            proof {
                lemma_jviews_push(before, c);
            }
        }
        i = i + 1;
    }
    assert(ds@.take(i as int) =~= ds@);
}

/// The matcher of a block (see `block_matcher`).
fn matcher_of(b: &JsonValue) -> (r: Option<&String>)
    ensures
        match r {
            Some(m) => block_matcher(jview(*b)) == Some(m@),
            None => block_matcher(jview(*b)) is None,
        },
{
    str_of(obj_get(b, "matcher"))
}

/// The position of the last block whose matcher is `m` (see `last_block`).
fn last_block_index(arr: &Vec<JsonValue>, m: &String) -> (r: Option<usize>)
    ensures
        match r {
            Some(t) => t < arr@.len() && last_block(jviews(arr@), m@) == Some(t as int),
            None => last_block(jviews(arr@), m@) is None,
        },
{
    let mut i: usize = arr.len();
    assert(arr@.take(i as int) =~= arr@);
    while i > 0
        invariant
            0 <= i <= arr@.len(),
            last_block(jviews(arr@), m@) == last_block(jviews(arr@.take(i as int)), m@),
        decreases i,
    {
        let ghost t = arr@.take(i as int);
        assert(t.subrange(0, i - 1) =~= arr@.take(i - 1));
        assert(jviews(t).drop_last() =~= jviews(arr@.take(i - 1)));
        proof {
            lemma_jviews(t);
        }
        assert(jviews(t).last() == jview(arr@[i - 1]));
        let found = match matcher_of(&arr[i - 1]) {
            Some(x) => str_eq(x.as_str(), m.as_str()),
            None => false,
        };
        if found {
            return Some(i - 1);
        }
        i = i - 1;
    }
    assert(jviews(arr@.take(0)) =~= Seq::<JView>::empty());
    None
}

/// A new block for the matcher `m`, with no hooks (see `new_block`).
fn new_block_exec(m: &String) -> (r: JsonValue)
    ensures
        jview(r) == new_block(m@),
{
    let ms: Vec<(String, JsonValue)> = vec![
        ("hooks".to_owned(), JsonValue::Array(Vec::new(), String::new())),
        ("matcher".to_owned(), JsonValue::Str(m.clone(), String::new())),
    ];
    proof {
        reveal_strlit("hooks");
        reveal_strlit("matcher");
        lemma_jmembers(ms@);
        assert(jviews(Seq::<JsonValue>::empty()) =~= Seq::<JView>::empty());
        assert(jmembers(ms@) =~= seq![("hooks"@, JView::Array(Seq::empty())), ("matcher"@, JView::Str(m@))]);
    }
    JsonValue::Object(ms, String::new())
}

/// The block `b` with the hooks of the desired block `item` added (see
/// `merged_block`).
fn merged_block_exec(b: &JsonValue, item: &JsonValue) -> (r: JsonValue)
    ensures
        jview(r) == merged_block(jview(*b), jview(*item)),
{
    match (arr_of(obj_get(b, "hooks")), arr_of(obj_get(item, "hooks"))) {
        (Some(th), Some(dh)) => match b {
            JsonValue::Object(ms, _) => {
                let mut nh = clone_items(th);
                add_hooks_exec(&mut nh, dh);
                let ms2 = clone_members(ms);
                let ms3 = members_insert(ms2, "hooks", JsonValue::Array(nh, String::new()));
                JsonValue::Object(ms3, String::new())
            },
            _ => json_clone(b),
        },
        _ => json_clone(b),
    }
}

/// The blocks `arr` after the desired block `item` (see `item_step`).
fn item_step_exec(arr: &mut Vec<JsonValue>, item: &JsonValue)
    ensures
        jviews(final(arr)@) == item_step(jviews(old(arr)@), jview(*item)),
{
    match matcher_of(item) {
        None => {},
        Some(m) => match last_block_index(arr, m) {
            Some(t) => {
                let nb = merged_block_exec(&arr[t], item);
                let ghost before = arr@;
                proof {
                    lemma_jviews(before);
                }
                arr.set(t, nb);
                proof {
                    lemma_jviews_update(before, t as int, nb);
                }
            },
            None => {
                let blk = new_block_exec(m);
                let nb = merged_block_exec(&blk, item);
                let ghost before = arr@;
                arr.push(nb);
                proof {
                    lemma_jviews_push(before, nb);
                }
            },
        },
    }
}

/// The members `ms` after the desired list `key` of `desired` (see
/// `key_merge`).
fn key_merge_exec(ms: Vec<(String, JsonValue)>, desired: &JsonValue, key: &str) -> (r: Vec<(String, JsonValue)>)
    ensures
        jmembers(r@) == key_merge(jmembers(ms@), jview(*desired), key@),
{
    match arr_of(obj_get(desired, key)) {
        None => ms,
        Some(ds) => {
            proof {
                lemma_jmembers(ms@);
            }
            let mut arr: Vec<JsonValue> = match member_position(&ms, key) {
                Some(i) => match &ms[i].1 {
                    JsonValue::Array(a, _) => clone_items(a),
                    _ => Vec::new(),
                },
                None => Vec::new(),
            };
            let ghost existing = match varr(vmember(jmembers(ms@), key@)) {
                Some(a) => a,
                None => Seq::empty(),
            };
            assert(jviews(arr@) == existing);
            let mut j: usize = 0;
            assert(ds@.take(0) =~= Seq::<JsonValue>::empty());
            while j < ds.len()
                invariant
                    0 <= j <= ds@.len(),
                    jviews(arr@) == items_fold(existing, jviews(ds@.take(j as int))),
                decreases ds@.len() - j,
            {
                let ghost t = ds@.take(j + 1);
                assert(t.subrange(0, j as int) =~= ds@.take(j as int));
                assert(jviews(t).drop_last() =~= jviews(ds@.take(j as int)));
                proof {
                    lemma_jviews(t);
                }
                assert(jviews(t).last() == jview(ds@[j as int]));
                item_step_exec(&mut arr, &ds[j]);
                j = j + 1;
            }
            assert(ds@.take(j as int) =~= ds@);
            members_insert(ms, key, JsonValue::Array(arr, String::new()))
        },
    }
}

/// Merges the desired hooks into the existing ones (see
/// `merge_hooks_spec`): each desired block's hooks go into the existing
/// block with its matcher, or a new one, and a hook that is there already
/// (equal, or with the same command) is not added again.
pub fn merge_hooks(existing: Option<&JsonValue>, desired: Option<&JsonValue>) -> (r: Option<JsonValue>)
    ensures
        r matches Some(v) && jview(v) == merge_hooks_spec(opt_jview(existing), opt_jview(desired)),
{
    let result = match existing {
        Some(e) => json_clone(e),
        None => {
            assert(jmembers(Seq::<(String, JsonValue)>::empty()) =~= Seq::<(Seq<char>, JView)>::empty());
            JsonValue::Object(Vec::new(), String::new())
        },
    };
    let d = match desired {
        None => {
            return Some(result);
        },
        Some(d) => d,
    };
    match result {
        JsonValue::Object(ms, _) => {
            let ms1 = key_merge_exec(ms, d, "PreToolUse");
            let ms2 = key_merge_exec(ms1, d, "PostToolUse");
            Some(JsonValue::Object(ms2, String::new()))
        },
        other => Some(other),
    }
}

/// The command that Cursor runs after each edit to record a checkpoint.
pub open spec fn cursor_command() -> Seq<char> {
    "git-ai checkpoint cursor 2>/dev/null || true"@
}

/// The `afterEdit` hooks that git-ai wants in Cursor's settings.
pub open spec fn cursor_after_edit() -> Seq<JView> {
    seq![JView::Object(seq![("command"@, JView::Str(cursor_command()))])]
}

/// Cursor's hooks settings after installing git-ai's: a `version` of 1
/// when there is none, and git-ai's `afterEdit` hooks added to the existing
/// ones (see `add_hooks`) in the `hooks` object (an empty one when there is
/// none). Each change needs an object where it is made: what is not an
/// object stays as it is.
pub open spec fn cursor_hooks_spec(existing: JView) -> JView {
    let versioned = match existing {
        JView::Object(ms) => if vmember(ms, "version"@) is None {
            JView::Object(vinsert(ms, "version"@, JView::Int(1)))
        } else {
            existing
        },
        _ => existing,
    };
    let hooks = match vget(versioned, "hooks"@) {
        Some(h) => h,
        None => JView::Object(Seq::empty()),
    };
    let after = match varr(vget(hooks, "afterEdit"@)) {
        Some(a) => a,
        None => Seq::empty(),
    };
    let merged = match hooks {
        JView::Object(hs) => JView::Object(
            vinsert(hs, "afterEdit"@, JView::Array(add_hooks(after, cursor_after_edit()))),
        ),
        _ => hooks,
    };
    match versioned {
        JView::Object(ms) => JView::Object(vinsert(ms, "hooks"@, merged)),
        _ => versioned,
    }
}

/// git-ai's `afterEdit` hooks for Cursor (see `cursor_after_edit`).
fn cursor_after_edit_exec() -> (r: Vec<JsonValue>)
    ensures
        jviews(r@) == cursor_after_edit(),
{
    let hook_members: Vec<(String, JsonValue)> = vec![
        ("command".to_owned(), JsonValue::Str("git-ai checkpoint cursor 2>/dev/null || true".to_owned(), String::new())),
    ];
    proof {
        lemma_jmembers(hook_members@);
        assert(jmembers(hook_members@) =~= seq![("command"@, JView::Str(cursor_command()))]);
    }
    let r: Vec<JsonValue> = vec![JsonValue::Object(hook_members, String::new())];
    proof {
        lemma_jviews(r@);
        assert(jviews(r@) =~= cursor_after_edit());
    }
    r
}

/// Installs git-ai's hooks into Cursor's hooks settings (see
/// `cursor_hooks_spec`).
pub fn cursor_hooks_merge(existing: &JsonValue) -> (r: JsonValue)
    ensures
        jview(r) == cursor_hooks_spec(jview(*existing)),
{
    let versioned = match existing {
        JsonValue::Object(ms, _) => {
            proof {
                lemma_jmembers(ms@);
            }
            match member_position(ms, "version") {
                None => {
                    let ms2 = clone_members(ms);
                    proof {
                        reveal_strlit("1");
                    }
                    JsonValue::Object(
                        members_insert(ms2, "version", JsonValue::Int(1, "1".to_owned())),
                        String::new(),
                    )
                },
                Some(_) => json_clone(existing),
            }
        },
        _ => json_clone(existing),
    };
    let hooks = match obj_get(&versioned, "hooks") {
        Some(h) => json_clone(h),
        None => {
            assert(jmembers(Seq::<(String, JsonValue)>::empty()) =~= Seq::<(Seq<char>, JView)>::empty());
            JsonValue::Object(Vec::new(), String::new())
        },
    };
    let mut after = match arr_of(obj_get(&hooks, "afterEdit")) {
        Some(a) => clone_items(a),
        None => Vec::new(),
    };
    let desired = cursor_after_edit_exec();
    add_hooks_exec(&mut after, &desired);
    let merged = match hooks {
        JsonValue::Object(hs, _) => JsonValue::Object(
            members_insert(hs, "afterEdit", JsonValue::Array(after, String::new())),
            String::new(),
        ),
        other => other,
    };
    match versioned {
        JsonValue::Object(ms, _) => JsonValue::Object(members_insert(ms, "hooks", merged), String::new()),
        other => other,
    }
}

/// A position is `member_index` when it holds the name and none before it
/// does.
proof fn lemma_member_index_at(ms: Seq<(Seq<char>, JView)>, key: Seq<char>, i: int)
    requires
        0 <= i < ms.len(),
        ms[i].0 == key,
        forall|j: int| 0 <= j < i ==> ms[j].0 != key,
    ensures
        member_index(ms, key) == Some(i),
{
    lemma_member_index(ms, key);
    match member_index(ms, key) {
        Some(k) => {
            if k < i {
                assert(ms[k].0 != key);
            } else if k > i {
                assert(ms[i].0 != key);
            }
        },
        None => {
            assert(ms[i].0 != key);
        },
    }
}

/// After setting `key`, its value is the one set.
proof fn lemma_vinsert_get(ms: Seq<(Seq<char>, JView)>, key: Seq<char>, val: JView)
    ensures
        vmember(vinsert(ms, key, val), key) == Some(val),
{
    lemma_member_index(ms, key);
    let n = vinsert(ms, key, val);
    match member_index(ms, key) {
        Some(i) => {
            lemma_member_index_at(n, key, i);
        },
        None => {
            lemma_member_index_at(n, key, ms.len() as int);
        },
    }
}

/// Setting `key` leaves the other members' values as they were.
proof fn lemma_vinsert_other(ms: Seq<(Seq<char>, JView)>, key: Seq<char>, val: JView, other: Seq<char>)
    requires
        other != key,
    ensures
        vmember(vinsert(ms, key, val), other) == vmember(ms, other),
{
    lemma_member_index(ms, key);
    lemma_member_index(ms, other);
    let n = vinsert(ms, key, val);
    lemma_member_index(n, other);
    match member_index(ms, other) {
        Some(i) => {
            lemma_member_index_at(n, other, i);
        },
        None => {
            match member_index(n, other) {
                Some(j) => {
                    assert(n[j].0 == other);
                    if j < ms.len() {
                        assert(ms[j].0 != other);
                    }
                },
                None => {},
            }
        },
    }
}

/// Setting `key` to the value it has changes nothing.
proof fn lemma_vinsert_same(ms: Seq<(Seq<char>, JView)>, key: Seq<char>, val: JView)
    requires
        vmember(ms, key) == Some(val),
    ensures
        vinsert(ms, key, val) == ms,
{
    lemma_member_index(ms, key);
    let i = member_index(ms, key)->0;
    assert(ms.update(i, (key, val)) =~= ms);
}

/// Setting `key` twice to one value is setting it once.
proof fn lemma_vinsert_twice(ms: Seq<(Seq<char>, JView)>, key: Seq<char>, val: JView)
    ensures
        vinsert(vinsert(ms, key, val), key, val) == vinsert(ms, key, val),
{
    lemma_vinsert_get(ms, key, val);
    lemma_vinsert_same(vinsert(ms, key, val), key, val);
}

/// Adding hooks keeps the hooks there were, in front.
proof fn lemma_add_hooks_prefix(h: Seq<JView>, ds: Seq<JView>)
    ensures
        add_hooks(h, ds).len() >= h.len(),
        forall|i: int| 0 <= i < h.len() ==> #[trigger] add_hooks(h, ds)[i] == h[i],
    decreases ds.len(),
{
    if ds.len() > 0 {
        lemma_add_hooks_prefix(h, ds.drop_last());
    }
}

/// A hook that a list holds, a longer list with the same front holds too.
proof fn lemma_dup_extend(a: Seq<JView>, b: Seq<JView>, d: JView)
    requires
        is_dup(a, d),
        b.len() >= a.len(),
        forall|i: int| 0 <= i < a.len() ==> #[trigger] b[i] == a[i],
    ensures
        is_dup(b, d),
{
    let k = choose|k: int|
        0 <= k < a.len() && (a[k] == d || (hook_command(d) is Some && #[trigger] hook_command(a[k])
            == hook_command(d)));
    assert(b[k] == a[k]);
    assert(hook_command(b[k]) == hook_command(a[k]));
}

/// After adding hooks, the list holds each of them.
proof fn lemma_add_hooks_covers(h: Seq<JView>, ds: Seq<JView>)
    ensures
        forall|k: int| 0 <= k < ds.len() ==> is_dup(add_hooks(h, ds), #[trigger] ds[k]),
    decreases ds.len(),
{
    if ds.len() > 0 {
        let rest = ds.drop_last();
        lemma_add_hooks_covers(h, rest);
        let acc = add_hooks(h, rest);
        let r = add_hooks(h, ds);
        assert(forall|i: int| 0 <= i < acc.len() ==> #[trigger] r[i] == acc[i]);
        assert forall|k: int| 0 <= k < ds.len() implies is_dup(r, #[trigger] ds[k]) by {
            if k < ds.len() - 1 {
                assert(ds[k] == rest[k]);
                lemma_dup_extend(acc, r, rest[k]);
            } else if !is_dup(acc, ds.last()) {
                assert(r[acc.len() as int] == ds.last());
            }
        }
    }
}

/// Adding hooks that a list holds already changes nothing.
proof fn lemma_add_hooks_noop(h: Seq<JView>, ds: Seq<JView>)
    requires
        forall|k: int| 0 <= k < ds.len() ==> is_dup(h, #[trigger] ds[k]),
    ensures
        add_hooks(h, ds) == h,
    decreases ds.len(),
{
    if ds.len() > 0 {
        let rest = ds.drop_last();
        assert forall|k: int| 0 <= k < rest.len() implies is_dup(h, #[trigger] rest[k]) by {
            assert(rest[k] == ds[k]);
        }
        lemma_add_hooks_noop(h, rest);
        assert(is_dup(h, ds[ds.len() - 1]));
    }
}

/// Adding the same hooks a second time adds nothing: after one merge each of
/// them is there, equal or with the same command.
pub proof fn lemma_add_hooks_idempotent(h: Seq<JView>, ds: Seq<JView>)
    ensures
        add_hooks(add_hooks(h, ds), ds) == add_hooks(h, ds),
        forall|k: int| 0 <= k < ds.len() ==> is_dup(add_hooks(h, ds), #[trigger] ds[k]),
{
    lemma_add_hooks_covers(h, ds);
    lemma_add_hooks_noop(add_hooks(h, ds), ds);
}

/// Installing git-ai's hooks into Cursor's settings a second time changes
/// nothing.
pub proof fn lemma_cursor_hooks_idempotent(existing: JView)
    ensures
        cursor_hooks_spec(cursor_hooks_spec(existing)) == cursor_hooks_spec(existing),
{
    reveal_strlit("version");
    reveal_strlit("hooks");
    reveal_strlit("afterEdit");
    let once = cursor_hooks_spec(existing);
    match existing {
        JView::Object(ms) => {
            let vms = if vmember(ms, "version"@) is None {
                vinsert(ms, "version"@, JView::Int(1))
            } else {
                ms
            };
            if vmember(ms, "version"@) is None {
                lemma_vinsert_get(ms, "version"@, JView::Int(1));
            }
            assert(vmember(vms, "version"@) is Some);
            let hooks = match vmember(vms, "hooks"@) {
                Some(h) => h,
                None => JView::Object(Seq::empty()),
            };
            let after = match varr(vget(hooks, "afterEdit"@)) {
                Some(a) => a,
                None => Seq::empty(),
            };
            let na = add_hooks(after, cursor_after_edit());
            let merged = match hooks {
                JView::Object(hs) => JView::Object(vinsert(hs, "afterEdit"@, JView::Array(na))),
                _ => hooks,
            };
            let oms = vinsert(vms, "hooks"@, merged);
            assert(once == JView::Object(oms));
            assert("version"@.len() != "hooks"@.len());
            lemma_vinsert_other(vms, "hooks"@, merged, "version"@);
            lemma_vinsert_get(vms, "hooks"@, merged);
            match hooks {
                JView::Object(hs) => {
                    lemma_vinsert_get(hs, "afterEdit"@, JView::Array(na));
                    lemma_add_hooks_idempotent(after, cursor_after_edit());
                    lemma_vinsert_twice(hs, "afterEdit"@, JView::Array(na));
                },
                _ => {},
            }
            lemma_vinsert_twice(vms, "hooks"@, merged);
        },
        _ => {},
    }
}

/// Whether the desired block `item` is merged into `arr` already: its hooks
/// are all in the last block with its matcher (an item without a matcher
/// needs nothing).
pub open spec fn covered(arr: Seq<JView>, item: JView) -> bool {
    match block_matcher(item) {
        None => true,
        Some(m) => match last_block(arr, m) {
            None => false,
            Some(t) => merged_block(arr[t], item) == arr[t],
        },
    }
}

/// `last_block` is the last position whose block has the matcher.
proof fn lemma_last_block(arr: Seq<JView>, m: Seq<char>)
    ensures
        match last_block(arr, m) {
            Some(t) => 0 <= t < arr.len() && block_matcher(arr[t]) == Some(m),
            None => forall|j: int| 0 <= j < arr.len() ==> block_matcher(#[trigger] arr[j]) != Some(m),
        },
    decreases arr.len(),
{
    if arr.len() > 0 {
        lemma_last_block(arr.drop_last(), m);
        if block_matcher(arr.last()) != Some(m) {
            match last_block(arr.drop_last(), m) {
                Some(t) => {
                    assert(arr[t] == arr.drop_last()[t]);
                },
                None => {
                    assert forall|j: int| 0 <= j < arr.len() implies block_matcher(#[trigger] arr[j]) != Some(m) by {
                        if j < arr.len() - 1 {
                            assert(arr[j] == arr.drop_last()[j]);
                        }
                    }
                },
            }
        }
    }
}

/// Replacing a block by one with the same matcher moves no last block.
proof fn lemma_last_block_update(arr: Seq<JView>, i: int, x: JView, m: Seq<char>)
    requires
        0 <= i < arr.len(),
        block_matcher(x) == block_matcher(arr[i]),
    ensures
        last_block(arr.update(i, x), m) == last_block(arr, m),
    decreases arr.len(),
{
    let n = arr.update(i, x);
    if i == arr.len() - 1 {
        assert(n.drop_last() =~= arr.drop_last());
    } else {
        assert(n.drop_last() =~= arr.drop_last().update(i, x));
        lemma_last_block_update(arr.drop_last(), i, x, m);
    }
}

/// A block pushed last is the last block of its matcher.
proof fn lemma_last_block_push(arr: Seq<JView>, x: JView, m: Seq<char>)
    ensures
        last_block(arr.push(x), m) == (if block_matcher(x) == Some(m) {
            Some(arr.len() as int)
        } else {
            last_block(arr, m)
        }),
{
    assert(arr.push(x).drop_last() =~= arr);
}

/// Merging a block leaves its matcher as it was.
proof fn lemma_merged_block_matcher(b: JView, item: JView)
    ensures
        block_matcher(merged_block(b, item)) == block_matcher(b),
{
    reveal_strlit("matcher");
    reveal_strlit("hooks");
    match (varr(vget(b, "hooks"@)), varr(vget(item, "hooks"@)), b) {
        (Some(th), Some(dh), JView::Object(ms)) => {
            assert("matcher"@.len() != "hooks"@.len());
            lemma_vinsert_other(ms, "hooks"@, JView::Array(add_hooks(th, dh)), "matcher"@);
        },
        _ => {},
    }
}

/// The block `b` merged with `item` takes `item` again without change, when
/// `b` took it without change before and `item2` was merged in since.
proof fn lemma_merged_block_keeps(b: JView, item2: JView, item: JView)
    requires
        merged_block(b, item) == b,
    ensures
        merged_block(merged_block(b, item2), item) == merged_block(b, item2),
{
    reveal_strlit("hooks");
    match (varr(vget(b, "hooks"@)), varr(vget(item2, "hooks"@)), b) {
        (Some(th), Some(dh2), JView::Object(ms)) => {
            let a2 = add_hooks(th, dh2);
            let ms2 = vinsert(ms, "hooks"@, JView::Array(a2));
            lemma_vinsert_get(ms, "hooks"@, JView::Array(a2));
            match varr(vget(item, "hooks"@)) {
                Some(dh) => {
                    lemma_vinsert_get(ms, "hooks"@, JView::Array(add_hooks(th, dh)));
                    assert(add_hooks(th, dh) == th);
                    lemma_add_hooks_covers(th, dh);
                    lemma_add_hooks_prefix(th, dh2);
                    assert forall|k: int| 0 <= k < dh.len() implies is_dup(a2, #[trigger] dh[k]) by {
                        lemma_dup_extend(th, a2, dh[k]);
                    }
                    lemma_add_hooks_noop(a2, dh);
                    lemma_vinsert_twice(ms, "hooks"@, JView::Array(a2));
                },
                None => {},
            }
        },
        _ => {},
    }
}

/// Merging a block twice with the same item is merging it once.
proof fn lemma_merged_block_twice(b: JView, item: JView)
    ensures
        merged_block(merged_block(b, item), item) == merged_block(b, item),
{
    reveal_strlit("hooks");
    match (varr(vget(b, "hooks"@)), varr(vget(item, "hooks"@)), b) {
        (Some(th), Some(dh), JView::Object(ms)) => {
            let a = add_hooks(th, dh);
            lemma_vinsert_get(ms, "hooks"@, JView::Array(a));
            lemma_add_hooks_idempotent(th, dh);
            lemma_vinsert_twice(ms, "hooks"@, JView::Array(a));
        },
        _ => {},
    }
}

/// After a desired block is merged in, it is covered.
proof fn lemma_item_step_covers(arr: Seq<JView>, item: JView)
    ensures
        covered(item_step(arr, item), item),
{
    match block_matcher(item) {
        None => {},
        Some(m) => {
            lemma_last_block(arr, m);
            match last_block(arr, m) {
                Some(t) => {
                    let b = merged_block(arr[t], item);
                    lemma_merged_block_matcher(arr[t], item);
                    lemma_last_block_update(arr, t, b, m);
                    lemma_merged_block_twice(arr[t], item);
                },
                None => {
                    let b = merged_block(new_block(m), item);
                    reveal_strlit("matcher");
                    reveal_strlit("hooks");
                    assert(vmember(seq![("hooks"@, JView::Array(Seq::empty())), ("matcher"@, JView::Str(m))], "matcher"@) == Some(JView::Str(m))) by {
                        let ms = seq![("hooks"@, JView::Array(Seq::empty())), ("matcher"@, JView::Str(m))];
                        assert("matcher"@.len() != "hooks"@.len());
                        lemma_member_index_at(ms, "matcher"@, 1);
                    }
                    lemma_merged_block_matcher(new_block(m), item);
                    lemma_last_block_push(arr, b, m);
                    lemma_merged_block_twice(new_block(m), item);
                },
            }
        },
    }
}

/// Merging another desired block keeps a covered one covered.
proof fn lemma_item_step_keeps(arr: Seq<JView>, other: JView, item: JView)
    requires
        covered(arr, item),
    ensures
        covered(item_step(arr, other), item),
{
    match (block_matcher(item), block_matcher(other)) {
        (Some(m), Some(mo)) => {
            lemma_last_block(arr, m);
            lemma_last_block(arr, mo);
            let t = last_block(arr, m)->0;
            match last_block(arr, mo) {
                Some(to) => {
                    let b = merged_block(arr[to], other);
                    lemma_merged_block_matcher(arr[to], other);
                    lemma_last_block_update(arr, to, b, m);
                    if to == t {
                        lemma_merged_block_keeps(arr[t], other, item);
                    }
                },
                None => {
                    let b = merged_block(new_block(mo), other);
                    lemma_merged_block_matcher(new_block(mo), other);
                    reveal_strlit("matcher");
                    reveal_strlit("hooks");
                    assert(block_matcher(new_block(mo)) == Some(mo)) by {
                        let ms = seq![("hooks"@, JView::Array(Seq::empty())), ("matcher"@, JView::Str(mo))];
                        assert("matcher"@.len() != "hooks"@.len());
                        lemma_member_index_at(ms, "matcher"@, 1);
                    }
                    lemma_last_block_push(arr, b, m);
                    assert(item_step(arr, other)[t] == arr[t]);
                },
            }
        },
        _ => {},
    }
}

/// After merging the desired blocks, each of them is covered.
proof fn lemma_items_fold_covers(arr: Seq<JView>, items: Seq<JView>)
    ensures
        forall|k: int| 0 <= k < items.len() ==> covered(items_fold(arr, items), #[trigger] items[k]),
    decreases items.len(),
{
    if items.len() > 0 {
        let rest = items.drop_last();
        lemma_items_fold_covers(arr, rest);
        let f0 = items_fold(arr, rest);
        assert forall|k: int| 0 <= k < items.len() implies covered(items_fold(arr, items), #[trigger] items[k]) by {
            if k < items.len() - 1 {
                assert(items[k] == rest[k]);
                lemma_item_step_keeps(f0, items.last(), items[k]);
            } else {
                lemma_item_step_covers(f0, items.last());
            }
        }
    }
}

/// Merging desired blocks that are all covered changes nothing.
proof fn lemma_items_fold_noop(arr: Seq<JView>, items: Seq<JView>)
    requires
        forall|k: int| 0 <= k < items.len() ==> covered(arr, #[trigger] items[k]),
    ensures
        items_fold(arr, items) == arr,
    decreases items.len(),
{
    if items.len() > 0 {
        let rest = items.drop_last();
        assert forall|k: int| 0 <= k < rest.len() implies covered(arr, #[trigger] rest[k]) by {
            assert(rest[k] == items[k]);
        }
        lemma_items_fold_noop(arr, rest);
        let item = items.last();
        assert(covered(arr, items[items.len() - 1]));
        match block_matcher(item) {
            None => {},
            Some(m) => {
                let t = last_block(arr, m)->0;
                lemma_last_block(arr, m);
                assert(arr.update(t, arr[t]) =~= arr);
            },
        }
    }
}

/// Merging the same list twice is merging it once.
proof fn lemma_key_merge_twice(ms: Seq<(Seq<char>, JView)>, desired: JView, key: Seq<char>)
    ensures
        key_merge(key_merge(ms, desired, key), desired, key) == key_merge(ms, desired, key),
{
    match varr(vget(desired, key)) {
        None => {},
        Some(ds) => {
            let existing = match varr(vmember(ms, key)) {
                Some(a) => a,
                None => Seq::empty(),
            };
            let f = items_fold(existing, ds);
            lemma_vinsert_get(ms, key, JView::Array(f));
            lemma_items_fold_covers(existing, ds);
            lemma_items_fold_noop(f, ds);
            lemma_vinsert_twice(ms, key, JView::Array(f));
        },
    }
}

/// Merging merged hooks a second time with the same desired hooks changes
/// nothing: each desired hook is in its block after one merge.
pub proof fn lemma_merge_hooks_idempotent(existing: Option<JView>, desired: Option<JView>)
    ensures
        merge_hooks_spec(Some(merge_hooks_spec(existing, desired)), desired) == merge_hooks_spec(
            existing,
            desired,
        ),
{
    reveal_strlit("PreToolUse");
    reveal_strlit("PostToolUse");
    let pre = "PreToolUse"@;
    let post = "PostToolUse"@;
    assert(pre.len() != post.len());
    let result = match existing {
        Some(e) => e,
        None => JView::Object(Seq::empty()),
    };
    match (desired, result) {
        (Some(d), JView::Object(ms)) => {
            let ms1 = key_merge(ms, d, pre);
            let ms2 = key_merge(ms1, d, post);
            lemma_key_merge_twice(ms1, d, post);
            match varr(vget(d, pre)) {
                None => {},
                Some(ds) => {
                    let existing_pre = match varr(vmember(ms, pre)) {
                        Some(a) => a,
                        None => Seq::empty(),
                    };
                    let f = items_fold(existing_pre, ds);
                    lemma_vinsert_get(ms, pre, JView::Array(f));
                    match varr(vget(d, post)) {
                        None => {},
                        Some(dsp) => {
                            let existing_post = match varr(vmember(ms1, post)) {
                                Some(a) => a,
                                None => Seq::empty(),
                            };
                            lemma_vinsert_other(ms1, post, JView::Array(items_fold(existing_post, dsp)), pre);
                        },
                    }
                    assert(vmember(ms2, pre) == Some(JView::Array(f)));
                    lemma_items_fold_covers(existing_pre, ds);
                    lemma_items_fold_noop(f, ds);
                    lemma_vinsert_same(ms2, pre, JView::Array(f));
                },
            }
        },
        _ => {},
    }
}

} // verus!
