//! The transcript of a GitHub Copilot chat session.
use vstd::prelude::*;
use chrono::TimeZone;
use crate::agent_preset::{GithubCopilotPreset, PresetError};
use crate::json::{
    as_array, as_i64, as_str, as_str_text, deref_opt, get, jarr, jget, jint, jstr, jstr_text,
    json_text, json_text_of, or_else, JsonValue,
};
use crate::text::{chars_of, push_char, push_chars, push_str_chars, string_of, trim_chars, trim_spec};
use crate::working_log::{messages_view, opt_str_view, AiTranscript, Message};

verus! {

/// The view of a transcript message: kind (0 user, 1 assistant, 2 tool
/// use), text or tool name, and timestamp or tool input.
pub type MessageView = (nat, Seq<char>, Option<Seq<char>>);

/// The RFC 3339 text of the UTC time `ms` milliseconds after the epoch, if
/// that time can be represented.
pub uninterp spec fn rfc3339_of_millis(ms: i64) -> Option<Seq<char>>;

/// `Utc.timestamp_millis_opt(ms).single()` then `DateTime::to_rfc3339` of
/// chrono: the result is `rfc3339_of_millis(ms)`; what that text is, is not
/// stated.
#[verifier::external_body]
fn millis_to_rfc3339(ms: i64) -> (r: Option<String>)
    ensures
        opt_str_view(r) == rfc3339_of_millis(ms),
{
    match chrono::Utc.timestamp_millis_opt(ms).single() {
        Some(dt) => Some(dt.to_rfc3339()),
        None => None,
    }
}

/// A word added to the assistant text, a space before it unless the text is
/// empty.
pub open spec fn append_word(acc: Seq<char>, w: Seq<char>) -> Seq<char> {
    if acc.len() == 0 {
        w
    } else {
        acc + seq![' '] + w
    }
}

/// The path a `codeblockUri` item mentions: `uri.fsPath`, `uri.path`,
/// `fsPath` or `path`, the first that is a string.
pub open spec fn codeblock_path(item: Option<JsonValue>) -> Option<Seq<char>> {
    let u = jget(item, "uri"@);
    or_else(
        or_else(or_else(jstr(jget(u, "fsPath"@)), jstr(jget(u, "path"@))), jstr(jget(item, "fsPath"@))),
        jstr(jget(item, "path"@)),
    )
}

/// The path an `inlineReference` item mentions: in its `inlineReference`
/// member, `uri.fsPath`, `uri.path`, `fsPath` or `path`, the first that is
/// a string.
pub open spec fn inline_reference_path(item: Option<JsonValue>) -> Option<Seq<char>> {
    let ir = jget(item, "inlineReference"@);
    let u = jget(ir, "uri"@);
    or_else(
        or_else(or_else(jstr(jget(u, "fsPath"@)), jstr(jget(u, "path"@))), jstr(jget(ir, "fsPath"@))),
        jstr(jget(ir, "path"@)),
    )
}

/// The JSON text of a tool invocation's message: the message when it is a
/// string, its `value` member when it is an object with a string there.
pub open spec fn invocation_text(im: Option<JsonValue>) -> Option<Seq<char>> {
    match im {
        Some(JsonValue::Str(_, t)) => Some(t@),
        Some(JsonValue::Object(_, _)) => jstr_text(jget(im, "value"@)),
        _ => None,
    }
}

/// What a response item's `kind` adds: a tool use for a tool invocation, an
/// edit group or a tool preparation; a mention `@path` to the assistant
/// text for a code block or an inline reference.
pub open spec fn item_kind_step(st: (Seq<MessageView>, Seq<char>), item: JsonValue) -> (Seq<MessageView>, Seq<char>) {
    let it = Some(item);
    match jstr(jget(it, "kind"@)) {
        None => st,
        Some(kind) => if kind == "toolInvocationSerialized"@ {
            let name = match jstr(jget(it, "toolId"@)) {
                Some(n) => n,
                None => "tool"@,
            };
            match invocation_text(jget(it, "invocationMessage"@)) {
                Some(t) => (st.0.push((2nat, name, Some(t))), st.1),
                None => st,
            }
        } else if kind == "textEditGroup"@ || kind == "prepareToolInvocation"@ {
            (st.0.push((2nat, kind, Some(json_text(item)))), st.1)
        } else if kind == "codeblockUri"@ {
            match codeblock_path(it) {
                Some(p) => (st.0, append_word(st.1, seq!['@'] + p)),
                None => st,
            }
        } else if kind == "inlineReference"@ {
            match inline_reference_path(it) {
                Some(p) => (st.0, append_word(st.1, seq!['@'] + p)),
                None => st,
            }
        } else {
            st
        },
    }
}

/// What a response item adds: what its kind adds, then its `value` text,
/// trimmed, when not blank.
pub open spec fn item_step(st: (Seq<MessageView>, Seq<char>), item: JsonValue) -> (Seq<MessageView>, Seq<char>) {
    let s2 = item_kind_step(st, item);
    match jstr(jget(Some(item), "value"@)) {
        Some(v) => if trim_spec(v).len() > 0 {
            (s2.0, append_word(s2.1, trim_spec(v)))
        } else {
            s2
        },
        None => s2,
    }
}

/// The tool uses and the assistant text of response items read in order.
pub open spec fn items_fold(items: Seq<JsonValue>) -> (Seq<MessageView>, Seq<char>)
    decreases items.len(),
{
    if items.len() == 0 {
        (seq![], seq![])
    } else {
        item_step(items_fold(items.drop_last()), items.last())
    }
}

/// The request's timestamp, in milliseconds.
pub open spec fn user_millis(req: JsonValue) -> Option<i64> {
    jint(jget(Some(req), "timestamp"@))
}

/// How long the request took, in milliseconds.
pub open spec fn elapsed_millis(req: JsonValue) -> Option<i64> {
    jint(jget(jget(jget(Some(req), "result"@), "timings"@), "totalElapsed"@))
}

/// The user's message of a request: its trimmed text, when not blank, at
/// the request's time.
pub open spec fn user_messages(req: JsonValue) -> Seq<MessageView> {
    let ts = match user_millis(req) {
        Some(ms) => rfc3339_of_millis(ms),
        None => None,
    };
    match jstr(jget(jget(Some(req), "message"@), "text"@)) {
        Some(t) => if trim_spec(t).len() > 0 {
            seq![(0nat, trim_spec(t), ts)]
        } else {
            seq![]
        },
        None => seq![],
    }
}

/// The assistant's text of a request, trimmed, when its response is an
/// array and the text is not blank.
pub open spec fn assistant_text(req: JsonValue) -> Option<Seq<char>> {
    match jarr(jget(Some(req), "response"@)) {
        Some(items) => {
            let t = trim_spec(items_fold(items).1);
            if t.len() > 0 {
                Some(t)
            } else {
                None
            }
        },
        None => None,
    }
}

/// The time of the assistant's message: the request's time plus its
/// elapsed time, when both are given.
pub open spec fn assistant_ts(req: JsonValue) -> Option<Seq<char>> {
    match (elapsed_millis(req), user_millis(req)) {
        (Some(e), Some(u)) => rfc3339_of_millis((u + e) as i64),
        _ => None,
    }
}

/// The messages of a request's response: the tool uses, then the
/// assistant's message.
pub open spec fn response_messages(req: JsonValue) -> Seq<MessageView> {
    match jarr(jget(Some(req), "response"@)) {
        Some(items) => {
            let msgs = items_fold(items).0;
            match assistant_text(req) {
                Some(t) => msgs.push((1nat, t, assistant_ts(req))),
                None => msgs,
            }
        },
        None => seq![],
    }
}

/// The messages of a request.
pub open spec fn request_messages(req: JsonValue) -> Seq<MessageView> {
    user_messages(req) + response_messages(req)
}

/// The messages of requests in order.
pub open spec fn session_messages(reqs: Seq<JsonValue>) -> Seq<MessageView>
    decreases reqs.len(),
{
    if reqs.len() == 0 {
        seq![]
    } else {
        session_messages(reqs.drop_last()) + request_messages(reqs.last())
    }
}

/// The first `modelId` of the requests.
pub open spec fn session_model(reqs: Seq<JsonValue>) -> Option<Seq<char>>
    decreases reqs.len(),
{
    if reqs.len() == 0 {
        None
    } else {
        or_else(session_model(reqs.drop_last()), jstr(jget(Some(reqs.last()), "modelId"@)))
    }
}

/// The requests of a session.
pub open spec fn copilot_requests(session: JsonValue) -> Option<Seq<JsonValue>> {
    jarr(jget(Some(session), "requests"@))
}

/// The assistant's time of a request can be computed: the request's time
/// plus the elapsed time is within `i64`, when it is needed.
pub open spec fn request_fits(req: JsonValue) -> bool {
    assistant_text(req) is Some ==> match (elapsed_millis(req), user_millis(req)) {
        (Some(e), Some(u)) => i64::MIN <= u + e <= i64::MAX,
        _ => true,
    }
}

/// Every request's assistant time can be computed.
pub open spec fn session_fits(session: JsonValue) -> bool {
    match copilot_requests(session) {
        Some(reqs) => forall|i: int| 0 <= i < reqs.len() ==> request_fits(#[trigger] reqs[i]),
        None => true,
    }
}


/// Adds a word to the assistant text (see `append_word`).
fn push_word(acc: &mut String, w: &[char])
    ensures
        final(acc)@ == append_word(old(acc)@, w@),
{
    if !acc.as_str().is_empty() {
        push_char(acc, ' ');
    }
    push_chars(acc, w);
}

/// Adds a mention `@path` to the assistant text.
fn push_mention(acc: &mut String, p: &str)
    ensures
        final(acc)@ == append_word(old(acc)@, seq!['@'] + p@),
{
    let ghost a = acc@;
    if !acc.as_str().is_empty() {
        push_char(acc, ' ');
    }
    push_char(acc, '@');
    push_str_chars(acc, p);
    assert(acc@ =~= append_word(a, seq!['@'] + p@));
}

/// The path a `codeblockUri` item mentions (see `codeblock_path`).
fn codeblock_path_of(item: &JsonValue) -> (r: Option<&String>)
    ensures
        match r {
            Some(s) => codeblock_path(Some(*item)) == Some(s@),
            None => codeblock_path(Some(*item)) is None,
        },
{
    let it = Some(item);
    let u = get(it, "uri");
    if let Some(s) = as_str(get(u, "fsPath")) {
        return Some(s);
    }
    if let Some(s) = as_str(get(u, "path")) {
        return Some(s);
    }
    if let Some(s) = as_str(get(it, "fsPath")) {
        return Some(s);
    }
    as_str(get(it, "path"))
}

/// The path an `inlineReference` item mentions (see
/// `inline_reference_path`).
fn inline_reference_path_of(item: &JsonValue) -> (r: Option<&String>)
    ensures
        match r {
            Some(s) => inline_reference_path(Some(*item)) == Some(s@),
            None => inline_reference_path(Some(*item)) is None,
        },
{
    let ir = get(Some(item), "inlineReference");
    let u = get(ir, "uri");
    if let Some(s) = as_str(get(u, "fsPath")) {
        return Some(s);
    }
    if let Some(s) = as_str(get(u, "path")) {
        return Some(s);
    }
    if let Some(s) = as_str(get(ir, "fsPath")) {
        return Some(s);
    }
    as_str(get(ir, "path"))
}

/// The JSON text of a tool invocation's message (see `invocation_text`).
fn invocation_text_of(im: Option<&JsonValue>) -> (r: Option<String>)
    ensures
        opt_str_view(r) == invocation_text(deref_opt(im)),
{
    match im {
        Some(JsonValue::Str(_, t)) => Some(t.clone()),
        Some(JsonValue::Object(_, _)) => match as_str_text(get(im, "value")) {
            Some(t) => Some(t.clone()),
            None => None,
        },
        _ => None,
    }
}

/// Adds a message.
fn push_message(msgs: &mut Vec<Message>, m: Message)
    ensures
        messages_view(final(msgs)@) == messages_view(old(msgs)@).push(m@),
{
    let ghost before = msgs@;
    msgs.push(m);
    assert(messages_view(msgs@) =~= messages_view(before).push(m@));
}

/// Reads one response item (see `item_step`).
fn read_item(msgs: &mut Vec<Message>, acc: &mut String, item: &JsonValue)
    ensures
        (messages_view(final(msgs)@), final(acc)@) == item_step((messages_view(old(msgs)@), old(acc)@), *item),
{
    let it = Some(item);
    match as_str(get(it, "kind")) {
        Some(kind) => {
            if crate::str_map::str_eq(kind.as_str(), "toolInvocationSerialized") {
                let name = match as_str(get(it, "toolId")) {
                    Some(n) => n.clone(),
                    None => "tool".to_owned(),
                };
                let text = invocation_text_of(get(it, "invocationMessage"));
                match text {
                    Some(t) => push_message(msgs, Message::tool_use(name, t)),
                    None => {},
                }
            } else if crate::str_map::str_eq(kind.as_str(), "textEditGroup") || crate::str_map::str_eq(
                kind.as_str(),
                "prepareToolInvocation",
            ) {
                push_message(msgs, Message::tool_use(kind.clone(), json_text_of(item)));
            } else if crate::str_map::str_eq(kind.as_str(), "codeblockUri") {
                match codeblock_path_of(item) {
                    Some(p) => push_mention(acc, p.as_str()),
                    None => {},
                }
            } else if crate::str_map::str_eq(kind.as_str(), "inlineReference") {
                match inline_reference_path_of(item) {
                    Some(p) => push_mention(acc, p.as_str()),
                    None => {},
                }
            }
        },
        None => {},
    }
    match as_str(get(it, "value")) {
        Some(v) => {
            let cs = chars_of(v.as_str());
            let t = trim_chars(cs.as_slice());
            if t.len() > 0 {
                push_word(acc, t.as_slice());
            }
        },
        None => {},
    }
}

/// Reads one request of a session (see `request_messages`).
fn read_request(msgs: &mut Vec<Message>, req: &JsonValue)
    requires
        request_fits(*req),
    ensures
        messages_view(final(msgs)@) == messages_view(old(msgs)@) + request_messages(*req),
{
    let ghost start = messages_view(msgs@);
    let r = Some(req);
    let ums = as_i64(get(r, "timestamp"));
    let uts = match ums {
        Some(ms) => millis_to_rfc3339(ms),
        None => None,
    };
    match as_str(get(get(r, "message"), "text")) {
        Some(t) => {
            let cs = chars_of(t.as_str());
            let tt = trim_chars(cs.as_slice());
            if tt.len() > 0 {
                push_message(msgs, Message::User { text: string_of(tt.as_slice()), timestamp: uts });
            }
        },
        None => {},
    }
    assert(messages_view(msgs@) =~= start + user_messages(*req));
    let ghost mid = messages_view(msgs@);
    match as_array(get(r, "response")) {
        Some(items) => {
            let mut acc = String::new();
            let mut i: usize = 0;
            assert(items@.take(0) =~= Seq::<JsonValue>::empty());
            assert(mid + items_fold(items@.take(0)).0 =~= mid);
            while i < items.len()
                invariant
                    0 <= i <= items@.len(),
                    messages_view(msgs@) == mid + items_fold(items@.take(i as int)).0,
                    acc@ == items_fold(items@.take(i as int)).1,
                decreases items@.len() - i,
            {
                let ghost before = messages_view(msgs@);
                let ghost st = items_fold(items@.take(i as int));
                let ghost ms0 = messages_view(msgs@);
                assert(items@.take(i + 1).drop_last() =~= items@.take(i as int));
                assert(items@.take(i + 1).last() == items@[i as int]);
                let mut local: Vec<Message> = Vec::new();
                assert(messages_view(local@) =~= Seq::<MessageView>::empty());
                proof {
                    lemma_item_step_prefix(st, items@[i as int]);
                }
                read_item(&mut local, &mut acc, &items[i]);
                let mut k: usize = 0;
                let ghost added = messages_view(local@);
                while k < local.len()
                    invariant
                        0 <= k <= local@.len(),
                        added == messages_view(local@),
                        messages_view(msgs@) == ms0 + added.take(k as int),
                    decreases local@.len() - k,
                {
                    let m = local[k].copy();
                    push_message(msgs, m);
                    assert(added.take(k + 1) =~= added.take(k as int).push(local@[k as int]@));
                    assert(messages_view(msgs@) =~= ms0 + added.take(k + 1));
                    k = k + 1;
                }
                assert(added.take(k as int) =~= added);
                i = i + 1;
                assert(messages_view(msgs@) =~= mid + items_fold(items@.take(i as int)).0);
            }
            assert(items@.take(i as int) =~= items@);
            let acs = chars_of(acc.as_str());
            let at = trim_chars(acs.as_slice());
            if at.len() > 0 {
                let el = as_i64(get(get(get(r, "result"), "timings"), "totalElapsed"));
                let ats = match (el, ums) {
                    (Some(e), Some(u)) => millis_to_rfc3339(u + e),
                    _ => None,
                };
                push_message(msgs, Message::Assistant { text: string_of(at.as_slice()), timestamp: ats });
            }
            assert(messages_view(msgs@) =~= start + request_messages(*req));
        },
        None => {
            assert(messages_view(msgs@) =~= start + request_messages(*req));
        },
    }
}

/// What an item adds, it adds after the messages before: reading it from no
/// messages gives the messages it adds.
proof fn lemma_item_step_prefix(st: (Seq<MessageView>, Seq<char>), item: JsonValue)
    ensures
        item_step(st, item).0 == st.0 + item_step((seq![], st.1), item).0,
        item_step(st, item).1 == item_step((seq![], st.1), item).1,
{
    let e = Seq::<MessageView>::empty();
    assert(st.0 + e =~= st.0);
    let k1 = item_kind_step(st, item);
    let k2 = item_kind_step((e, st.1), item);
    assert(k1.0 =~= st.0 + k2.0 && k1.1 == k2.1) by {
        assert forall|m: MessageView| st.0 + e.push(m) =~= #[trigger] st.0.push(m) by {}
    }
}

impl GithubCopilotPreset {
    /// The transcript of a Copilot chat session and the model it used: for
    /// each request in turn, the user's message, the tool uses and
    /// mentions of its response, and the assistant's message (see
    /// `request_messages`); the model is the first `modelId`. A session
    /// without a `requests` array is an error.
    pub fn transcript_and_model_from_copilot_session_json(session: &JsonValue) -> (r: Result<
        (AiTranscript, Option<String>),
        PresetError,
    >)
        requires
            session_fits(*session),
        ensures
            match copilot_requests(*session) {
                Some(reqs) => match r {
                    Ok((t, m)) => messages_view(t.messages@) == session_messages(reqs) && opt_str_view(m)
                        == session_model(reqs),
                    Err(_) => false,
                },
                None => r == Err::<(AiTranscript, Option<String>), PresetError>(PresetError::MissingRequests),
            },
    {
        let requests = match as_array(get(Some(session), "requests")) {
            Some(a) => a,
            None => {
                return Err(PresetError::MissingRequests);
            },
        };
        let ghost reqs = requests@;
        let mut msgs: Vec<Message> = Vec::new();
        let mut model: Option<String> = None;
        let mut i: usize = 0;
        assert(reqs.take(0) =~= Seq::<JsonValue>::empty());
        assert(messages_view(msgs@) =~= Seq::<MessageView>::empty());
        assert(copilot_requests(*session) == Some(reqs));
        assert(forall|j: int| 0 <= j < reqs.len() ==> request_fits(#[trigger] reqs[j]));
        while i < requests.len()
            invariant
                0 <= i <= reqs.len(),
                reqs == requests@,
                copilot_requests(*session) == Some(reqs),
                forall|j: int| 0 <= j < reqs.len() ==> request_fits(#[trigger] reqs[j]),
                messages_view(msgs@) == session_messages(reqs.take(i as int)),
                opt_str_view(model) == session_model(reqs.take(i as int)),
            decreases reqs.len() - i,
        {
            assert(reqs.take(i + 1).drop_last() =~= reqs.take(i as int));
            assert(reqs.take(i + 1).last() == reqs[i as int]);
            assert(request_fits(reqs[i as int]));
            read_request(&mut msgs, &requests[i]);
            if model.is_none() {
                match as_str(get(Some(&requests[i]), "modelId")) {
                    Some(m) => {
                        model = Some(m.clone());
                    },
                    None => {},
                }
            }
            i = i + 1;
        }
        assert(reqs.take(i as int) =~= reqs);
        Ok((AiTranscript { messages: msgs }, model))
    }
}

} // verus!
