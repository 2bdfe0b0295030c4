//! The transcript of a Cursor composer conversation.
use vstd::prelude::*;
use crate::agent_preset::{CursorPreset, PresetError};
use crate::copilot_session::MessageView;
use crate::json::{
    as_array, as_i64, as_str, deref_opt, get, jarr, jget, jint, jstr, json_text, json_text_of, or_else,
    JsonValue,
};
use crate::text::{chars_of, string_of, trim_chars, trim_spec};
use crate::working_log::{copy_opt_string, messages_view, opt_str_view, AiTranscript, Message};

verus! {

/// The role of a conversation header: its `type`, 0 when it has none.
pub open spec fn header_role(h: JsonValue) -> i64 {
    match jint(jget(Some(h), "type"@)) {
        Some(n) => n,
        None => 0,
    }
}

/// A text message: the user's when the role is 1, else the assistant's.
pub open spec fn role_message(role: i64, text: Seq<char>, ts: Option<Seq<char>>) -> MessageView {
    if role == 1 {
        (0nat, text, ts)
    } else {
        (1nat, text, ts)
    }
}

/// The message of a text, trimmed, when it is not blank.
pub open spec fn text_messages(role: i64, t: Option<Seq<char>>, ts: Option<Seq<char>>) -> Seq<MessageView> {
    match t {
        Some(x) => if trim_spec(x).len() > 0 {
            seq![role_message(role, trim_spec(x), ts)]
        } else {
            seq![]
        },
        None => seq![],
    }
}

/// What an item of a bubble's `content` adds: a text message for a `text`
/// item, a tool use for a `tool_use` item with a name and an input.
pub open spec fn content_item_messages(role: i64, ts: Option<Seq<char>>, item: JsonValue) -> Seq<MessageView> {
    let it = Some(item);
    match jstr(jget(it, "type"@)) {
        Some(k) => if k == "text"@ {
            text_messages(role, jstr(jget(it, "text"@)), ts)
        } else if k == "tool_use"@ {
            match (jstr(jget(it, "name"@)), jget(it, "input"@)) {
                (Some(n), Some(inp)) => seq![(2nat, n, Some(json_text(inp)))],
                _ => seq![],
            }
        } else {
            seq![]
        },
        None => seq![],
    }
}

/// What the items of a bubble's `content` add, in order.
pub open spec fn content_messages(role: i64, ts: Option<Seq<char>>, items: Seq<JsonValue>) -> Seq<MessageView>
    decreases items.len(),
{
    if items.len() == 0 {
        seq![]
    } else {
        content_messages(role, ts, items.drop_last()) + content_item_messages(role, ts, items.last())
    }
}

/// The messages of a bubble: its `text`, then its `content` items, all at
/// its `createdAt` time.
pub open spec fn bubble_messages(role: i64, b: JsonValue) -> Seq<MessageView> {
    let ts = jstr(jget(Some(b), "createdAt"@));
    text_messages(role, jstr(jget(Some(b), "text"@)), ts) + match jarr(jget(Some(b), "content"@)) {
        Some(items) => content_messages(role, ts, items),
        None => seq![],
    }
}

/// The model a bubble names.
pub open spec fn bubble_model(b: JsonValue) -> Option<Seq<char>> {
    jstr(jget(jget(Some(b), "modelInfo"@), "modelName"@))
}

/// The bubble read for a header: the one fetched, when the header has a
/// bubble id.
pub open spec fn header_bubble(h: JsonValue, b: Option<JsonValue>) -> Option<JsonValue> {
    match jstr(jget(Some(h), "bubbleId"@)) {
        Some(_) => b,
        None => None,
    }
}

/// The messages of the first `n` headers, with the bubbles fetched for them.
pub open spec fn composer_messages(hs: Seq<JsonValue>, bs: Seq<Option<JsonValue>>, n: nat) -> Seq<MessageView>
    decreases n,
{
    if n == 0 {
        seq![]
    } else {
        let k = n - 1;
        composer_messages(hs, bs, k as nat) + match header_bubble(hs[k], bs[k]) {
            Some(b) => bubble_messages(header_role(hs[k]), b),
            None => seq![],
        }
    }
}

/// The first model the bubbles of the first `n` headers name.
pub open spec fn composer_model(hs: Seq<JsonValue>, bs: Seq<Option<JsonValue>>, n: nat) -> Option<Seq<char>>
    decreases n,
{
    if n == 0 {
        None
    } else {
        let k = n - 1;
        or_else(
            composer_model(hs, bs, k as nat),
            match header_bubble(hs[k], bs[k]) {
                Some(b) => bubble_model(b),
                None => None,
            },
        )
    }
}

/// The transcript and model of a conversation, when it has any message;
/// the model is `unknown` when no bubble names one.
pub open spec fn composer_result(hs: Seq<JsonValue>, bs: Seq<Option<JsonValue>>) -> Option<(Seq<MessageView>, Seq<char>)> {
    let ms = composer_messages(hs, bs, hs.len());
    if ms.len() > 0 {
        Some(
            (
                ms,
                match composer_model(hs, bs, hs.len()) {
                    Some(m) => m,
                    None => "unknown"@,
                },
            ),
        )
    } else {
        None
    }
}

/// The headers of a conversation.
pub open spec fn composer_headers(data: JsonValue) -> Option<Seq<JsonValue>> {
    jarr(jget(Some(data), "fullConversationHeadersOnly"@))
}

/// `b` is a bubble `fetch` can give for the bubble id of header `h`, when
/// it has one.
pub open spec fn fetched_for<F: Fn(&str) -> Option<JsonValue>>(fetch: F, h: JsonValue, b: Option<JsonValue>) -> bool {
    match jstr(jget(Some(h), "bubbleId"@)) {
        Some(id) => exists|s: &str| #![trigger call_ensures(fetch, (s,), b)] s@ == id && call_ensures(fetch, (s,), b),
        None => true,
    }
}

/// `bs` holds, for each header with a bubble id, a bubble `fetch` can give
/// for that id.
pub open spec fn fetched_bubbles<F: Fn(&str) -> Option<JsonValue>>(
    fetch: F,
    hs: Seq<JsonValue>,
    bs: Seq<Option<JsonValue>>,
) -> bool {
    &&& bs.len() == hs.len()
    &&& forall|i: int| 0 <= i < hs.len() ==> #[trigger] fetched_for(fetch, hs[i], bs[i])
}

/// Adds a message.
fn push_msg(msgs: &mut Vec<Message>, m: Message)
    ensures
        messages_view(final(msgs)@) == messages_view(old(msgs)@).push(m@),
{
    let ghost before = msgs@;
    msgs.push(m);
    assert(messages_view(msgs@) =~= messages_view(before).push(m@));
}

/// Adds the message of a text (see `text_messages`).
fn push_text(msgs: &mut Vec<Message>, role: i64, t: Option<&String>, ts: &Option<String>)
    ensures
        messages_view(final(msgs)@) == messages_view(old(msgs)@) + text_messages(
            role,
            match t {
                Some(x) => Some(x@),
                None => None,
            },
            opt_str_view(*ts),
        ),
{
    let ghost start = messages_view(msgs@);
    match t {
        Some(x) => {
            let cs = chars_of(x.as_str());
            let tt = trim_chars(cs.as_slice());
            if tt.len() > 0 {
                let text = string_of(tt.as_slice());
                let stamp = copy_opt_string(ts);
                if role == 1 {
                    push_msg(msgs, Message::User { text, timestamp: stamp });
                } else {
                    push_msg(msgs, Message::Assistant { text, timestamp: stamp });
                }
            }
        },
        None => {},
    }
    assert(messages_view(msgs@) =~= start + text_messages(
        role,
        match t {
            Some(x) => Some(x@),
            None => None,
        },
        opt_str_view(*ts),
    ));
}

/// Reads one bubble: its messages and, when none is known yet, its model.
fn read_bubble(msgs: &mut Vec<Message>, model: &mut Option<String>, role: i64, b: &JsonValue)
    ensures
        messages_view(final(msgs)@) == messages_view(old(msgs)@) + bubble_messages(role, *b),
        opt_str_view(*final(model)) == or_else(opt_str_view(*old(model)), bubble_model(*b)),
{
    let ghost start = messages_view(msgs@);
    let bb = Some(b);
    let ts: Option<String> = match as_str(get(bb, "createdAt")) {
        Some(s) => Some(s.clone()),
        None => None,
    };
    assert(opt_str_view(ts) == jstr(jget(Some(*b), "createdAt"@)));
    if model.is_none() {
        match as_str(get(get(bb, "modelInfo"), "modelName")) {
            Some(m) => {
                *model = Some(m.clone());
            },
            None => {},
        }
    }
    push_text(msgs, role, as_str(get(bb, "text")), &ts);
    let ghost mid = messages_view(msgs@);
    match as_array(get(bb, "content")) {
        Some(items) => {
            let mut i: usize = 0;
            assert(items@.take(0) =~= Seq::<JsonValue>::empty());
            assert(mid + content_messages(role, opt_str_view(ts), items@.take(0)) =~= mid);
            while i < items.len()
                invariant
                    0 <= i <= items@.len(),
                    messages_view(msgs@) == mid + content_messages(role, opt_str_view(ts), items@.take(i as int)),
                decreases items@.len() - i,
            {
                assert(items@.take(i + 1).drop_last() =~= items@.take(i as int));
                assert(items@.take(i + 1).last() == items@[i as int]);
                let ghost before = messages_view(msgs@);
                let it = Some(&items[i]);
                match as_str(get(it, "type")) {
                    Some(k) => {
                        if crate::str_map::str_eq(k.as_str(), "text") {
                            push_text(msgs, role, as_str(get(it, "text")), &ts);
                        } else if crate::str_map::str_eq(k.as_str(), "tool_use") {
                            match (as_str(get(it, "name")), get(it, "input")) {
                                (Some(n), Some(inp)) => {
                                    push_msg(msgs, Message::tool_use(n.clone(), json_text_of(inp)));
                                },
                                _ => {},
                            }
                        }
                    },
                    None => {},
                }
                assert(messages_view(msgs@) =~= before + content_item_messages(role, opt_str_view(ts), items@[i as int]));
                i = i + 1;
                assert(messages_view(msgs@) =~= mid + content_messages(role, opt_str_view(ts), items@.take(i as int)));
            }
            assert(items@.take(i as int) =~= items@);
        },
        None => {},
    }
    assert(messages_view(msgs@) =~= start + bubble_messages(role, *b));
}

impl CursorPreset {
    /// The transcript and model of a Cursor conversation: for each of its
    /// `fullConversationHeadersOnly` headers with a bubble id, the bubble
    /// `fetch_bubble` gives for that id, when it gives one, adds its
    /// messages (see `bubble_messages`); the model is the first a bubble
    /// names, `unknown` when none does. `None` when no message was found; a
    /// conversation without those headers is an error.
    pub fn transcript_data_from_composer_payload<F: Fn(&str) -> Option<JsonValue>>(
        data: &JsonValue,
        fetch_bubble: F,
    ) -> (r: Result<Option<(AiTranscript, String)>, PresetError>)
        requires
            forall|s: &str| call_requires(fetch_bubble, (s,)),
        ensures
            match composer_headers(*data) {
                None => r == Err::<Option<(AiTranscript, String)>, PresetError>(PresetError::LegacyFormat),
                Some(hs) => exists|bs: Seq<Option<JsonValue>>|
                    #![trigger fetched_bubbles(fetch_bubble, hs, bs)]
                    fetched_bubbles(fetch_bubble, hs, bs) && match r {
                        Ok(Some((t, m))) => composer_result(hs, bs) == Some((messages_view(t.messages@), m@)),
                        Ok(None) => composer_result(hs, bs) is None,
                        Err(_) => false,
                    },
            },
    {
        let conv = match as_array(get(Some(data), "fullConversationHeadersOnly")) {
            Some(a) => a,
            None => {
                return Err(PresetError::LegacyFormat);
            },
        };
        let ghost hs = conv@;
        assert(composer_headers(*data) == Some(hs));
        let ghost mut bs: Seq<Option<JsonValue>> = seq![];
        let mut msgs: Vec<Message> = Vec::new();
        let mut model: Option<String> = None;
        let mut i: usize = 0;
        assert(messages_view(msgs@) =~= Seq::<MessageView>::empty());
        while i < conv.len()
            invariant
                0 <= i <= hs.len(),
                hs == conv@,
                forall|s: &str| call_requires(fetch_bubble, (s,)),
                bs.len() == i,
                forall|j: int| 0 <= j < i ==> #[trigger] fetched_for(fetch_bubble, hs[j], bs[j]),
                messages_view(msgs@) == composer_messages(hs, bs, i as nat),
                opt_str_view(model) == composer_model(hs, bs, i as nat),
            decreases hs.len() - i,
        {
            let h = &conv[i];
            let ghost old_bs = bs;
            let role: i64 = match as_i64(get(Some(h), "type")) {
                Some(n) => n,
                None => 0,
            };
            assert(role == header_role(hs[i as int]));
            match as_str(get(Some(h), "bubbleId")) {
                Some(id) => {
                    let ids: &str = id.as_str();
                    let b = fetch_bubble(ids);
                    proof {
                        bs = bs.push(b);
                    }
                    assert(call_ensures(fetch_bubble, (ids,), bs[i as int]));
                    assert(ids@ == id@);
                    assert(fetched_for(fetch_bubble, hs[i as int], bs[i as int]));
                    assert(header_bubble(hs[i as int], bs[i as int]) == b);
                    match &b {
                        Some(bv) => {
                            read_bubble(&mut msgs, &mut model, role, bv);
                        },
                        None => {},
                    }
                },
                None => {
                    proof {
                        bs = bs.push(None);
                    }
                    assert(header_bubble(hs[i as int], bs[i as int]) is None);
                    assert(fetched_for(fetch_bubble, hs[i as int], bs[i as int]));
                },
            }
            proof {
                assert(bs.take(i as int) =~= old_bs);
                lemma_composer_prefix(hs, old_bs, bs, i as nat);
                assert forall|j: int| 0 <= j < i + 1 implies #[trigger] fetched_for(fetch_bubble, hs[j], bs[j]) by {
                    if j < i {
                        assert(bs[j] == old_bs[j]);
                    }
                }
            }
            i = i + 1;
        }
        assert(fetched_bubbles(fetch_bubble, hs, bs));
        let t = AiTranscript { messages: msgs };
        assert(messages_view(t.messages@).len() == t.messages@.len());
        assert(composer_messages(hs, bs, hs.len()) == messages_view(t.messages@));
        assert(composer_model(hs, bs, hs.len()) == opt_str_view(model));
        if t.messages.len() > 0 {
            let m = match model {
                Some(m) => m,
                None => "unknown".to_owned(),
            };
            assert(composer_result(hs, bs) == Some((messages_view(t.messages@), m@)));
            Ok(Some((t, m)))
        } else {
            assert(composer_result(hs, bs) is None);
            let res: Result<Option<(AiTranscript, String)>, PresetError> = Ok(None);
            assert(match composer_headers(*data) {
                None => res == Err::<Option<(AiTranscript, String)>, PresetError>(PresetError::LegacyFormat),
                Some(hs) => exists|bs: Seq<Option<JsonValue>>|
                    #![trigger fetched_bubbles(fetch_bubble, hs, bs)]
                    fetched_bubbles(fetch_bubble, hs, bs) && match res {
                        Ok(Some((t, m))) => composer_result(hs, bs) == Some((messages_view(t.messages@), m@)),
                        Ok(None) => composer_result(hs, bs) is None,
                        Err(_) => false,
                    },
            });
            res
        }
    }
}

/// The messages and model of the first `n` headers depend only on the
/// first `n` bubbles.
proof fn lemma_composer_prefix(hs: Seq<JsonValue>, a: Seq<Option<JsonValue>>, b: Seq<Option<JsonValue>>, n: nat)
    requires
        n <= a.len(),
        n <= b.len(),
        forall|j: int| 0 <= j < n ==> a[j] == b[j],
    ensures
        composer_messages(hs, a, n) == composer_messages(hs, b, n),
        composer_model(hs, a, n) == composer_model(hs, b, n),
    decreases n,
{
    if n > 0 {
        lemma_composer_prefix(hs, a, b, (n - 1) as nat);
    }
}

} // verus!
