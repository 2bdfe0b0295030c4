use git_ai::agent_preset::{CursorPreset, GithubCopilotPreset, PresetError};
use git_ai::json::JsonValue;
use git_ai::working_log::Message;

fn conv(v: &serde_json::Value) -> JsonValue {
    let text = serde_json::to_string(v).unwrap();
    match v {
        serde_json::Value::Null => JsonValue::Null,
        serde_json::Value::Bool(b) => JsonValue::Bool(*b),
        serde_json::Value::Number(n) => match n.as_i64() {
            Some(i) => JsonValue::Int(i, text),
            None => JsonValue::Num(text),
        },
        serde_json::Value::String(s) => JsonValue::Str(s.clone(), text),
        serde_json::Value::Array(a) => JsonValue::Array(a.iter().map(conv).collect(), text),
        serde_json::Value::Object(m) => JsonValue::Object(
            m.iter().map(|(k, x)| (k.clone(), conv(x))).collect(),
            text,
        ),
    }
}

fn parse(s: &str) -> JsonValue {
    let v: serde_json::Value = serde_json::from_str(s).unwrap();
    conv(&v)
}

fn compact(s: &str) -> String {
    let v: serde_json::Value = serde_json::from_str(s).unwrap();
    serde_json::to_string(&v).unwrap()
}

const SESSION: &str = r#"{"requests":[
 {"timestamp": 1700000000000, "message": {"text": "  Fix the bug  "}, "modelId": "gpt-4o",
  "response": [
    {"kind": "toolInvocationSerialized", "toolId": "readFile", "invocationMessage": {"value": "Reading a.rs"}},
    {"value": " I found it. "},
    {"kind": "codeblockUri", "uri": {"fsPath": "/src/a.rs"}},
    {"kind": "textEditGroup", "edits": []},
    {"kind": "inlineReference", "inlineReference": {"path": "/b.rs"}}
  ],
  "result": {"timings": {"totalElapsed": 2000}}},
 {"message": {"text": "   "}, "modelId": "other", "response": [{"value": "   "}]}
]}"#;

#[test]
fn copilot_session_transcript_and_model() {
    let session = parse(SESSION);
    let (t, model) =
        GithubCopilotPreset::transcript_and_model_from_copilot_session_json(&session).unwrap();
    assert_eq!(model, Some("gpt-4o".to_string()));
    assert_eq!(
        t.messages,
        vec![
            Message::User {
                text: "Fix the bug".to_string(),
                timestamp: Some("2023-11-14T22:13:20+00:00".to_string()),
            },
            Message::ToolUse {
                name: "readFile".to_string(),
                input: "\"Reading a.rs\"".to_string(),
            },
            Message::ToolUse {
                name: "textEditGroup".to_string(),
                input: compact(r#"{"kind": "textEditGroup", "edits": []}"#),
            },
            Message::Assistant {
                text: "I found it. @/src/a.rs @/b.rs".to_string(),
                timestamp: Some("2023-11-14T22:13:22+00:00".to_string()),
            },
        ]
    );
}

#[test]
fn copilot_session_string_invocation_and_no_model() {
    let session = parse(
        r#"{"requests":[{"response":[
            {"kind":"toolInvocationSerialized","invocationMessage":"Searching \"x\""},
            {"kind":"prepareToolInvocation"}
        ]}]}"#,
    );
    let (t, model) =
        GithubCopilotPreset::transcript_and_model_from_copilot_session_json(&session).unwrap();
    assert_eq!(model, None);
    assert_eq!(
        t.messages,
        vec![
            Message::ToolUse {
                name: "tool".to_string(),
                input: "\"Searching \\\"x\\\"\"".to_string(),
            },
            Message::ToolUse {
                name: "prepareToolInvocation".to_string(),
                input: compact(r#"{"kind":"prepareToolInvocation"}"#),
            },
        ]
    );
}

#[test]
fn copilot_session_without_requests_is_an_error() {
    let session = parse(r#"{"version": 3}"#);
    assert_eq!(
        GithubCopilotPreset::transcript_and_model_from_copilot_session_json(&session),
        Err(PresetError::MissingRequests)
    );
}

#[test]
fn copilot_assistant_without_timestamp_when_elapsed_missing() {
    let session = parse(r#"{"requests":[{"timestamp": 0, "response":[{"value":"done"}]}]}"#);
    let (t, _) =
        GithubCopilotPreset::transcript_and_model_from_copilot_session_json(&session).unwrap();
    assert_eq!(
        t.messages,
        vec![Message::Assistant { text: "done".to_string(), timestamp: None }]
    );
}

fn bubble(id: &str) -> Option<JsonValue> {
    match id {
        "b1" => Some(parse(
            r#"{"createdAt":"2025-05-01T10:00:00Z","text":"  hello  ","modelInfo":{"modelName":"sonnet-4"}}"#,
        )),
        "b2" => Some(parse(
            r#"{"createdAt":"2025-05-01T10:00:05Z","text":"","modelInfo":{"modelName":"gpt-5"},
                "content":[{"type":"text","text":" answer "},
                           {"type":"tool_use","name":"edit_file","input":{"path":"a.rs"}},
                           {"type":"tool_use","name":"no_input"}]}"#,
        )),
        _ => None,
    }
}

#[test]
fn cursor_composer_transcript() {
    let data = parse(
        r#"{"fullConversationHeadersOnly":[
            {"bubbleId":"b1","type":1},
            {"bubbleId":"missing","type":2},
            {"type":1},
            {"bubbleId":"b2","type":2}
        ]}"#,
    );
    let r = CursorPreset::transcript_data_from_composer_payload(&data, bubble).unwrap();
    let (t, model) = r.unwrap();
    assert_eq!(model, "sonnet-4");
    assert_eq!(
        t.messages,
        vec![
            Message::User {
                text: "hello".to_string(),
                timestamp: Some("2025-05-01T10:00:00Z".to_string()),
            },
            Message::Assistant {
                text: "answer".to_string(),
                timestamp: Some("2025-05-01T10:00:05Z".to_string()),
            },
            Message::ToolUse {
                name: "edit_file".to_string(),
                input: "{\"path\":\"a.rs\"}".to_string(),
            },
        ]
    );
}

#[test]
fn cursor_composer_without_messages_is_none() {
    let data = parse(r#"{"fullConversationHeadersOnly":[{"bubbleId":"missing"}]}"#);
    let r = CursorPreset::transcript_data_from_composer_payload(&data, bubble).unwrap();
    assert!(r.is_none());
}

#[test]
fn cursor_composer_model_defaults_to_unknown() {
    let data = parse(r#"{"fullConversationHeadersOnly":[{"bubbleId":"x"}]}"#);
    let r = CursorPreset::transcript_data_from_composer_payload(&data, |_id: &str| {
        Some(parse(r#"{"text":"hi"}"#))
    })
    .unwrap();
    let (t, model) = r.unwrap();
    assert_eq!(model, "unknown");
    assert_eq!(
        t.messages,
        vec![Message::Assistant { text: "hi".to_string(), timestamp: None }]
    );
}

#[test]
fn cursor_composer_legacy_format_is_an_error() {
    let data = parse(r#"{"conversation":[]}"#);
    assert_eq!(
        CursorPreset::transcript_data_from_composer_payload(&data, bubble),
        Err(PresetError::LegacyFormat)
    );
}
