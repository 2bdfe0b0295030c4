use git_ai::ide_hooks::{cursor_hooks_merge, merge_hooks};
use git_ai::json::JsonValue;
use serde_json::Value;

fn from_serde(v: &Value) -> JsonValue {
    let text = serde_json::to_string(v).unwrap();
    match v {
        Value::Null => JsonValue::Null,
        Value::Bool(b) => JsonValue::Bool(*b),
        Value::Number(n) => match n.as_i64() {
            Some(i) => JsonValue::Int(i, text),
            None => JsonValue::Num(text),
        },
        Value::String(s) => JsonValue::Str(s.clone(), text),
        Value::Array(a) => JsonValue::Array(a.iter().map(from_serde).collect(), text),
        Value::Object(m) => {
            JsonValue::Object(m.iter().map(|(k, x)| (k.clone(), from_serde(x))).collect(), text)
        }
    }
}

fn to_serde(v: &JsonValue) -> Value {
    match v {
        JsonValue::Null => Value::Null,
        JsonValue::Bool(b) => Value::Bool(*b),
        JsonValue::Int(i, _) => Value::from(*i),
        JsonValue::Num(t) => serde_json::from_str(t).unwrap(),
        JsonValue::Str(s, _) => Value::String(s.clone()),
        JsonValue::Array(a, _) => Value::Array(a.iter().map(to_serde).collect()),
        JsonValue::Object(m, _) => {
            Value::Object(m.iter().map(|(k, x)| (k.clone(), to_serde(x))).collect())
        }
    }
}

fn parse(s: &str) -> JsonValue {
    from_serde(&serde_json::from_str(s).unwrap())
}

fn value(s: &str) -> Value {
    serde_json::from_str(s).unwrap()
}

const DESIRED: &str = r#"{
    "PreToolUse": [{"matcher": "Write|Edit", "hooks": [{"type": "command", "command": "git-ai checkpoint"}]}],
    "PostToolUse": [{"matcher": "Write|Edit", "hooks": [{"type": "command", "command": "git-ai checkpoint --after"}]}]
}"#;

#[test]
fn hooks_merge_into_nothing() {
    let desired = parse(DESIRED);
    let r = merge_hooks(None, Some(&desired)).unwrap();
    assert_eq!(to_serde(&r), value(DESIRED));
}

#[test]
fn hooks_merge_without_desired_keeps_existing() {
    let existing = parse(r#"{"Other": [1, 2.5]}"#);
    let r = merge_hooks(Some(&existing), None).unwrap();
    assert_eq!(to_serde(&r), value(r#"{"Other": [1, 2.5]}"#));
    let r = merge_hooks(None, None).unwrap();
    assert_eq!(to_serde(&r), value("{}"));
}

#[test]
fn hooks_merge_appends_missing_and_skips_duplicates() {
    let existing = parse(
        r#"{
        "PreToolUse": [
            {"matcher": "Bash", "hooks": [{"type": "command", "command": "lint"}]},
            {"matcher": "Write|Edit", "hooks": [{"type": "other", "command": "git-ai checkpoint"}]}
        ],
        "Stop": []
    }"#,
    );
    let desired = parse(DESIRED);
    let r = merge_hooks(Some(&existing), Some(&desired)).unwrap();
    assert_eq!(
        to_serde(&r),
        value(
            r#"{
        "PreToolUse": [
            {"matcher": "Bash", "hooks": [{"type": "command", "command": "lint"}]},
            {"matcher": "Write|Edit", "hooks": [{"type": "other", "command": "git-ai checkpoint"}]}
        ],
        "PostToolUse": [{"matcher": "Write|Edit", "hooks": [{"type": "command", "command": "git-ai checkpoint --after"}]}],
        "Stop": []
    }"#
        )
    );
    let again = merge_hooks(Some(&r), Some(&desired)).unwrap();
    assert_eq!(to_serde(&again), to_serde(&r));
}

#[test]
fn hooks_merge_adds_to_the_block_with_the_matcher() {
    let existing = parse(
        r#"{"PreToolUse": [{"matcher": "Write|Edit", "hooks": [{"type": "command", "command": "fmt"}]}]}"#,
    );
    let desired = parse(
        r#"{"PreToolUse": [
            {"matcher": "Write|Edit", "hooks": [{"type": "command", "command": "git-ai checkpoint"}, {"type": "command", "command": "fmt"}]},
            {"hooks": [{"command": "ignored without a matcher"}]}
        ]}"#,
    );
    let r = merge_hooks(Some(&existing), Some(&desired)).unwrap();
    assert_eq!(
        to_serde(&r),
        value(
            r#"{"PreToolUse": [{"matcher": "Write|Edit", "hooks": [
            {"type": "command", "command": "fmt"},
            {"type": "command", "command": "git-ai checkpoint"}
        ]}]}"#
        )
    );
}

#[test]
fn hooks_merge_leaves_a_non_object_alone() {
    let existing = parse("[1, 2]");
    let desired = parse(DESIRED);
    let r = merge_hooks(Some(&existing), Some(&desired)).unwrap();
    assert_eq!(to_serde(&r), value("[1, 2]"));
}

const CURSOR_HOOK: &str = "git-ai checkpoint cursor 2>/dev/null || true";

#[test]
fn cursor_hooks_into_empty_settings() {
    let r = cursor_hooks_merge(&parse("{}"));
    let expected = format!(
        r#"{{"version": 1, "hooks": {{"afterEdit": [{{"command": "{}"}}]}}}}"#,
        CURSOR_HOOK
    );
    assert_eq!(to_serde(&r), value(&expected));
    let again = cursor_hooks_merge(&r);
    assert_eq!(to_serde(&again), value(&expected));
}

#[test]
fn cursor_hooks_keep_existing_settings() {
    let existing = parse(
        r#"{"version": 2, "hooks": {"afterEdit": [{"command": "prettier"}], "beforeRun": []}, "x": true}"#,
    );
    let r = cursor_hooks_merge(&existing);
    let expected = format!(
        r#"{{"version": 2, "hooks": {{"afterEdit": [{{"command": "prettier"}}, {{"command": "{}"}}], "beforeRun": []}}, "x": true}}"#,
        CURSOR_HOOK
    );
    assert_eq!(to_serde(&r), value(&expected));
}

#[test]
fn cursor_hooks_skip_a_hook_with_the_same_command() {
    let existing = parse(&format!(
        r#"{{"version": 1, "hooks": {{"afterEdit": [{{"command": "{}", "note": "mine"}}]}}}}"#,
        CURSOR_HOOK
    ));
    let r = cursor_hooks_merge(&existing);
    assert_eq!(to_serde(&r), to_serde(&existing));
}

#[test]
fn cursor_hooks_leave_non_objects_alone() {
    let r = cursor_hooks_merge(&parse(r#""text""#));
    assert_eq!(to_serde(&r), value(r#""text""#));
    let r = cursor_hooks_merge(&parse(r#"{"hooks": 5}"#));
    assert_eq!(to_serde(&r), value(r#"{"hooks": 5, "version": 1}"#));
}
