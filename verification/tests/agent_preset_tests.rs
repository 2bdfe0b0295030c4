use git_ai::agent_preset::{
    copilot_session_id, cursor_hook_step, AgentCheckpointFlags, CursorHookStep, CursorPreset,
    PresetError,
};
use git_ai::working_log::{AgentId, AiTranscript, Checkpoint, Message};

#[test]
fn cursor_before_prompt_is_human() {
    let roots = vec!["/work/repo".to_string(), "/other".to_string()];
    match cursor_hook_step("conv-1".to_string(), &roots, "beforeSubmitPrompt", Some("p".to_string())) {
        Ok(CursorHookStep::Human(r)) => {
            assert!(r.is_human);
            assert_eq!(r.agent_id.tool, "cursor");
            assert_eq!(r.agent_id.id, "conv-1");
            assert_eq!(r.agent_id.model, "unknown");
            assert_eq!(r.repo_working_dir, Some("/work/repo".to_string()));
            assert!(r.transcript.is_none());
        }
        other => panic!("unexpected {:?}", other),
    }
}

#[test]
fn cursor_after_edit_reads_composer() {
    let roots = vec!["/work/repo".to_string()];
    assert_eq!(
        cursor_hook_step("conv-1".to_string(), &roots, "afterFileEdit", None),
        Ok(CursorHookStep::ReadComposer {
            composer_id: "conv-1".to_string(),
            repo_working_dir: "/work/repo".to_string()
        })
    );
    assert_eq!(
        cursor_hook_step("conv-1".to_string(), &roots, "afterFileEdit", Some("p-9".to_string())),
        Ok(CursorHookStep::ReadComposer {
            composer_id: "p-9".to_string(),
            repo_working_dir: "/work/repo".to_string()
        })
    );
}

#[test]
fn cursor_hook_errors() {
    let roots = vec!["/work/repo".to_string()];
    assert_eq!(
        cursor_hook_step("c".to_string(), &roots, "stop", None),
        Err(PresetError::InvalidHookEvent("stop".to_string()))
    );
    assert_eq!(
        cursor_hook_step("c".to_string(), &vec![], "afterFileEdit", None),
        Err(PresetError::NoWorkspaceRoot)
    );
}

#[test]
fn copilot_session_ids() {
    assert_eq!(copilot_session_id(Some("a".to_string()), Some("b".to_string())), "a");
    assert_eq!(copilot_session_id(None, Some("b".to_string())), "b");
    assert_eq!(copilot_session_id(None, None), "unknown");
    let flags = AgentCheckpointFlags { prompt_id: None, hook_input: Some("{}".to_string()) };
    assert_eq!(flags.hook_input.as_deref(), Some("{}"));
}

fn checkpoint(tool: &str, id: &str) -> Checkpoint {
    let mut c = Checkpoint::new("s".to_string(), "".to_string(), "dev".to_string(), vec![]);
    c.agent_id = Some(AgentId { tool: tool.to_string(), id: id.to_string(), model: "unknown".to_string() });
    c
}

#[test]
fn cursor_transcripts_updated_once_per_conversation() {
    let mut cps = vec![
        checkpoint("cursor", "c1"),
        checkpoint("codex", "c1"),
        checkpoint("cursor", "c1"),
        checkpoint("cursor", "c2"),
        Checkpoint::new("s".to_string(), "".to_string(), "dev".to_string(), vec![]),
    ];
    let calls = std::cell::RefCell::new(Vec::new());
    CursorPreset::update_cursor_conversations_to_latest(&mut cps, |id: &str| {
        calls.borrow_mut().push(id.to_string());
        if id == "c1" {
            let mut t = AiTranscript::new();
            t.add_message(Message::user("latest".to_string()));
            Some((t, "gpt-5".to_string()))
        } else {
            None
        }
    });
    assert_eq!(*calls.borrow(), vec!["c1".to_string(), "c2".to_string()]);
    assert_eq!(cps[0].transcript.as_ref().unwrap().messages.len(), 1);
    assert_eq!(cps[0].agent_id.as_ref().unwrap().model, "gpt-5");
    assert_eq!(cps[2].agent_id.as_ref().unwrap().model, "gpt-5");
    assert_eq!(cps[1].agent_id.as_ref().unwrap().model, "unknown");
    assert_eq!(cps[3].agent_id.as_ref().unwrap().model, "unknown");
    assert!(cps[1].transcript.is_none());
    assert_eq!(cps[2].transcript.as_ref().unwrap().messages.len(), 1);
    assert!(cps[3].transcript.is_none());
    assert!(cps[4].transcript.is_none());
}
