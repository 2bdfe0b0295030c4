//! Agent presets: what a coding agent's hook reports for a checkpoint.
use vstd::prelude::*;
use crate::str_map::{StrMap, lookup};
use crate::working_log::{
    AgentId, AiTranscript, Checkpoint, Message, copy_messages, messages_view,
};

verus! {

/// The options of an agent checkpoint: a prompt id and the hook's input.
#[derive(Debug, Clone, PartialEq, Eq)]
pub struct AgentCheckpointFlags {
    pub prompt_id: Option<String>,
    pub hook_input: Option<String>,
}

/// What an agent preset found: the agent session, whether the edit is a
/// person's, the transcript, and the repository's working directory.
#[derive(Debug, Clone, PartialEq, Eq)]
pub struct AgentRunResult {
    pub agent_id: AgentId,
    pub is_human: bool,
    pub transcript: Option<AiTranscript>,
    pub repo_working_dir: Option<String>,
}

/// The preset for the Cursor editor.
pub struct CursorPreset;

/// The preset for GitHub Copilot.
pub struct GithubCopilotPreset;

/// The tool name of Cursor sessions.
pub open spec fn cursor_tool() -> Seq<char> {
    seq!['c', 'u', 'r', 's', 'o', 'r']
}

/// What to do for a Cursor hook event.
#[derive(Debug, Clone, PartialEq, Eq)]
pub enum CursorHookStep {
    /// Before a prompt is submitted: record a person's checkpoint.
    Human(AgentRunResult),
    /// After a file edit: read composer `composer_id` for the transcript.
    ReadComposer { composer_id: String, repo_working_dir: String },
}

/// Why a preset cannot report a checkpoint.
#[derive(Debug, Clone, PartialEq, Eq)]
pub enum PresetError {
    /// The hook event is neither `beforeSubmitPrompt` nor `afterFileEdit`.
    InvalidHookEvent(String),
    /// The hook gave no workspace root.
    NoWorkspaceRoot,
    /// A Copilot chat session without a `requests` array.
    MissingRequests,
    /// A Cursor conversation without `fullConversationHeadersOnly`, the
    /// format before April 2025.
    LegacyFormat,
}

/// Decides what a Cursor hook event asks for: the event must be
/// `beforeSubmitPrompt` or `afterFileEdit`, and the first workspace root is
/// the repository; before a prompt, a person's checkpoint for the
/// conversation; after an edit, the composer to read (the prompt id if one
/// was given, else the conversation).
pub fn cursor_hook_step(
    conversation_id: String,
    workspace_roots: &Vec<String>,
    hook_event_name: &str,
    prompt_id: Option<String>,
) -> (r: Result<CursorHookStep, PresetError>)
    ensures
        match r {
            Err(PresetError::InvalidHookEvent(n)) => hook_event_name@ != "beforeSubmitPrompt"@
                && hook_event_name@ != "afterFileEdit"@ && n@ == hook_event_name@,
            Err(PresetError::NoWorkspaceRoot) => (hook_event_name@ == "beforeSubmitPrompt"@
                || hook_event_name@ == "afterFileEdit"@) && workspace_roots@.len() == 0,
            Ok(CursorHookStep::Human(res)) => {
                &&& hook_event_name@ == "beforeSubmitPrompt"@
                &&& workspace_roots@.len() > 0
                &&& res.agent_id.tool@ == cursor_tool()
                &&& res.agent_id.id@ == conversation_id@
                &&& res.agent_id.model@ == "unknown"@
                &&& res.is_human
                &&& res.transcript is None
                &&& res.repo_working_dir == Some(workspace_roots@[0])
            },
            Ok(CursorHookStep::ReadComposer { composer_id, repo_working_dir }) => {
                &&& hook_event_name@ == "afterFileEdit"@
                &&& workspace_roots@.len() > 0
                &&& composer_id@ == match prompt_id {
                    Some(p) => p@,
                    None => conversation_id@,
                }
                &&& repo_working_dir@ == workspace_roots@[0]@
            },
            Err(PresetError::MissingRequests) => false,
            Err(PresetError::LegacyFormat) => false,
        },
{
    proof {
        reveal_strlit("beforeSubmitPrompt");
        reveal_strlit("afterFileEdit");
        reveal_strlit("cursor");
        reveal_strlit("unknown");
    }
    let before = crate::str_map::str_eq(hook_event_name, "beforeSubmitPrompt");
    let after = crate::str_map::str_eq(hook_event_name, "afterFileEdit");
    if !before && !after {
        return Err(PresetError::InvalidHookEvent(hook_event_name.to_owned()));
    }
    if workspace_roots.len() == 0 {
        return Err(PresetError::NoWorkspaceRoot);
    }
    let repo_working_dir = workspace_roots[0].clone();
    if before {
        return Ok(
            CursorHookStep::Human(
                AgentRunResult {
                    agent_id: AgentId {
                        tool: "cursor".to_owned(),
                        id: conversation_id,
                        model: "unknown".to_owned(),
                    },
                    is_human: true,
                    transcript: None,
                    repo_working_dir: Some(repo_working_dir),
                },
            ),
        );
    }
    let composer_id = match prompt_id {
        Some(p) => p,
        None => conversation_id,
    };
    Ok(CursorHookStep::ReadComposer { composer_id, repo_working_dir })
}

/// The session id a GitHub Copilot hook names: `chatSessionId`, else
/// `sessionId`, else `unknown`.
pub fn copilot_session_id(chat_session_id: Option<String>, session_id: Option<String>) -> (r: String)
    ensures
        r@ == match chat_session_id {
            Some(c) => c@,
            None => match session_id {
                Some(s) => s@,
                None => "unknown"@,
            },
        },
{
    match chat_session_id {
        Some(c) => c,
        None => match session_id {
            Some(s) => s,
            None => "unknown".to_owned(),
        },
    }
}

/// The view of an optional transcript: its messages' views.
pub open spec fn transcript_view(t: Option<AiTranscript>) -> Option<Seq<(nat, Seq<char>, Option<Seq<char>>)>> {
    match t {
        Some(x) => Some(messages_view(x.messages@)),
        None => None,
    }
}

/// The Cursor conversation of a checkpoint, if its agent is Cursor.
pub open spec fn cursor_conversation(c: Checkpoint) -> Option<Seq<char>> {
    match c.agent_id {
        Some(a) => if a.tool@ == cursor_tool() {
            Some(a.id@)
        } else {
            None
        },
        None => None,
    }
}

/// `after` is `before` with at most its transcript and agent changed.
pub open spec fn same_but_session(before: Checkpoint, after: Checkpoint) -> bool {
    &&& after.snapshot == before.snapshot
    &&& after.diff == before.diff
    &&& after.author == before.author
    &&& after.timestamp == before.timestamp
    &&& after.entries == before.entries
}

/// The view of a fetched conversation: its transcript's messages and the
/// model.
pub open spec fn latest_view(t: Option<(AiTranscript, String)>) -> Option<
    (Seq<(nat, Seq<char>, Option<Seq<char>>)>, Seq<char>),
> {
    match t {
        Some((x, m)) => Some((messages_view(x.messages@), m@)),
        None => None,
    }
}

/// `fetched` holds, for each conversation, a result `fetch` can give for it.
pub open spec fn fetched_by<F: Fn(&str) -> Option<(AiTranscript, String)>>(
    fetch: F,
    fetched: Map<Seq<char>, Option<(Seq<(nat, Seq<char>, Option<Seq<char>>)>, Seq<char>)>>,
) -> bool {
    forall|k: Seq<char>|
        #[trigger] fetched.contains_key(k) ==> exists|s: &str, t: Option<(AiTranscript, String)>|
            s@ == k && call_ensures(fetch, (s,), t) && latest_view(t) == fetched[k]
}

/// What a checkpoint `o` becomes given what was fetched for its Cursor
/// conversation: with a fetched transcript and model, the transcript is
/// replaced and the agent runs that model; otherwise it is unchanged.
pub open spec fn brought_up_to_date(
    o: Checkpoint,
    f: Checkpoint,
    fetched: Map<Seq<char>, Option<(Seq<(nat, Seq<char>, Option<Seq<char>>)>, Seq<char>)>>,
) -> bool {
    &&& same_but_session(o, f)
    &&& match cursor_conversation(o) {
        Some(k) => fetched.contains_key(k) && match fetched[k] {
            Some((t, m)) => {
                &&& transcript_view(f.transcript) == Some(t)
                &&& f.agent_id is Some
                &&& f.agent_id.unwrap()@ == (o.agent_id.unwrap().tool@, k, m)
            },
            None => f.transcript == o.transcript && f.agent_id == o.agent_id,
        },
        None => f.transcript == o.transcript && f.agent_id == o.agent_id,
    }
}

/// A copy of a transcript.
fn copy_transcript(t: &AiTranscript) -> (r: AiTranscript)
    ensures
        messages_view(r.messages@) == messages_view(t.messages@),
{
    AiTranscript { messages: copy_messages(&t.messages) }
}

/// Whether an agent is Cursor.
fn is_cursor_agent(a: &AgentId) -> (r: bool)
    ensures
        r == (a.tool@ == cursor_tool()),
{
    proof {
        reveal_strlit("cursor");
        assert("cursor"@ =~= cursor_tool());
    }
    crate::str_map::str_eq(a.tool.as_str(), "cursor")
}

impl CursorPreset {
    /// Brings Cursor checkpoints up to date: each Cursor conversation's
    /// latest transcript and model are fetched once, with `fetch_latest`,
    /// and when they are found they replace the transcript and the agent's
    /// model of every checkpoint of that conversation; other checkpoints are
    /// unchanged.
    pub fn update_cursor_conversations_to_latest<F: Fn(&str) -> Option<(AiTranscript, String)>>(
        checkpoints: &mut Vec<Checkpoint>,
        fetch_latest: F,
    )
        requires
            forall|s: &str| call_requires(fetch_latest, (s,)),
        ensures
            final(checkpoints)@.len() == old(checkpoints)@.len(),
            exists|fetched: Map<Seq<char>, Option<(Seq<(nat, Seq<char>, Option<Seq<char>>)>, Seq<char>)>>|
                fetched_by(fetch_latest, fetched) && forall|i: int|
                    0 <= i < old(checkpoints)@.len() ==> brought_up_to_date(
                        #[trigger] old(checkpoints)@[i],
                        final(checkpoints)@[i],
                        fetched,
                    ),
    {
        let ghost old_cps = checkpoints@;
        let mut results: StrMap<Option<(AiTranscript, String)>> = StrMap::new();
        let ghost mut fetched: Map<Seq<char>, Option<(Seq<(nat, Seq<char>, Option<Seq<char>>)>, Seq<char>)>> = Map::empty();
        let mut i: usize = 0;
        while i < checkpoints.len()
            invariant
                0 <= i <= checkpoints@.len(),
                checkpoints@.len() == old_cps.len(),
                results.wf(),
                forall|s: &str| call_requires(fetch_latest, (s,)),
                fetched_by(fetch_latest, fetched),
                forall|k: Seq<char>| #[trigger] fetched.contains_key(k) <==> lookup(results@, k) is Some,
                forall|k: Seq<char>| #[trigger] fetched.contains_key(k) ==> latest_view(lookup(results@, k).unwrap()) == fetched[k],
                forall|j: int| i <= j < checkpoints@.len() ==> #[trigger] checkpoints@[j] == old_cps[j],
                forall|j: int| 0 <= j < i ==> brought_up_to_date(#[trigger] old_cps[j], checkpoints@[j], fetched),
            decreases checkpoints@.len() - i,
        {
            let conv: Option<(String, String)> = match &checkpoints[i].agent_id {
                Some(a) => if is_cursor_agent(a) {
                    Some((a.tool.clone(), a.id.clone()))
                } else {
                    None
                },
                None => None,
            };
            assert(match conv {
                Some(c) => cursor_conversation(old_cps[i as int]) == Some(c.1@)
                    && old_cps[i as int].agent_id.unwrap().tool@ == c.0@,
                None => cursor_conversation(old_cps[i as int]) is None,
            });
            match conv {
                None => {},
                Some((tool, id)) => {
                    proof {
                        crate::str_map::lemma_lookup(results@, id@);
                    }
                    let had = results.contains_key(id.as_str());
                    if had {
                        assert(fetched.contains_key(id@));
                    }
                    if !had {
                        let ids: &str = id.as_str();
                        let t = fetch_latest(ids);
                        proof {
                            fetched = fetched.insert(id@, latest_view(t));
                        }
                        results.insert(id.clone(), t);
                        assert(lookup(results@, id@) == Some(t));
                        assert(fetched.contains_key(id@) && latest_view(lookup(results@, id@).unwrap()) == fetched[id@]);
                        assert(fetched_by(fetch_latest, fetched)) by {
                            assert forall|k: Seq<char>| #[trigger] fetched.contains_key(k) implies exists|s: &str, t2: Option<(AiTranscript, String)>|
                                s@ == k && call_ensures(fetch_latest, (s,), t2) && latest_view(t2) == fetched[k] by {
                                if k == id@ {
                                    assert(call_ensures(fetch_latest, (ids,), t) && ids@ == k);
                                }
                            }
                        }
                    }
                    assert(fetched.contains_key(id@) && latest_view(lookup(results@, id@).unwrap()) == fetched[id@]);
                    let found = results.get(id.as_str());
                    match found {
                        Some(Some((t, m))) => {
                            let nt = copy_transcript(t);
                            let na = AgentId { tool, id: id.clone(), model: m.clone() };
                            let ghost before = checkpoints@;
                            checkpoints[i].transcript = Some(nt);
                            checkpoints[i].agent_id = Some(na);
                            assert(checkpoints@ == before.update(i as int, checkpoints@[i as int]));
                            assert(brought_up_to_date(old_cps[i as int], checkpoints@[i as int], fetched));
                        },
                        _ => {
                            assert(checkpoints@[i as int] == old_cps[i as int]);
                        },
                    }
                    assert(fetched.contains_key(id@));
                },
            }
            i = i + 1;
        }
    }
}

} // verus!
