//! The working log: checkpoints of edits, each with the lines it added and
//! deleted per file, and the AI transcript behind it if any.
use vstd::prelude::*;

verus! {

/// A single line or an inclusive range of lines of a working-log entry.
#[derive(Debug, Clone, Copy, PartialEq, Eq, Structural)]
pub enum Line {
    Single(u32),
    Range(u32, u32),
}

/// The lines that one checkpoint added to and deleted from a file.
#[derive(Debug, Clone, PartialEq, Eq)]
pub struct WorkingLogEntry {
    pub file: String,
    pub added_lines: Vec<Line>,
    pub deleted_lines: Vec<Line>,
}

impl WorkingLogEntry {
    pub fn new(file: String, added_lines: Vec<Line>, deleted_lines: Vec<Line>) -> (r: Self)
        ensures
            r.file == file,
            r.added_lines == added_lines,
            r.deleted_lines == deleted_lines,
    {
        WorkingLogEntry { file, added_lines, deleted_lines }
    }
}

/// The agent session behind a checkpoint: the tool, its session id and the
/// model it ran.
#[derive(Debug, Clone, PartialEq, Eq)]
pub struct AgentId {
    pub tool: String,
    pub id: String,
    pub model: String,
}

impl View for AgentId {
    type V = (Seq<char>, Seq<char>, Seq<char>);

    open spec fn view(&self) -> (Seq<char>, Seq<char>, Seq<char>) {
        (self.tool@, self.id@, self.model@)
    }
}

impl AgentId {
    /// A field-by-field copy.
    pub fn copy(&self) -> (r: AgentId)
        ensures
            r@ == self@,
    {
        AgentId { tool: self.tool.clone(), id: self.id.clone(), model: self.model.clone() }
    }
}

/// A message of an AI transcript.
#[derive(Debug, Clone, PartialEq, Eq)]
pub enum Message {
    User { text: String, timestamp: Option<String> },
    Assistant { text: String, timestamp: Option<String> },
    ToolUse { name: String, input: String },
}

/// The view of an optional string.
pub open spec fn opt_str_view(o: Option<String>) -> Option<Seq<char>> {
    match o {
        Some(s) => Some(s@),
        None => None,
    }
}

impl View for Message {
    /// The kind (0 user, 1 assistant, 2 tool use), the text or tool name, and
    /// the timestamp or tool input.
    type V = (nat, Seq<char>, Option<Seq<char>>);

    open spec fn view(&self) -> (nat, Seq<char>, Option<Seq<char>>) {
        match self {
            Message::User { text, timestamp } => (0nat, text@, opt_str_view(*timestamp)),
            Message::Assistant { text, timestamp } => (1nat, text@, opt_str_view(*timestamp)),
            Message::ToolUse { name, input } => (2nat, name@, Some(input@)),
        }
    }
}

/// Copies an optional string.
pub fn copy_opt_string(o: &Option<String>) -> (r: Option<String>)
    ensures
        opt_str_view(r) == opt_str_view(*o),
{
    match o {
        Some(s) => Some(s.clone()),
        None => None,
    }
}

impl Message {
    /// A user message without timestamp.
    pub fn user(text: String) -> (r: Message)
        ensures
            r@ == (0nat, text@, None::<Seq<char>>),
    {
        Message::User { text, timestamp: None }
    }

    /// An assistant message without timestamp.
    pub fn assistant(text: String) -> (r: Message)
        ensures
            r@ == (1nat, text@, None::<Seq<char>>),
    {
        Message::Assistant { text, timestamp: None }
    }

    /// A tool-use message.
    pub fn tool_use(name: String, input: String) -> (r: Message)
        ensures
            r@ == (2nat, name@, Some(input@)),
    {
        Message::ToolUse { name, input }
    }

    /// A field-by-field copy.
    pub fn copy(&self) -> (r: Message)
        ensures
            r@ == self@,
    {
        match self {
            Message::User { text, timestamp } => Message::User {
                text: text.clone(),
                timestamp: copy_opt_string(timestamp),
            },
            Message::Assistant { text, timestamp } => Message::Assistant {
                text: text.clone(),
                timestamp: copy_opt_string(timestamp),
            },
            Message::ToolUse { name, input } => Message::ToolUse {
                name: name.clone(),
                input: input.clone(),
            },
        }
    }
}

/// The views of a sequence of messages.
pub open spec fn messages_view(s: Seq<Message>) -> Seq<(nat, Seq<char>, Option<Seq<char>>)> {
    s.map_values(|m: Message| m@)
}

/// Copies a list of messages.
pub fn copy_messages(s: &Vec<Message>) -> (r: Vec<Message>)
    ensures
        messages_view(r@) == messages_view(s@),
{
    let mut r: Vec<Message> = Vec::new();
    let mut i: usize = 0;
    while i < s.len()
        invariant
            0 <= i <= s@.len(),
            messages_view(r@) == messages_view(s@.take(i as int)),
            r@.len() == i,
        decreases s@.len() - i,
    {
        let m = s[i].copy();
        let ghost old_r = r@;
        r.push(m);
        assert(r@ == old_r.push(m));
        assert(messages_view(r@) =~= messages_view(old_r).push(m@));
        assert(messages_view(s@.take(i + 1)) =~= messages_view(s@.take(i as int)).push(s@[i as int]@));
        i = i + 1;
        assert(messages_view(r@) =~= messages_view(s@.take(i as int)));
    }
    assert(s@.take(i as int) =~= s@);
    r
}

/// An AI transcript: the messages of a session, in order.
#[derive(Debug, Clone, PartialEq, Eq)]
pub struct AiTranscript {
    pub messages: Vec<Message>,
}

impl AiTranscript {
    pub fn new() -> (r: Self)
        ensures
            r.messages@.len() == 0,
    {
        AiTranscript { messages: Vec::new() }
    }

    /// Appends a message.
    pub fn add_message(&mut self, message: Message)
        ensures
            final(self).messages@ == old(self).messages@.push(message),
    {
        self.messages.push(message);
    }

    /// The messages, in order.
    pub fn messages(&self) -> (r: &Vec<Message>)
        ensures
            r == &self.messages,
    {
        &self.messages
    }
}

/// The time of day in seconds since the Unix epoch (0 if the clock is before it).
///
/// Wraps `SystemTime::now()`; nothing is claimed of the result, which
/// depends on the clock.
#[verifier::external_body]
fn now_unix_seconds() -> u64 {
    std::time::SystemTime::now().duration_since(std::time::UNIX_EPOCH).map(|d| d.as_secs()).unwrap_or(0)
}

/// A checkpoint of the working log.
#[derive(Debug, Clone, PartialEq, Eq)]
pub struct Checkpoint {
    pub snapshot: String,
    pub diff: String,
    pub author: String,
    pub timestamp: u64,
    pub entries: Vec<WorkingLogEntry>,
    pub transcript: Option<AiTranscript>,
    pub agent_id: Option<AgentId>,
}

impl Checkpoint {
    /// A checkpoint taken now, without transcript or agent.
    pub fn new(snapshot: String, diff: String, author: String, entries: Vec<WorkingLogEntry>) -> (r:
        Self)
        ensures
            r.snapshot == snapshot,
            r.diff == diff,
            r.author == author,
            r.entries == entries,
            r.transcript is None,
            r.agent_id is None,
    {
        Checkpoint {
            snapshot,
            diff,
            author,
            timestamp: now_unix_seconds(),
            entries,
            transcript: None,
            agent_id: None,
        }
    }
}

} // verus!
