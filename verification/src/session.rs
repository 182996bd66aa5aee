//! A conversation: its messages, their tool calls, and what of it was compacted.
use vstd::prelude::*;
use crate::compression::{approx_tokens, tokens_of};

verus! {

/// Who a message is from.
#[derive(Clone, Copy, Debug, PartialEq, Eq, Structural)]
pub enum MessageRole {
    User,
    Assistant,
    System,
}

/// How a tool call ended.
#[derive(Debug)]
pub enum ToolCallState {
    Completed { result: String },
    Interrupted,
    Failed { error: String },
}

/// A tool call of the assistant. `args` are its arguments as JSON text, or `None`
/// where they cannot be written as such.
#[derive(Debug)]
pub struct ToolCallEntry {
    pub id: String,
    pub name: String,
    pub args: Option<String>,
    pub state: ToolCallState,
}

/// A message with the tool calls that belong to it.
#[derive(Debug)]
pub struct SessionMessage {
    pub role: MessageRole,
    pub content: String,
    pub tool_calls: Vec<ToolCallEntry>,
}

/// The summary of the messages before the one at `first_kept`.
#[derive(Debug)]
pub struct Compaction {
    pub summary: String,
    pub first_kept: usize,
}

/// A conversation.
#[derive(Debug)]
pub struct Session {
    pub provider: String,
    pub model: String,
    pub context_window: u64,
    pub messages: Vec<SessionMessage>,
    pub compaction: Option<Compaction>,
}

impl Session {
    /// What was compacted are messages of the session.
    pub open spec fn wf(&self) -> bool {
        self.first_kept() <= self.messages@.len()
    }

    /// Position of the first message that was not compacted.
    pub open spec fn first_kept(&self) -> int {
        match self.compaction {
            Some(c) => c.first_kept as int,
            None => 0,
        }
    }

    /// A session without messages.
    pub fn new(provider: &str, model: &str, context_window: u64) -> (r: Session)
        ensures
            r.wf(),
            r.provider@ == provider@,
            r.model@ == model@,
            r.context_window == context_window,
            r.messages@.len() == 0,
            r.compaction is None,
    {
        Session {
            provider: provider.to_owned(),
            model: model.to_owned(),
            context_window,
            messages: Vec::new(),
            compaction: None,
        }
    }

    /// Adds a message without tool calls.
    pub fn add_message(&mut self, role: MessageRole, content: &str)
        requires
            old(self).wf(),
        ensures
            final(self).wf(),
            final(self).messages@.len() == old(self).messages@.len() + 1,
            final(self).messages@.drop_last() == old(self).messages@,
            final(self).messages@.last().role == role,
            final(self).messages@.last().content@ == content@,
            final(self).messages@.last().tool_calls@.len() == 0,
            final(self).provider == old(self).provider,
            final(self).model == old(self).model,
            final(self).context_window == old(self).context_window,
            final(self).compaction == old(self).compaction,
    {
        self.add_message_with_tool_calls(role, content, Vec::new());
    }

    /// Adds a message with its tool calls.
    pub fn add_message_with_tool_calls(
        &mut self,
        role: MessageRole,
        content: &str,
        tool_calls: Vec<ToolCallEntry>,
    )
        requires
            old(self).wf(),
        ensures
            final(self).wf(),
            final(self).messages@.len() == old(self).messages@.len() + 1,
            final(self).messages@.drop_last() == old(self).messages@,
            final(self).messages@.last().role == role,
            final(self).messages@.last().content@ == content@,
            final(self).messages@.last().tool_calls == tool_calls,
            final(self).provider == old(self).provider,
            final(self).model == old(self).model,
            final(self).context_window == old(self).context_window,
            final(self).compaction == old(self).compaction,
    {
        self.messages.push(SessionMessage { role, content: content.to_owned(), tool_calls });
        assert(self.messages@.drop_last() =~= old(self).messages@);
    }

    /// The summary of what was compacted, and the position of the first message that
    /// was not.
    pub fn compacted_context(&self) -> (r: (Option<&str>, usize))
        ensures
            r.1 == self.first_kept(),
            match self.compaction {
                Some(c) => r.0 is Some && r.0->0@ == c.summary@,
                None => r.0 is None,
            },
    {
        match &self.compaction {
            Some(c) => (Some(c.summary.as_str()), c.first_kept),
            None => (None, 0),
        }
    }

    /// Tokens that a text is taken for.
    pub fn estimate_tokens(text: &str) -> (r: u64)
        ensures
            r == tokens_of(text@.len()),
    {
        approx_tokens(text)
    }
}

} // verus!
