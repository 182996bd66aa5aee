//! Putting an agent together: what it is instructed with and which tools it has.
use vstd::prelude::*;
use crate::tools::{AskSender, PermCheck};

pub mod loop_tools;
pub mod preamble;

verus! {

/// The tool that searches earlier sessions, except the one that is going on.
pub struct SessionSearchTool {
    pub db_path: String,
    pub session_id: Option<String>,
    pub permission: Option<PermCheck>,
    pub ask_tx: Option<AskSender>,
}

impl SessionSearchTool {
    /// The session that is going on.
    pub fn current_session_id(&self) -> (r: Option<&str>)
        ensures
            match self.session_id {
                Some(id) => r is Some && r->0@ == id@,
                None => r is None,
            },
    {
        match &self.session_id {
            Some(id) => Some(id.as_str()),
            None => None,
        }
    }
}

/// The tool that searches earlier sessions.
pub fn build_session_search_tool(
    db_path: String,
    session_id: Option<String>,
    permission: Option<PermCheck>,
    ask_tx: Option<AskSender>,
) -> (r: SessionSearchTool)
    ensures
        r.db_path == db_path,
        r.session_id == session_id,
        r.permission == permission,
        r.ask_tx == ask_tx,
{
    SessionSearchTool { db_path, session_id, permission, ask_tx }
}

} // verus!
