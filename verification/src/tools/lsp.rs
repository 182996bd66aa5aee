//! The `lsp` tool: checking a call, turning it into a request to the language
//! servers, and answering it.
use vstd::prelude::*;
use crate::platform::{quoted, quoted_of};
use crate::text::{cat, same};
use crate::tools::bash::paths::{join_path, joined};
use crate::tools::{AskSender, LspManager, PermCheck};

verus! {

/// The `lsp` tool. Relative paths are seen from `cwd`.
pub struct LspTool {
    pub permission: Option<PermCheck>,
    pub ask_tx: Option<AskSender>,
    pub manager: LspManager,
    pub cwd: String,
}

impl LspTool {
    /// The tool on the given manager and directory.
    pub fn new(
        permission: Option<PermCheck>,
        ask_tx: Option<AskSender>,
        manager: LspManager,
        cwd: String,
    ) -> (r: Self)
        ensures
            r.permission == permission,
            r.ask_tx == ask_tx,
            r.manager == manager,
            r.cwd == cwd,
    {
        LspTool { permission, ask_tx, manager, cwd }
    }
}

/// Arguments of the `lsp` tool; lines and characters are counted from one.
#[derive(Debug)]
pub struct LspArgs {
    pub operation: String,
    pub file_path: Option<String>,
    pub line: Option<u32>,
    pub character: Option<u32>,
    pub query: Option<String>,
}

/// What a language server is asked.
#[derive(Clone, Copy, Debug, PartialEq, Eq, Structural)]
pub enum Operation {
    Definition,
    References,
    Hover,
    DocumentSymbol,
    WorkspaceSymbol,
    Implementation,
    PrepareCallHierarchy,
    IncomingCalls,
    OutgoingCalls,
}

/// The operation of that name.
pub open spec fn operation_of(s: Seq<char>) -> Option<Operation> {
    if s == "definition"@ || s == "goToDefinition"@ {
        Some(Operation::Definition)
    } else if s == "references"@ || s == "findReferences"@ {
        Some(Operation::References)
    } else if s == "hover"@ {
        Some(Operation::Hover)
    } else if s == "documentSymbol"@ {
        Some(Operation::DocumentSymbol)
    } else if s == "workspaceSymbol"@ {
        Some(Operation::WorkspaceSymbol)
    } else if s == "implementation"@ || s == "goToImplementation"@ {
        Some(Operation::Implementation)
    } else if s == "prepareCallHierarchy"@ {
        Some(Operation::PrepareCallHierarchy)
    } else if s == "incomingCalls"@ {
        Some(Operation::IncomingCalls)
    } else if s == "outgoingCalls"@ {
        Some(Operation::OutgoingCalls)
    } else {
        None
    }
}

impl Operation {
    /// The operation of that name.
    pub fn parse(s: &str) -> (r: Option<Operation>)
        ensures
            r == operation_of(s@),
    {
        if same(s, "definition") || same(s, "goToDefinition") {
            Some(Operation::Definition)
        } else if same(s, "references") || same(s, "findReferences") {
            Some(Operation::References)
        } else if same(s, "hover") {
            Some(Operation::Hover)
        } else if same(s, "documentSymbol") {
            Some(Operation::DocumentSymbol)
        } else if same(s, "workspaceSymbol") {
            Some(Operation::WorkspaceSymbol)
        } else if same(s, "implementation") || same(s, "goToImplementation") {
            Some(Operation::Implementation)
        } else if same(s, "prepareCallHierarchy") {
            Some(Operation::PrepareCallHierarchy)
        } else if same(s, "incomingCalls") {
            Some(Operation::IncomingCalls)
        } else if same(s, "outgoingCalls") {
            Some(Operation::OutgoingCalls)
        } else {
            None
        }
    }

    /// The operation asks about a position in the file.
    pub open spec fn positional(self) -> bool {
        self != Operation::DocumentSymbol && self != Operation::WorkspaceSymbol
    }

    /// Whether the operation asks about a position in the file.
    pub fn needs_position(self) -> (r: bool)
        ensures
            r == self.positional(),
    {
        match self {
            Operation::DocumentSymbol => false,
            Operation::WorkspaceSymbol => false,
            _ => true,
        }
    }

    /// Whether the operation needs a file: each does, as the file picks the server.
    pub fn needs_file(self) -> (r: bool)
        ensures
            r,
    {
        true
    }
}

/// A checked call: what is asked, of which file, at which position counted from
/// zero, and for which query.
#[derive(Debug)]
pub struct LspRequest {
    pub operation: Operation,
    pub path: String,
    pub line: u32,
    pub character: u32,
    pub query: String,
}

/// A checked call, as text.
pub struct LspRequestView {
    pub operation: Operation,
    pub path: Seq<char>,
    pub line: u32,
    pub character: u32,
    pub query: Seq<char>,
}

impl View for LspRequest {
    type V = LspRequestView;

    open spec fn view(&self) -> LspRequestView {
        LspRequestView {
            operation: self.operation,
            path: self.path@,
            line: self.line,
            character: self.character,
            query: self.query@,
        }
    }
}

/// A position counted from zero; a missing one, or zero itself, is the first.
pub open spec fn from_zero(n: Option<u32>) -> u32 {
    match n {
        Some(k) => if k > 0 {
            (k - 1) as u32
        } else {
            0
        },
        None => 0,
    }
}

fn zero_based(n: Option<u32>) -> (r: u32)
    ensures
        r == from_zero(n),
{
    match n {
        Some(k) => if k > 0 {
            k - 1
        } else {
            0
        },
        None => 0,
    }
}

/// The request in the arguments, or the refusal: the operation must be known, a file
/// be given, a query where symbols are searched, and a position where one is asked
/// about.
pub open spec fn lsp_request_of(a: LspArgs, cwd: Seq<char>) -> Result<LspRequestView, Seq<char>> {
    match operation_of(a.operation@) {
        None => Err(
            "unknown lsp operation "@ + quoted_of(a.operation@)
                + "; see the tool description for valid values"@,
        ),
        Some(op) => match a.file_path {
            None => Err("operation "@ + quoted_of(a.operation@) + " requires file_path"@),
            Some(p) => if op == Operation::WorkspaceSymbol && a.query is None {
                Err("workspaceSymbol requires query (pass an empty string to list all)"@)
            } else if op.positional() && (a.line is None || a.character is None) {
                Err(
                    "operation "@ + quoted_of(a.operation@)
                        + " requires line and character (1-based)"@,
                )
            } else {
                Ok(
                    LspRequestView {
                        operation: op,
                        path: joined(cwd, p@),
                        line: from_zero(a.line),
                        character: from_zero(a.character),
                        query: match a.query {
                            Some(q) => q@,
                            None => ""@,
                        },
                    },
                )
            },
        },
    }
}

impl LspTool {
    /// Checks a call and turns it into a request.
    pub fn request(&self, args: &LspArgs) -> (r: Result<LspRequest, String>)
        ensures
            match r {
                Ok(q) => lsp_request_of(*args, self.cwd@) == Ok::<LspRequestView, Seq<char>>(q@),
                Err(e) => lsp_request_of(*args, self.cwd@) == Err::<LspRequestView, Seq<char>>(e@),
            },
    {
        let name = args.operation.as_str();
        match Operation::parse(name) {
            None => {
                let q = quoted(name);
                let mut out = cat("unknown lsp operation ", q.as_str());
                out.append("; see the tool description for valid values");
                Err(out)
            },
            Some(op) => match &args.file_path {
                None => {
                    let q = quoted(name);
                    let mut out = cat("operation ", q.as_str());
                    out.append(" requires file_path");
                    Err(out)
                },
                Some(p) => {
                    if op == Operation::WorkspaceSymbol && args.query.is_none() {
                        return Err(
                            "workspaceSymbol requires query (pass an empty string to list all)".to_owned(),
                        );
                    }
                    if op.needs_position() && (args.line.is_none() || args.character.is_none()) {
                        let q = quoted(name);
                        let mut out = cat("operation ", q.as_str());
                        out.append(" requires line and character (1-based)");
                        return Err(out);
                    }
                    let query = match &args.query {
                        Some(q) => q.clone(),
                        None => "".to_owned(),
                    };
                    Ok(
                        LspRequest {
                            operation: op,
                            path: join_path(self.cwd.as_str(), p.as_str()),
                            line: zero_based(args.line),
                            character: zero_based(args.character),
                            query,
                        },
                    )
                },
            },
        }
    }
}

/// The refusal of a file that does not exist.
pub fn missing_file(path: &str) -> (r: String)
    ensures
        r@ == "file not found: "@ + path@,
{
    cat("file not found: ", path)
}

/// Shape of what the servers answered: nothing, one answer per server with a mark
/// for each that is nothing, or a single answer.
#[derive(Debug)]
pub enum LspReply {
    Null,
    Array(Vec<bool>),
    Other,
}

/// No server had an answer.
pub open spec fn is_empty_reply(r: LspReply) -> bool {
    match r {
        LspReply::Null => true,
        LspReply::Array(nulls) => forall|i: int| 0 <= i < nulls@.len() ==> #[trigger] nulls@[i],
        LspReply::Other => false,
    }
}

fn all_true(marks: &Vec<bool>) -> (r: bool)
    ensures
        r == (forall|i: int| 0 <= i < marks@.len() ==> #[trigger] marks@[i]),
{
    let mut i: usize = 0;
    while i < marks.len()
        invariant
            i <= marks@.len(),
            forall|k: int| 0 <= k < i ==> #[trigger] marks@[k],
        decreases marks@.len() - i,
    {
        if !marks[i] {
            assert(!marks@[i as int]);
            return false;
        }
        i += 1;
    }
    true
}

fn empty_reply(r: &LspReply) -> (e: bool)
    ensures
        e == is_empty_reply(*r),
{
    match r {
        LspReply::Null => true,
        LspReply::Other => false,
        LspReply::Array(nulls) => all_true(nulls),
    }
}

/// The answer to a call: the servers' answers as text, or a remark that there are
/// none. `pretty` is `None` where the answers cannot be written as text.
pub fn lsp_answer(operation: &str, reply: &LspReply, pretty: &Option<String>) -> (r: String)
    ensures
        r@ == (if is_empty_reply(*reply) {
            "(no results from "@ + operation@ + ")"@
        } else {
            match pretty {
                Some(t) => t@,
                None => "(failed to serialize LSP response)"@,
            }
        }),
{
    if empty_reply(reply) {
        let mut out = cat("(no results from ", operation);
        out.append(")");
        out
    } else {
        match pretty {
            Some(t) => t.clone(),
            None => "(failed to serialize LSP response)".to_owned(),
        }
    }
}

/// A request asks at the position that the call gives, counted from zero where the call counts
/// from one, with the query that the call gives; one is made exactly where the operation is
/// known, a file is given, and so is whatever else the operation needs.
pub proof fn law_lsp_request_is_as_asked(a: LspArgs, cwd: Seq<char>)
    ensures
        lsp_request_of(a, cwd) is Ok <==> operation_of(a.operation@) is Some && a.file_path is Some && (
        operation_of(a.operation@) == Some(Operation::WorkspaceSymbol) ==> a.query is Some) && (
        operation_of(a.operation@)->0.positional() ==> a.line is Some && a.character is Some),
        lsp_request_of(a, cwd) matches Ok(r) ==> {
            &&& operation_of(a.operation@) == Some(r.operation)
            &&& r.path == joined(cwd, a.file_path->0@)
            &&& a.line is Some && a.line->0 > 0 ==> r.line + 1 == a.line->0
            &&& a.character is Some && a.character->0 > 0 ==> r.character + 1 == a.character->0
            &&& a.query matches Some(q) ==> r.query == q@
        },
{
}

} // verus!
