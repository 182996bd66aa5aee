//! The `debug` tool: checking a call, turning it into a request to the debugger, and
//! answering it.
use vstd::prelude::*;
use crate::platform::{quoted, quoted_of};
use crate::text::{
    byte_len, cat, copy_text, copy_texts, decimal, decimal_of, in_order, join, join_of, lemma_in_order_concat,
    lemma_in_order_more, lemma_in_order_next, lemma_in_order_none, lemma_occurs_between, occurs, same,
    signed, signed_of, text_view, texts,
};
use crate::tools::{
    capped_of, head_cap, nonblank_of, required, required_nonblank, required_text, AskSender, LspManager,
    PermCheck,
};

verus! {

/// Bytes of an answer's data that are shown.
pub const MAX_OUTPUT_BYTES: usize = 131072;

/// Bytes of a listing of symbols that are shown.
pub const MAX_SYMBOL_BYTES: usize = 2048;

/// Problems of a file that are listed.
pub const MAX_LISTED_DIAGNOSTICS: usize = 5;

/// Names the debugger session that the tool drives.
#[derive(Clone, Copy, Debug, PartialEq, Eq, Structural)]
pub struct DebugSession {
    pub id: u64,
}

/// The `debug` tool.
pub struct DebugTool {
    pub permission: Option<PermCheck>,
    pub ask_tx: Option<AskSender>,
    pub session: DebugSession,
    pub lsp_manager: Option<LspManager>,
}

impl DebugTool {
    /// The tool on the given session, without language servers.
    pub fn new(permission: Option<PermCheck>, ask_tx: Option<AskSender>, session: DebugSession) -> (r:
        Self)
        ensures
            r.permission == permission,
            r.ask_tx == ask_tx,
            r.session == session,
            r.lsp_manager is None,
    {
        DebugTool { permission, ask_tx, session, lsp_manager: None }
    }

    /// The tool on the given session and language servers.
    pub fn new_with_lsp(
        permission: Option<PermCheck>,
        ask_tx: Option<AskSender>,
        session: DebugSession,
        lsp_manager: LspManager,
    ) -> (r: Self)
        ensures
            r.permission == permission,
            r.ask_tx == ask_tx,
            r.session == session,
            r.lsp_manager == Some(lsp_manager),
    {
        DebugTool { permission, ask_tx, session, lsp_manager: Some(lsp_manager) }
    }
}

/// Arguments of the `debug` tool.
#[derive(Debug)]
pub struct DebugArgs {
    pub action: Option<String>,
    pub program: Option<String>,
    pub args: Option<Vec<String>>,
    pub adapter: Option<String>,
    pub cwd: Option<String>,
    pub file: Option<String>,
    pub line: Option<u32>,
    pub function: Option<String>,
    pub condition: Option<String>,
    pub expression: Option<String>,
    pub frame_id: Option<u32>,
    pub pid: Option<u32>,
    pub port: Option<u16>,
    pub host: Option<String>,
    pub levels: Option<u32>,
    pub variable_ref: Option<u32>,
    pub timeout: Option<u64>,
    pub thread_id: Option<u32>,
    pub stop_on_entry: Option<bool>,
    pub context: Option<String>,
    pub restart: Option<bool>,
}

impl Default for DebugArgs {
    /// Arguments of which none is given.
    fn default() -> (r: Self)
        ensures
            r.action is None && r.program is None && r.args is None && r.adapter is None && r.cwd is None
                && r.file is None && r.line is None && r.function is None && r.condition is None
                && r.expression is None,
            r.frame_id is None && r.pid is None && r.port is None && r.host is None && r.levels is None
                && r.variable_ref is None && r.timeout is None && r.thread_id is None
                && r.stop_on_entry is None && r.context is None && r.restart is None,
    {
        DebugArgs {
            action: None,
            program: None,
            args: None,
            adapter: None,
            cwd: None,
            file: None,
            line: None,
            function: None,
            condition: None,
            expression: None,
            frame_id: None,
            pid: None,
            port: None,
            host: None,
            levels: None,
            variable_ref: None,
            timeout: None,
            thread_id: None,
            stop_on_entry: None,
            context: None,
            restart: None,
        }
    }
}

/// What the debugger is asked to do.
#[derive(Clone, Copy, Debug, PartialEq, Eq, Structural)]
pub enum Action {
    Launch,
    Attach,
    SetBreakpoints,
    RemoveBreakpoints,
    Continue,
    StepOver,
    StepIn,
    StepOut,
    Pause,
    Evaluate,
    StackTrace,
    Threads,
    Scopes,
    Variables,
    Terminate,
    Sessions,
    FunctionBreakpoints,
    RunToCursor,
    RestartFrame,
    BacktraceDiagnostics,
    ErrorAnalysis,
}

/// The action of that name.
pub open spec fn action_of(s: Seq<char>) -> Option<Action> {
    if s == "launch"@ {
        Some(Action::Launch)
    } else if s == "attach"@ {
        Some(Action::Attach)
    } else if s == "set_breakpoints"@ || s == "set_breakpoint"@ {
        Some(Action::SetBreakpoints)
    } else if s == "remove_breakpoints"@ || s == "remove_breakpoint"@ {
        Some(Action::RemoveBreakpoints)
    } else if s == "continue"@ {
        Some(Action::Continue)
    } else if s == "step_over"@ {
        Some(Action::StepOver)
    } else if s == "step_in"@ {
        Some(Action::StepIn)
    } else if s == "step_out"@ {
        Some(Action::StepOut)
    } else if s == "pause"@ {
        Some(Action::Pause)
    } else if s == "evaluate"@ {
        Some(Action::Evaluate)
    } else if s == "stack_trace"@ {
        Some(Action::StackTrace)
    } else if s == "threads"@ {
        Some(Action::Threads)
    } else if s == "scopes"@ {
        Some(Action::Scopes)
    } else if s == "variables"@ {
        Some(Action::Variables)
    } else if s == "terminate"@ {
        Some(Action::Terminate)
    } else if s == "sessions"@ {
        Some(Action::Sessions)
    } else if s == "function_breakpoints"@ || s == "function_breakpoint"@ {
        Some(Action::FunctionBreakpoints)
    } else if s == "run_to_cursor"@ {
        Some(Action::RunToCursor)
    } else if s == "restart_frame"@ {
        Some(Action::RestartFrame)
    } else if s == "backtrace_diagnostics"@ {
        Some(Action::BacktraceDiagnostics)
    } else if s == "error_analysis"@ {
        Some(Action::ErrorAnalysis)
    } else {
        None
    }
}

impl Action {
    /// The action of that name.
    pub fn parse(s: &str) -> (r: Option<Action>)
        ensures
            r == action_of(s@),
    {
        if same(s, "launch") {
            Some(Action::Launch)
        } else if same(s, "attach") {
            Some(Action::Attach)
        } else if same(s, "set_breakpoints") || same(s, "set_breakpoint") {
            Some(Action::SetBreakpoints)
        } else if same(s, "remove_breakpoints") || same(s, "remove_breakpoint") {
            Some(Action::RemoveBreakpoints)
        } else if same(s, "continue") {
            Some(Action::Continue)
        } else if same(s, "step_over") {
            Some(Action::StepOver)
        } else if same(s, "step_in") {
            Some(Action::StepIn)
        } else if same(s, "step_out") {
            Some(Action::StepOut)
        } else if same(s, "pause") {
            Some(Action::Pause)
        } else if same(s, "evaluate") {
            Some(Action::Evaluate)
        } else if same(s, "stack_trace") {
            Some(Action::StackTrace)
        } else if same(s, "threads") {
            Some(Action::Threads)
        } else if same(s, "scopes") {
            Some(Action::Scopes)
        } else if same(s, "variables") {
            Some(Action::Variables)
        } else if same(s, "terminate") {
            Some(Action::Terminate)
        } else if same(s, "sessions") {
            Some(Action::Sessions)
        } else if same(s, "function_breakpoints") || same(s, "function_breakpoint") {
            Some(Action::FunctionBreakpoints)
        } else if same(s, "run_to_cursor") {
            Some(Action::RunToCursor)
        } else if same(s, "restart_frame") {
            Some(Action::RestartFrame)
        } else if same(s, "backtrace_diagnostics") {
            Some(Action::BacktraceDiagnostics)
        } else if same(s, "error_analysis") {
            Some(Action::ErrorAnalysis)
        } else {
            None
        }
    }
}

/// Name under which the tool is offered.
pub const DEBUG_TOOL_NAME: &'static str = "debug";

/// The names of the actions that the tool is offered with.
pub open spec fn offered_actions() -> Seq<Seq<char>> {
    seq![
        "launch"@,
        "attach"@,
        "set_breakpoints"@,
        "remove_breakpoints"@,
        "continue"@,
        "step_over"@,
        "step_in"@,
        "step_out"@,
        "pause"@,
        "evaluate"@,
        "stack_trace"@,
        "threads"@,
        "scopes"@,
        "variables"@,
        "terminate"@,
        "sessions"@,
        "run_to_cursor"@,
        "restart_frame"@,
        "backtrace_diagnostics"@,
        "error_analysis"@,
    ]
}

/// The names of the actions that the tool is offered with.
pub fn action_names() -> (r: Vec<&'static str>)
    ensures
        r@.len() == offered_actions().len(),
        forall|i: int| 0 <= i < r@.len() ==> (#[trigger] r@[i])@ == offered_actions()[i],
{
    vec![
        "launch",
        "attach",
        "set_breakpoints",
        "remove_breakpoints",
        "continue",
        "step_over",
        "step_in",
        "step_out",
        "pause",
        "evaluate",
        "stack_trace",
        "threads",
        "scopes",
        "variables",
        "terminate",
        "sessions",
        "run_to_cursor",
        "restart_frame",
        "backtrace_diagnostics",
        "error_analysis",
    ]
}

/// Every action that the tool is offered with is one that it knows.
pub proof fn law_offered_actions_are_known(i: int)
    requires
        0 <= i < offered_actions().len(),
    ensures
        action_of(offered_actions()[i]) is Some,
{
    let n = offered_actions()[i];
    assert(n == "launch"@ || n == "attach"@ || n == "set_breakpoints"@ || n == "remove_breakpoints"@
        || n == "continue"@ || n == "step_over"@ || n == "step_in"@ || n == "step_out"@ || n
        == "pause"@ || n == "evaluate"@ || n == "stack_trace"@ || n == "threads"@ || n == "scopes"@
        || n == "variables"@ || n == "terminate"@ || n == "sessions"@ || n == "run_to_cursor"@ || n
        == "restart_frame"@ || n == "backtrace_diagnostics"@ || n == "error_analysis"@);
}

/// The given number of seconds kept between five and three hundred; thirty where
/// none is given.
pub fn clamp_timeout(secs: Option<u64>) -> (r: u64)
    ensures
        r == (match secs {
            None => 30,
            Some(s) => if s < 5 {
                5
            } else if s > 300 {
                300
            } else {
                s
            },
        }),
{
    match secs {
        None => 30,
        Some(s) => if s < 5 {
            5
        } else if s > 300 {
            300
        } else {
            s
        },
    }
}

/// The action in the arguments, or the refusal.
pub open spec fn requested_action(a: DebugArgs) -> Result<Action, Seq<char>> {
    match nonblank_of(a.action) {
        None => Err(required_text("action"@, "debug"@)),
        Some(s) => match action_of(s) {
            Some(action) => Ok(action),
            None => Err(
                "unknown debug action "@ + quoted_of(s)
                    + "; see the tool description for valid values"@,
            ),
        },
    }
}

/// The action in the arguments.
pub fn debug_action(args: &DebugArgs) -> (r: Result<Action, String>)
    ensures
        match r {
            Ok(a) => requested_action(*args) == Ok::<Action, Seq<char>>(a),
            Err(e) => requested_action(*args) == Err::<Action, Seq<char>>(e@),
        },
{
    match required_nonblank(&args.action, "action", "debug") {
        Err(e) => Err(e),
        Ok(s) => match Action::parse(s.as_str()) {
            Some(a) => Ok(a),
            None => {
                let q = quoted(s.as_str());
                let mut out = cat("unknown debug action ", q.as_str());
                out.append("; see the tool description for valid values");
                Err(out)
            },
        },
    }
}

/// What the debugger is to do, with all that it needs to know.
#[derive(Debug)]
pub enum DebugRequest {
    Launch { program: String, args: Vec<String>, cwd: String, stop_on_entry: Option<bool> },
    Attach { cwd: String, pid: Option<u32>, port: Option<u16>, host: Option<String> },
    SetBreakpoints { file: String, line: u32, condition: Option<String> },
    RemoveBreakpoints { file: String },
    Continue { thread: u32 },
    Step { action: Action, thread: u32 },
    Pause { thread: u32 },
    Evaluate { expression: String, frame_id: Option<u32>, context: Option<String> },
    StackTrace { thread: u32, levels: Option<u32> },
    Threads,
    Scopes { frame: u32 },
    Variables { reference: u32 },
    Disconnect,
    Terminate,
    Sessions,
    FunctionBreakpoints { function: String, condition: Option<String> },
    RunToCursor { file: String, line: u32, thread: u32 },
    RestartFrame { frame: u32 },
    BacktraceDiagnostics { thread: u32 },
    ErrorAnalysis { thread: u32 },
}

/// What the debugger is to do, as text.
pub enum DebugRequestView {
    Launch {
        program: Seq<char>,
        args: Seq<Seq<char>>,
        cwd: Seq<char>,
        stop_on_entry: Option<bool>,
    },
    Attach { cwd: Seq<char>, pid: Option<u32>, port: Option<u16>, host: Option<Seq<char>> },
    SetBreakpoints { file: Seq<char>, line: u32, condition: Option<Seq<char>> },
    RemoveBreakpoints { file: Seq<char> },
    Continue { thread: u32 },
    Step { action: Action, thread: u32 },
    Pause { thread: u32 },
    Evaluate { expression: Seq<char>, frame_id: Option<u32>, context: Option<Seq<char>> },
    StackTrace { thread: u32, levels: Option<u32> },
    Threads,
    Scopes { frame: u32 },
    Variables { reference: u32 },
    Disconnect,
    Terminate,
    Sessions,
    FunctionBreakpoints { function: Seq<char>, condition: Option<Seq<char>> },
    RunToCursor { file: Seq<char>, line: u32, thread: u32 },
    RestartFrame { frame: u32 },
    BacktraceDiagnostics { thread: u32 },
    ErrorAnalysis { thread: u32 },
}

impl View for DebugRequest {
    type V = DebugRequestView;

    open spec fn view(&self) -> DebugRequestView {
        match self {
            DebugRequest::Launch { program, args, cwd, stop_on_entry } => DebugRequestView::Launch {
                program: program@,
                args: texts(args@),
                cwd: cwd@,
                stop_on_entry: *stop_on_entry,
            },
            DebugRequest::Attach { cwd, pid, port, host } => DebugRequestView::Attach {
                cwd: cwd@,
                pid: *pid,
                port: *port,
                host: text_view(*host),
            },
            DebugRequest::SetBreakpoints { file, line, condition } => DebugRequestView::SetBreakpoints {
                file: file@,
                line: *line,
                condition: text_view(*condition),
            },
            DebugRequest::RemoveBreakpoints { file } => DebugRequestView::RemoveBreakpoints {
                file: file@,
            },
            DebugRequest::Continue { thread } => DebugRequestView::Continue { thread: *thread },
            DebugRequest::Step { action, thread } => DebugRequestView::Step {
                action: *action,
                thread: *thread,
            },
            DebugRequest::Pause { thread } => DebugRequestView::Pause { thread: *thread },
            DebugRequest::Evaluate { expression, frame_id, context } => DebugRequestView::Evaluate {
                expression: expression@,
                frame_id: *frame_id,
                context: text_view(*context),
            },
            DebugRequest::StackTrace { thread, levels } => DebugRequestView::StackTrace {
                thread: *thread,
                levels: *levels,
            },
            DebugRequest::Threads => DebugRequestView::Threads,
            DebugRequest::Scopes { frame } => DebugRequestView::Scopes { frame: *frame },
            DebugRequest::Variables { reference } => DebugRequestView::Variables {
                reference: *reference,
            },
            DebugRequest::Disconnect => DebugRequestView::Disconnect,
            DebugRequest::Terminate => DebugRequestView::Terminate,
            DebugRequest::Sessions => DebugRequestView::Sessions,
            DebugRequest::FunctionBreakpoints { function, condition } =>
                DebugRequestView::FunctionBreakpoints {
                function: function@,
                condition: text_view(*condition),
            },
            DebugRequest::RunToCursor { file, line, thread } => DebugRequestView::RunToCursor {
                file: file@,
                line: *line,
                thread: *thread,
            },
            DebugRequest::RestartFrame { frame } => DebugRequestView::RestartFrame { frame: *frame },
            DebugRequest::BacktraceDiagnostics { thread } => DebugRequestView::BacktraceDiagnostics {
                thread: *thread,
            },
            DebugRequest::ErrorAnalysis { thread } => DebugRequestView::ErrorAnalysis {
                thread: *thread,
            },
        }
    }
}

/// The working directory that a call names, else `.`.
pub open spec fn cwd_of(a: DebugArgs) -> Seq<char> {
    match a.cwd {
        Some(c) => c@,
        None => "."@,
    }
}

/// The command line that a call names for the program.
pub open spec fn program_args_of(a: DebugArgs) -> Seq<Seq<char>> {
    match a.args {
        Some(v) => texts(v@),
        None => Seq::empty(),
    }
}

/// The thread that a call names, else the first.
pub open spec fn thread_or_first(a: DebugArgs) -> u32 {
    match a.thread_id {
        Some(t) => t,
        None => 0,
    }
}

/// What an action on a named thread becomes, or the refusal without one.
pub open spec fn threaded(a: DebugArgs, name: Seq<char>, f: spec_fn(u32) -> DebugRequestView) -> Result<
    DebugRequestView,
    Seq<char>,
> {
    match a.thread_id {
        Some(t) => Ok(f(t)),
        None => Err(required_text("thread_id"@, name)),
    }
}

/// The request for an action, or the refusal where something it needs is missing.
pub open spec fn debug_request_of(action: Action, a: DebugArgs, has_lsp: bool) -> Result<
    DebugRequestView,
    Seq<char>,
> {
    match action {
        Action::Launch => match nonblank_of(a.program) {
            Some(p) => Ok(
                DebugRequestView::Launch {
                    program: p,
                    args: program_args_of(a),
                    cwd: cwd_of(a),
                    stop_on_entry: a.stop_on_entry,
                },
            ),
            None => Err(required_text("program"@, "launch"@)),
        },
        Action::Attach => Ok(
            DebugRequestView::Attach {
                cwd: cwd_of(a),
                pid: a.pid,
                port: a.port,
                host: text_view(a.host),
            },
        ),
        Action::SetBreakpoints => match nonblank_of(a.file) {
            None => Err(required_text("file"@, "set_breakpoints"@)),
            Some(f) => match a.line {
                Some(l) => Ok(
                    DebugRequestView::SetBreakpoints {
                        file: f,
                        line: l,
                        condition: text_view(a.condition),
                    },
                ),
                None => Err(required_text("line"@, "set_breakpoints"@)),
            },
        },
        Action::RemoveBreakpoints => match nonblank_of(a.file) {
            Some(f) => Ok(DebugRequestView::RemoveBreakpoints { file: f }),
            None => Err(required_text("file"@, "remove_breakpoints"@)),
        },
        Action::Continue => Ok(DebugRequestView::Continue { thread: thread_or_first(a) }),
        Action::StepOver => threaded(
            a,
            "step_over"@,
            |t: u32| DebugRequestView::Step { action, thread: t },
        ),
        Action::StepIn => threaded(
            a,
            "step_in"@,
            |t: u32| DebugRequestView::Step { action, thread: t },
        ),
        Action::StepOut => threaded(
            a,
            "step_out"@,
            |t: u32| DebugRequestView::Step { action, thread: t },
        ),
        Action::Pause => Ok(DebugRequestView::Pause { thread: thread_or_first(a) }),
        Action::Evaluate => match nonblank_of(a.expression) {
            Some(e) => Ok(
                DebugRequestView::Evaluate {
                    expression: e,
                    frame_id: a.frame_id,
                    context: text_view(a.context),
                },
            ),
            None => Err(required_text("expression"@, "evaluate"@)),
        },
        Action::StackTrace => threaded(
            a,
            "stack_trace"@,
            |t: u32| DebugRequestView::StackTrace { thread: t, levels: a.levels },
        ),
        Action::Threads => Ok(DebugRequestView::Threads),
        Action::Scopes => match a.frame_id {
            Some(f) => Ok(DebugRequestView::Scopes { frame: f }),
            None => Err(required_text("frame_id"@, "scopes"@)),
        },
        Action::Variables => match a.variable_ref {
            Some(v) => Ok(DebugRequestView::Variables { reference: v }),
            None => Err(required_text("variable_ref"@, "variables"@)),
        },
        Action::Terminate => if a.restart == Some(true) {
            Ok(DebugRequestView::Disconnect)
        } else {
            Ok(DebugRequestView::Terminate)
        },
        Action::Sessions => Ok(DebugRequestView::Sessions),
        Action::FunctionBreakpoints => match nonblank_of(a.function) {
            Some(f) => Ok(
                DebugRequestView::FunctionBreakpoints {
                    function: f,
                    condition: text_view(a.condition),
                },
            ),
            None => Err(required_text("function"@, "function_breakpoints"@)),
        },
        Action::RunToCursor => match nonblank_of(a.file) {
            None => Err(required_text("file"@, "run_to_cursor"@)),
            Some(f) => match a.line {
                None => Err(required_text("line"@, "run_to_cursor"@)),
                Some(l) => if has_lsp {
                    Ok(
                        DebugRequestView::RunToCursor {
                            file: f,
                            line: l,
                            thread: thread_or_first(a),
                        },
                    )
                } else {
                    Err("LSP not available for run_to_cursor"@)
                },
            },
        },
        Action::RestartFrame => match a.frame_id {
            Some(f) => Ok(DebugRequestView::RestartFrame { frame: f }),
            None => Err(required_text("frame_id"@, "restart_frame"@)),
        },
        Action::BacktraceDiagnostics => match a.thread_id {
            None => Err(required_text("thread_id"@, "backtrace_diagnostics"@)),
            Some(t) => if has_lsp {
                Ok(DebugRequestView::BacktraceDiagnostics { thread: t })
            } else {
                Err("LSP not available for backtrace_diagnostics"@)
            },
        },
        Action::ErrorAnalysis => match a.thread_id {
            None => Err(required_text("thread_id"@, "error_analysis"@)),
            Some(t) => if has_lsp {
                Ok(DebugRequestView::ErrorAnalysis { thread: t })
            } else {
                Err("LSP not available for error_analysis"@)
            },
        },
    }
}

fn need<T: Copy>(value: Option<T>, field: &str, action: &str) -> (r: Result<T, String>)
    ensures
        match r {
            Ok(v) => value == Some(v),
            Err(e) => value is None && e@ == required_text(field@, action@),
        },
{
    match value {
        Some(v) => Ok(v),
        None => Err(required(field, action)),
    }
}

impl DebugTool {
    /// Turns a call for an action into a request.
    pub fn request(&self, action: Action, args: &DebugArgs) -> (r: Result<DebugRequest, String>)
        ensures
            match r {
                Ok(q) => debug_request_of(action, *args, self.lsp_manager is Some) == Ok::<
                    DebugRequestView,
                    Seq<char>,
                >(q@),
                Err(e) => debug_request_of(action, *args, self.lsp_manager is Some) == Err::<
                    DebugRequestView,
                    Seq<char>,
                >(e@),
            },
    {
        let has_lsp = self.lsp_manager.is_some();
        let first: u32 = match args.thread_id {
            Some(t) => t,
            None => 0,
        };
        match action {
            Action::Launch => match required_nonblank(&args.program, "program", "launch") {
                Ok(program) => Ok(
                    DebugRequest::Launch {
                        program,
                        args: program_args(args),
                        cwd: cwd_arg(args),
                        stop_on_entry: args.stop_on_entry,
                    },
                ),
                Err(e) => Err(e),
            },
            Action::Attach => Ok(
                DebugRequest::Attach {
                    cwd: cwd_arg(args),
                    pid: args.pid,
                    port: args.port,
                    host: copy_text(&args.host),
                },
            ),
            Action::SetBreakpoints => match required_nonblank(&args.file, "file", "set_breakpoints") {
                Ok(file) => match need(args.line, "line", "set_breakpoints") {
                    Ok(line) => Ok(
                        DebugRequest::SetBreakpoints {
                            file,
                            line,
                            condition: copy_text(&args.condition),
                        },
                    ),
                    Err(e) => Err(e),
                },
                Err(e) => Err(e),
            },
            Action::RemoveBreakpoints => match required_nonblank(
                &args.file,
                "file",
                "remove_breakpoints",
            ) {
                Ok(file) => Ok(DebugRequest::RemoveBreakpoints { file }),
                Err(e) => Err(e),
            },
            Action::Continue => Ok(DebugRequest::Continue { thread: first }),
            Action::StepOver => match need(args.thread_id, "thread_id", "step_over") {
                Ok(thread) => Ok(DebugRequest::Step { action, thread }),
                Err(e) => Err(e),
            },
            Action::StepIn => match need(args.thread_id, "thread_id", "step_in") {
                Ok(thread) => Ok(DebugRequest::Step { action, thread }),
                Err(e) => Err(e),
            },
            Action::StepOut => match need(args.thread_id, "thread_id", "step_out") {
                Ok(thread) => Ok(DebugRequest::Step { action, thread }),
                Err(e) => Err(e),
            },
            Action::Pause => Ok(DebugRequest::Pause { thread: first }),
            Action::Evaluate => match required_nonblank(&args.expression, "expression", "evaluate") {
                Ok(expression) => Ok(
                    DebugRequest::Evaluate {
                        expression,
                        frame_id: args.frame_id,
                        context: copy_text(&args.context),
                    },
                ),
                Err(e) => Err(e),
            },
            Action::StackTrace => match need(args.thread_id, "thread_id", "stack_trace") {
                Ok(thread) => Ok(DebugRequest::StackTrace { thread, levels: args.levels }),
                Err(e) => Err(e),
            },
            Action::Threads => Ok(DebugRequest::Threads),
            Action::Scopes => match need(args.frame_id, "frame_id", "scopes") {
                Ok(frame) => Ok(DebugRequest::Scopes { frame }),
                Err(e) => Err(e),
            },
            Action::Variables => match need(args.variable_ref, "variable_ref", "variables") {
                Ok(reference) => Ok(DebugRequest::Variables { reference }),
                Err(e) => Err(e),
            },
            Action::Terminate => {
                let restart = match args.restart {
                    Some(b) => b,
                    None => false,
                };
                if restart {
                    Ok(DebugRequest::Disconnect)
                } else {
                    Ok(DebugRequest::Terminate)
                }
            },
            Action::Sessions => Ok(DebugRequest::Sessions),
            Action::FunctionBreakpoints => match required_nonblank(
                &args.function,
                "function",
                "function_breakpoints",
            ) {
                Ok(function) => Ok(
                    DebugRequest::FunctionBreakpoints {
                        function,
                        condition: copy_text(&args.condition),
                    },
                ),
                Err(e) => Err(e),
            },
            Action::RunToCursor => match required_nonblank(&args.file, "file", "run_to_cursor") {
                Ok(file) => match need(args.line, "line", "run_to_cursor") {
                    Ok(line) => if has_lsp {
                        Ok(DebugRequest::RunToCursor { file, line, thread: first })
                    } else {
                        Err("LSP not available for run_to_cursor".to_owned())
                    },
                    Err(e) => Err(e),
                },
                Err(e) => Err(e),
            },
            Action::RestartFrame => match need(args.frame_id, "frame_id", "restart_frame") {
                Ok(frame) => Ok(DebugRequest::RestartFrame { frame }),
                Err(e) => Err(e),
            },
            Action::BacktraceDiagnostics => match need(
                args.thread_id,
                "thread_id",
                "backtrace_diagnostics",
            ) {
                Ok(thread) => if has_lsp {
                    Ok(DebugRequest::BacktraceDiagnostics { thread })
                } else {
                    Err("LSP not available for backtrace_diagnostics".to_owned())
                },
                Err(e) => Err(e),
            },
            Action::ErrorAnalysis => match need(args.thread_id, "thread_id", "error_analysis") {
                Ok(thread) => if has_lsp {
                    Ok(DebugRequest::ErrorAnalysis { thread })
                } else {
                    Err("LSP not available for error_analysis".to_owned())
                },
                Err(e) => Err(e),
            },
        }
    }
}

fn cwd_arg(args: &DebugArgs) -> (r: String)
    ensures
        r@ == cwd_of(*args),
{
    match &args.cwd {
        Some(c) => c.clone(),
        None => ".".to_owned(),
    }
}

fn program_args(args: &DebugArgs) -> (r: Vec<String>)
    ensures
        texts(r@) == program_args_of(*args),
{
    match &args.args {
        Some(v) => copy_texts(v),
        None => {
            let none: Vec<String> = Vec::new();
            assert(texts(none@) =~= Seq::empty());
            none
        },
    }
}

/// The line and column, counted from zero, at which the language servers are asked about
/// the position that a program was run to.
pub fn hover_position(line: u32) -> (r: (u32, u32))
    ensures
        r.0 == (if line == 0 {
            0
        } else {
            line - 1
        }),
        r.1 == 0,
{
    if line == 0 {
        (0, 0)
    } else {
        (line - 1, 0)
    }
}

/// State of a debugger session; `status` is its name.
#[derive(Debug)]
pub struct SessionSummary {
    pub id: String,
    pub adapter_name: String,
    pub status: String,
    pub stop_reason: Option<String>,
    pub thread_id: Option<u32>,
    pub languages: Vec<String>,
    pub breakpoint_count: usize,
    pub function_breakpoint_count: usize,
    pub has_capabilities: bool,
}

/// A breakpoint as the adapter reports it.
#[derive(Debug)]
pub struct Breakpoint {
    pub id: Option<i64>,
    pub verified: bool,
    pub line: Option<i64>,
    pub message: Option<String>,
}

/// How a program went on after it was resumed.
#[derive(Debug)]
pub struct ContinueOutcome {
    pub stop_reason: Option<String>,
    pub thread_id: Option<u32>,
    pub exit_code: Option<i64>,
    pub output: String,
    pub output_truncated: bool,
}

/// Remark on the thread that stopped.
pub open spec fn thread_note(t: Option<u32>) -> Seq<char> {
    match t {
        Some(n) => " (thread "@ + decimal_of(n as nat) + ")"@,
        None => ""@,
    }
}

fn note_thread(t: Option<u32>) -> (r: String)
    ensures
        r@ == thread_note(t),
{
    match t {
        Some(n) => {
            let d = decimal(n as u128);
            let mut out = cat(" (thread ", d.as_str());
            out.append(")");
            out
        },
        None => "".to_owned(),
    }
}

/// The answer to a launch.
pub open spec fn launch_text(s: SessionSummary, adapter: Seq<char>) -> Seq<char> {
    "Launched with "@ + adapter + " (session "@ + s.id@ + ").\n"@ + (match s.stop_reason {
        Some(reason) => "Program stopped: "@ + reason@ + thread_note(s.thread_id) + "\n"@,
        None => ""@,
    })
}

/// The answer to a launch.
pub fn format_launch_summary(s: &SessionSummary, adapter: &str) -> (r: String)
    ensures
        r@ == launch_text(*s, adapter@),
{
    let mut out = cat("Launched with ", adapter);
    out.append(" (session ");
    out.append(s.id.as_str());
    out.append(").\n");
    let stop = match &s.stop_reason {
        Some(reason) => {
            let mut t = cat("Program stopped: ", reason.as_str());
            let n = note_thread(s.thread_id);
            t.append(n.as_str());
            t.append("\n");
            t
        },
        None => "".to_owned(),
    };
    out.append(stop.as_str());
    out
}

/// The answer to attaching to a process.
pub fn format_attach_summary(s: &SessionSummary, adapter: &str) -> (r: String)
    ensures
        r@ == "Attached with "@ + adapter@ + " (session "@ + s.id@ + "). Status: "@ + s.status@ + ".\n"@,
{
    let mut out = cat("Attached with ", adapter);
    out.append(" (session ");
    out.append(s.id.as_str());
    out.append("). Status: ");
    out.append(s.status.as_str());
    out.append(".\n");
    out
}

/// The number, or zero without one.
pub open spec fn or_zero(n: Option<i64>) -> int {
    match n {
        Some(k) => k as int,
        None => 0,
    }
}

fn unwrap_zero(n: Option<i64>) -> (r: i64)
    ensures
        r == or_zero(n),
{
    match n {
        Some(k) => k,
        None => 0,
    }
}

/// The line for the breakpoint at position `i` of the adapter's list.
pub open spec fn breakpoint_line(b: Breakpoint, i: int) -> Seq<char> {
    "  ["@ + decimal_of(i as nat) + "] id="@ + signed_of(or_zero(b.id)) + " line="@ + signed_of(
        or_zero(b.line),
    ) + " "@ + (if b.verified {
        "verified"@
    } else {
        "unverified"@
    }) + (match b.message {
        Some(m) => " ("@ + m@ + ")"@,
        None => ""@,
    }) + "\n"@
}

/// The lines for the first `upto` breakpoints.
pub open spec fn breakpoint_lines(bs: Seq<Breakpoint>, upto: int) -> Seq<char>
    decreases upto,
{
    if upto <= 0 {
        Seq::empty()
    } else {
        breakpoint_lines(bs, upto - 1) + breakpoint_line(bs[upto - 1], upto - 1)
    }
}

fn describe_breakpoint(b: &Breakpoint, i: usize) -> (r: String)
    ensures
        r@ == breakpoint_line(*b, i as int),
{
    let mut out = String::new();
    out.append("  [");
    let n = decimal(i as u128);
    out.append(n.as_str());
    out.append("] id=");
    let id = signed(unwrap_zero(b.id));
    out.append(id.as_str());
    out.append(" line=");
    let line = signed(unwrap_zero(b.line));
    out.append(line.as_str());
    out.append(" ");
    out.append(
        if b.verified {
            "verified"
        } else {
            "unverified"
        },
    );
    let note = match &b.message {
        Some(m) => {
            let mut t = cat(" (", m.as_str());
            t.append(")");
            t
        },
        None => "".to_owned(),
    };
    out.append(note.as_str());
    out.append("\n");
    out
}

/// The answer to setting a breakpoint.
pub fn format_breakpoints_result(file: &str, line: u32, results: &Vec<Breakpoint>) -> (r: String)
    ensures
        r@ == "Breakpoint set at "@ + file@ + ":"@ + decimal_of(line as nat) + ".\n"@
            + breakpoint_lines(results@, results@.len() as int),
{
    let mut body = String::new();
    let mut i: usize = 0;
    assert(body@ =~= Seq::empty());
    while i < results.len()
        invariant
            i <= results@.len(),
            body@ == breakpoint_lines(results@, i as int),
        decreases results@.len() - i,
    {
        let row = describe_breakpoint(&results[i], i);
        body.append(row.as_str());
        i += 1;
    }
    let mut out = cat("Breakpoint set at ", file);
    out.append(":");
    let n = decimal(line as u128);
    out.append(n.as_str());
    out.append(".\n");
    out.append(body.as_str());
    out
}

/// The answer to resuming a program.
pub open spec fn outcome_text(o: ContinueOutcome) -> Seq<char> {
    (match o.stop_reason {
        Some(reason) => "Execution stopped: "@ + reason@ + thread_note(o.thread_id) + "\n"@,
        None => "Execution continued.\n"@,
    }) + (match o.exit_code {
        Some(code) => "Exit code: "@ + signed_of(code as int) + "\n"@,
        None => ""@,
    }) + (if o.output@.len() == 0 {
        ""@
    } else {
        "Program output:\n"@ + o.output@ + (if o.output_truncated {
            "\n…[output truncated]"@
        } else {
            ""@
        }) + "\n"@
    })
}

/// The answer to resuming a program.
pub fn format_continue_outcome(o: &ContinueOutcome) -> (r: String)
    ensures
        r@ == outcome_text(*o),
{
    let mut out = match &o.stop_reason {
        Some(reason) => {
            let mut t = cat("Execution stopped: ", reason.as_str());
            let n = note_thread(o.thread_id);
            t.append(n.as_str());
            t.append("\n");
            t
        },
        None => "Execution continued.\n".to_owned(),
    };
    let exit = match o.exit_code {
        Some(code) => {
            let c = signed(code);
            let mut t = cat("Exit code: ", c.as_str());
            t.append("\n");
            t
        },
        None => "".to_owned(),
    };
    out.append(exit.as_str());
    let mut tail = "".to_owned();
    if !o.output.as_str().is_empty() {
        tail = cat("Program output:\n", o.output.as_str());
        tail.append(
            if o.output_truncated {
                "\n…[output truncated]"
            } else {
                ""
            },
        );
        tail.append("\n");
    }
    out.append(tail.as_str());
    out
}

/// The state of a session.
pub open spec fn session_text(s: SessionSummary) -> Seq<char> {
    "Session "@ + s.id@ + " ("@ + s.adapter_name@ + ") — "@ + s.status@ + (match s.stop_reason {
        Some(reason) => "\nStop reason: "@ + reason@ + thread_note(s.thread_id),
        None => ""@,
    }) + (if s.languages@.len() == 0 {
        ""@
    } else {
        "\nLanguages: "@ + join_of(texts(s.languages@), ", "@)
    }) + "\nBreakpoints: "@ + decimal_of(s.breakpoint_count as nat) + " file, "@ + decimal_of(
        s.function_breakpoint_count as nat,
    ) + " function"@ + (if s.has_capabilities {
        "\nCapabilities: loaded"@
    } else {
        ""@
    })
}

/// The state of a session.
pub fn format_sessions(s: &SessionSummary) -> (r: String)
    ensures
        r@ == session_text(*s),
{
    let mut out = cat("Session ", s.id.as_str());
    out.append(" (");
    out.append(s.adapter_name.as_str());
    out.append(") — ");
    out.append(s.status.as_str());
    let stop = match &s.stop_reason {
        Some(reason) => {
            let mut t = cat("\nStop reason: ", reason.as_str());
            let n = note_thread(s.thread_id);
            t.append(n.as_str());
            t
        },
        None => "".to_owned(),
    };
    out.append(stop.as_str());
    let mut langs = "".to_owned();
    if s.languages.len() > 0 {
        let list = join(&s.languages, ", ");
        langs = cat("\nLanguages: ", list.as_str());
    }
    out.append(langs.as_str());
    out.append("\nBreakpoints: ");
    let f = decimal(s.breakpoint_count as u128);
    out.append(f.as_str());
    out.append(" file, ");
    let g = decimal(s.function_breakpoint_count as u128);
    out.append(g.as_str());
    out.append(" function");
    out.append(
        if s.has_capabilities {
            "\nCapabilities: loaded"
        } else {
            ""
        },
    );
    out
}

/// What was done, in words that stand before the state of the session.
pub open spec fn done_text(action: Action) -> Seq<char> {
    match action {
        Action::StepOver => "Step over complete.\n"@,
        Action::StepIn => "Step in complete.\n"@,
        Action::StepOut => "Step out complete.\n"@,
        Action::Pause => "Execution paused.\n"@,
        Action::Terminate => "Debug session terminated.\n"@,
        _ => ""@,
    }
}

/// The answer to an action that ends with the state of the session.
pub fn session_answer(action: Action, s: &SessionSummary) -> (r: String)
    ensures
        r@ == done_text(action) + session_text(*s),
{
    let done = match action {
        Action::StepOver => "Step over complete.\n",
        Action::StepIn => "Step in complete.\n",
        Action::StepOut => "Step out complete.\n",
        Action::Pause => "Execution paused.\n",
        Action::Terminate => "Debug session terminated.\n",
        _ => "",
    };
    let t = format_sessions(s);
    cat(done, t.as_str())
}

/// The answer to a question for the session where there may be none.
pub fn sessions_answer(s: &Option<SessionSummary>) -> (r: String)
    ensures
        r@ == (match s {
            Some(s) => session_text(*s),
            None => "No active debug session."@,
        }),
{
    match s {
        Some(s) => format_sessions(s),
        None => "No active debug session.".to_owned(),
    }
}

/// The answer that shows data of the debugger, for the requests that have one:
/// `count` is the number of items in the data.
pub open spec fn data_text(q: DebugRequestView, count: nat, data: Seq<char>) -> Seq<char> {
    let max = MAX_OUTPUT_BYTES as nat;
    match q {
        DebugRequestView::Evaluate { .. } => capped_of(data, max, "evaluate result"@),
        DebugRequestView::StackTrace { thread, .. } => "Stack trace for thread "@ + decimal_of(
            thread as nat,
        ) + " ("@ + decimal_of(count) + " frames):\n"@ + capped_of(data, max, "stack trace"@),
        DebugRequestView::Threads => decimal_of(count) + " threads:\n"@ + capped_of(
            data,
            max,
            "threads"@,
        ),
        DebugRequestView::Scopes { frame } => "Scopes for frame "@ + decimal_of(frame as nat)
            + ":\n"@ + capped_of(data, max, "scopes"@),
        DebugRequestView::Variables { reference } => "Variables (ref "@ + decimal_of(
            reference as nat,
        ) + "):\n"@ + capped_of(data, max, "variables"@),
        DebugRequestView::RemoveBreakpoints { file } => "Removed all breakpoints from "@ + file
            + " ("@ + decimal_of(count) + " remaining in adapter)"@,
        DebugRequestView::FunctionBreakpoints { function, .. } => "Function breakpoint set on "@
            + function + " ("@ + decimal_of(count) + " breakpoints in adapter)"@,
        DebugRequestView::RestartFrame { frame } => "Restarted frame "@ + decimal_of(frame as nat)
            + ". Re-executing from frame start."@,
        DebugRequestView::Disconnect => "Disconnected with restart."@,
        _ => ""@,
    }
}

/// The answer that shows data of the debugger.
pub fn data_answer(q: &DebugRequest, count: usize, data: &str) -> (r: String)
    ensures
        r@ == data_text(q@, count as nat, data@),
{
    let n = decimal(count as u128);
    match q {
        DebugRequest::Evaluate { .. } => head_cap(data, MAX_OUTPUT_BYTES, "evaluate result"),
        DebugRequest::StackTrace { thread, .. } => {
            let t = decimal(*thread as u128);
            let mut out = cat("Stack trace for thread ", t.as_str());
            out.append(" (");
            out.append(n.as_str());
            out.append(" frames):\n");
            let body = head_cap(data, MAX_OUTPUT_BYTES, "stack trace");
            out.append(body.as_str());
            out
        },
        DebugRequest::Threads => {
            let mut out = cat(n.as_str(), " threads:\n");
            let body = head_cap(data, MAX_OUTPUT_BYTES, "threads");
            out.append(body.as_str());
            out
        },
        DebugRequest::Scopes { frame } => {
            let t = decimal(*frame as u128);
            let mut out = cat("Scopes for frame ", t.as_str());
            out.append(":\n");
            let body = head_cap(data, MAX_OUTPUT_BYTES, "scopes");
            out.append(body.as_str());
            out
        },
        DebugRequest::Variables { reference } => {
            let t = decimal(*reference as u128);
            let mut out = cat("Variables (ref ", t.as_str());
            out.append("):\n");
            let body = head_cap(data, MAX_OUTPUT_BYTES, "variables");
            out.append(body.as_str());
            out
        },
        DebugRequest::RemoveBreakpoints { file } => {
            let mut out = cat("Removed all breakpoints from ", file.as_str());
            out.append(" (");
            out.append(n.as_str());
            out.append(" remaining in adapter)");
            out
        },
        DebugRequest::FunctionBreakpoints { function, .. } => {
            let mut out = cat("Function breakpoint set on ", function.as_str());
            out.append(" (");
            out.append(n.as_str());
            out.append(" breakpoints in adapter)");
            out
        },
        DebugRequest::RestartFrame { frame } => {
            let t = decimal(*frame as u128);
            let mut out = cat("Restarted frame ", t.as_str());
            out.append(". Re-executing from frame start.");
            out
        },
        DebugRequest::Disconnect => "Disconnected with restart.".to_owned(),
        _ => "".to_owned(),
    }
}

/// The refusal of an adapter that talks over a socket.
pub fn socket_refusal() -> (r: String)
    ensures
        r@
            == "socket-mode adapters are not yet supported. Use a stdio-mode adapter instead."@,
{
    "socket-mode adapters are not yet supported. Use a stdio-mode adapter instead.".to_owned()
}

/// The refusal where no adapter is found: one that was named, one for a launch of a
/// program, or one for attaching.
pub open spec fn adapter_refusal_of(name: Option<String>, program: Option<Seq<char>>) -> Seq<char> {
    match name {
        Some(n) => "adapter not found on PATH: "@ + n@,
        None => match program {
            Some(p) => "no debug adapter found for "@ + p
                + ". Install one (lldb-dap, gdb, dlv, debugpy, etc.) or specify --adapter"@,
            None => "no debug adapter found for attach. Install gdb, lldb-dap, or specify --adapter"@,
        },
    }
}

/// The refusal where no adapter is found.
pub fn adapter_refusal(name: &Option<String>, program: Option<&str>) -> (r: String)
    ensures
        r@ == adapter_refusal_of(
            *name,
            match program {
                Some(p) => Some(p@),
                None => None,
            },
        ),
{
    match name {
        Some(n) => cat("adapter not found on PATH: ", n.as_str()),
        None => match program {
            Some(p) => {
                let mut out = cat("no debug adapter found for ", p);
                out.append(
                    ". Install one (lldb-dap, gdb, dlv, debugpy, etc.) or specify --adapter",
                );
                out
            },
            None => "no debug adapter found for attach. Install gdb, lldb-dap, or specify --adapter".to_owned(),
        },
    }
}

/// The program stopped without having ended, so that its position is of interest.
pub open spec fn stopped_alive(o: ContinueOutcome) -> bool {
    match o.stop_reason {
        Some(reason) => reason@ != "terminated"@,
        None => false,
    }
}

/// Whether the language servers are to be asked about the position of the stop.
pub fn wants_hover(o: &ContinueOutcome) -> (r: bool)
    ensures
        r == stopped_alive(*o),
{
    match &o.stop_reason {
        Some(reason) => !same(reason.as_str(), "terminated"),
        None => false,
    }
}

/// The answer to running to a position; `hover` is what the language servers say of
/// it, where they were asked and had something to say.
pub fn run_to_cursor_answer(o: &ContinueOutcome, file: &str, line: u32, hover: &Option<String>) -> (r:
    String)
    ensures
        r@ == outcome_text(*o) + (match hover {
            Some(h) => if stopped_alive(*o) {
                "\n\nHover info at "@ + file@ + ":"@ + decimal_of(line as nat) + ":\n"@ + h@
            } else {
                ""@
            },
            None => ""@,
        }),
{
    let mut out = format_continue_outcome(o);
    let mut info = "".to_owned();
    match hover {
        Some(h) => {
            if wants_hover(o) {
                info = cat("\n\nHover info at ", file);
                info.append(":");
                let n = decimal(line as u128);
                info.append(n.as_str());
                info.append(":\n");
                info.append(h.as_str());
            }
        },
        None => {},
    }
    out.append(info.as_str());
    out
}

/// A stack frame: its source file, where it has one, the name to show for that file,
/// and the line.
#[derive(Debug)]
pub struct Frame {
    pub path: Option<String>,
    pub name: Option<String>,
    pub line: i64,
}

/// A problem that a language server reports: its line counted from zero, how grave
/// it is, and what it says.
#[derive(Debug)]
pub struct Diagnostic {
    pub line: u32,
    pub severity: String,
    pub is_error: bool,
    pub message: String,
}

/// What is known of the file of a frame: its problems, and its symbols where there
/// are any.
#[derive(Debug)]
pub struct FileFacts {
    pub diagnostics: Vec<Diagnostic>,
    pub symbols: Option<String>,
}

/// A frame before `i` has the given file.
pub open spec fn seen_before(frames: Seq<Frame>, i: int, path: Seq<char>) -> bool {
    exists|k: int|
        0 <= k < i && (#[trigger] frames[k]).path is Some && frames[k].path->0@ == path
}

/// The frame at `i` is the first with its file.
pub open spec fn is_first_of_file(frames: Seq<Frame>, i: int) -> bool {
    frames[i].path is Some && !seen_before(frames, i, frames[i].path->0@)
}

/// Whether the frame at `i` is the first with its file, so that the file is looked at.
pub fn first_of_file(frames: &Vec<Frame>, i: usize) -> (r: bool)
    requires
        i < frames@.len(),
    ensures
        r == is_first_of_file(frames@, i as int),
{
    match &frames[i].path {
        None => false,
        Some(p) => {
            let mut k: usize = 0;
            while k < i
                invariant
                    k <= i < frames@.len(),
                    frames@[i as int].path == Some(*p),
                    forall|j: int|
                        0 <= j < k ==> !((#[trigger] frames@[j]).path is Some && frames@[j].path->0@
                            == p@),
                decreases i - k,
            {
                match &frames[k].path {
                    Some(q) => {
                        if same(q.as_str(), p.as_str()) {
                            assert(frames@[k as int].path is Some && frames@[k as int].path->0@
                                == p@);
                            return false;
                        }
                    },
                    None => {},
                }
                k += 1;
            }
            true
        },
    }
}

/// How a frame with a file is named: the file's name and the line, or its path.
pub open spec fn frame_place(f: Frame) -> Seq<char> {
    match f.name {
        Some(n) => n@ + ":"@ + signed_of(f.line as int),
        None => match f.path {
            Some(p) => p@,
            None => ""@,
        },
    }
}

fn place(f: &Frame) -> (r: String)
    ensures
        r@ == frame_place(*f),
{
    match &f.name {
        Some(n) => {
            let mut out = cat(n.as_str(), ":");
            let l = signed(f.line);
            out.append(l.as_str());
            out
        },
        None => match &f.path {
            Some(p) => p.clone(),
            None => "".to_owned(),
        },
    }
}

/// The lines for the first `upto` problems.
pub open spec fn problem_lines(ds: Seq<Diagnostic>, upto: int) -> Seq<char>
    decreases upto,
{
    if upto <= 0 {
        Seq::empty()
    } else {
        problem_lines(ds, upto - 1) + "      L"@ + decimal_of((ds[upto - 1].line + 1) as nat) + " — "@
            + ds[upto - 1].severity@ + ": "@ + ds[upto - 1].message@ + "\n"@
    }
}

/// The lesser of two numbers.
pub open spec fn smaller(a: nat, b: nat) -> nat {
    if a <= b {
        a
    } else {
        b
    }
}

/// The passage on the frame at `i` in a backtrace with problems.
pub open spec fn backtrace_passage(f: Frame, i: int, facts: FileFacts) -> Seq<char> {
    let ds = facts.diagnostics@;
    "  ["@ + decimal_of(i as nat) + "] "@ + frame_place(f) + (if ds.len() == 0 {
        " — no diagnostics\n"@
    } else {
        " — "@ + decimal_of(ds.len()) + " diagnostics:\n"@ + problem_lines(
            ds,
            smaller(ds.len(), MAX_LISTED_DIAGNOSTICS as nat) as int,
        )
    })
}

/// The passages on the first `upto` frames; each file is told of once.
pub open spec fn backtrace_passages(frames: Seq<Frame>, facts: Seq<FileFacts>, upto: int) -> Seq<char>
    decreases upto,
{
    if upto <= 0 {
        Seq::empty()
    } else {
        backtrace_passages(frames, facts, upto - 1) + (if is_first_of_file(frames, upto - 1) {
            backtrace_passage(frames[upto - 1], upto - 1, facts[upto - 1])
        } else {
            ""@
        })
    }
}

fn describe_problems(ds: &Vec<Diagnostic>, upto: usize) -> (r: String)
    requires
        upto <= ds@.len(),
    ensures
        r@ == problem_lines(ds@, upto as int),
{
    let mut out = String::new();
    let mut i: usize = 0;
    assert(out@ =~= Seq::empty());
    while i < upto
        invariant
            i <= upto <= ds@.len(),
            out@ == problem_lines(ds@, i as int),
        decreases upto - i,
    {
        out.append("      L");
        let n = decimal(ds[i].line as u128 + 1);
        out.append(n.as_str());
        out.append(" — ");
        out.append(ds[i].severity.as_str());
        out.append(": ");
        out.append(ds[i].message.as_str());
        out.append("\n");
        i += 1;
    }
    out
}

/// The answer with a backtrace and the problems of the files in it; `facts` has one
/// entry per frame.
pub fn backtrace_answer(thread: u32, frames: &Vec<Frame>, facts: &Vec<FileFacts>) -> (r: String)
    requires
        facts@.len() == frames@.len(),
    ensures
        r@ == "Backtrace diagnostics for thread "@ + decimal_of(thread as nat) + ":\n\n"@
            + backtrace_passages(frames@, facts@, frames@.len() as int),
{
    let mut body = String::new();
    let mut i: usize = 0;
    assert(body@ =~= Seq::empty());
    while i < frames.len()
        invariant
            i <= frames@.len(),
            facts@.len() == frames@.len(),
            body@ == backtrace_passages(frames@, facts@, i as int),
        decreases frames@.len() - i,
    {
        let mut passage = "".to_owned();
        if first_of_file(frames, i) {
            let ds = &facts[i].diagnostics;
            passage = String::new();
            passage.append("  [");
            let n = decimal(i as u128);
            passage.append(n.as_str());
            passage.append("] ");
            let p = place(&frames[i]);
            passage.append(p.as_str());
            if ds.len() == 0 {
                passage.append(" — no diagnostics\n");
            } else {
                let mut list = String::new();
                list.append(" — ");
                let k = decimal(ds.len() as u128);
                list.append(k.as_str());
                list.append(" diagnostics:\n");
                let upto: usize = if ds.len() <= MAX_LISTED_DIAGNOSTICS {
                    ds.len()
                } else {
                    MAX_LISTED_DIAGNOSTICS
                };
                let rows = describe_problems(ds, upto);
                list.append(rows.as_str());
                passage.append(list.as_str());
            }
        }
        body.append(passage.as_str());
        i += 1;
    }
    let t = decimal(thread as u128);
    let mut out = cat("Backtrace diagnostics for thread ", t.as_str());
    out.append(":\n\n");
    out.append(body.as_str());
    out
}

/// The errors among the first `upto` problems.
pub open spec fn errors_in(ds: Seq<Diagnostic>, upto: int) -> Seq<Diagnostic>
    decreases upto,
{
    if upto <= 0 {
        Seq::empty()
    } else if ds[upto - 1].is_error {
        errors_in(ds, upto - 1).push(ds[upto - 1])
    } else {
        errors_in(ds, upto - 1)
    }
}

/// The lines for an error: what it is, and the call that sets a breakpoint there.
pub open spec fn error_lines(path: Seq<char>, d: Diagnostic) -> Seq<char> {
    let line = decimal_of((d.line + 1) as nat);
    "  Error at line "@ + line + ": "@ + d.message@ + "\n"@
        + "    → debug set_breakpoints file="@ + path + " line="@ + line + "\n"@
}

/// The lines for the first `upto` errors.
pub open spec fn all_error_lines(path: Seq<char>, es: Seq<Diagnostic>, upto: int) -> Seq<char>
    decreases upto,
{
    if upto <= 0 {
        Seq::empty()
    } else {
        all_error_lines(path, es, upto - 1) + error_lines(path, es[upto - 1])
    }
}

/// The passage on the frame at `i` in an analysis of errors.
pub open spec fn analysis_passage(f: Frame, i: int, facts: FileFacts) -> Seq<char> {
    let es = errors_in(facts.diagnostics@, facts.diagnostics@.len() as int);
    "Frame ["@ + decimal_of(i as nat) + "]: "@ + frame_place(f) + "\n"@ + (if es.len() == 0 {
        "  No error diagnostics in this file.\n"@
    } else {
        all_error_lines(
            f.path->0@,
            es,
            smaller(es.len(), MAX_LISTED_DIAGNOSTICS as nat) as int,
        )
    }) + (match facts.symbols {
        Some(s) => "  Top-level symbols:\n"@ + capped_of(
            s@,
            MAX_SYMBOL_BYTES as nat,
            "document symbols"@,
        ) + "\n"@,
        None => ""@,
    }) + "\n"@
}

/// The passages on the first `upto` frames; each file is told of once.
pub open spec fn analysis_passages(frames: Seq<Frame>, facts: Seq<FileFacts>, upto: int) -> Seq<char>
    decreases upto,
{
    if upto <= 0 {
        Seq::empty()
    } else {
        analysis_passages(frames, facts, upto - 1) + (if is_first_of_file(frames, upto - 1) {
            analysis_passage(frames[upto - 1], upto - 1, facts[upto - 1])
        } else {
            ""@
        })
    }
}

fn describe_errors(path: &str, ds: &Vec<Diagnostic>) -> (r: String)
    ensures
        ({
            let es = errors_in(ds@, ds@.len() as int);
            r@ == (if es.len() == 0 {
                "  No error diagnostics in this file.\n"@
            } else {
                all_error_lines(
                    path@,
                    es,
                    smaller(es.len(), MAX_LISTED_DIAGNOSTICS as nat) as int,
                )
            })
        }),
{
    let mut out = String::new();
    let mut found: usize = 0;
    let mut i: usize = 0;
    assert(out@ =~= Seq::empty());
    while i < ds.len()
        invariant
            i <= ds@.len(),
            found <= i,
            found == errors_in(ds@, i as int).len(),
            out@ == all_error_lines(
                path@,
                errors_in(ds@, i as int),
                smaller(found as nat, MAX_LISTED_DIAGNOSTICS as nat) as int,
            ),
        decreases ds@.len() - i,
    {
        let ghost before = errors_in(ds@, i as int);
        let ghost after = errors_in(ds@, i + 1);
        if ds[i].is_error {
            proof {
                assert(after == before.push(ds@[i as int]));
                lemma_error_prefix(
                    path@,
                    before,
                    ds@[i as int],
                    smaller(found as nat, MAX_LISTED_DIAGNOSTICS as nat) as int,
                );
            }
            if found < MAX_LISTED_DIAGNOSTICS {
                let n = decimal(ds[i].line as u128 + 1);
                let mut row = cat("  Error at line ", n.as_str());
                row.append(": ");
                row.append(ds[i].message.as_str());
                row.append("\n");
                row.append("    → debug set_breakpoints file=");
                row.append(path);
                row.append(" line=");
                row.append(n.as_str());
                row.append("\n");
                out.append(row.as_str());
            }
            found += 1;
        }
        i += 1;
    }
    if found == 0 {
        return "  No error diagnostics in this file.\n".to_owned();
    }
    out
}

proof fn lemma_error_prefix(path: Seq<char>, es: Seq<Diagnostic>, d: Diagnostic, upto: int)
    requires
        0 <= upto <= es.len(),
    ensures
        all_error_lines(path, es.push(d), upto) == all_error_lines(path, es, upto),
    decreases upto,
{
    if upto > 0 {
        lemma_error_prefix(path, es, d, upto - 1);
        assert(es.push(d)[upto - 1] == es[upto - 1]);
    }
}

/// The answer with the errors of the files in a backtrace and the breakpoints that
/// they suggest; `facts` has one entry per frame.
pub fn error_analysis_answer(thread: u32, frames: &Vec<Frame>, facts: &Vec<FileFacts>) -> (r: String)
    requires
        facts@.len() == frames@.len(),
    ensures
        r@ == "Error analysis for thread "@ + decimal_of(thread as nat) + ":\n\n"@
            + "Stack frames with diagnostics and suggested breakpoints:\n\n"@ + analysis_passages(
            frames@,
            facts@,
            frames@.len() as int,
        ) + (if frames@.len() == 0 {
            "(no stack frames available)\n"@
        } else {
            ""@
        }),
{
    let mut body = String::new();
    let mut i: usize = 0;
    assert(body@ =~= Seq::empty());
    while i < frames.len()
        invariant
            i <= frames@.len(),
            facts@.len() == frames@.len(),
            body@ == analysis_passages(frames@, facts@, i as int),
        decreases frames@.len() - i,
    {
        let mut passage = "".to_owned();
        if first_of_file(frames, i) {
            passage = String::new();
            passage.append("Frame [");
            let n = decimal(i as u128);
            passage.append(n.as_str());
            passage.append("]: ");
            let p = place(&frames[i]);
            passage.append(p.as_str());
            passage.append("\n");
            let path = match &frames[i].path {
                Some(p) => p.as_str(),
                None => "",
            };
            let errors = describe_errors(path, &facts[i].diagnostics);
            passage.append(errors.as_str());
            let symbols = match &facts[i].symbols {
                Some(s) => {
                    let capped = head_cap(s.as_str(), MAX_SYMBOL_BYTES, "document symbols");
                    let mut t = cat("  Top-level symbols:\n", capped.as_str());
                    t.append("\n");
                    t
                },
                None => "".to_owned(),
            };
            passage.append(symbols.as_str());
            passage.append("\n");
        }
        body.append(passage.as_str());
        i += 1;
    }
    let t = decimal(thread as u128);
    let mut out = cat("Error analysis for thread ", t.as_str());
    out.append(":\n\n");
    out.append("Stack frames with diagnostics and suggested breakpoints:\n\n");
    out.append(body.as_str());
    out.append(
        if frames.len() == 0 {
            "(no stack frames available)\n"
        } else {
            ""
        },
    );
    out
}

/// The answer to resuming a program tells why it stopped, on which thread, with which code it
/// ended, and the whole of its output, as far as there are any, in this order.
pub proof fn law_outcome_is_told(o: ContinueOutcome)
    ensures
        in_order(
            outcome_text(o),
            (match o.stop_reason {
                Some(r) => seq![r@],
                None => Seq::empty(),
            }) + (match o.exit_code {
                Some(c) => seq![signed_of(c as int)],
                None => Seq::empty(),
            }) + (if o.output@.len() == 0 {
                Seq::empty()
            } else {
                seq![o.output@]
            }),
        ),
        o.stop_reason is Some && o.thread_id is Some ==> occurs(
            outcome_text(o),
            decimal_of(o.thread_id->0 as nat),
        ),
{
    let none = Seq::<Seq<char>>::empty();
    let a = match o.stop_reason {
        Some(reason) => "Execution stopped: "@ + reason@ + thread_note(o.thread_id) + "\n"@,
        None => "Execution continued.\n"@,
    };
    let pa = match o.stop_reason {
        Some(r) => seq![r@],
        None => none,
    };
    let b = match o.exit_code {
        Some(code) => "Exit code: "@ + signed_of(code as int) + "\n"@,
        None => ""@,
    };
    let pb = match o.exit_code {
        Some(c) => seq![signed_of(c as int)],
        None => none,
    };
    let cut = if o.output_truncated {
        "\n…[output truncated]"@
    } else {
        ""@
    };
    let c = if o.output@.len() == 0 {
        ""@
    } else {
        "Program output:\n"@ + o.output@ + cut + "\n"@
    };
    let pc = if o.output@.len() == 0 {
        none
    } else {
        seq![o.output@]
    };
    match o.stop_reason {
        Some(reason) => {
            let w = "Execution stopped: "@;
            lemma_in_order_none(w);
            lemma_in_order_next(w, none, reason@);
            assert(none.push(reason@) =~= pa);
            lemma_in_order_more(w + reason@, pa, thread_note(o.thread_id));
            lemma_in_order_more(w + reason@ + thread_note(o.thread_id), pa, "\n"@);
            if o.thread_id is Some {
                let n = decimal_of(o.thread_id->0 as nat);
                lemma_occurs_between(w + reason@ + " (thread "@, n, ")"@ + "\n"@ + b + c);
                assert(w + reason@ + " (thread "@ + n + (")"@ + "\n"@ + b + c) =~= outcome_text(o));
            }
        },
        None => {
            lemma_in_order_none(a);
        },
    }
    match o.exit_code {
        Some(code) => {
            let n = signed_of(code as int);
            lemma_in_order_none("Exit code: "@);
            lemma_in_order_next("Exit code: "@, none, n);
            assert(none.push(n) =~= pb);
            lemma_in_order_more("Exit code: "@ + n, pb, "\n"@);
        },
        None => {
            lemma_in_order_none(b);
        },
    }
    if o.output@.len() == 0 {
        lemma_in_order_none(c);
    } else {
        let w = "Program output:\n"@;
        lemma_in_order_none(w);
        lemma_in_order_next(w, none, o.output@);
        assert(none.push(o.output@) =~= pc);
        lemma_in_order_more(w + o.output@, pc, cut);
        lemma_in_order_more(w + o.output@ + cut, pc, "\n"@);
    }
    lemma_in_order_concat(a, b, pa, pb);
    lemma_in_order_concat(a + b, c, pa + pb, pc);
}

/// Data of the debugger that fits is shown whole, for each request that shows data, and the
/// thread, frame or reference that was asked about is named.
pub proof fn law_data_is_shown(q: DebugRequestView, count: nat, data: Seq<char>)
    requires
        byte_len(data) <= MAX_OUTPUT_BYTES,
    ensures
        q is Evaluate ==> data_text(q, count, data) == data,
        q is StackTrace || q is Threads || q is Scopes || q is Variables ==> occurs(
            data_text(q, count, data),
            data,
        ),
        q matches DebugRequestView::StackTrace { thread, .. } ==> occurs(
            data_text(q, count, data),
            decimal_of(thread as nat),
        ),
        q matches DebugRequestView::Scopes { frame } ==> occurs(
            data_text(q, count, data),
            decimal_of(frame as nat),
        ),
        q matches DebugRequestView::Variables { reference } ==> occurs(
            data_text(q, count, data),
            decimal_of(reference as nat),
        ),
        q matches DebugRequestView::RemoveBreakpoints { file } ==> occurs(data_text(q, count, data), file),
{
    let r = data_text(q, count, data);
    let n = decimal_of(count);
    match q {
        DebugRequestView::StackTrace { thread, .. } => {
            let t = decimal_of(thread as nat);
            let a = "Stack trace for thread "@;
            lemma_occurs_between(a, t, " ("@ + n + " frames):\n"@ + data);
            assert(a + t + (" ("@ + n + " frames):\n"@ + data) =~= r);
            lemma_occurs_between(a + t + " ("@ + n + " frames):\n"@, data, Seq::empty());
            assert(a + t + " ("@ + n + " frames):\n"@ + data + Seq::empty() =~= r);
        },
        DebugRequestView::Threads => {
            lemma_occurs_between(n + " threads:\n"@, data, Seq::empty());
            assert(n + " threads:\n"@ + data + Seq::empty() =~= r);
        },
        DebugRequestView::Scopes { frame } => {
            let t = decimal_of(frame as nat);
            lemma_occurs_between("Scopes for frame "@, t, ":\n"@ + data);
            assert("Scopes for frame "@ + t + (":\n"@ + data) =~= r);
            lemma_occurs_between("Scopes for frame "@ + t + ":\n"@, data, Seq::empty());
            assert("Scopes for frame "@ + t + ":\n"@ + data + Seq::empty() =~= r);
        },
        DebugRequestView::Variables { reference } => {
            let t = decimal_of(reference as nat);
            lemma_occurs_between("Variables (ref "@, t, "):\n"@ + data);
            assert("Variables (ref "@ + t + ("):\n"@ + data) =~= r);
            lemma_occurs_between("Variables (ref "@ + t + "):\n"@, data, Seq::empty());
            assert("Variables (ref "@ + t + "):\n"@ + data + Seq::empty() =~= r);
        },
        DebugRequestView::RemoveBreakpoints { file } => {
            let z = " ("@ + n + " remaining in adapter)"@;
            lemma_occurs_between("Removed all breakpoints from "@, file, z);
            assert("Removed all breakpoints from "@ + file + z =~= r);
        },
        _ => {},
    }
}

} // verus!
