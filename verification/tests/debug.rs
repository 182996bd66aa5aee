use dirge_agent::tools::debug::{
    action_names, adapter_refusal, backtrace_answer, clamp_timeout, data_answer, debug_action,
    error_analysis_answer, format_attach_summary, format_breakpoints_result, format_continue_outcome,
    format_launch_summary, format_sessions, run_to_cursor_answer, session_answer, sessions_answer,
    hover_position, socket_refusal, wants_hover, Action, Breakpoint, ContinueOutcome, DebugArgs, DebugRequest,
    DebugSession, DebugTool, Diagnostic, FileFacts, Frame, SessionSummary, DEBUG_TOOL_NAME,
};
use dirge_agent::tools::LspManager;

#[test]
fn action_parse_valid() {
    assert!(Action::parse("launch").is_some());
    assert!(Action::parse("attach").is_some());
    assert!(Action::parse("set_breakpoints").is_some());
    assert!(Action::parse("set_breakpoint").is_some());
    assert!(Action::parse("remove_breakpoints").is_some());
    assert!(Action::parse("continue").is_some());
    assert!(Action::parse("step_over").is_some());
    assert!(Action::parse("step_in").is_some());
    assert!(Action::parse("step_out").is_some());
    assert!(Action::parse("pause").is_some());
    assert!(Action::parse("evaluate").is_some());
    assert!(Action::parse("stack_trace").is_some());
    assert!(Action::parse("threads").is_some());
    assert!(Action::parse("scopes").is_some());
    assert!(Action::parse("variables").is_some());
    assert!(Action::parse("terminate").is_some());
    assert!(Action::parse("sessions").is_some());

    {
        assert!(Action::parse("run_to_cursor").is_some());
        assert!(Action::parse("restart_frame").is_some());
        assert!(Action::parse("backtrace_diagnostics").is_some());
        assert!(Action::parse("error_analysis").is_some());
    }
}

#[test]
fn action_parse_invalid() {
    assert!(Action::parse("disassemble").is_none());
    assert!(Action::parse("").is_none());
    assert!(Action::parse("unknown_action").is_none());
}

#[test]
fn clamp_timeout_default() {
    assert_eq!(clamp_timeout(None), 30);
}

#[test]
fn clamp_timeout_below_min() {
    assert_eq!(clamp_timeout(Some(3)), 5);
}

#[test]
fn clamp_timeout_above_max() {
    assert_eq!(clamp_timeout(Some(500)), 300);
}

#[test]
fn clamp_timeout_in_range() {
    assert_eq!(clamp_timeout(Some(60)), 60);
}

fn tool() -> DebugTool {
    DebugTool::new(None, None, DebugSession { id: 1 })
}

fn summary() -> SessionSummary {
    SessionSummary {
        id: "s1".into(),
        adapter_name: "gdb".into(),
        status: "Stopped".into(),
        stop_reason: Some("breakpoint".into()),
        thread_id: Some(3),
        languages: vec!["c".into(), "rust".into()],
        breakpoint_count: 2,
        function_breakpoint_count: 1,
        has_capabilities: true,
    }
}

fn outcome(reason: Option<&str>) -> ContinueOutcome {
    ContinueOutcome {
        stop_reason: reason.map(|s| s.to_string()),
        thread_id: None,
        exit_code: Some(-2),
        output: "hi".into(),
        output_truncated: true,
    }
}

#[test]
fn sessions_no_active_session() {
    let args = DebugArgs { action: Some("sessions".into()), ..Default::default() };
    let action = debug_action(&args).unwrap();
    assert!(matches!(tool().request(action, &args), Ok(DebugRequest::Sessions)));
    assert!(sessions_answer(&None).contains("No active debug session"));
}

#[test]
fn definition_has_all_actions() {
    let actions = action_names();
    for expected in [
        "launch",
        "attach",
        "set_breakpoints",
        "remove_breakpoints",
        "continue",
        "step_over",
        "step_in",
        "step_out",
        "pause",
        "evaluate",
        "stack_trace",
        "threads",
        "scopes",
        "variables",
        "terminate",
        "sessions",
        "run_to_cursor",
        "restart_frame",
        "backtrace_diagnostics",
        "error_analysis",
    ] {
        assert!(actions.contains(&expected), "schema missing action {expected:?}");
        assert!(Action::parse(expected).is_some());
    }
}

#[test]
fn definition_name_matches() {
    assert_eq!(DEBUG_TOOL_NAME, "debug");
}

#[test]
fn unknown_action_is_quoted() {
    let args = DebugArgs { action: Some("a\"b".into()), ..Default::default() };
    assert_eq!(
        debug_action(&args).unwrap_err(),
        "unknown debug action \"a\\\"b\"; see the tool description for valid values"
    );
    assert!(debug_action(&DebugArgs::default()).is_err());
}

#[test]
fn requests_need_their_arguments() {
    let args = DebugArgs::default();
    assert_eq!(
        tool().request(Action::StepOver, &args).unwrap_err(),
        "`thread_id` is required for step_over"
    );
    let at = DebugArgs { file: Some("f.rs".into()), line: Some(4), ..Default::default() };
    assert!(matches!(
        tool().request(Action::SetBreakpoints, &at),
        Ok(DebugRequest::SetBreakpoints { line: 4, .. })
    ));
    assert_eq!(
        tool().request(Action::RunToCursor, &at).unwrap_err(),
        "LSP not available for run_to_cursor"
    );
    let with = DebugTool::new_with_lsp(None, None, DebugSession { id: 1 }, LspManager { id: 2 });
    assert!(with.request(Action::RunToCursor, &at).is_ok());
    assert!(matches!(tool().request(Action::Pause, &args), Ok(DebugRequest::Pause { thread: 0 })));
}

#[test]
fn sessions_are_described() {
    let s = summary();
    let text = "Session s1 (gdb) — Stopped\nStop reason: breakpoint (thread 3)\nLanguages: c, rust\nBreakpoints: 2 file, 1 function\nCapabilities: loaded";
    assert_eq!(format_sessions(&s), text);
    assert_eq!(session_answer(Action::StepIn, &s), format!("Step in complete.\n{text}"));
    assert_eq!(
        format_launch_summary(&s, "gdb"),
        "Launched with gdb (session s1).\nProgram stopped: breakpoint (thread 3)\n"
    );
    assert_eq!(format_attach_summary(&s, "gdb"), "Attached with gdb (session s1). Status: Stopped.\n");
}

#[test]
fn breakpoints_are_listed() {
    let bps = vec![
        Breakpoint { id: Some(5), verified: true, line: Some(7), message: None },
        Breakpoint { id: None, verified: false, line: None, message: Some("late".into()) },
    ];
    assert_eq!(
        format_breakpoints_result("f.rs", 7, &bps),
        "Breakpoint set at f.rs:7.\n  [0] id=5 line=7 verified\n  [1] id=0 line=0 unverified (late)\n"
    );
}

#[test]
fn outcomes_are_described() {
    let o = outcome(None);
    let text = "Execution continued.\nExit code: -2\nProgram output:\nhi\n…[output truncated]\n";
    assert_eq!(format_continue_outcome(&o), text);
    assert_eq!(run_to_cursor_answer(&o, "f", 3, &Some("h".into())), text);
    assert!(!wants_hover(&outcome(Some("terminated"))));
    let stopped = outcome(Some("step"));
    assert!(wants_hover(&stopped));
    assert!(run_to_cursor_answer(&stopped, "f", 3, &Some("h".into()))
        .ends_with("\n\nHover info at f:3:\nh"));
}

#[test]
fn data_is_headed() {
    assert_eq!(data_answer(&DebugRequest::Threads, 2, "[]"), "2 threads:\n[]");
    assert_eq!(
        data_answer(&DebugRequest::StackTrace { thread: 1, levels: None }, 0, "[]"),
        "Stack trace for thread 1 (0 frames):\n[]"
    );
    let big = "x".repeat(131073);
    assert!(data_answer(&DebugRequest::Evaluate { expression: "e".into(), frame_id: None, context: None }, 0, &big).len() < 131073 + 100);
}

#[test]
fn missing_adapters_are_told_of() {
    assert_eq!(adapter_refusal(&Some("x".into()), None), "adapter not found on PATH: x");
    assert!(adapter_refusal(&None, Some("a.py")).starts_with("no debug adapter found for a.py."));
    assert!(adapter_refusal(&None, None).starts_with("no debug adapter found for attach."));
    assert!(socket_refusal().starts_with("socket-mode adapters are not yet supported."));
}

#[test]
fn each_file_of_a_backtrace_is_told_of_once() {
    let frame = |path: Option<&str>, name: Option<&str>, line| Frame {
        path: path.map(|s| s.to_string()),
        name: name.map(|s| s.to_string()),
        line,
    };
    let frames = vec![
        frame(Some("/a.rs"), Some("a.rs"), 3),
        frame(None, None, 0),
        frame(Some("/a.rs"), Some("a.rs"), 9),
        frame(Some("/b.rs"), None, 1),
    ];
    let diag = || Diagnostic {
        line: 4,
        severity: "Some(Error)".into(),
        is_error: true,
        message: "bad".into(),
    };
    let none = || FileFacts { diagnostics: vec![], symbols: None };
    let facts = vec![
        FileFacts { diagnostics: vec![diag()], symbols: Some("[]".into()) },
        none(),
        none(),
        none(),
    ];
    assert_eq!(
        backtrace_answer(2, &frames, &facts),
        "Backtrace diagnostics for thread 2:\n\n  [0] a.rs:3 — 1 diagnostics:\n      L5 — Some(Error): bad\n  [3] /b.rs — no diagnostics\n"
    );
    assert_eq!(
        error_analysis_answer(2, &frames, &facts),
        "Error analysis for thread 2:\n\nStack frames with diagnostics and suggested breakpoints:\n\nFrame [0]: a.rs:3\n  Error at line 5: bad\n    → debug set_breakpoints file=/a.rs line=5\n  Top-level symbols:\n[]\n\nFrame [3]: /b.rs\n  No error diagnostics in this file.\n\n"
    );
    assert!(error_analysis_answer(2, &vec![], &vec![]).ends_with("(no stack frames available)\n"));
}

#[test]
fn requests_carry_what_was_given() {
    let args = DebugArgs {
        program: Some("p".into()),
        args: Some(vec!["-v".into()]),
        cwd: Some("/w".into()),
        stop_on_entry: Some(true),
        pid: Some(7),
        host: Some("h".into()),
        file: Some("f.rs".into()),
        line: Some(4),
        condition: Some("x > 1".into()),
        expression: Some("x".into()),
        frame_id: Some(2),
        context: Some("watch".into()),
        thread_id: Some(3),
        levels: Some(9),
        ..Default::default()
    };
    let t = DebugTool::new_with_lsp(None, None, DebugSession { id: 1 }, LspManager { id: 2 });
    match t.request(Action::Launch, &args) {
        Ok(DebugRequest::Launch { program, args, cwd, stop_on_entry }) => {
            assert_eq!((program.as_str(), cwd.as_str(), stop_on_entry), ("p", "/w", Some(true)));
            assert_eq!(args, vec!["-v".to_string()]);
        }
        other => panic!("{other:?}"),
    }
    match t.request(Action::Attach, &args) {
        Ok(DebugRequest::Attach { cwd, pid, port, host }) => {
            assert_eq!((cwd.as_str(), pid, port, host.as_deref()), ("/w", Some(7), None, Some("h")));
        }
        other => panic!("{other:?}"),
    }
    match t.request(Action::SetBreakpoints, &args) {
        Ok(DebugRequest::SetBreakpoints { condition, .. }) => assert_eq!(condition.as_deref(), Some("x > 1")),
        other => panic!("{other:?}"),
    }
    match t.request(Action::Evaluate, &args) {
        Ok(DebugRequest::Evaluate { expression, frame_id, context }) => {
            assert_eq!((expression.as_str(), frame_id, context.as_deref()), ("x", Some(2), Some("watch")));
        }
        other => panic!("{other:?}"),
    }
    assert!(matches!(
        t.request(Action::StackTrace, &args),
        Ok(DebugRequest::StackTrace { thread: 3, levels: Some(9) })
    ));
    assert!(matches!(
        t.request(Action::RunToCursor, &args),
        Ok(DebugRequest::RunToCursor { line: 4, thread: 3, .. })
    ));
    assert_eq!(hover_position(4), (3, 0));
    assert_eq!(hover_position(0), (0, 0));
}
