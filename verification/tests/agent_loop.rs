use dirge_agent::agent_loop::dispatch::{CallEvent, CallStage, ParallelRun, SequentialRun};
use dirge_agent::agent_loop::message::{
    AssistantMessage, ContentBlock, LoopEvent, LoopToolResult, ResultBlock, ToolCall,
    ToolResultMessage,
};
use dirge_agent::agent_loop::tools::{
    backfill_missing_tool_results, check_arguments, conclude_prepare,
    create_error_tool_result, distinct_kinds, drain_truncation_notes, executed_outcome,
    extract_tool_calls, finalize_executed_tool_call, find_tool, finish_parallel,
    maybe_arm_escalation_for_syntactic_failure, prepend_notes_to_result, runs_sequentially,
    should_terminate_tool_batch, try_arm_escalation, AfterToolCallResult, Checked,
    Escalation, EscalationReason, ExecuteEnd, FinalizedOutcome, HookReply, PrepareOutcome,
    KeptNotes, ToolExecutionMode, Validation,
};

fn call(id: &str, name: &str) -> ToolCall {
    ToolCall { id: id.into(), name: name.into(), arguments: "{}".into() }
}

fn done(id: &str, text: &str, terminate: Option<bool>) -> FinalizedOutcome {
    FinalizedOutcome {
        tool_call: call(id, "read"),
        result: LoopToolResult {
            content: vec![ResultBlock::Text(text.into())],
            details: "{}".into(),
            terminate,
        },
        is_error: false,
    }
}

fn text(r: &LoopToolResult) -> &str {
    match &r.content[0] {
        ResultBlock::Text(t) => t,
        ResultBlock::Json(t) => t,
    }
}

#[test]
fn calls_are_taken_from_a_message_in_order() {
    let msg = AssistantMessage {
        content: vec![
            ContentBlock::Text { text: "hi".into() },
            ContentBlock::ToolCall { id: "1".into(), name: "a".into(), arguments: "x".into() },
            ContentBlock::Other,
            ContentBlock::ToolCall { id: "2".into(), name: "b".into(), arguments: "y".into() },
        ],
    };
    let calls = extract_tool_calls(&msg);
    assert_eq!(calls.len(), 2);
    assert_eq!((calls[0].id.as_str(), calls[1].arguments.as_str()), ("1", "y"));
}

#[test]
fn unknown_tool_is_a_failure() {
    let names = vec!["read".to_string(), "bash".to_string()];
    assert!(matches!(find_tool(&names, &call("1", "bash")), Ok(1)));
    let err = find_tool(&names, &call("1", "nope")).unwrap_err();
    assert_eq!(text(&err), "Tool nope not found");
}

#[test]
fn arguments_are_checked() {
    let mut e = Escalation { remaining: 1, pending: None };
    match check_arguments(&mut e, &call("1", "read"), "a".into(), Validation::Valid) {
        Checked::Accepted { args, notes, recorded } => {
            assert_eq!((args.as_str(), notes.len(), recorded.len()), ("a", 0, 0));
        }
        other => panic!("{other:?}"),
    }
    let repaired = Validation::Repaired {
        args: "b".into(),
        kinds: vec![2, 1, 2],
        notes: vec!["offset defaulted to 0".into()],
    };
    match check_arguments(&mut e, &call("1", "read"), "a".into(), repaired) {
        Checked::Accepted { args, notes, recorded } => {
            assert_eq!((args.as_str(), notes.len(), recorded), ("b", 1, vec![2, 1]));
        }
        other => panic!("{other:?}"),
    }
    assert!(e.pending.is_none());
    let invalid = Validation::Invalid { message: "bad".into() };
    match check_arguments(&mut e, &call("1", "read"), "a".into(), invalid) {
        Checked::Refused { result } => assert_eq!(text(&result), "bad"),
        other => panic!("{other:?}"),
    }
    assert_eq!(e.remaining, 0);
    assert!(matches!(e.pending, Some(EscalationReason::RepairExhausted { tool }) if tool == "read"));
    assert_eq!(distinct_kinds(&vec![]), Vec::<u32>::new());
}

#[test]
fn escalations_run_out() {
    let mut e = Escalation { remaining: 1, pending: None };
    try_arm_escalation(&mut e, EscalationReason::RepairExhausted { tool: "a".into() });
    try_arm_escalation(&mut e, EscalationReason::RepairExhausted { tool: "b".into() });
    assert_eq!(e.remaining, 0);
    assert!(matches!(e.pending, Some(EscalationReason::RepairExhausted { tool }) if tool == "a"));
}

#[test]
fn kept_notes_are_handed_out_once() {
    let mut kept: KeptNotes = KeptNotes::new();
    kept.keep("1".into(), vec!["n1".into(), "n2".into()]);
    let mut notes = vec!["n0".to_string()];
    drain_truncation_notes(&mut kept, "1", &mut notes);
    assert_eq!(notes, vec!["n0", "n1", "n2"]);
    drain_truncation_notes(&mut kept, "1", &mut notes);
    assert_eq!(notes.len(), 3);
}

#[test]
fn hooks_can_block_and_change_a_call() {
    let hook = |block, reason: Option<&str>, cancelled| {
        Some(HookReply {
            args: "changed".into(),
            block,
            reason: reason.map(|s| s.to_string()),
            cancelled,
        })
    };
    let refused = |o: PrepareOutcome| match o {
        PrepareOutcome::Immediate { result, is_error } => {
            assert!(is_error);
            text(&result).to_string()
        }
        other => panic!("{other:?}"),
    };
    assert_eq!(
        refused(conclude_prepare("a".into(), vec![], hook(Some(true), None, false), false)),
        "Tool execution was blocked"
    );
    assert_eq!(
        refused(conclude_prepare("a".into(), vec![], hook(Some(true), Some("no"), false), false)),
        "no"
    );
    assert_eq!(
        refused(conclude_prepare("a".into(), vec![], hook(Some(true), None, true), false)),
        "Operation aborted"
    );
    assert_eq!(refused(conclude_prepare("a".into(), vec![], None, true)), "Operation aborted");
    match conclude_prepare("a".into(), vec!["n".into()], hook(Some(false), None, false), false) {
        PrepareOutcome::Prepared { args, notes } => {
            assert_eq!((args.as_str(), notes.len()), ("changed", 1));
        }
        other => panic!("{other:?}"),
    }
    assert!(matches!(
        conclude_prepare("a".into(), vec![], None, false),
        PrepareOutcome::Prepared { args, .. } if args == "a"
    ));
}

#[test]
fn ends_of_execution_become_results() {
    let o = executed_outcome(ExecuteEnd::Cancelled);
    assert!(o.is_error);
    assert_eq!(text(&o.result), "tool execution aborted by cancellation signal");
    let o = executed_outcome(ExecuteEnd::Failed("boom".into()));
    assert!(o.is_error);
    assert_eq!(text(&o.result), "boom");
    assert!(!executed_outcome(ExecuteEnd::Done(create_error_tool_result("x"))).is_error);
}

#[test]
fn hook_after_a_call_replaces_parts() {
    let executed = executed_outcome(ExecuteEnd::Done(create_error_tool_result("x")));
    let after = AfterToolCallResult {
        content: None,
        details: Some("[1]".into()),
        terminate: Some(true),
        is_error: Some(true),
    };
    let f = finalize_executed_tool_call(call("1", "read"), executed, Some(after));
    assert_eq!(text(&f.result), "x");
    assert_eq!(f.result.details, "[1]");
    assert_eq!(f.result.terminate, Some(true));
    assert!(f.is_error);
}

#[test]
fn notes_stand_before_the_result() {
    let mut r = create_error_tool_result("x");
    prepend_notes_to_result(&mut r, &vec![]);
    assert_eq!(r.content.len(), 1);
    prepend_notes_to_result(&mut r, &vec!["a".into(), "b".into()]);
    assert_eq!(r.content.len(), 2);
    assert_eq!(text(&r), "a\nb");
}

#[test]
fn broken_code_escalates() {
    let mut e = Escalation { remaining: 5, pending: None };
    let r = create_error_tool_result("Syntax check failed for src/a.rs: 2 error(s)");
    maybe_arm_escalation_for_syntactic_failure(&mut e, &call("1", "edit"), &r, false);
    assert_eq!(e.remaining, 5);
    maybe_arm_escalation_for_syntactic_failure(&mut e, &call("1", "edit"), &r, true);
    assert_eq!(e.remaining, 4);
    assert!(matches!(
        e.pending,
        Some(EscalationReason::SyntacticFailure { tool, path }) if tool == "edit" && path == "src/a.rs"
    ));
    let other = create_error_tool_result("other");
    let mut e = Escalation { remaining: 5, pending: None };
    maybe_arm_escalation_for_syntactic_failure(&mut e, &call("1", "edit"), &other, true);
    assert_eq!(e.remaining, 5);
}

#[test]
fn batch_ends_the_run_only_if_every_result_does() {
    assert!(!should_terminate_tool_batch(&vec![]));
    assert!(should_terminate_tool_batch(&vec![done("1", "a", Some(true))]));
    assert!(!should_terminate_tool_batch(&vec![done("1", "a", Some(true)), done("2", "b", None)]));
}

fn idle() -> (Escalation, KeptNotes) {
    (Escalation { remaining: 2, pending: None }, KeptNotes::new())
}

fn valid() -> CallEvent {
    CallEvent::Checked { prepared_args: "{}".into(), validation: Validation::Valid }
}

fn go_on() -> CallEvent {
    CallEvent::Asked { hook: None, cancelled: false }
}

fn ran(text: &str, terminate: Option<bool>) -> CallEvent {
    CallEvent::Ran {
        end: ExecuteEnd::Done(LoopToolResult {
            content: vec![ResultBlock::Text(text.into())],
            details: "{}".into(),
            terminate,
        }),
    }
}

fn no_after() -> CallEvent {
    CallEvent::AskedAfter { after: None }
}

fn told(events: &[LoopEvent]) -> Vec<String> {
    events
        .iter()
        .map(|e| match e {
            LoopEvent::ToolExecutionStart { call } => format!("start {}", call.id),
            LoopEvent::ToolExecutionEnd { tool_call_id, .. } => format!("end {tool_call_id}"),
            LoopEvent::MessageStart { message } => format!("open {}", message.tool_call_id),
            LoopEvent::MessageEnd { message } => format!("close {}", message.tool_call_id),
        })
        .collect()
}

#[test]
fn calls_in_order_are_told_of_one_by_one() {
    let (mut e, mut kept) = idle();
    let names = vec!["read".to_string()];
    let calls = vec![call("1", "read"), call("2", "nope")];
    let (mut run, events) = SequentialRun::begin(names, calls);
    assert_eq!(told(&events), vec!["start 1"]);
    assert!(matches!(run.stage(), Some(CallStage::Check { tool: 0 })));
    assert_eq!(run.current().unwrap().id, "1");
    run.step(valid(), &mut e, &mut kept);
    assert!(matches!(run.stage(), Some(CallStage::Ask { .. })));
    run.step(go_on(), &mut e, &mut kept);
    assert!(matches!(run.stage(), Some(CallStage::Run { .. })));
    run.step(ran("a", Some(true)), &mut e, &mut kept);
    run.step(no_after(), &mut e, &mut kept);
    let events = run.settle(&vec!["a".to_string()], false);
    assert_eq!(told(&events), vec!["end 1", "open 1", "close 1", "start 2"]);
    assert!(matches!(
        run.stage(),
        Some(CallStage::Done { finalized }) if finalized.is_error
    ));
    let events = run.settle(&vec!["Tool nope not found".to_string()], false);
    assert_eq!(told(&events), vec!["end 2", "open 2", "close 2"]);
    assert!(run.stage().is_none());
    let r = run.finish();
    assert!(!r.terminate);
    assert_eq!(r.messages.len(), 2);
}

#[test]
fn cancelled_batch_begins_no_further_call() {
    let names = vec!["read".to_string()];
    let calls = vec![call("1", "nope"), call("2", "read")];
    let (mut run, _) = SequentialRun::begin(names, calls);
    let events = run.settle(&vec!["x".to_string()], true);
    assert_eq!(told(&events), vec!["end 1", "open 1", "close 1"]);
    assert!(run.stage().is_none());
    assert_eq!(run.finish().messages.len(), 1);
}

#[test]
fn refused_calls_do_not_run() {
    let (mut e, mut kept) = idle();
    kept.keep("1".to_string(), vec!["kept".to_string()]);
    let names = vec!["read".to_string()];
    let (mut run, _) = SequentialRun::begin(names, vec![call("1", "read")]);
    let invalid = CallEvent::Checked {
        prepared_args: "{}".into(),
        validation: Validation::Invalid { message: "bad".into() },
    };
    let counted = run.step(invalid, &mut e, &mut kept);
    assert!(counted.invalid);
    assert_eq!(e.remaining, 1);
    assert!(matches!(run.stage(), Some(CallStage::Done { finalized }) if finalized.is_error));
    run.step(ran("late", None), &mut e, &mut kept);
    assert!(matches!(run.stage(), Some(CallStage::Done { finalized }) if finalized.is_error));
}

#[test]
fn notes_of_a_repair_come_with_the_result() {
    let (mut e, mut kept) = idle();
    kept.keep("1".to_string(), vec!["closed a bracket".to_string()]);
    let names = vec!["read".to_string()];
    let (mut run, _) = SequentialRun::begin(names, vec![call("1", "read")]);
    let repaired = CallEvent::Checked {
        prepared_args: "{}".into(),
        validation: Validation::Repaired {
            args: "{\"offset\":0}".into(),
            kinds: vec![3, 3],
            notes: vec!["offset defaulted to 0".into()],
        },
    };
    let counted = run.step(repaired, &mut e, &mut kept);
    assert_eq!(counted.kinds, vec![3]);
    run.step(go_on(), &mut e, &mut kept);
    assert!(matches!(run.stage(), Some(CallStage::Run { args, .. }) if args.contains("offset")));
    run.step(ran("body", None), &mut e, &mut kept);
    run.step(no_after(), &mut e, &mut kept);
    match run.stage() {
        Some(CallStage::Done { finalized }) => {
            assert_eq!(finalized.result.content.len(), 2);
            assert!(matches!(
                &finalized.result.content[0],
                ResultBlock::Text(t) if t == "offset defaulted to 0\nclosed a bracket"
            ));
        }
        other => panic!("{other:?}"),
    }
}

#[test]
fn calls_side_by_side_end_as_they_are_done() {
    let (mut e, mut kept) = idle();
    let names = vec!["read".to_string()];
    let calls = vec![call("1", "read"), call("2", "nope"), call("3", "read")];
    let (mut run, events) = ParallelRun::begin(names, calls);
    assert_eq!(told(&events), vec!["start 1"]);
    run.step(0, valid(), &mut e, &mut kept);
    run.step(0, go_on(), &mut e, &mut kept);
    assert_eq!(told(&run.begin_next(false)), vec!["start 2", "end 2"]);
    assert_eq!(told(&run.begin_next(false)), vec!["start 3"]);
    run.step(2, valid(), &mut e, &mut kept);
    run.step(2, go_on(), &mut e, &mut kept);
    assert!(run.begin_next(false).is_empty());
    assert_eq!(run.begun(), 3);
    run.step(2, ran("fast", None), &mut e, &mut kept);
    let (_, events) = run.step(2, no_after(), &mut e, &mut kept);
    assert_eq!(told(&events), vec!["end 3"]);
    run.step(0, ran("slow", None), &mut e, &mut kept);
    let (_, events) = run.step(0, no_after(), &mut e, &mut kept);
    assert_eq!(told(&events), vec!["end 1"]);
    assert!(matches!(run.stage(0), Some(CallStage::Done { .. })));
    let shown = vec![vec!["slow".to_string()], vec!["none".to_string()], vec!["fast".to_string()]];
    let (batch, events) = run.finish(&shown).unwrap();
    assert_eq!(
        told(&events),
        vec!["open 1", "close 1", "open 2", "close 2", "open 3", "close 3"]
    );
    assert_eq!(batch.messages.len(), 3);
    assert!(!batch.terminate);
}

#[test]
fn calls_side_by_side_are_answered_in_source_order() {
    let fs = vec![done("1", "slow", None), done("2", "fast", None)];
    let shown = vec![vec!["slow".to_string()], vec!["fast".to_string()]];
    let (batch, events) = finish_parallel(&fs, &shown);
    let ids: Vec<&str> = batch.messages.iter().map(|m| m.tool_call_id.as_str()).collect();
    assert_eq!(ids, vec!["1", "2"]);
    assert!(!batch.terminate);
    let ends: Vec<&str> = events
        .iter()
        .filter_map(|e| match e {
            LoopEvent::MessageEnd { message } => Some(message.tool_call_id.as_str()),
            _ => None,
        })
        .collect();
    assert_eq!(ends, vec!["1", "2"]);
}

#[test]
fn every_call_gets_an_answer() {
    let calls = vec![call("1", "a"), call("2", "b"), call("3", "c")];
    let answered = vec![ToolResultMessage {
        tool_call_id: "2".into(),
        tool_name: "b".into(),
        content: vec![],
        details: "null".into(),
        is_error: false,
    }];
    let filled = backfill_missing_tool_results(&calls, &answered);
    let ids: Vec<&str> = filled.iter().map(|m| m.tool_call_id.as_str()).collect();
    assert_eq!(ids, vec!["1", "3"]);
    assert!(filled[0].is_error);
    let mut all = answered;
    all.extend(backfill_missing_tool_results(&calls, &all));
    assert!(backfill_missing_tool_results(&calls, &all).is_empty());
    assert!(
        matches!(&filled[0].content[0], ContentBlock::Text { text } if text.starts_with("[tool call not executed"))
    );
}

#[test]
fn one_sequential_tool_makes_the_batch_sequential() {
    let names = vec!["read".to_string(), "bash".to_string()];
    let modes = vec![None, Some(ToolExecutionMode::Sequential)];
    let par = ToolExecutionMode::Parallel;
    assert!(!runs_sequentially(par, &names, &modes, &vec![call("1", "read")]));
    assert!(runs_sequentially(par, &names, &modes, &vec![call("1", "read"), call("2", "bash")]));
    assert!(runs_sequentially(
        ToolExecutionMode::Sequential,
        &names,
        &modes,
        &vec![call("1", "read")]
    ));
}

#[test]
fn a_note_does_not_hide_a_refusal() {
    let mut e = Escalation { remaining: 1, pending: None };
    let mut r = create_error_tool_result("Syntax check failed for a.rs: 1 error(s)");
    prepend_notes_to_result(&mut r, &vec!["offset defaulted to 0".to_string()]);
    maybe_arm_escalation_for_syntactic_failure(&mut e, &call("1", "edit"), &r, true);
    assert_eq!(e.remaining, 0);
    assert!(matches!(
        &e.pending,
        Some(EscalationReason::SyntacticFailure { tool, path }) if tool == "edit" && path == "a.rs"
    ));
}
