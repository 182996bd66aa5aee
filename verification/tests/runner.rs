use dirge_agent::runner::{
    convert_history, tool_result_text, AgentEvent, Boundary, HistoryMessage, Next, PrintRun, Printed,
    RetryLoop, RetryStep, StreamItem, StreamRun, TurnTracker,
};
use dirge_agent::session::{Compaction, MessageRole, Session, ToolCallEntry, ToolCallState};

#[test]
fn pure_text_emits_one_turn_around_content() {
    let mut t = TurnTracker::new();
    assert_eq!(
        t.observe_assistant_content(),
        vec![Boundary::Start { index: 0 }]
    );
    assert!(t.observe_assistant_content().is_empty());
    assert!(t.observe_assistant_content().is_empty());
    assert_eq!(t.observe_stream_end(), vec![Boundary::End { index: 0 }]);
}

#[test]
fn single_tool_call_produces_two_turns() {
    let mut t = TurnTracker::new();
    assert_eq!(
        t.observe_assistant_content(),
        vec![Boundary::Start { index: 0 }]
    );
    t.observe_tool_result();
    assert_eq!(
        t.observe_assistant_content(),
        vec![Boundary::End { index: 0 }, Boundary::Start { index: 1 },]
    );
    assert_eq!(t.observe_stream_end(), vec![Boundary::End { index: 1 }]);
}

#[test]
fn multiple_tool_results_collapse_into_one_turn_boundary() {
    let mut t = TurnTracker::new();
    assert_eq!(
        t.observe_assistant_content(),
        vec![Boundary::Start { index: 0 }]
    );
    t.observe_tool_result();
    t.observe_tool_result();
    t.observe_tool_result();
    assert_eq!(t.observe_stream_end(), vec![Boundary::End { index: 0 }]);
}

#[test]
fn alternating_text_and_tools_advances_turn_index() {
    let mut t = TurnTracker::new();
    assert_eq!(
        t.observe_assistant_content(),
        vec![Boundary::Start { index: 0 }]
    );
    t.observe_tool_result();
    assert_eq!(
        t.observe_assistant_content(),
        vec![Boundary::End { index: 0 }, Boundary::Start { index: 1 },]
    );
    t.observe_tool_result();
    assert_eq!(
        t.observe_assistant_content(),
        vec![Boundary::End { index: 1 }, Boundary::Start { index: 2 },]
    );
    assert_eq!(t.observe_stream_end(), vec![Boundary::End { index: 2 }]);
}

#[test]
fn empty_stream_emits_no_boundaries() {
    let mut t = TurnTracker::new();
    assert!(t.observe_stream_end().is_empty());
}

#[test]
fn stream_end_during_tool_dispatch_still_closes_turn() {
    let mut t = TurnTracker::new();
    assert_eq!(
        t.observe_assistant_content(),
        vec![Boundary::Start { index: 0 }]
    );
    assert_eq!(t.observe_stream_end(), vec![Boundary::End { index: 0 }]);
}

#[test]
fn tool_result_without_open_turn_is_a_noop() {
    let mut t = TurnTracker::new();
    t.observe_tool_result();
    assert!(t.observe_stream_end().is_empty());
}

#[test]
fn tracker_can_be_reused_across_stream_restarts() {
    let mut t = TurnTracker::new();
    t.observe_assistant_content(); // turn 0 start
    t.observe_stream_end(); // turn 0 end
    assert_eq!(
        t.observe_assistant_content(),
        vec![Boundary::Start { index: 1 }]
    );
}

fn text(s: &str) -> StreamItem {
    StreamItem::Text(s.into())
}

fn result(id: &str) -> StreamItem {
    StreamItem::ToolResult { id: id.into(), parts: vec![Some("a".into()), None, Some("b".into())] }
}

#[test]
fn stream_is_told_of_with_its_turns() {
    let mut run = StreamRun::new();
    let (events, next) = run.step(&text("hel"));
    assert!(matches!(events[0], AgentEvent::TurnStart { index: 0 }));
    assert!(matches!(&events[1], AgentEvent::Token(t) if t == "hel"));
    assert_eq!(next, Next::Go);
    let call = StreamItem::ToolCall { id: "c".into(), name: "read".into(), args: "{}".into() };
    assert_eq!(run.step(&call).0.len(), 1);
    let (events, next) = run.step(&result("c"));
    assert!(matches!(&events[0], AgentEvent::ToolResult { output, .. } if output == "a\nb"));
    assert_eq!(next, Next::AskInterject);
    let (events, _) = run.step(&text("lo"));
    assert!(matches!(events[0], AgentEvent::TurnEnd { index: 0 }));
    assert!(matches!(events[1], AgentEvent::TurnStart { index: 1 }));
    let (events, next) = run.step(&StreamItem::FinalResponse("done!".into()));
    assert!(matches!(events[0], AgentEvent::TurnEnd { index: 1 }));
    assert!(matches!(&events[1], AgentEvent::Done { response, tokens: 2 } if response == "done!"));
    assert_eq!(next, Next::Stop);
}

#[test]
fn interjection_hands_back_the_text_so_far() {
    let mut run = StreamRun::new();
    run.step(&text("abcde"));
    run.step(&result("c"));
    let events = run.interject();
    assert!(matches!(events[0], AgentEvent::TurnEnd { index: 0 }));
    assert!(
        matches!(&events[1], AgentEvent::Interjected { partial_response, tokens: 2 } if partial_response == "abcde")
    );
    let mut retry = RetryLoop::new();
    assert!(matches!(retry.decide(&run), RetryStep::Stop));
}

#[test]
fn transient_failures_are_retried_a_few_times() {
    let mut retry = RetryLoop::new();
    for n in 1..4 {
        let mut run = StreamRun::new();
        run.step(&StreamItem::Error("Connection refused".into()));
        match retry.decide(&run) {
            RetryStep::Retry(s) => {
                assert_eq!(s, format!("retrying (Network error, attempt {n}/3)..."));
            }
            other => panic!("expected a retry, got {other:?}"),
        }
        let least = 1000 << (n - 1);
        assert!(retry.delay() >= least && retry.delay() < least + least / 4);
    }
    let mut run = StreamRun::new();
    run.step(&StreamItem::Error("connection refused".into()));
    match retry.decide(&run) {
        RetryStep::Fail(s) => assert!(s.ends_with("note: retries exhausted."), "{s}"),
        other => panic!("expected a failure, got {other:?}"),
    }
}

#[test]
fn nothing_is_retried_after_a_tool_call() {
    let mut run = StreamRun::new();
    run.step(&result("c"));
    run.step(&StreamItem::Error("connection refused".into()));
    match RetryLoop::new().decide(&run) {
        RetryStep::Fail(s) => assert!(s.ends_with("tool side effects already applied; not retrying.")),
        other => panic!("expected a failure, got {other:?}"),
    }
}

#[test]
fn lasting_failures_are_told_at_once() {
    for msg in ["401 unauthorized", "context_length_exceeded", "something else"] {
        let mut run = StreamRun::new();
        run.step(&StreamItem::Error(msg.into()));
        match RetryLoop::new().decide(&run) {
            RetryStep::Fail(s) => assert!(s.contains(msg) && !s.contains("note:"), "{s}"),
            other => panic!("expected a failure, got {other:?}"),
        }
    }
    let mut run = StreamRun::new();
    run.step(&text("x"));
    assert_eq!(run.close().len(), 1);
    assert!(matches!(RetryLoop::new().decide(&run), RetryStep::Stop));
}

#[test]
fn parts_without_text_are_left_out() {
    assert_eq!(tool_result_text(&vec![None, Some("".into()), Some("x".into())]), "x");
    assert_eq!(tool_result_text(&vec![]), "");
}

#[test]
fn history_answers_every_call() {
    let mut s = Session::new("p", "m", 1000);
    s.add_message(MessageRole::User, "old");
    s.add_message(MessageRole::User, "hi");
    let call = |id: &str, state| ToolCallEntry {
        id: id.into(),
        name: "read".into(),
        args: Some("{}".into()),
        state,
    };
    s.add_message_with_tool_calls(
        MessageRole::Assistant,
        "",
        vec![
            call("1", ToolCallState::Completed { result: "ok".into() }),
            call("2", ToolCallState::Interrupted),
            call("3", ToolCallState::Failed { error: "no".into() }),
        ],
    );
    s.add_message(MessageRole::Assistant, "bye");
    s.compaction = Some(Compaction { summary: "before".into(), first_kept: 1 });
    let h = convert_history(&s);
    assert_eq!(h.len(), 7);
    assert!(matches!(&h[0], HistoryMessage::System(t) if t == "[Previous conversation summary]\nbefore"));
    assert!(matches!(&h[1], HistoryMessage::User(t) if t == "hi"));
    assert!(matches!(&h[2], HistoryMessage::Calls { text: None, calls } if calls.len() == 3));
    assert!(matches!(&h[3], HistoryMessage::ToolResult { id, body } if id == "1" && body == "ok"));
    assert!(
        matches!(&h[4], HistoryMessage::ToolResult { body, .. } if body == "[Tool execution was interrupted]")
    );
    assert!(matches!(&h[5], HistoryMessage::ToolResult { body, .. } if body == "[Tool error: no]"));
    assert!(matches!(&h[6], HistoryMessage::Assistant(t) if t == "bye"));
}

#[test]
fn printing_collects_the_answer() {
    let mut run = PrintRun::new();
    assert!(matches!(run.step(&text("a")), Printed::Answer(t) if t == "a"));
    assert!(matches!(run.step(&StreamItem::Reasoning("r".into())), Printed::Aside(t) if t == "r"));
    assert!(matches!(run.step(&StreamItem::Other), Printed::Nothing));
    assert!(matches!(run.step(&StreamItem::Error("e".into())), Printed::Failed(t) if t == "Error: e"));
    assert!(matches!(run.step(&StreamItem::FinalResponse("z".into())), Printed::Stop));
    assert_eq!(run.finish(), "a");
}
