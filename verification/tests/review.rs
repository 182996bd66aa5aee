use dirge_agent::review::{
    build_transcript, claim_review_slot, curator_prompt, release_review_slot, review_prompt,
    ReviewEvent, ReviewRun, ReviewSlot, COMBINED_REVIEW_PROMPT, MIN_REVIEW_INTERVAL_SECS,
};
use dirge_agent::session::{MessageRole, Session, ToolCallEntry, ToolCallState};

fn make_session() -> Session {
    Session::new("test-provider", "test-model", 128_000)
}

#[test]
fn transcript_includes_user_and_assistant() {
    let mut s = make_session();
    s.add_message(MessageRole::User, "how do I build this?");
    s.add_message(MessageRole::Assistant, "Run cargo build");

    let t = build_transcript(&s);
    assert!(t.contains("User: how do I build this?"));
    assert!(t.contains("Assistant: Run cargo build"));
}

#[test]
fn transcript_includes_tool_calls_and_results() {
    let mut s = make_session();
    s.add_message(MessageRole::User, "read the file");
    let tc = ToolCallEntry {
        id: "call-1".to_string(),
        name: "read".to_string(),
        args: Some(r#"{"path":"/tmp/x"}"#.to_string()),
        state: ToolCallState::Completed {
            result: "file contents here".to_string(),
        },
    };
    s.add_message_with_tool_calls(MessageRole::Assistant, "Let me read that.", vec![tc]);

    let t = build_transcript(&s);
    assert!(t.contains("[Tool: read("));
    assert!(t.contains("[Result: file contents here]"));
}

#[test]
fn transcript_truncates_large_tool_results() {
    let mut s = make_session();
    let big = "x".repeat(3000);
    let tc = ToolCallEntry {
        id: "c1".to_string(),
        name: "bash".to_string(),
        args: Some(r#"{"cmd":"cat big.txt"}"#.to_string()),
        state: ToolCallState::Completed {
            result: big.clone(),
        },
    };
    s.add_message_with_tool_calls(MessageRole::Assistant, "", vec![tc]);

    let t = build_transcript(&s);
    assert!(t.contains("truncated"));
    assert!(!t.contains(&big));
}

#[test]
fn transcript_includes_system_messages() {
    let mut s = make_session();
    s.add_message(
        MessageRole::System,
        "compaction summary: previous work on auth module",
    );
    s.add_message(MessageRole::User, "continue");

    let t = build_transcript(&s);
    assert!(t.contains("[System: compaction summary"));
    assert!(t.contains("User: continue"));
}

#[test]
fn transcript_handles_interrupted_tool() {
    let mut s = make_session();
    let tc = ToolCallEntry {
        id: "ci".to_string(),
        name: "bash".to_string(),
        args: Some(r#"{}"#.to_string()),
        state: ToolCallState::Interrupted,
    };
    s.add_message_with_tool_calls(MessageRole::Assistant, "", vec![tc]);

    let t = build_transcript(&s);
    assert!(t.contains("<interrupted>"));
}

#[test]
fn review_prompt_contains_required_sections() {
    assert!(COMBINED_REVIEW_PROMPT.contains("Preference order"));
    assert!(COMBINED_REVIEW_PROMPT.contains("Do NOT capture"));
    assert!(COMBINED_REVIEW_PROMPT.contains("Signals that warrant"));
    assert!(COMBINED_REVIEW_PROMPT.contains("Environment-dependent"));
    assert!(COMBINED_REVIEW_PROMPT.contains("CLASS-LEVEL skills"));
    assert!(COMBINED_REVIEW_PROMPT.contains("Nothing to save"));
}

#[test]
fn review_prompt_override_is_accepted() {
    let custom = "Custom review prompt";
    assert_ne!(custom, COMBINED_REVIEW_PROMPT);
}

#[test]
fn claim_review_slot_succeeds_when_unset() {
    let mut slot = ReviewSlot { last: 0 };
    let now = 10_000;
    let claimed = claim_review_slot(&mut slot, now);
    assert_eq!(claimed, Some(0), "first call should claim with prev=0");
    assert_eq!(slot.last, now, "timestamp advanced");
}

#[test]
fn claim_review_slot_rejects_inside_rate_limit_window() {
    let mut slot = ReviewSlot { last: 0 };
    let t1 = 100_000;
    assert!(claim_review_slot(&mut slot, t1).is_some(), "first call claims");

    let t2 = t1 + (MIN_REVIEW_INTERVAL_SECS - 1);
    assert!(
        claim_review_slot(&mut slot, t2).is_none(),
        "second call within window must be rate-limited"
    );

    let t3 = t1 + MIN_REVIEW_INTERVAL_SECS + 1;
    assert!(claim_review_slot(&mut slot, t3).is_some(), "call past the window must succeed");
}

#[test]
fn release_review_slot_rolls_back_when_we_are_still_latest() {
    let mut slot = ReviewSlot { last: 0 };
    let now = 200_000;
    let prev = claim_review_slot(&mut slot, now).expect("claim");
    assert_eq!(prev, 0);
    assert_eq!(slot.last, now);

    release_review_slot(&mut slot, prev, now);
    assert_eq!(slot.last, prev, "release rolls timestamp back so retry can run");

    let retry = claim_review_slot(&mut slot, now + 1);
    assert!(retry.is_some(), "retry must claim after rollback");
}

#[test]
fn release_review_slot_does_not_clobber_a_later_review() {
    let mut slot = ReviewSlot { last: 0 };
    let t1 = 300_000;
    let prev = claim_review_slot(&mut slot, t1).expect("first claim");
    let t2 = t1 + 10 * MIN_REVIEW_INTERVAL_SECS;
    slot.last = t2;

    release_review_slot(&mut slot, prev, t1);
    assert_eq!(slot.last, t2, "stale release must NOT roll back a later review's timestamp");
}

#[test]
fn a_clock_that_went_back_claims_nothing() {
    let mut slot = ReviewSlot { last: 5_000 };
    assert_eq!(claim_review_slot(&mut slot, 10), None);
    assert_eq!(slot.last, 5_000);
}

#[test]
fn review_is_summed_up_by_its_tools() {
    let mut run = ReviewRun::new();
    assert!(run.finish().idle);
    for name in ["memory", "skill", "memory"] {
        assert!(run.observe(&ReviewEvent::ToolCall(name.into())));
    }
    assert!(run.observe(&ReviewEvent::Other));
    assert!(!run.observe(&ReviewEvent::Done));
    let end = run.finish();
    assert_eq!(end.summary, Some("memory · skill".to_string()));
    assert!(!end.idle && !end.release);
}

#[test]
fn review_that_failed_at_once_gives_its_slot_back() {
    let mut run = ReviewRun::new();
    run.observe(&ReviewEvent::Error("no".into()));
    let end = run.finish();
    assert!(end.release && end.summary.is_none() && !end.idle);
    run.observe(&ReviewEvent::ToolCall("memory".into()));
    assert!(!run.finish().release);
    assert!(run.finish().summary.is_none());
}

#[test]
fn prompts_for_reviews() {
    assert_eq!(review_prompt(None), COMBINED_REVIEW_PROMPT);
    assert_eq!(review_prompt(Some("mine")), "mine");
    assert_eq!(curator_prompt("do", "No agent-created skills here"), None);
    assert_eq!(curator_prompt("do", "- a"), Some("do\n\n- a".to_string()));
}

#[test]
fn transcript_of_a_longer_conversation_begins_the_same() {
    let mut s = make_session();
    s.add_message(MessageRole::User, "a");
    let before = build_transcript(&s);
    s.add_message(MessageRole::Assistant, "b");
    let after = build_transcript(&s);
    assert_eq!(before, "User: a\n\n");
    assert_eq!(after, "User: a\n\nAssistant: b\n\n");
}

#[test]
fn failed_tool_is_told_of() {
    let mut s = make_session();
    let tc = ToolCallEntry {
        id: "c".to_string(),
        name: "bash".to_string(),
        args: None,
        state: ToolCallState::Failed { error: "boom".to_string() },
    };
    s.add_message_with_tool_calls(MessageRole::Assistant, "", vec![tc]);
    assert_eq!(build_transcript(&s), "  [Tool: bash({})]\n  [Result: <failed: boom>]\n\n");
}
