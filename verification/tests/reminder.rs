use dirge_agent::builder::build_session_search_tool;
use dirge_agent::builder::preamble::{
    append_mode_reminder, assemble_base_preamble, model_steering_fragment, resolve_family,
};

#[test]
fn reminder_tests_plan_mode_injects_plan_reminder() {
    let mut p = String::from("base");
    append_mode_reminder(&mut p, "plan", false);
    assert!(p.contains("PLAN mode"));
    assert!(p.contains("PLAN.md"));
    assert!(p.contains("Do NOT write any code"));
}

#[test]
fn reminder_tests_review_modes_inject_review_reminder() {
    for mode in &["review", "review-security"] {
        let mut p = String::from("base");
        append_mode_reminder(&mut p, mode, false);
        assert!(p.contains("REVIEW mode"), "mode={mode}");
        assert!(p.contains("Identify bugs"), "mode={mode}");
    }
}

#[test]
fn reminder_tests_deepseek_chat_gets_steering_fragment() {
    let family = resolve_family("deepseek", "deepseek-v4-pro");
    let frag = model_steering_fragment(family).expect("deepseek chat should get steering");
    assert!(
        frag.contains("Plan-Execute-Verify"),
        "fragment should carry the research-backed guidance"
    );
    assert!(
        frag.contains("re-issue the same call"),
        "fragment should carry the anti-repetition rule"
    );
}

#[test]
fn reminder_tests_other_models_get_no_steering_fragment() {
    assert!(model_steering_fragment(resolve_family("openai", "gpt-4o")).is_none());
    assert!(model_steering_fragment(resolve_family("anthropic", "sonnet-4-6")).is_none());
}

#[test]
fn reminder_tests_deepseek_reasoner_gets_no_steering_fragment() {
    let family = resolve_family("deepseek", "deepseek-reasoner");
    assert!(model_steering_fragment(family).is_none());
}

#[test]
fn reminder_tests_regression_code_mode_reminder_requires_plan_md() {
    let mut p_with = String::from("base");
    append_mode_reminder(&mut p_with, "code", true);
    assert!(p_with.contains("plan file exists"));

    let mut p_without = String::from("base");
    append_mode_reminder(&mut p_without, "code", false);
    assert_eq!(p_without, "base", "no reminder must be added");
}

#[test]
fn reminder_tests_unknown_prompt_name_appends_nothing() {
    let mut p = String::from("base");
    append_mode_reminder(&mut p, "my-custom-prompt", true);
    assert_eq!(p, "base");
}

#[test]
fn reminder_tests_reminders_use_section_separator() {
    let mut p = String::new();
    append_mode_reminder(&mut p, "plan", false);
    assert!(p.starts_with("\n\n---\n\n"), "got: {p:?}");
}

#[test]
fn reminder_tests_mcp_collision_filter_covers_plan_tools() {
    let expected_builtins = [
        "read",
        "write",
        "edit",
        "bash",
        "grep",
        "find_files",
        "glob",
        "list_dir",
        "write_todo_list",
        "apply_patch",
        "memory",
        "skill",
        "task",
        "task_status",
        "question",
        "webfetch",
        "websearch",
        "lsp",
        "plan_enter",
        "plan_exit",
    ];
    for name in expected_builtins {
        assert!(!name.is_empty());
        assert!(dirge_agent::builder::loop_tools::is_builtin_name(name), "{name}");
    }
}

#[test]
fn reminder_tests_base_preamble_includes_skills_guidance() {
    let p = assemble_base_preamble();
    assert!(p.contains("complex task"), "missing create trigger");
    assert!(p.contains("5+ tool calls"), "missing 5+ trigger");
    assert!(
        p.contains("patch it immediately"),
        "missing patch-now trigger"
    );
    assert!(p.contains("action='create'"), "missing create action");
    assert!(p.contains("action='patch'"), "missing patch action");
    assert!(!p.contains("skill_manage"), "leaked hermes tool name");
    assert!(
        p.contains("## Skill creation and maintenance"),
        "missing heading"
    );
}

#[test]
fn reminder_tests_base_preamble_includes_finishing_selfcheck() {
    let p = assemble_base_preamble();
    assert!(
        p.contains("# Finishing"),
        "missing the Finishing section heading"
    );
    assert!(
        p.to_lowercase().contains("self-check"),
        "missing the single self-check"
    );
    assert!(p.contains("exactly what was asked"), "missing scope check");
    assert!(
        p.to_lowercase().contains("verified"),
        "missing verify check"
    );
    assert!(
        p.to_lowercase().contains("unrequested"),
        "missing no-scope-creep check"
    );
    assert!(
        p.to_lowercase().contains("stop"),
        "missing an explicit stop condition"
    );
}

#[test]
fn reminder_tests_base_preamble_carries_full_guidance_suite() {
    let p = assemble_base_preamble();
    assert!(
        p.contains("# Finishing a task"),
        "F2 finishing self-check missing"
    );
    assert!(
        p.contains("# Progress updates"),
        "F3 progress narration missing"
    );
    assert!(
        p.contains("# Clarifying vs. proceeding"),
        "F5 ask-vs-proceed calibration missing"
    );
}

#[test]
fn reminder_tests_base_preamble_includes_progress_updates() {
    let p = assemble_base_preamble();
    assert!(
        p.contains("# Progress updates"),
        "missing the Progress updates section heading"
    );
    assert!(
        p.to_lowercase().contains("plan up front"),
        "missing the up-front plan guidance"
    );
    assert!(
        p.to_lowercase().contains("multi-step"),
        "progress guidance must be scoped to multi-step tasks"
    );
    assert!(
        p.to_lowercase().contains("final reply"),
        "must distinguish progress notes from the final reply"
    );
}

#[test]
fn reminder_tests_base_preamble_includes_ask_calibration() {
    let p = assemble_base_preamble();
    let lower = p.to_lowercase();
    assert!(
        p.contains("# Clarifying vs. proceeding"),
        "missing the Clarifying-vs-proceeding section"
    );
    assert!(
        lower.contains("hard to reverse") || lower.contains("costly"),
        "missing the cost/recoverability signal"
    );
    assert!(
        lower.contains("infer"),
        "missing the inferable-from-context signal"
    );
    assert!(
        lower.contains("assumption"),
        "missing the state-your-assumption path"
    );
}

#[test]
fn reminder_tests_base_preamble_includes_memory_and_search_guidance() {
    let p = assemble_base_preamble();

    assert!(p.contains("persistent memory"), "missing memory-tool intro");
    assert!(
        p.contains("Do NOT save task progress"),
        "missing do-not-save rule"
    );
    assert!(
        p.contains("PR numbers"),
        "missing example list of stale artifacts"
    );
    assert!(
        p.contains("declarative facts"),
        "missing declarative-fact framing"
    );
    assert!(
        p.contains("Procedures and workflows belong in skills"),
        "missing memory-vs-skills boundary"
    );

    assert!(
        p.contains("session_search"),
        "missing session_search tool name"
    );
    assert!(
        p.contains("before asking them to repeat"),
        "missing past-session-recall nudge"
    );
}

#[test]
fn reminder_tests_build_session_search_tool_threads_session_id() {
    let db_path = String::from("/tmp/dirge-502b-test.db");
    let tool = build_session_search_tool(db_path.clone(), Some("sess-test-id".into()), None, None);
    assert_eq!(
        tool.current_session_id(),
        Some("sess-test-id"),
        "factory must thread session_id into SessionSearchTool"
    );

    let tool_none = build_session_search_tool(db_path, None, None, None);
    assert!(
        tool_none.current_session_id().is_none(),
        "factory must not invent a session id when called with None"
    );
}

#[test]
fn reminder_tests_memory_preamble_injection_uses_trait_dispatch() {
    let block = "\n\n## RecordingProviderBlock\n\nplugin-supplied prompt text\n";
    let mut preamble = String::from("base");
    dirge_agent::builder::preamble::append_memory_to_preamble(&mut preamble, block);
    assert!(
        preamble.contains("## RecordingProviderBlock"),
        "plugin provider's prompt heading must appear: {preamble}"
    );
    assert!(
        preamble.contains("plugin-supplied prompt text"),
        "plugin provider's body must appear: {preamble}"
    );

    let mut preamble2 = String::from("base2");
    dirge_agent::builder::preamble::append_memory_to_preamble(&mut preamble2, "");
    assert_eq!(preamble2, "base2", "empty provider block must not append anything");
}
