use dirge_agent::agent_loop::tools::ToolExecutionMode;
use dirge_agent::builder::build_session_search_tool;
use dirge_agent::builder::loop_tools::{
    agent_tools, build_loop_tools, is_builtin_name, plugin_warning, server_warning, wrap_mcp_tools,
    LoopTool, ServerTool, ToolOptions, ToolSource,
};
use dirge_agent::builder::preamble::{
    append_memory_to_preamble, append_mode_reminder, append_skills, assemble_base_preamble,
    assemble_preamble, git_branch, model_steering_fragment, resolve_family, ListedSkill, ModelFamily,
    Surroundings,
};

fn options() -> ToolOptions {
    ToolOptions {
        no_tools: false,
        question: false,
        plan: false,
        websearch: true,
        webfetch: true,
        parent_model: false,
        bg_store: false,
        lsp: false,
        mcp: vec![],
        semantic: vec![],
        plugin: vec![],
        dynamic_tool_search: false,
    }
}

fn find<'a>(tools: &'a [LoopTool], name: &str) -> &'a LoopTool {
    tools.iter().find(|t| t.name == name).unwrap_or_else(|| panic!("{name} missing from registry"))
}

#[test]
fn builder_plan_mode_injects_plan_reminder() {
    let mut p = String::from("base");
    append_mode_reminder(&mut p, "plan", false);
    assert!(p.contains("PLAN mode"));
    assert!(p.contains("PLAN.md"));
    assert!(p.contains("Do NOT write any code"));
}

#[test]
fn builder_review_modes_inject_review_reminder() {
    for mode in &["review", "review-security"] {
        let mut p = String::from("base");
        append_mode_reminder(&mut p, mode, false);
        assert!(p.contains("REVIEW mode"), "mode={mode}");
        assert!(p.contains("Identify bugs"), "mode={mode}");
    }
}

#[test]
fn builder_deepseek_chat_gets_steering_fragment() {
    let family = resolve_family("deepseek", "deepseek-v4-pro");
    let frag = model_steering_fragment(family).expect("deepseek chat should get steering");
    assert!(
        frag.contains("Plan-Execute-Verify"),
        "fragment should carry the research-backed guidance"
    );
    assert!(
        frag.contains("re-issue the same call"),
        "fragment should carry the anti-repetition rule"
    );
}

#[test]
fn builder_other_models_get_no_steering_fragment() {
    assert!(model_steering_fragment(resolve_family("openai", "gpt-4o")).is_none());
    assert!(
        model_steering_fragment(resolve_family("anthropic", "sonnet-4-6")).is_none()
    );
}

#[test]
fn builder_deepseek_reasoner_gets_no_steering_fragment() {
    let family = resolve_family("deepseek", "deepseek-reasoner");
    assert!(model_steering_fragment(family).is_none());
}

#[test]
fn builder_regression_code_mode_reminder_requires_plan_md() {
    let mut p_with = String::from("base");
    append_mode_reminder(&mut p_with, "code", true);
    assert!(p_with.contains("plan file exists"));

    let mut p_without = String::from("base");
    append_mode_reminder(&mut p_without, "code", false);
    assert_eq!(p_without, "base", "no reminder must be added");
}

#[test]
fn builder_unknown_prompt_name_appends_nothing() {
    let mut p = String::from("base");
    append_mode_reminder(&mut p, "my-custom-prompt", true);
    assert_eq!(p, "base");
}

#[test]
fn builder_reminders_use_section_separator() {
    let mut p = String::new();
    append_mode_reminder(&mut p, "plan", false);
    assert!(p.starts_with("\n\n---\n\n"), "got: {p:?}");
}

#[test]
fn builder_mcp_collision_filter_covers_plan_tools() {
    let expected_builtins = [
        "read",
        "write",
        "edit",
        "bash",
        "grep",
        "find_files",
        "glob",
        "list_dir",
        "write_todo_list",
        "apply_patch",
        "memory",
        "skill",
        "task",
        "task_status",
        "question",
        "webfetch",
        "websearch",
        "lsp",
        "plan_enter",
        "plan_exit",
    ];
    for name in expected_builtins {
        assert!(!name.is_empty());
        assert!(is_builtin_name(name), "{name}");
    }
}

#[test]
fn builder_base_preamble_includes_skills_guidance() {
    let p = assemble_base_preamble();
    assert!(p.contains("complex task"), "missing create trigger");
    assert!(p.contains("5+ tool calls"), "missing 5+ trigger");
    assert!(
        p.contains("patch it immediately"),
        "missing patch-now trigger"
    );
    assert!(p.contains("action='create'"), "missing create action");
    assert!(p.contains("action='patch'"), "missing patch action");
    assert!(!p.contains("skill_manage"), "leaked hermes tool name");
    assert!(
        p.contains("## Skill creation and maintenance"),
        "missing heading"
    );
}

#[test]
fn builder_base_preamble_includes_finishing_selfcheck() {
    let p = assemble_base_preamble();
    assert!(
        p.contains("# Finishing"),
        "missing the Finishing section heading"
    );
    assert!(
        p.to_lowercase().contains("self-check"),
        "missing the single self-check"
    );
    assert!(p.contains("exactly what was asked"), "missing scope check");
    assert!(
        p.to_lowercase().contains("verified"),
        "missing verify check"
    );
    assert!(
        p.to_lowercase().contains("unrequested"),
        "missing no-scope-creep check"
    );
    assert!(
        p.to_lowercase().contains("stop"),
        "missing an explicit stop condition"
    );
}

#[test]
fn builder_base_preamble_carries_full_guidance_suite() {
    let p = assemble_base_preamble();
    assert!(
        p.contains("# Finishing a task"),
        "F2 finishing self-check missing"
    );
    assert!(
        p.contains("# Progress updates"),
        "F3 progress narration missing"
    );
    assert!(
        p.contains("# Clarifying vs. proceeding"),
        "F5 ask-vs-proceed calibration missing"
    );
}

#[test]
fn builder_base_preamble_includes_progress_updates() {
    let p = assemble_base_preamble();
    assert!(
        p.contains("# Progress updates"),
        "missing the Progress updates section heading"
    );
    assert!(
        p.to_lowercase().contains("plan up front"),
        "missing the up-front plan guidance"
    );
    assert!(
        p.to_lowercase().contains("multi-step"),
        "progress guidance must be scoped to multi-step tasks"
    );
    assert!(
        p.to_lowercase().contains("final reply"),
        "must distinguish progress notes from the final reply"
    );
}

#[test]
fn builder_base_preamble_includes_ask_calibration() {
    let p = assemble_base_preamble();
    let lower = p.to_lowercase();
    assert!(
        p.contains("# Clarifying vs. proceeding"),
        "missing the Clarifying-vs-proceeding section"
    );
    assert!(
        lower.contains("hard to reverse") || lower.contains("costly"),
        "missing the cost/recoverability signal"
    );
    assert!(
        lower.contains("infer"),
        "missing the inferable-from-context signal"
    );
    assert!(
        lower.contains("assumption"),
        "missing the state-your-assumption path"
    );
}

#[test]
fn builder_base_preamble_includes_memory_and_search_guidance() {
    let p = assemble_base_preamble();

    assert!(p.contains("persistent memory"), "missing memory-tool intro");
    assert!(
        p.contains("Do NOT save task progress"),
        "missing do-not-save rule"
    );
    assert!(
        p.contains("PR numbers"),
        "missing example list of stale artifacts"
    );
    assert!(
        p.contains("declarative facts"),
        "missing declarative-fact framing"
    );
    assert!(
        p.contains("Procedures and workflows belong in skills"),
        "missing memory-vs-skills boundary"
    );

    assert!(
        p.contains("session_search"),
        "missing session_search tool name"
    );
    assert!(
        p.contains("before asking them to repeat"),
        "missing past-session-recall nudge"
    );
}

#[test]
fn builder_build_session_search_tool_threads_session_id() {
    let db_path = String::from("/tmp/dirge-502b-test.db");
    let tool =
        build_session_search_tool(db_path.clone(), Some("sess-test-id".into()), None, None);
    assert_eq!(
        tool.current_session_id(),
        Some("sess-test-id"),
        "factory must thread session_id into SessionSearchTool"
    );

    let tool_none = build_session_search_tool(db_path, None, None, None);
    assert!(
        tool_none.current_session_id().is_none(),
        "factory must not invent a session id when called with None"
    );
}

#[test]
fn builder_memory_preamble_injection_uses_trait_dispatch() {
    let block = "\n\n## RecordingProviderBlock\n\nplugin-supplied prompt text\n";
    let mut preamble = String::from("base");
    append_memory_to_preamble(&mut preamble, block);
    assert!(
        preamble.contains("## RecordingProviderBlock"),
        "plugin provider's prompt heading must appear: {preamble}"
    );
    assert!(
        preamble.contains("plugin-supplied prompt text"),
        "plugin provider's body must appear: {preamble}"
    );

    let mut preamble2 = String::from("base2");
    append_memory_to_preamble(&mut preamble2, "");
    assert_eq!(preamble2, "base2", "empty provider block must not append anything");
}

#[test]
fn builder_build_loop_tools_produces_core_registry() {
    let (tools, search) = build_loop_tools(&options());
    let names: Vec<&str> = tools.iter().map(|t| t.name.as_str()).collect();
    for expected in ["read", "write", "edit", "bash", "grep", "list_dir"] {
        assert!(names.contains(&expected), "missing built-in {expected} in {names:?}");
    }
    assert!(search.is_none());
}

#[test]
fn builder_build_loop_tools_empty_with_no_tools() {
    let mut o = options();
    o.no_tools = true;
    o.dynamic_tool_search = true;
    let (tools, search) = build_loop_tools(&o);
    assert!(tools.is_empty(), "--no-tools should yield empty registry");
    assert!(search.is_none());
    assert!(agent_tools(&o).is_empty());
}

#[test]
fn builder_build_loop_tools_mutating_tools_are_sequential() {
    let (tools, _) = build_loop_tools(&options());
    for mutating in ["write", "edit", "bash", "apply_patch"] {
        assert_eq!(
            find(&tools, mutating).mode,
            Some(ToolExecutionMode::Sequential),
            "{mutating} should be Sequential",
        );
    }
}

#[test]
fn builder_build_loop_tools_read_only_tools_are_parallel_capable() {
    let (tools, _) = build_loop_tools(&options());
    for read_only in ["read", "grep", "list_dir", "find_files"] {
        assert!(
            find(&tools, read_only).mode.is_none(),
            "{read_only} should leave execution_mode at None (Parallel-capable)",
        );
    }
}

#[test]
fn builder_build_agent_inner_emits_assembled_preamble() {
    let s = Surroundings {
        agents: None,
        current_prompt: None,
        current_prompt_name: None,
        cwd: Some("/w".into()),
        os: "linux".into(),
        shell: None,
        git_branch: None,
        memory: None,
        skills: vec![],
        plan_exists: false,
        family: ModelFamily::Other,
    };
    let (preamble, listed) = assemble_preamble(&s);
    assert!(!listed);
    assert!(preamble.contains("## Skill creation and maintenance"));
    assert!(preamble.contains("complex task"));
    assert!(preamble.contains("action='patch'"));
    assert!(preamble.contains("persistent memory"));
    assert!(preamble.contains("Do NOT save task progress"));
    assert!(preamble.contains("declarative facts"));
    assert!(preamble.contains("session_search"));
    assert!(preamble.contains("before asking them to repeat"));
    for action in ["view", "add", "replace", "remove"] {
        assert!(preamble.contains(action), "preamble must mention real memory action '{action}'");
    }
    for forbidden in ["delete", "create"] {
        let mem_line = preamble
            .lines()
            .find(|l| l.trim_start().starts_with("- memory:"))
            .expect("memory bullet present");
        assert!(
            !mem_line.split(|c: char| !c.is_alphanumeric() && c != '_').any(|w| w == forbidden),
            "memory bullet must not name forbidden action '{forbidden}': {mem_line}",
        );
    }
    assert!(!preamble.contains("## Project Skills"));
    assert!(preamble.ends_with("\n\nCurrent working directory: /w\nOS: linux"));
}

#[test]
fn surroundings_follow_the_base_in_order() {
    let s = Surroundings {
        agents: Some("AGENTS".into()),
        current_prompt: Some("PROMPT".into()),
        current_prompt_name: Some("code".into()),
        cwd: None,
        os: "linux".into(),
        shell: Some("/bin/sh".into()),
        git_branch: Some("main".into()),
        memory: Some("\nMEM".into()),
        skills: vec![
            ListedSkill { name: "a".into(), description: Some("".into()) },
            ListedSkill { name: "b".into(), description: None },
        ],
        plan_exists: true,
        family: ModelFamily::DeepSeekChat,
    };
    let (p, listed) = assemble_preamble(&s);
    assert!(listed);
    let rest = p.strip_prefix(assemble_base_preamble().as_str()).unwrap();
    assert!(rest.starts_with(
        "\n\nAGENTS\n\n---\n\nPROMPT\nOS: linux\nShell: /bin/sh\nGit branch: main\nMEM\n\n## Project Skills\n"
    ));
    assert!(rest.contains("action='load'"));
    assert!(rest.contains("\n  - **a**: (no description)\n\n\n---\n\nA plan file exists"));
    assert!(!rest.contains("**b**"));
    assert!(rest.ends_with(model_steering_fragment(ModelFamily::DeepSeekChat).unwrap()));
}

#[test]
fn skills_without_description_are_not_listed() {
    let mut p = String::from("x");
    let skills = vec![ListedSkill { name: "b".into(), description: None }];
    assert!(!append_skills(&mut p, &skills));
    assert_eq!(p, "x");
}

#[test]
fn branch_is_what_git_prints() {
    assert_eq!(git_branch(true, &b"main\n".to_vec()), Some("main".to_string()));
    assert_eq!(git_branch(true, &b" \n".to_vec()), None);
    assert_eq!(git_branch(false, &b"main\n".to_vec()), None);
    assert_eq!(git_branch(true, &vec![0xff]), Some("\u{fffd}".to_string()));
}

#[test]
fn families_are_told_by_provider_and_model() {
    assert_eq!(resolve_family("DeepSeek", "DeepSeek-Chat"), ModelFamily::DeepSeekChat);
    assert_eq!(resolve_family("openrouter", "deepseek/deepseek-r1"), ModelFamily::DeepSeekReasoner);
    assert_eq!(resolve_family("openai", "gpt"), ModelFamily::Other);
}

#[test]
fn offered_tools_cannot_replace_built_in_ones() {
    let mut o = options();
    o.mcp = vec![
        ServerTool { server_name: "s".into(), name: "read".into() },
        ServerTool { server_name: "s".into(), name: "jira".into() },
    ];
    o.semantic = vec!["symbols".into()];
    o.plugin = vec!["bash".into(), "paint".into()];
    o.question = true;
    o.plan = true;
    o.lsp = true;
    o.parent_model = true;
    o.bg_store = true;
    o.dynamic_tool_search = true;
    let (tools, search) = build_loop_tools(&o);
    assert_eq!(tools.iter().filter(|t| t.name == "read").count(), 1);
    assert_eq!(tools.iter().filter(|t| t.name == "bash").count(), 1);
    assert_eq!(find(&tools, "jira").source, ToolSource::Mcp);
    assert_eq!(find(&tools, "paint").source, ToolSource::Plugin);
    assert_eq!(tools.last().unwrap().name, "tool_search");
    let search = search.unwrap();
    assert_eq!(search.registry.len(), tools.len() - 1);
    let names: Vec<&str> = tools.iter().skip(16).map(|t| t.name.as_str()).collect();
    assert_eq!(
        names,
        vec![
            "question",
            "plan_enter",
            "plan_exit",
            "websearch",
            "webfetch",
            "task",
            "task_status",
            "lsp",
            "jira",
            "symbols",
            "paint",
            "tool_search",
        ]
    );
    assert_eq!(wrap_mcp_tools(&o.mcp).len(), 1);
}

#[test]
fn collisions_are_warned_of() {
    assert_eq!(
        server_warning("s", "read"),
        "warning: MCP server 's' exports tool 'read' which collides with a dirge built-in; skipping MCP version"
    );
    assert_eq!(
        plugin_warning("read"),
        "warning: plugin tool 'read' collides with a dirge built-in; skipping plugin version"
    );
}
