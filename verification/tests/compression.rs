use dirge_agent::compression::{
    approx_tokens, build_summary_prompt, estimate_messages_tokens, find_previous_summary, fmt_count,
    prune_tool_outputs, serialize_turns_for_summary, should_compress, summarize_tool_result,
    summary_budget, validate_summary, Field, Turn, MIN_SUMMARY_TOKENS, SUMMARY_PREFIX,
    SUMMARY_TOKENS_CEILING,
};

fn field(s: Option<&str>) -> Field {
    match s {
        Some(t) => Field::Text(t.to_string()),
        None => Field::Absent,
    }
}

fn turn(role: Option<&str>, content: Option<&str>, tool_name: Option<&str>, camel: Option<&str>) -> Turn {
    Turn {
        role: field(role),
        content: field(content),
        tool_name: field(tool_name),
        tool_name_camel: field(camel),
    }
}

fn content(t: &Turn) -> &str {
    match &t.content {
        Field::Text(s) => s,
        _ => panic!("no content"),
    }
}

#[test]
fn below_75pct_no_compress() {
    assert!(!should_compress(50_000, 128_000));
}

#[test]
fn at_threshold_no_compress() {
    assert!(!should_compress(96_000, 128_000));
}

#[test]
fn above_threshold_compress() {
    assert!(should_compress(96_001, 128_000));
}

#[test]
fn exactly_at_threshold_edge() {
    assert!(!should_compress(96_000, 128_000));
    assert!(should_compress(96_001, 128_000));
}

#[test]
fn budget_minimum() {
    assert_eq!(summary_budget(1_000), MIN_SUMMARY_TOKENS);
}

#[test]
fn budget_proportional() {
    assert_eq!(summary_budget(50_000), 10_000);
}

#[test]
fn budget_ceiling() {
    assert_eq!(summary_budget(500_000), SUMMARY_TOKENS_CEILING);
}

#[test]
fn budget_clamp() {
    assert_eq!(summary_budget(0), MIN_SUMMARY_TOKENS);
    assert_eq!(summary_budget(1_000_000), SUMMARY_TOKENS_CEILING);
}

#[test]
fn prune_large_tool_results() {
    let msgs = vec![
        turn(Some("user"), Some("hello"), None, None),
        turn(Some("assistant"), Some("hi"), None, None),
        turn(Some("tool"), Some(&"x".repeat(1000)), Some("read"), None),
        turn(Some("tool"), Some("small"), Some("grep"), None),
        turn(Some("user"), Some("tail"), None, None),
    ];

    let pruned = prune_tool_outputs(&msgs, 2);
    let tool1 = &pruned[2];
    assert!(content(tool1).contains("[read]"));
    assert!(!content(tool1).contains("xxxxx"));

    assert_eq!(content(&pruned[3]), "small");

    assert_eq!(content(&pruned[4]), "tail");
}

#[test]
fn prune_handles_tool_result_role_and_camelcase_toolname() {
    let msgs = vec![
        turn(Some("user"), Some("hello"), None, None),
        turn(Some("toolResult"), Some(&"x".repeat(1000)), None, Some("bash")),
        turn(Some("toolResult"), Some("small"), None, Some("grep")),
        turn(Some("user"), Some("tail"), None, None),
    ];

    let pruned = prune_tool_outputs(&msgs, 2);
    let summary = content(&pruned[1]);
    assert!(
        summary.contains("[bash]"),
        "should summarize bash tool result: {summary}"
    );
    assert!(
        summary.len() < 500,
        "summary should be under 500 chars: {}",
        summary.len()
    );
    assert_eq!(content(&pruned[2]), "small");
}

#[test]
fn prune_protects_tail() {
    let msgs = vec![
        turn(Some("tool"), Some(&"x".repeat(1000)), Some("bash"), None),
        turn(Some("tool"), Some(&"y".repeat(1000)), Some("read"), None),
        turn(Some("user"), Some("protected"), None, None),
        turn(Some("assistant"), Some("protected"), None, None),
    ];

    let pruned = prune_tool_outputs(&msgs, 3);
    assert!(content(&pruned[0]).contains("[bash]"));
    assert!(content(&pruned[1]).contains("yyyy"));
}

#[test]
fn estimate_tokens_from_content() {
    let msgs = vec![
        turn(Some("user"), Some("hello world"), None, None),
        turn(Some("assistant"), Some("0123456789012345"), None, None),
    ];
    assert_eq!(estimate_messages_tokens(&msgs), 7);
}

#[test]
fn estimate_tokens_handles_missing_content() {
    let msgs = vec![turn(Some("system"), None, None, None)];
    assert_eq!(estimate_messages_tokens(&msgs), 0);
}

#[test]
fn valid_summary_passes() {
    assert!(validate_summary(
        "## Active Task\nRefactor auth module\n\n## Completed Actions\n1. READ config.py"
    ));
}

#[test]
fn empty_summary_fails() {
    assert!(!validate_summary(""));
}

#[test]
fn irrelevant_text_fails() {
    assert!(!validate_summary("just some random text with no structure"));
}

#[test]
fn prompt_contains_filter_safe_preamble() {
    let turns = vec![
        turn(Some("user"), Some("fix the bug"), None, None),
        turn(Some("assistant"), Some("ok let me read the file"), None, None),
    ];
    let prompt = build_summary_prompt(&turns, 2000, None, None);
    assert!(prompt.contains("summarization agent"));
    assert!(prompt.contains("TURNS TO SUMMARIZE"));
    assert!(prompt.contains("## Active Task"));
    assert!(prompt.contains("## Remaining Work"));
    assert!(prompt.contains("fix the bug"));
    assert!(prompt.contains("ok let me read the file"));
}

#[test]
fn iterative_prompt_includes_previous_summary() {
    let turns = vec![turn(Some("user"), Some("new stuff"), None, None)];
    let prompt = build_summary_prompt(&turns, 2000, Some("Old summary"), None);
    assert!(prompt.contains("PREVIOUS SUMMARY"));
    assert!(prompt.contains("Old summary"));
    assert!(prompt.contains("NEW TURNS TO INCORPORATE"));
}

#[test]
fn prompt_truncates_long_content() {
    let long = "x".repeat(3000);
    let turns = vec![turn(Some("assistant"), Some(&long), None, None)];
    let prompt = build_summary_prompt(&turns, 2000, None, None);
    assert!(prompt.contains("truncated"));
    assert!(prompt.len() < 10_000, "prompt should be under 10K chars");
}

#[test]
fn finds_latest_summary() {
    let msgs = vec![
        turn(Some("system"), Some("system prompt"), None, None),
        turn(Some("user"), Some("hello"), None, None),
        turn(Some("system"), Some(&format!("{}## Active Task\nfix the bug", SUMMARY_PREFIX)), None, None),
    ];
    let found = find_previous_summary(&msgs);
    assert!(found.is_some());
    let (_idx, body) = found.unwrap();
    assert!(body.contains("fix the bug"));
}

#[test]
fn no_summary_returns_none() {
    let msgs = vec![
        turn(Some("system"), Some("system prompt"), None, None),
        turn(Some("user"), Some("hello"), None, None),
    ];
    assert!(find_previous_summary(&msgs).is_none());
}

#[test]
fn tokens_are_rounded_up() {
    assert_eq!(approx_tokens(""), 0);
    assert_eq!(approx_tokens("abcd"), 1);
    assert_eq!(approx_tokens("abcde"), 2);
    assert_eq!(approx_tokens("ää"), 1);
    assert_eq!(approx_tokens("äääääääää"), 3);
}

#[test]
fn counts_are_grouped() {
    assert_eq!(fmt_count(0), "0");
    assert_eq!(fmt_count(999), "999");
    assert_eq!(fmt_count(1000), "1,000");
    assert_eq!(fmt_count(1234567), "1,234,567");
    assert_eq!(fmt_count(12345), "12,345");
}

#[test]
fn results_are_summed_up_by_their_tool() {
    assert_eq!(summarize_tool_result("bash", "$ $ > ls\nx"), "[bash] ran `ls` -> 2 lines, 10 chars");
    assert_eq!(summarize_tool_result("bash", ""), "[bash] ran `?` -> 0 lines, 0 chars");
    let long = "y".repeat(81);
    let cut = format!("[bash] ran `{}…` -> 1 lines, 81 chars", "y".repeat(77));
    assert_eq!(summarize_tool_result("bash", &long), cut);
    assert_eq!(summarize_tool_result("read", "a\nb"), "[read] 3 chars, 2 lines");
    assert_eq!(summarize_tool_result("write", "abc"), "[write] wrote 3 chars");
    assert_eq!(summarize_tool_result("edit", "abc"), "[edit] patched 3 chars");
    assert_eq!(summarize_tool_result("grep", "abc"), "[grep] 1 matches, 3 chars");
    assert_eq!(summarize_tool_result("glob", "a\nb"), "[glob] a");
    assert_eq!(summarize_tool_result("task", "abc"), "[task] 3 chars result");
    assert_eq!(summarize_tool_result("other", "abc"), "[other] abc (3 chars)");
    let many = "é".repeat(50);
    assert_eq!(summarize_tool_result("other", &many), format!("[other] {many} (50 chars)"));
    assert_eq!(summarize_tool_result("read", &many), "[read] 50 chars, 1 lines");
    let most = "é".repeat(81);
    assert_eq!(
        summarize_tool_result("other", &most),
        format!("[other] {}… (81 chars)", "é".repeat(80))
    );
}

#[test]
fn name_of_a_tool_that_is_no_text_is_passed_over() {
    let mut t = turn(Some("tool"), Some(&"z".repeat(501)), None, Some("read"));
    t.tool_name = Field::Other;
    let out = prune_tool_outputs(&vec![t], 0);
    assert!(content(&out[0]).starts_with("[tool] zzz"), "{}", content(&out[0]));
}

#[test]
fn later_summary_is_the_one_found() {
    let msgs = vec![
        turn(Some("system"), Some(&format!("{SUMMARY_PREFIX} first ")), None, None),
        turn(Some("system"), Some(&format!("{SUMMARY_PREFIX}\nsecond\n")), None, None),
        turn(Some("user"), Some(&format!("{SUMMARY_PREFIX}third")), None, None),
    ];
    assert_eq!(find_previous_summary(&msgs), Some((1, "second".to_string())));
}

#[test]
fn turns_are_listed_for_the_summary() {
    let msgs = vec![turn(Some("user"), Some("hi"), None, None), turn(None, None, None, None)];
    assert_eq!(serialize_turns_for_summary(&msgs), "[0] user: hi\n[1] ?: \n");
}

#[test]
fn characters_decide_what_is_long() {
    let wide = "é".repeat(500);
    let msgs = vec![turn(Some("tool"), Some(&wide), Some("read"), None)];
    assert_eq!(content(&prune_tool_outputs(&msgs, 0)[0]), wide);
    let wider = "é".repeat(501);
    let msgs = vec![turn(Some("tool"), Some(&wider), Some("read"), None)];
    assert!(content(&prune_tool_outputs(&msgs, 0)[0]).starts_with("[read]"));
    assert_eq!(estimate_messages_tokens(&msgs), 126);
}

#[test]
fn results_are_summed_up_on_one_line() {
    assert_eq!(summarize_tool_result("other", "a\nb\n"), "[other] a b  (4 chars)");
    for tool in ["bash", "read", "write", "edit", "grep", "glob", "task", "other"] {
        assert!(!summarize_tool_result(tool, "x\ny\r\nz\n").contains('\n'), "{tool}");
    }
}

#[test]
fn summary_is_found_behind_other_text() {
    let msgs = vec![turn(
        Some("system"),
        Some(&format!("note\n{SUMMARY_PREFIX} body {SUMMARY_PREFIX}")),
        None,
        None,
    )];
    let (i, body) = find_previous_summary(&msgs).unwrap();
    assert_eq!(i, 0);
    assert_eq!(body, format!("body {SUMMARY_PREFIX}"));
}

#[test]
fn turns_are_cut_by_characters() {
    let whole = "é".repeat(2000);
    let msgs = vec![turn(Some("user"), Some(&whole), None, None)];
    assert_eq!(serialize_turns_for_summary(&msgs), format!("[0] user: {whole}\n"));
    let long = "é".repeat(2001);
    let msgs = vec![turn(Some("user"), Some(&long), None, None)];
    assert_eq!(
        serialize_turns_for_summary(&msgs),
        format!("[0] user: {whole}… [truncated, 2001 total chars]\n")
    );
}
