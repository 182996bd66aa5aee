use dirge_agent::prompt::COMPACTION_PROMPT;

#[test]
fn test_compaction_prompt_has_required_sections() {
    let prompt = COMPACTION_PROMPT;
    assert!(prompt.contains("## Goal"));
    assert!(prompt.contains("## Progress"));
    assert!(prompt.contains("## Key Decisions"));
    assert!(prompt.contains("## Next Steps"));
    assert!(prompt.contains("## Relevant Files"));
    assert!(prompt.contains("## Critical Context"));
}

#[test]
fn test_compaction_prompt_has_template_variables() {
    let prompt = COMPACTION_PROMPT;
    assert!(prompt.contains("{conversation}"));
    assert!(prompt.contains("{previous_summary}"));
    assert!(prompt.contains("{instructions}"));
}
