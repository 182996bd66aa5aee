use dirge_agent::tools::lsp::{lsp_answer, missing_file, LspArgs, LspReply, LspTool, Operation};
use dirge_agent::tools::LspManager;

fn tool() -> LspTool {
    LspTool::new(None, None, LspManager { id: 1 }, "/work".to_string())
}

fn args(operation: &str, file: Option<&str>, line: Option<u32>, character: Option<u32>, query: Option<&str>) -> LspArgs {
    LspArgs {
        operation: operation.into(),
        file_path: file.map(|s| s.to_string()),
        line,
        character,
        query: query.map(|s| s.to_string()),
    }
}

#[test]
fn regression_unknown_operation_returns_clear_error() {
    let err = tool().request(&args("renameSymbol", None, None, None, None)).unwrap_err();
    assert!(err.contains("unknown lsp operation"), "got: {err}");
    assert!(err.contains("renameSymbol"), "got: {err}");
}

#[test]
fn regression_position_op_without_file_path_errors() {
    let err = tool().request(&args("hover", None, Some(1), Some(1), None)).unwrap_err();
    assert!(err.contains("requires file_path"), "got: {err}");
}

#[test]
fn position_op_without_line_or_character_errors() {
    let err = tool().request(&args("hover", Some("/f.rs"), None, None, None)).unwrap_err();
    assert!(err.contains("line and character"), "got: {err}");
}

#[test]
fn regression_workspace_symbol_requires_file_path() {
    let err = tool().request(&args("workspaceSymbol", None, None, None, Some("Foo"))).unwrap_err();
    assert!(err.contains("requires file_path"), "got: {err}");
}

#[test]
fn workspace_symbol_without_query_errors() {
    let err = tool().request(&args("workspaceSymbol", Some("/f.rs"), None, None, None)).unwrap_err();
    assert!(err.contains("workspaceSymbol requires query"), "got: {err}");
}

#[test]
fn missing_file_returns_clean_error() {
    assert!(missing_file("/x.rs").contains("file not found"));
}

#[test]
fn regression_one_based_coordinates_converted_to_zero_based() {
    let q = tool().request(&args("hover", Some("/f.rs"), Some(1), Some(1), None)).unwrap();
    assert_eq!((q.line, q.character), (0, 0));
    let q = tool().request(&args("hover", Some("/f.rs"), Some(7), Some(3), None)).unwrap();
    assert_eq!((q.line, q.character), (6, 2));
}

#[test]
fn regression_document_symbol_accepts_no_position() {
    assert!(tool().request(&args("documentSymbol", Some("/f.rs"), None, None, None)).is_ok());
}

#[test]
fn successful_hover_returns_pretty_json() {
    let out = lsp_answer("hover", &LspReply::Array(vec![false]), &Some("{\n  \"a\": 1\n}".into()));
    assert_eq!(out, "{\n  \"a\": 1\n}");
}

#[test]
fn empty_result_reports_no_results() {
    assert!(lsp_answer("hover", &LspReply::Null, &None).contains("(no results"));
    assert!(lsp_answer("hover", &LspReply::Array(vec![true, true]), &None).contains("(no results"));
    assert!(lsp_answer("hover", &LspReply::Array(vec![]), &None).contains("(no results"));
}

#[test]
fn accepts_opencode_camelcase_alias_for_definition() {
    assert_eq!(Operation::parse("goToDefinition"), Some(Operation::Definition));
    assert_eq!(Operation::parse("definition"), Some(Operation::Definition));
}

#[test]
fn regression_relative_file_path_resolves_against_cwd() {
    let q = tool().request(&args("hover", Some("src/lib.rs"), Some(1), Some(1), None)).unwrap();
    assert_eq!(q.path, "/work/src/lib.rs");
}

#[test]
fn line_zero_or_character_zero_does_not_panic() {
    let q = tool().request(&args("hover", Some("/f.rs"), Some(0), Some(0), None)).unwrap();
    assert_eq!((q.line, q.character), (0, 0));
}

#[test]
fn operations_need_what_they_look_at() {
    assert!(Operation::Hover.needs_position() && Operation::Hover.needs_file());
    assert!(!Operation::DocumentSymbol.needs_position() && Operation::DocumentSymbol.needs_file());
    assert!(!Operation::WorkspaceSymbol.needs_position());
}
