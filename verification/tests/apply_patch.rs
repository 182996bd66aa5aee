use dirge_agent::tools::cache::ToolCache;
use dirge_agent::tools::apply_patch::{
    already_exists, update_file, update_text, ApplyPatchArgs, ApplyPatchTool, PatchOp, PatchRun,
};

#[test]
fn test_update_text() {
    assert_eq!(update_text("before after", "f", "before", "replaced").unwrap(), "replaced after");
}

#[test]
fn test_update_text_not_found() {
    assert!(update_text("some content", "f", "nonexistent", "replacement").is_err());
}

#[test]
fn regression_update_rejects_multiple_matches() {
    let msg = update_text("foo bar foo baz foo", "f", "foo", "qux").unwrap_err();
    assert!(msg.contains("3 locations"), "got: {msg}");
}

#[test]
fn test_rejects_empty_operations() {
    match PatchRun::begin(&ApplyPatchArgs { operations: vec![] }) {
        Err(e) => assert!(e.contains("no operations")),
        Ok(_) => panic!("expected a refusal"),
    }
}

#[test]
fn regression_multi_op_stops_on_failure_prior_ops_remain() {
    let op = |p: &str| PatchOp::Create { path: p.into(), content: "x".into() };
    let args = ApplyPatchArgs { operations: vec![op("/a"), op("/b"), op("/c")] };
    let mut run = match PatchRun::begin(&args) {
        Ok(r) => r,
        Err(e) => panic!("{e}"),
    };
    run.record(Ok(args.operations[0].success()));
    assert!(!run.is_stopped());
    run.record(Err(already_exists("/b")));
    assert!(run.is_stopped());
    assert_eq!(run.report(), "created /a\nFAILED: file already exists: /b");
}

#[test]
fn regression_create_rejects_oversized_content() {
    let op = PatchOp::Create { path: "/a".into(), content: "x".repeat(1_048_577) };
    assert!(op.check_size().unwrap_err().contains("exceeds"));
}

#[test]
fn create_accepts_content_at_size_limit() {
    let op = PatchOp::Create { path: "/a".into(), content: "x".repeat(1_048_576) };
    assert!(op.check_size().is_ok());
}

#[test]
fn operations_name_their_paths() {
    let op = PatchOp::Rename { path: "/a".into(), new_path: "/b".into() };
    assert_eq!(op.paths(), vec!["/a", "/b"]);
    assert_eq!(op.touched(), "/b");
    assert_eq!(op.success(), "renamed /a -> /b");
    let op = PatchOp::Delete { path: "/a".into() };
    assert_eq!(op.success(), "deleted /a");
    assert!(ApplyPatchTool::new(None, None).cache.is_none());
}

#[test]
fn line_endings_around_an_update_stay() {
    let update = |s: &str, old: &str, new: &str| update_text(s, "f", old, new).unwrap();
    assert_eq!(update("a\r\nb\nc", "a", "x"), "x\r\nb\nc");
    assert_eq!(update("a\r\nb\nc\r\n", "b\nc", "x\ny"), "a\r\nx\r\ny\r\n");
    assert_eq!(update("a\r\nb\r\n", "a\nb", "p\r\nq"), "p\r\nq\r\n");
    assert_eq!(update("a\r\r\nb\n", "b", "x"), "a\r\r\nx\n");
    assert_eq!(update("a\nb\n", "b", "x\r\ny"), "a\nx\r\ny\n");
    assert_eq!(update("", "", "x"), "x");
}

#[test]
fn an_unread_file_is_not_updated() {
    let mut cache = ToolCache::new();
    let refusal = update_file(Some(&cache), "/w/f", "a", "/w/f", "a", "b").unwrap_err();
    assert!(refusal.contains("has not been read"), "{refusal}");
    cache.mark_read("/w/f");
    assert_eq!(update_file(Some(&cache), "/w/f", "a", "/w/f", "a", "b").unwrap(), "b");
    assert_eq!(update_file(None, "/w/g", "a", "/w/g", "a", "b").unwrap(), "b");
}
