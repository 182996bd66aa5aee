use dirge_agent::tools::cache::ToolCache;
use dirge_agent::tools::edit::{
    check_edit, check_edit_args, check_edit_size, edit_bytes, edit_file, edit_text, find_indentation_flexible_matches,
    find_line_trimmed_matches, find_whitespace_normalized_matches, has_crlf, EditArgs, EditTool,
};
use dirge_agent::tools::ranges::keep_disjoint_ranges;

fn args(old: &str, new: &str, all: bool) -> EditArgs {
    EditArgs {
        path: "/p/f.rs".into(),
        old_text: old.into(),
        new_text: new.into(),
        replace_all: Some(all),
    }
}

#[test]
fn line_trimmed_matches_indent_drift() {
    let content = "fn foo() {\n    let x = 1;\n    let y = 2;\n}\n";
    let find = "let x = 1;\nlet y = 2;";
    let m = find_line_trimmed_matches(content, find).unwrap();
    assert_eq!(m.len(), 1);
    let (s, e) = m[0];
    assert_eq!(&content[s..e], "    let x = 1;\n    let y = 2;");
}

#[test]
fn line_trimmed_no_match_when_content_differs() {
    let content = "let x = 1;\nlet y = 2;\n";
    let find = "let x = 1;\nlet z = 3;";
    let m = find_line_trimmed_matches(content, find).unwrap();
    assert!(m.is_empty());
}

#[test]
fn whitespace_normalized_matches_tab_vs_spaces() {
    let content = "fn  foo()  {\n\tlet x = 1;\n}\n";
    let find = "fn foo() { let x = 1; }";
    let m = find_whitespace_normalized_matches(content, find).unwrap();
    assert_eq!(m.len(), 1);
}

#[test]
fn indentation_flexible_matches_re_indented_block() {
    let content = "fn foo() {\n        let x = 1;\n        let y = 2;\n}\n";
    let find = "let x = 1;\nlet y = 2;";
    let m = find_indentation_flexible_matches(content, find).unwrap();
    assert_eq!(m.len(), 1);
    let (s, e) = m[0];
    assert_eq!(&content[s..e], "        let x = 1;\n        let y = 2;");
}

#[test]
fn keep_disjoint_drops_overlaps_keeps_earliest() {
    let input = vec![(0, 10), (5, 15), (12, 20), (20, 25)];
    assert_eq!(
        keep_disjoint_ranges(input),
        vec![(0, 10), (12, 20), (20, 25)],
    );
}

#[test]
fn keep_disjoint_sorts_unsorted_input() {
    let input = vec![(20, 25), (0, 30), (5, 8)];
    assert_eq!(keep_disjoint_ranges(input), vec![(0, 30)]);
}

#[test]
fn keep_disjoint_adjacent_ranges_are_kept() {
    let input = vec![(0, 5), (5, 10)];
    assert_eq!(keep_disjoint_ranges(input), vec![(0, 5), (5, 10)]);
}

#[test]
fn keep_disjoint_empty() {
    assert!(keep_disjoint_ranges(Vec::new()).is_empty());
}

#[test]
fn replace_all_reverse_splice_over_deduped_ranges_is_safe() {
    let content = "aXbXc".to_string();
    let overlapping = vec![(1, 3), (1, 2), (3, 4)];
    let ranges = keep_disjoint_ranges(overlapping);
    assert_eq!(ranges, vec![(1, 3), (3, 4)]);
    let mut out = content.clone();
    for (s, e) in ranges.into_iter().rev() {
        out.replace_range(s..e, "_");
    }
    assert_eq!(out, "a__c");
}

#[test]
fn unique_text_is_replaced() {
    let e = edit_text("one\ntwo\nthree\n", false, &args("two", "2", false)).unwrap();
    assert_eq!(e.output, "one\n2\nthree\n");
    assert!(e.message.starts_with("Applied edit\n--- a//p/f.rs\n+++ b//p/f.rs\n"), "{}", e.message);
    assert!(e.message.contains("@@ -1,3 +1,3 @@"), "{}", e.message);
}

#[test]
fn ambiguous_text_is_refused_with_its_places() {
    let err = edit_text("a\nb\na\n", false, &args("a", "x", false)).unwrap_err();
    assert!(err.starts_with("old_text matched 2 times in /p/f.rs:\n  Line 1: a\n  Line 3: a\n\n"), "{err}");
}

#[test]
fn every_place_is_replaced_on_request() {
    let e = edit_text("a\nb\na\n", false, &args("a", "xy\nz", true)).unwrap();
    assert_eq!(e.output, "xy\nz\nb\nxy\nz\n");
    assert!(e.message.starts_with("Applied edit (2 replacements) (+2 lines)"), "{}", e.message);
}

#[test]
fn missing_text_is_refused() {
    let err = edit_text("a\n", false, &args("q", "x", false)).unwrap_err();
    assert!(err.starts_with("old_text not found in '/p/f.rs'."), "{err}");
}

#[test]
fn drifted_text_is_found_with_tolerance() {
    let e = edit_text("    let x = 1;\n", false, &args("let  x = 1;", "y", false)).unwrap();
    assert!(e.message.contains("whitespace-normalized fallback"), "{}", e.message);
    let e = edit_text("  a\n  b\n", false, &args("a\nb", "c", false)).unwrap();
    assert!(e.message.contains("line-trimmed fallback"), "{}", e.message);
    assert_eq!(e.output, "c\n");
}

#[test]
fn carriage_returns_come_back() {
    let bytes = b"one\r\ntwo\r\n".to_vec();
    assert!(has_crlf(&bytes));
    let e = edit_bytes(&bytes, &args("two", "2", false)).unwrap();
    assert_eq!(e.output, "one\r\n2\r\n");
    let same = edit_bytes(&bytes, &args("one\r\ntwo", "one\ntwo", true)).unwrap();
    assert_eq!(same.output.as_bytes(), &bytes[..]);
    assert!(!has_crlf(&b"one\n".to_vec()));
}

#[test]
fn broken_bytes_are_replaced_by_the_replacement_character() {
    let e = edit_bytes(&vec![0x61, 0xff, 0x62], &args("b", "c", false)).unwrap();
    assert_eq!(e.output, "a\u{fffd}c");
}

#[test]
fn calls_that_cannot_succeed_are_refused() {
    assert!(check_edit_args(&args("a", "b", false)).is_ok());
    assert_eq!(
        check_edit_args(&args("", "b", false)),
        Err("old_text must not be empty. Provide the exact text to replace.".to_string())
    );
    let mut relative = args("a", "b", false);
    relative.path = "f.rs".into();
    assert_eq!(
        check_edit_args(&relative),
        Err("the edit path must be absolute, got: f.rs".to_string())
    );
    assert!(check_edit_size(104857600).is_ok());
    let err = check_edit_size(104857601).unwrap_err();
    assert!(err.starts_with("file too large for edit: 104857601 bytes (cap 104857600 bytes)"));
}

#[test]
fn tool_starts_without_a_cache() {
    let tool = EditTool::new(None, None);
    assert!(tool.cache.is_none() && tool.lsp_manager.is_none());
}

#[test]
fn diff_shows_the_lines_around() {
    let diff = EditTool::show_diff("f", "a\nb\nc\n", 2, "b", "x\ny");
    assert_eq!(diff, "\n--- a/f\n+++ b/f\n@@ -1,3 +1,4 @@\n a\n-b\n+x\n+y\n c\n");
    let wide = "ééé\nb\n";
    let diff = EditTool::show_diff("f", wide, wide.find('b').unwrap(), "b", "x");
    assert_eq!(diff, "\n--- a/f\n+++ b/f\n@@ -1,2 +1,2 @@\n ééé\n-b\n+x\n");
}

#[test]
fn an_unread_file_is_not_edited() {
    let mut cache = ToolCache::new();
    let a = args("a = 1", "a = 2", false);
    let bytes = b"let a = 1;\n".to_vec();
    assert!(check_edit(&a, Some(&cache), "/w/f.rs").is_err());
    let refusal = match edit_file(&a, Some(&cache), "/w/f.rs", &bytes) {
        Err(e) => e,
        Ok(_) => panic!("expected a refusal"),
    };
    assert!(refusal.contains("has not been read"), "{refusal}");
    cache.mark_read("/w/f.rs");
    assert!(check_edit(&a, Some(&cache), "/w/f.rs").is_ok());
    assert_eq!(edit_file(&a, Some(&cache), "/w/f.rs", &bytes).unwrap().output, "let a = 2;\n");
    assert_eq!(edit_file(&a, None, "/w/g.rs", &bytes).unwrap().output, "let a = 2;\n");
    assert!(edit_file(&args("", "b", false), None, "/w/g.rs", &bytes).is_err());
}

#[test]
fn exact_edits_keep_carriage_returns() {
    let e = edit_bytes(&b"a\r\nb\r\n".to_vec(), &args("b", "x\ny", false)).unwrap();
    assert_eq!(e.output, "a\r\nx\r\ny\r\n");
}

#[test]
fn disjoint_stretches_stay_as_they_are() {
    let once = keep_disjoint_ranges(vec![(5, 9), (0, 3), (2, 6), (9, 10)]);
    assert_eq!(once, vec![(0, 3), (5, 9), (9, 10)]);
    assert_eq!(keep_disjoint_ranges(once.clone()), once);
}
