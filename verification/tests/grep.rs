use dirge_agent::tools::grep::{check_patterns, grep_cache_key, is_too_large, wants_file, GrepArgs, GrepRun, GrepTool};

fn args(pattern: &str, only: Option<&str>) -> GrepArgs {
    GrepArgs {
        pattern: pattern.into(),
        path: None,
        include_glob: only.map(|s| s.to_string()),
        context_lines: None,
        include_hidden: false,
    }
}

#[test]
fn regression_glob_to_regex_escapes_dot() {
    let re = GrepTool::glob_to_regex("*.rs");
    assert_eq!(re, r".*\.rs", "dot must be escaped");
}

#[test]
fn regression_match_count_uses_separate_variable() {
    let mut run = GrepRun::new(100);
    let data = b"before\nmatch_count\nafter\n".to_vec();
    run.scan("f.rs", &data, "match_count", 1).unwrap();
    let text = run.report();
    assert!(text.contains("match_count"), "{text}");
    assert!(text.contains("before") && text.contains("after"), "{text}");
    assert!(text.contains("1 matches"), "{text}");
}

#[test]
fn files_are_chosen_by_their_name() {
    let a = args("x", Some("*.{rs,toml}"));
    assert!(wants_file(&a, "main.rs"));
    assert!(wants_file(&a, "Cargo.toml"));
    assert!(!wants_file(&a, "main.py"));
    assert!(!wants_file(&a, "main.rs.bak"));
    assert!(wants_file(&args("x", None), "anything"));
}

#[test]
fn broken_patterns_are_refused() {
    assert!(check_patterns(&args("(", None)).is_err());
    assert!(check_patterns(&args("a", None)).is_ok());
}

#[test]
fn binary_files_are_told_by_a_zero_byte() {
    assert!(GrepTool::is_binary(&vec![1, 0, 2]));
    assert!(!GrepTool::is_binary(&b"text".to_vec()));
}

#[test]
fn search_stops_at_the_cap() {
    let mut run = GrepRun::new(2);
    run.scan("f", &b"a\na\na\na\n".to_vec(), "a", 0).unwrap();
    assert!(!run.wants_more());
    let text = run.report();
    assert_eq!(text.lines().filter(|l| l.starts_with("f:")).count(), 2, "{text}");
}

#[test]
fn calls_have_keys_and_files_a_limit() {
    assert_ne!(grep_cache_key(&args("a", None)), grep_cache_key(&args("b", None)));
    assert_ne!(grep_cache_key(&args("a", None)), grep_cache_key(&args("a", Some("*.rs"))));
    assert!(!is_too_large(10485760));
    assert!(is_too_large(10485761));
}

#[test]
fn context_does_not_change_the_count() {
    for context in [0, 1, 5] {
        let mut run = GrepRun::new(100);
        run.scan("f", &b"x\na\nx\nx\na\n".to_vec(), "a", context).unwrap();
        assert!(run.report().starts_with("2 matches"), "{}", run.report());
    }
}
