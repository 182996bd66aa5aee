use dirge_agent::tools::glob::{glob_answer, glob_cache_key, glob_permission_input, glob_to_regex, FoundFile, GlobArgs};

#[test]
fn test_glob_to_regex_basic() {
    let re = glob_to_regex("*.rs").unwrap();
    assert!(re.is_match("main.rs"));
    assert!(re.is_match("lib.rs"));
    assert!(!re.is_match("main.py"));
    assert!(!re.is_match("src/main.rs"));
}

#[test]
fn test_glob_to_regex_recursive() {
    let re = glob_to_regex("**/*.rs").unwrap();
    assert!(re.is_match("main.rs"));
    assert!(re.is_match("src/main.rs"));
    assert!(re.is_match("src/agent/tools/foo.rs"));
    assert!(!re.is_match("main.py"));
}

#[test]
fn test_glob_to_regex_nested_dir() {
    let re = glob_to_regex("src/**/*.rs").unwrap();
    assert!(!re.is_match("main.rs"));
    assert!(re.is_match("src/main.rs"));
    assert!(re.is_match("src/agent/tools/foo.rs"));
    assert!(!re.is_match("lib/main.rs"));
}

#[test]
fn test_glob_to_regex_question_mark() {
    let re = glob_to_regex("file.??").unwrap();
    assert!(re.is_match("file.rs"));
    assert!(re.is_match("file.py"));
    assert!(!re.is_match("file.cpp"));
    assert!(!re.is_match("file.r"));
}

#[test]
fn glob_escapes_regex_metacharacters() {
    let re = glob_to_regex("file.rs").unwrap();
    assert!(re.is_match("file.rs"));
    assert!(!re.is_match("fileXrs"));
    assert!(!re.is_match("filers"));
}

#[test]
fn star_does_not_cross_directory_boundary() {
    let re = glob_to_regex("*.rs").unwrap();
    assert!(re.is_match("main.rs"));
    assert!(!re.is_match("src/main.rs"));
}

fn file(relative: &str, modified: Option<u128>) -> FoundFile {
    FoundFile { relative: relative.into(), path: format!("/w/{relative}"), modified }
}

fn args(pattern: &str) -> GlobArgs {
    GlobArgs { pattern: pattern.into(), path: Some("/w".into()), include_hidden: false }
}

#[test]
fn regression_empty_result_returns_empty_string() {
    assert_eq!(glob_answer(&args("*.rs"), &vec![], 10).unwrap(), "");
}

#[test]
fn regression_mtime_sort_with_explicit_path() {
    let files = vec![
        file("oldest.rs", Some(1)),
        file("x.py", Some(5)),
        file("newest.rs", Some(9)),
        file("middle.rs", Some(4)),
    ];
    let out = glob_answer(&args("*.rs"), &files, 10).unwrap();
    let lines: Vec<&str> = out.lines().collect();
    assert_eq!(lines, vec!["newest.rs", "middle.rs", "oldest.rs"]);
}

#[test]
fn files_without_a_time_are_ordered_by_path() {
    let files = vec![file("b.rs", None), file("a.rs", None)];
    assert_eq!(glob_answer(&args("*.rs"), &files, 10).unwrap(), "a.rs\nb.rs");
}

#[test]
fn keys_tell_calls_apart() {
    assert_eq!(glob_cache_key(&args("a")), "glob:a:/w:hidden=false");
    assert_ne!(glob_cache_key(&args("a")), glob_cache_key(&args("b")));
}

#[test]
fn permission_is_asked_for_the_pattern() {
    assert_eq!(glob_permission_input(&args("*.rs")), "pattern:*.rs");
}

#[test]
fn files_of_which_some_have_no_time_are_compared_by_path() {
    let list = |files: Vec<FoundFile>| glob_answer(&args("*.rs"), &files, 10).unwrap();
    assert_eq!(list(vec![file("b.rs", Some(2)), file("a.rs", None)]), "a.rs\nb.rs");
    assert_eq!(list(vec![file("b.rs", None), file("a.rs", Some(2))]), "a.rs\nb.rs");
    // Every pair can be in order: the newer of two, and by path against the third.
    assert_eq!(
        list(vec![file("c.rs", None), file("a.rs", Some(1)), file("b.rs", Some(9))]),
        "b.rs\na.rs\nc.rs"
    );
    // c is newer than a, but b stands between them by path.
    assert_eq!(
        list(vec![file("c.rs", Some(9)), file("b.rs", None), file("a.rs", Some(1))]),
        "a.rs\nb.rs\nc.rs"
    );
}
