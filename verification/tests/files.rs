use dirge_agent::order::{sorted_order, SortKey};
use dirge_agent::registry::Registry;
use dirge_agent::splice::{pieces, replace};
use dirge_agent::text::{fit, lines, signed, trim, words};
use dirge_agent::tools::find_files::{find_files_answer, find_files_cache_key, FindFilesArgs, WalkedFile};
use dirge_agent::tools::list_dir::{entry_kind, format_size, list_dir_cache_key, list_dir_text, DirEntry, EntryKind, ListDirArgs};
use dirge_agent::tools::memory::{
    delete_answer, list_answer, memory_request, read_answer, write_answer, Args, MemoryRequest,
};
use dirge_agent::tools::{head_cap, is_skip_dir, require_absolute_path, required_nonblank};

fn walked(name: &str) -> WalkedFile {
    WalkedFile { name: name.into(), path: format!("/w/{name}") }
}

fn args(pattern: &str) -> FindFilesArgs {
    FindFilesArgs { pattern: pattern.into(), path: None, include_hidden: false }
}

#[test]
fn found_files_are_counted_and_capped() {
    let files = vec![walked("c.rs"), walked("a.rs"), walked("b.py")];
    assert_eq!(
        find_files_answer(&args("rs$"), &files, 10).unwrap(),
        "2 files found:\n/w/a.rs\n/w/c.rs"
    );
    let one = find_files_answer(&args("."), &files, 1).unwrap();
    assert_eq!(one, "3 files found (showing first 1):\n/w/c.rs\n\n... and 2 more");
    assert_eq!(
        find_files_answer(&args("zzz"), &files, 10).unwrap(),
        "No files found matching the pattern."
    );
    assert!(find_files_answer(&args("("), &files, 10).is_err());
    assert_ne!(find_files_cache_key(&args("a"), "1:1"), find_files_cache_key(&args("a"), "2:1"));
}

#[test]
fn directories_are_listed_before_files() {
    let entry = |name: &str, kind, size: &str| DirEntry { name: name.into(), kind, size: size.into() };
    let entries = vec![
        entry("b.txt", EntryKind::File, "3B"),
        entry("a.txt", EntryKind::File, "12B"),
        entry("src", EntryKind::Dir(4), ""),
    ];
    assert_eq!(
        list_dir_text("/w", &entries),
        "Listing /w:\n  [dir(4)]  src  \n  [file]  a.txt  12B\n  [file]  b.txt  3B\n"
    );
    assert_eq!(list_dir_text("/w", &vec![]), "Listing /w:\n(empty directory)");
    assert_eq!(entry_kind(true, false, 2), EntryKind::Dir(2));
}

#[test]
fn memory_calls_are_understood() {
    let q = |action: &str, path: Option<&str>, content: Option<&str>| {
        memory_request(&Args {
            action: action.into(),
            path: path.map(|s| s.to_string()),
            content: content.map(|s| s.to_string()),
        })
    };
    assert!(matches!(q("view", None, None), Ok(MemoryRequest::List)));
    assert!(matches!(q("view", Some(""), None), Ok(MemoryRequest::List)));
    assert!(matches!(q("view", Some("a"), None), Ok(MemoryRequest::Read(p)) if p == "a"));
    assert_eq!(q("write", None, None).unwrap_err(), "path required for write");
    assert_eq!(q("write", Some("a"), None).unwrap_err(), "content required for write");
    assert!(q("write", Some("a"), Some("b")).is_ok());
    assert_eq!(q("delete", None, None).unwrap_err(), "path required for delete");
    assert_eq!(q("burn", None, None).unwrap_err(), "Unknown action 'burn'. Use view, write, or delete.");
    assert_eq!(list_answer(&vec!["a".into(), "b".into()]), "Memories (2):\n  a\n  b");
    assert_eq!(list_answer(&vec![]), "No memories stored.");
    assert_eq!(read_answer("a", "x"), "Memory: a\n\nx");
    assert_eq!(write_answer("a"), "Written memory: a");
    assert_eq!(delete_answer("a"), "Deleted memory: a");
}

#[test]
fn oldest_entry_makes_room() {
    let mut r: Registry<u32> = Registry::new();
    for i in 0..3 {
        r.put(format!("k{i}"), i, 2);
    }
    assert_eq!(r.len(), 2);
    assert_eq!(r.find("k0"), None);
    assert_eq!(r.find("k2"), Some(1));
    assert_eq!(*r.item_at(0), 1);
    r.put("k1".into(), 9, 2);
    assert_eq!(r.len(), 2);
    assert_eq!(r.id_at(0), "k1");
    assert_eq!(*r.item_at(0), 9);
}

#[test]
fn keys_are_ordered_by_rank_then_text() {
    let key = |rank, s: &str| SortKey { rank, text: s.chars().collect() };
    let keys = vec![key(1, "a"), key(0, "b"), key(0, "a"), key(0, "ab")];
    assert_eq!(sorted_order(&keys), vec![2, 3, 1, 0]);
}

#[test]
fn texts_are_taken_apart() {
    assert_eq!(lines("a\r\nb\n\nc"), vec!["a", "b", "", "c"]);
    assert_eq!(words(" a\tb\u{a0}c "), vec!["a", "b", "c"]);
    assert_eq!(trim("\u{2003}x y\n"), "x y");
    assert_eq!(pieces("a&&b&&&c", "&&"), vec!["a", "b", "&c"]);
    assert_eq!(replace("aXbX", "X", "--"), "a--b--");
    assert_eq!(fit("aé", 2), "a");
    assert_eq!(signed(i64::MIN), "-9223372036854775808");
}

#[test]
fn arguments_are_demanded() {
    assert_eq!(required_nonblank(&Some(" x ".into()), "f", "go"), Ok(" x ".to_string()));
    assert_eq!(required_nonblank(&Some(" ".into()), "f", "go"), Err("`f` is required for go".to_string()));
    assert_eq!(required_nonblank(&None, "f", "go"), Err("`f` is required for go".to_string()));
    assert_eq!(require_absolute_path("/a", "it"), Ok(()));
    assert_eq!(head_cap("abc", 3, "l"), "abc");
    assert_eq!(head_cap("abcd", 3, "l"), "abc\n…[l truncated: first 3 of 4 bytes shown]");
}

#[test]
fn listing_of_hidden_entries_has_a_key_of_its_own() {
    let plain = ListDirArgs { path: Some("/w".into()), include_hidden: false };
    let hidden = ListDirArgs { path: Some("/w".into()), include_hidden: true };
    assert_ne!(list_dir_cache_key(&plain), list_dir_cache_key(&hidden));
}

#[test]
fn built_and_fetched_directories_are_passed_over() {
    assert!(is_skip_dir("node_modules") && is_skip_dir("target"));
    assert!(!is_skip_dir("src"));
}

fn size_by_division(bytes: u64) -> String {
    let units = ["B", "KB", "MB", "GB"];
    let mut size = bytes as f64;
    let mut unit = 0;
    while size >= 1024.0 && unit < units.len() - 1 {
        size /= 1024.0;
        unit += 1;
    }
    if unit == 0 {
        format!("{} {}", bytes, units[unit])
    } else {
        format!("{:.1} {}", size, units[unit])
    }
}

#[test]
fn sizes_are_given_with_one_decimal() {
    assert_eq!(format_size(0), "0 B");
    assert_eq!(format_size(1023), "1023 B");
    assert_eq!(format_size(1024), "1.0 KB");
    assert_eq!(format_size(1536), "1.5 KB");
    assert_eq!(format_size(5 * 1024 * 1024), "5.0 MB");
    assert_eq!(format_size(3 << 30), "3.0 GB");
}

#[test]
fn sizes_are_rounded_as_floating_point_numbers_are() {
    for bytes in 1000u64..9000 {
        assert_eq!(format_size(bytes), size_by_division(bytes));
    }
    for shift in 10..64u32 {
        for offset in [0u64, 1, 255, 256, 257, 511, 512, 513, 768, 1024, 1025, 1280, 3072] {
            let bytes = (1u64 << shift).wrapping_add(offset << (shift - 10));
            assert_eq!(format_size(bytes), size_by_division(bytes), "{bytes}");
            let near = (1u64 << shift).wrapping_add(offset);
            assert_eq!(format_size(near), size_by_division(near), "{near}");
            assert_eq!(format_size(near - 1), size_by_division(near - 1), "{near}");
        }
    }
    assert_eq!(format_size(u64::MAX), size_by_division(u64::MAX));
}

#[test]
fn directories_come_before_links_and_files() {
    let entry = |name: &str, kind: EntryKind| DirEntry { name: name.into(), kind, size: String::new() };
    let entries = vec![
        entry("a", EntryKind::Link),
        entry("c", EntryKind::File),
        entry("b", EntryKind::Dir(0)),
    ];
    assert_eq!(
        list_dir_text("/w", &entries),
        "Listing /w:\n  [dir(0)]  b\n  [link]  a\n  [file]  c\n"
    );
}
