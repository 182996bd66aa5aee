use dirge_agent::tools::cache::{check_read, fs_stamp, fs_stamp_or_cwd, SharedCaches, ToolCache};

#[test]
fn test_cache_hit_and_miss() {
    let mut cache = ToolCache::new();
    assert!(cache.get("key1").is_none());
    cache.set("key1", "value1".to_string());
    assert_eq!(cache.get("key1"), Some("value1".to_string()));
}

#[test]
fn test_cache_clear_invalidates_entries() {
    let mut cache = ToolCache::new();
    cache.set("key1", "value1".to_string());
    cache.clear();
    assert!(cache.get("key1").is_none());
}

#[test]
fn test_cache_clone_shares_state() {
    let mut caches = SharedCaches::new();
    let cache1 = caches.open();
    let cache2 = cache1.clone();
    caches.set(cache1, "shared", "data".to_string());
    assert_eq!(caches.get(cache2, "shared"), Some("data".to_string()));
    assert!(cache1.shares_storage_with(&cache2));
}

#[test]
fn test_clear_in_one_clone_affects_other() {
    let mut caches = SharedCaches::new();
    let cache1 = caches.open();
    let cache2 = cache1.clone();
    caches.set(cache1, "x", "y".to_string());
    caches.clear(cache2);
    assert!(caches.get(cache1, "x").is_none());
}

#[test]
fn read_gate_tracks_and_reports() {
    let mut cache = ToolCache::new();
    let p = "/tmp/dirge-read-gate.rs";
    assert!(!cache.has_been_read(p), "unread by default");
    cache.mark_read(p);
    assert!(cache.has_been_read(p), "marked read");
    assert!(!cache.has_been_read("/tmp/other.rs"), "only the marked path");
}

#[test]
fn read_set_survives_clear() {
    let mut cache = ToolCache::new();
    let p = "/tmp/dirge-read-survive.rs";
    cache.mark_read(p);
    cache.clear();
    assert!(cache.has_been_read(p), "read-set persists across clear");
}

#[test]
fn read_set_shared_across_clones() {
    let mut caches = SharedCaches::new();
    let cache1 = caches.open();
    let cache2 = cache1.clone();
    let p = "/tmp/dirge-read-shared.rs";
    caches.mark_read(cache1, p);
    assert!(caches.has_been_read(cache2, p), "read-set is shared");
}

#[test]
fn results_under_other_keys_stay() {
    let mut cache = ToolCache::default();
    cache.set("a", "1".to_string());
    cache.set("b", "2".to_string());
    assert_eq!(cache.get("a"), Some("1".to_string()));
    cache.set("a", "3".to_string());
    assert_eq!(cache.get("a"), Some("3".to_string()));
    assert_eq!(cache.get("b"), Some("2".to_string()));
}

#[test]
fn stamps_tell_changes_apart() {
    assert_eq!(fs_stamp(Some((17, 4))), "17:4");
    assert_eq!(fs_stamp(None), "0:0");
    assert_eq!(fs_stamp_or_cwd("", Some((1, 2)), Some((3, 4))), "3:4");
    assert_eq!(fs_stamp_or_cwd("a", Some((1, 2)), Some((3, 4))), "1:2");
    assert_eq!(fs_stamp_or_cwd("missing", None, Some((3, 4))), "3:4");
    assert_eq!(fs_stamp_or_cwd("missing", None, None), "0:0");
}

#[test]
fn caches_of_their_own_share_nothing() {
    let mut caches = SharedCaches::new();
    let mine = caches.open();
    let other = caches.open();
    assert!(!mine.shares_storage_with(&other));
    caches.set(mine, "k", "v".to_string());
    caches.mark_read(mine, "/a");
    assert!(caches.get(other, "k").is_none());
    assert!(!caches.has_been_read(other, "/a"));
    caches.clear(other);
    assert_eq!(caches.get(mine, "k"), Some("v".to_string()));
}

#[test]
fn a_changed_file_counts_as_read_and_results_are_forgotten() {
    let mut caches = SharedCaches::new();
    let h = caches.open();
    caches.set(h, "k", "v".to_string());
    caches.note_change(h, "/a");
    assert!(caches.get(h, "k").is_none());
    assert!(caches.has_been_read(h, "/a"));
    assert!(check_read(Some(caches.cache(h)), "/a").is_ok());
}

#[test]
fn unread_files_are_not_to_be_changed() {
    let mut cache = ToolCache::new();
    let refusal = check_read(Some(&cache), "/a").unwrap_err();
    assert_eq!(
        refusal,
        "file has not been read in this session: /a — read it before changing it"
    );
    cache.mark_read("/a");
    assert!(check_read(Some(&cache), "/a").is_ok());
    assert!(check_read(None, "/b").is_ok());
}
