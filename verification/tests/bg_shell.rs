use dirge_agent::tools::bg_shell::{
    BackgroundShellStore, BashOutputArgs, BashOutputTool, KillShellArgs, KillShellTool, ShellStatus,
    MAX_UNREAD_BYTES,
};

#[test]
fn read_new_drains_unread_and_reports_status() {
    let mut s = BackgroundShellStore::new();
    s.register("a".into(), "sleep 1".into());
    s.append("a", "line1\n");
    s.append("a", "line2\n");
    let (out, st) = s.read_new("a").unwrap();
    assert_eq!(out, "line1\nline2\n");
    assert_eq!(st, ShellStatus::Running);
    s.append("a", "line3\n");
    let (out2, _) = s.read_new("a").unwrap();
    assert_eq!(out2, "line3\n");
    let (out3, _) = s.read_new("a").unwrap();
    assert_eq!(out3, "");
}

#[test]
fn read_new_unknown_id_is_none() {
    let mut s = BackgroundShellStore::new();
    assert!(s.read_new("nope").is_none());
}

#[test]
fn finish_sets_terminal_and_first_terminal_wins() {
    let mut s = BackgroundShellStore::new();
    s.register("a".into(), "x".into());
    assert_eq!(s.running_count(), 1);
    s.finish("a", ShellStatus::Exited(0));
    let (_, st) = s.read_new("a").unwrap();
    assert_eq!(st, ShellStatus::Exited(0));
    assert_eq!(s.running_count(), 0);
    s.finish("a", ShellStatus::Killed);
    assert_eq!(s.read_new("a").unwrap().1, ShellStatus::Exited(0));
}

#[test]
fn kill_marks_killed_only_when_running() {
    let mut s = BackgroundShellStore::new();
    s.register("a".into(), "x".into());
    assert!(s.kill("a"));
    assert_eq!(s.read_new("a").unwrap().1, ShellStatus::Killed);
    assert!(!s.kill("a"));
    assert!(!s.kill("unknown"));
}

#[test]
fn unread_buffer_is_capped() {
    let mut s = BackgroundShellStore::new();
    s.register("a".into(), "flood".into());
    let chunk = "x".repeat(100_000);
    for _ in 0..20 {
        s.append("a", &chunk);
    }
    let (out, _) = s.read_new("a").unwrap();
    assert!(out.len() <= MAX_UNREAD_BYTES + 200, "len was {}", out.len());
    assert!(out.contains("exceeded the unread-buffer cap"));
}

#[test]
fn list_reports_all_shells() {
    let mut s = BackgroundShellStore::new();
    s.register("a".into(), "cmd-a".into());
    s.register("b".into(), "cmd-b".into());
    s.finish("b", ShellStatus::Exited(1));
    let rows = s.list();
    assert_eq!(rows.len(), 2);
    assert_eq!(rows[0].command, "cmd-a");
    assert_eq!(rows[1].status, ShellStatus::Exited(1));
}

#[test]
fn kill_hands_out_what_to_abort() {
    let mut s = BackgroundShellStore::new();
    s.register("a".into(), "x".into());
    s.attach_handle("a", 7);
    assert!(s.kill("a"));
    assert_eq!(s.take_aborts(), vec![7]);
    assert!(s.take_aborts().is_empty());
}

#[test]
fn kill_all_ends_every_running_shell() {
    let mut s = BackgroundShellStore::new();
    s.register("a".into(), "x".into());
    s.register("b".into(), "y".into());
    s.finish("b", ShellStatus::Exited(3));
    s.kill_all();
    assert_eq!(s.running_count(), 0);
    assert_eq!(s.read_new("a").unwrap().1, ShellStatus::Killed);
    assert_eq!(s.read_new("b").unwrap().1, ShellStatus::Exited(3));
}

#[test]
fn states_have_short_names() {
    assert_eq!(ShellStatus::Running.label(), "running");
    assert_eq!(ShellStatus::Exited(-1).label(), "exited(-1)");
    assert_eq!(ShellStatus::Killed.label(), "killed");
    assert_eq!(ShellStatus::Failed("no".into()).label(), "failed: no");
}

#[test]
fn tools_read_and_kill_by_id() {
    let mut s = BackgroundShellStore::new();
    s.register("a".into(), "x".into());
    s.append("a", "hello\n");
    let mut out = BashOutputTool::new(s);
    let text = out.call(&BashOutputArgs { id: "a".into() }).unwrap();
    assert!(text.contains("hello"), "{text}");
    assert!(out.call(&BashOutputArgs { id: "zzz".into() }).is_err());
    let mut kill = KillShellTool::new(out.store);
    let first = kill.call(&KillShellArgs { id: "a".into() });
    let second = kill.call(&KillShellArgs { id: "a".into() });
    assert_ne!(first, second);
}

#[test]
fn shells_and_tasks_are_limited_in_number() {
    assert_eq!(BackgroundShellStore::max_concurrent(), 8);
    assert_eq!(dirge_agent::tools::background::BackgroundStore::max_concurrent(), 4);
}
