use dirge_agent::tools::bash::check::{
    bash_claims, bash_mutation_targets, coarse_mutation_paths, coarse_redirect_targets, fold_cd_dirs,
    mark_bash_mutations, parsed_bash_claims, quote_aware_split, read_bash_claims, resolve_target, Claim,
};
use dirge_agent::tools::bash::exec::{
    settle_run, settle_shell, shell_not_started, spawn_failed, DrainBuffer, OpenStreams, PgKillGuard, Stream,
    WaitEnd, DRAIN_CAP_BYTES,
};
use dirge_agent::tools::bash::paths::{join_path, normalize_lexical};
use dirge_agent::tools::bash::{
    bash_answer, coarse_bash_checks, parsed_bash_checks, BashArgs, BashTool, Sandbox,
};
use dirge_agent::tools::bg_shell::ShellStatus;
use dirge_agent::tools::cache::ToolCache;

#[test]
fn quote_aware_split_keeps_semi_in_double_quotes() {
    let segments = quote_aware_split(r#"echo "; rm -rf /""#);
    assert_eq!(segments.len(), 1);
    assert!(segments[0].contains("rm -rf /"));
}

#[test]
fn quote_aware_split_keeps_compound_in_single_quotes() {
    let segments = quote_aware_split("echo 'a && b'");
    assert_eq!(segments.len(), 1);
}

#[test]
fn quote_aware_split_respects_backslash_escape() {
    let segments = quote_aware_split(r"echo \; ls");
    assert_eq!(segments.len(), 1, "got: {:?}", segments);
}

#[test]
fn quote_aware_split_splits_unquoted_compounds() {
    let segments = quote_aware_split("cmd1 && cmd2; cmd3 || cmd4");
    assert_eq!(segments.len(), 4);
    assert_eq!(segments[0], "cmd1");
    assert_eq!(segments[1], "cmd2");
    assert_eq!(segments[2], "cmd3");
    assert_eq!(segments[3], "cmd4");
}

#[test]
fn quote_aware_split_splits_background_ampersand() {
    let segments = quote_aware_split("safe_cmd & rm -rf /tmp/x");
    assert_eq!(segments.len(), 2);
    assert_eq!(segments[0], "safe_cmd");
    assert_eq!(segments[1], "rm -rf /tmp/x");
}

#[test]
fn quote_aware_split_keeps_logical_and_separate_from_background() {
    let segments = quote_aware_split("a && b & c");
    assert_eq!(segments, vec!["a", "b", "c"]);
}

#[test]
fn quote_aware_split_splits_on_bare_pipe() {
    let segments = quote_aware_split("safe_cmd | rm -rf /tmp/x");
    assert_eq!(segments.len(), 2);
    assert_eq!(segments[0].trim(), "safe_cmd");
    assert_eq!(segments[1].trim(), "rm -rf /tmp/x");
}

#[test]
fn quote_aware_split_or_and_pipe_distinct() {
    let segments = quote_aware_split("a || b | c");
    assert_eq!(segments.len(), 3, "got {segments:?}");
    assert_eq!(segments[0].trim(), "a");
    assert_eq!(segments[1].trim(), "b");
    assert_eq!(segments[2].trim(), "c");
}

#[test]
fn quote_aware_split_drops_empty_segments() {
    let segments = quote_aware_split(";; cmd ;");
    assert_eq!(segments, vec!["cmd"]);
}

#[test]
fn quote_aware_split_mixed_quoted_and_unquoted() {
    let segments = quote_aware_split(r#"echo "a; b" ; ls"#);
    assert_eq!(segments.len(), 2);
    assert!(segments[0].contains("a; b"));
    assert_eq!(segments[1], "ls");
}

#[test]
fn bash_mutation_targets_heredoc_create() {
    let cmd = "cat > voxel.html <<'EOF'\n<html></html>\nEOF";
    let t = bash_mutation_targets(cmd);
    assert!(t.iter().any(|p| p == "voxel.html"), "got {t:?}");
}

#[test]
fn bash_mutation_targets_redirect_create() {
    let t = bash_mutation_targets("echo hi > notes.txt");
    assert!(t.iter().any(|p| p == "notes.txt"), "got {t:?}");
}

#[test]
fn bash_mutation_targets_rm_delete() {
    let t = bash_mutation_targets("rm -rf build/old.o");
    assert!(t.iter().any(|p| p == "build/old.o"), "got {t:?}");
}

#[test]
fn bash_mutation_targets_mv_rename() {
    let t = bash_mutation_targets("mv a.txt b.txt");
    assert!(t.iter().any(|p| p == "a.txt"), "src missing, got {t:?}");
    assert!(t.iter().any(|p| p == "b.txt"), "dst missing, got {t:?}");
}

#[test]
fn coarse_redirect_targets_extracts_external_write() {
    assert_eq!(
        coarse_redirect_targets("echo x > /etc/passwd"),
        vec!["/etc/passwd".to_string()]
    );
    assert_eq!(
        coarse_redirect_targets("cmd >> /var/log/x"),
        vec!["/var/log/x".to_string()]
    );
    assert_eq!(
        coarse_redirect_targets("cmd >| out.txt"),
        vec!["out.txt".to_string()]
    );
    assert_eq!(
        coarse_redirect_targets("cmd 2> err.log"),
        vec!["err.log".to_string()]
    );
    assert!(coarse_redirect_targets("echo \">notaredirect\"").is_empty());
    assert!(coarse_redirect_targets("cmd 1>&2").is_empty());
}

#[test]
fn coarse_mutation_paths_extracts_targets() {
    assert_eq!(
        coarse_mutation_paths("rm -rf /tmp/x"),
        vec!["/tmp/x".to_string()]
    );
    assert_eq!(
        coarse_mutation_paths("cp a b"),
        vec!["a".to_string(), "b".to_string()]
    );
    assert_eq!(
        coarse_mutation_paths("dd if=/dev/zero of=/etc/wipe bs=1"),
        vec!["/etc/wipe".to_string()]
    );
    assert_eq!(
        coarse_mutation_paths("/bin/rm /etc/hosts"),
        vec!["/etc/hosts".to_string()]
    );
    assert!(coarse_mutation_paths("echo hello").is_empty());
}

fn execute(c: &Claim) -> (&str, &str) {
    match c {
        Claim::Execute { raw, head } => (raw, head),
        Claim::Edit { .. } => panic!("expected a command"),
    }
}

#[test]
fn line_is_claimed_command_by_command() {
    let claims = bash_claims("cat a > b; rm c");
    assert_eq!(claims.len(), 4);
    assert_eq!(execute(&claims[0]), ("cat a > b", "cat"));
    assert_eq!(execute(&claims[1]), ("rm c", "rm"));
    assert!(matches!(&claims[2], Claim::Edit { path } if path == "b"));
    assert!(matches!(&claims[3], Claim::Edit { path } if path == "c"));
    let whole = bash_claims("echo $(rm x)");
    assert_eq!(whole.len(), 1);
    assert_eq!(execute(&whole[0]), ("echo $(rm x)", "echo"));
}

#[test]
fn directories_are_followed() {
    let segs = vec!["cd sub".to_string(), "cd ../other".to_string(), "ls".to_string()];
    assert_eq!(fold_cd_dirs("/w", &segs), "/w/other");
    assert_eq!(resolve_target("/w", "a/../b"), "/w/b");
    assert_eq!(resolve_target("/w", "/etc/x"), "/etc/x");
    assert_eq!(normalize_lexical("/a/./b//../c"), "/a/c");
    assert_eq!(join_path("/a", "b"), "/a/b");
}

#[test]
fn parsed_line_is_claimed_where_it_runs() {
    let segs = vec!["cd /etc".to_string(), "echo x".to_string()];
    let claims = parsed_bash_claims(
        "cd /etc && echo x > passwd",
        &segs,
        false,
        &vec!["passwd".to_string()],
        &vec![],
        "/w",
    );
    assert!(claims.iter().any(|c| matches!(c, Claim::Edit { path } if path == "/etc/passwd")));
}

#[test]
fn devices_are_not_recorded_as_changed() {
    let targets = vec!["/dev/null".to_string(), "a".to_string()];
    assert_eq!(mark_bash_mutations(&targets, &Some("/w".to_string())), vec!["/w/a".to_string()]);
}

#[test]
fn output_past_the_cap_is_counted() {
    let mut b = DrainBuffer::new();
    b.push_line(&"x".repeat(DRAIN_CAP_BYTES));
    b.push_line("lost\n");
    let out = b.finish();
    assert!(out.ends_with(
        "x\n…[bash output exceeded cap; discarded 5 additional bytes streamed after the 256-KiB cap]"
    ));
    let mut small = DrainBuffer::new();
    small.push_line("a\n");
    small.push_line("b\n");
    assert_eq!(small.finish(), "a\nb\n");
}

#[test]
fn group_is_killed_unless_the_command_ended() {
    let (r, kills) = settle_run("out".into(), &WaitEnd::Exited(Some(3)), Some(7), 5);
    let o = r.unwrap();
    assert_eq!((o.merged.as_str(), o.exit_code), ("out", 3));
    assert_eq!((kills.now, kills.on_drop), (None, None));
    let (r, _) = settle_run("".into(), &WaitEnd::Exited(None), Some(7), 5);
    assert_eq!(r.unwrap().exit_code, -1);
    let (r, kills) = settle_run("".into(), &WaitEnd::TimedOut, Some(7), 5);
    assert_eq!(r.unwrap_err(), "Command timed out after 5s");
    assert_eq!((kills.now, kills.on_drop), (Some(7), None));
    let (r, kills) = settle_run("".into(), &WaitEnd::Failed("eof".into()), Some(7), 5);
    assert_eq!(r.unwrap_err(), "wait failed: eof");
    assert_eq!((kills.now, kills.on_drop), (None, Some(7)));
    assert_eq!(spawn_failed("x"), "failed to spawn: x");
}

#[test]
fn guard_kills_until_it_is_disarmed() {
    let mut g = PgKillGuard::new(9);
    assert_eq!(g.on_drop(), Some(9));
    g.disarm();
    assert_eq!(g.on_drop(), None);
}

#[test]
fn shell_is_recorded_as_it_ended() {
    assert_eq!(settle_shell(&WaitEnd::Exited(Some(0)), Some(1), 2), (ShellStatus::Exited(0), None));
    assert_eq!(
        settle_shell(&WaitEnd::TimedOut, Some(1), 2),
        (ShellStatus::Failed("auto-killed after 2s timeout".into()), Some(1))
    );
    assert_eq!(
        settle_shell(&WaitEnd::Failed("e".into()), None, 2),
        (ShellStatus::Failed("e".into()), None)
    );
    assert_eq!(shell_not_started("e"), ShellStatus::Failed("failed to spawn: e".into()));
}

#[test]
fn answer_joins_both_streams() {
    assert_eq!(bash_answer("out", "err", Some(2)), "out\nerr\nExit code: 2");
    assert_eq!(bash_answer("", "err", Some(0)), "err");
    assert_eq!(bash_answer("", "", None), "\nExit code: -1");
}

#[test]
fn command_clears_the_cache() {
    let mut cache = ToolCache::new();
    cache.set("k", "v".into());
    cache.mark_read("/f");
    let mut tool = BashTool::with_cache(None, None, Sandbox { id: 1 }, cache);
    assert_eq!(tool.finish(&vec![0x68, 0x69, 0xff], &vec![], Some(0)), "hi\u{fffd}");
    let cache = tool.cache.unwrap();
    assert_eq!(cache.get("k"), None);
    assert!(cache.has_been_read("/f"));
}

#[test]
fn time_limit_defaults_and_must_not_be_zero() {
    let tool = BashTool::new(None, None, Sandbox { id: 1 });
    let args = |timeout| BashArgs { command: "ls".into(), timeout };
    assert_eq!(tool.time_limit(&args(None)), Ok(120));
    assert_eq!(tool.time_limit(&args(Some(5))), Ok(5));
    assert_eq!(tool.time_limit(&args(Some(0))), Err("timeout must be > 0".to_string()));
}

#[test]
fn permission_is_asked_part_by_part() {
    assert_eq!(coarse_bash_checks("a && b; c || d ;"), vec!["a", "b", "c", "d"]);
    assert_eq!(coarse_bash_checks("a && `b`"), vec!["a && `b`"]);
    let segs = vec!["a".to_string(), "b".to_string()];
    assert_eq!(parsed_bash_checks("a | b", Some((segs.clone(), false))), segs);
    assert_eq!(parsed_bash_checks("a | b", Some((segs, true))), vec!["a | b"]);
    assert_eq!(parsed_bash_checks("a |", None), vec!["a |"]);
}

#[test]
fn streams_close_one_by_one() {
    let mut open = OpenStreams { stdout: true, stderr: true };
    assert!(open.note(Stream::Stdout, Some(3)));
    assert!(!open.note(Stream::Stderr, Some(0)));
    assert_eq!(open, OpenStreams { stdout: true, stderr: false });
    assert!(open.is_open());
    assert!(!open.note(Stream::Stdout, None));
    assert!(!open.is_open());
}

#[test]
fn normalizing_again_changes_nothing() {
    for (p, once) in [
        ("/a/./b/../c//d", "/a/c/d"),
        ("/..", "/"),
        ("a/../..", ""),
        ("x/./y/", "x/y"),
        ("//", "/"),
    ] {
        let n = normalize_lexical(p);
        assert_eq!(n, once);
        assert_eq!(normalize_lexical(&n), once);
    }
}

#[test]
fn targets_of_an_absolute_directory_are_absolute() {
    let segs = vec![
        "cd ../../..".to_string(),
        "pushd -n 'sub'".to_string(),
        "ls x".to_string(),
    ];
    let dir = fold_cd_dirs("/w/p", &segs);
    assert_eq!(dir, "/sub");
    assert_eq!(resolve_target(&dir, "../out.txt"), "/out.txt");
    assert_eq!(resolve_target(&dir, "/tmp/../out.txt"), "/tmp/../out.txt");
}

fn targets(command: &str) -> Vec<String> {
    bash_mutation_targets(command)
}

#[test]
fn bodies_of_here_documents_change_nothing() {
    assert_eq!(targets("cat > voxel.html <<'EOF'\n<html></html>\nEOF"), vec!["voxel.html"]);
    assert_eq!(targets("cat > a <<EOF\nx>b\nrm c\nEOF\nrm d"), vec!["a", "d"]);
    assert_eq!(targets("cat <<-EOF > a\n\tx > b\n\tEOF\ntouch c"), vec!["a", "c"]);
    assert_eq!(targets("cat <<A <<\"B\"\n> x\nA\n> y\nB\n> z"), vec!["z"]);
    assert_eq!(targets("tee out <<EOF\nrm a\nEOF"), vec!["out"]);
    assert_eq!(targets("cat <<EOF\nrm a > b"), Vec::<String>::new());
    assert_eq!(targets("cat <<< EOF\nrm a"), vec!["a"]);
    assert_eq!(targets("echo $((1 << 2)) > n\nrm a"), vec!["n", "a"]);
    assert_eq!(targets("echo x # << EOF > y\nrm a"), vec!["a"]);
}

#[test]
fn redirections_are_no_operands() {
    assert_eq!(targets("rm a 2> log"), vec!["log", "a"]);
    assert_eq!(targets("rm a 2>&1"), vec!["a"]);
    assert_eq!(targets("rm a >&2 b"), vec!["a", "b"]);
    assert_eq!(targets("make &> all.log && touch done"), vec!["all.log", "done"]);
    assert_eq!(targets("cp a b < list >> out"), vec!["out", "a", "b"]);
    assert_eq!(targets("echo x >| \"my file\""), vec!["my file"]);
}

#[test]
fn operands_are_read_without_their_quotes() {
    assert_eq!(targets("rm 'a b' \"c;d\" e\\ f"), vec!["a b", "c;d", "e f"]);
    assert_eq!(targets("echo 'rm x > y'"), Vec::<String>::new());
    assert_eq!(targets("chmod 777 /etc/passwd"), vec!["/etc/passwd"]);
    assert_eq!(targets("chmod -R -x bin lib"), vec!["bin", "lib"]);
    assert_eq!(targets("chown me: a"), vec!["a"]);
    assert_eq!(targets("dd if=a of=b"), vec!["b"]);
    assert_eq!(targets("if true; then LANG=C /bin/rm -f a \\\n  b; fi"), vec!["a", "b"]);
}

#[test]
fn claims_follow_the_directory() {
    let edits = |command: &str| -> Vec<String> {
        read_bash_claims(command, "/w/p")
            .into_iter()
            .filter_map(|c| match c {
                Claim::Edit { path } => Some(path),
                Claim::Execute { .. } => None,
            })
            .collect()
    };
    assert_eq!(edits("cd /etc && echo pwned > passwd"), vec!["/etc/passwd"]);
    assert_eq!(edits("echo a\ncd /etc\necho x > passwd"), vec!["/etc/passwd"]);
    assert_eq!(edits("cd subdir && echo ok > out.txt"), vec!["/w/p/subdir/out.txt"]);
    assert_eq!(edits("rm -rf build/old.o"), vec!["/w/p/build/old.o"]);
    let runs = |command: &str| -> Vec<String> {
        read_bash_claims(command, "/w/p")
            .into_iter()
            .filter_map(|c| match c {
                Claim::Execute { raw, .. } => Some(raw),
                Claim::Edit { .. } => None,
            })
            .collect()
    };
    assert_eq!(runs("git diff && rm -rf /"), vec!["git diff", "rm -rf /"]);
    assert_eq!(runs("a\nb 'c\nd'"), vec!["a", "b 'c\nd'"]);
    assert_eq!(runs("echo $(ls); rm a"), vec!["echo $(ls); rm a"]);
    assert_eq!(runs("echo \"a && rm -rf /\""), vec!["echo \"a && rm -rf /\""]);
}
