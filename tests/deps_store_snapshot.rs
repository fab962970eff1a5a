use meta_git::deps::DependencyGraph;
use meta_git::manifest::ProjectRecord;
use meta_git::snapshot::{
    check_snapshot_version, collect_captured, parse_restore_args, repo_state_from_git, restore_actions,
    restore_summary, RepoState, RestoreAction, SnapshotError, SNAPSHOT_VERSION,
};
use meta_git::store::{StoreRepoEntry, WorktreeStore, WorktreeStoreEntry};

fn project(name: &str, provides: &[&str], depends_on: &[&str]) -> ProjectRecord {
    ProjectRecord {
        name: name.to_string(),
        path: name.to_string(),
        repo: None,
        provides: provides.iter().map(|s| s.to_string()).collect(),
        depends_on: depends_on.iter().map(|s| s.to_string()).collect(),
        tags: Vec::new(),
    }
}

fn sorted(mut v: Vec<String>) -> Vec<String> {
    v.sort();
    v
}

#[test]
fn dependency_closure_with_cycle_terminates() {
    let g = DependencyGraph::build(&vec![
        project("a", &["a"], &["b"]),
        project("b", &["b"], &["c"]),
        project("c", &["c"], &["a"]),
        project("d", &["d"], &[]),
    ]);
    assert_eq!(sorted(g.all_dependencies("a")), vec!["a", "b", "c"]);
    assert_eq!(g.all_dependencies("d"), Vec::<String>::new());
    assert_eq!(g.all_dependencies("nobody"), Vec::<String>::new());
}

#[test]
fn dependency_on_shared_symbol_takes_every_provider() {
    let g = DependencyGraph::build(&vec![
        project("app", &[], &["logger", "missing"]),
        project("log1", &["logger"], &[]),
        project("log2", &["logger"], &["fmt"]),
        project("fmt", &["fmt"], &[]),
    ]);
    assert_eq!(sorted(g.all_dependencies("app")), vec!["fmt", "log1", "log2"]);
}

fn entry(name: &str) -> WorktreeStoreEntry {
    WorktreeStoreEntry {
        name: name.to_string(),
        project: "/ws".to_string(),
        created_at: "2025-01-01T00:00:00Z".to_string(),
        ephemeral: true,
        ttl_seconds: Some(60),
        repos: vec![StoreRepoEntry { alias: "api".to_string(), branch: "wt/x".to_string(), created_branch: true }],
        custom: vec![("k".to_string(), "v".to_string())],
    }
}

#[test]
fn store_adds_keep_union_and_last_writer() {
    let mut s = WorktreeStore::new();
    s.add("/a".to_string(), entry("first"));
    s.add("/b".to_string(), entry("b"));
    s.add("/a".to_string(), entry("second"));
    assert_eq!(s.len(), 2);
    assert_eq!(s.get("/a").unwrap().name, "second");
    assert_eq!(s.get("/b").unwrap().name, "b");
    let (k, _) = s.entry_at(0);
    assert_eq!(k, "/a");
    s.remove("/a");
    assert!(s.get("/a").is_none());
    s.remove("/zzz");
    assert_eq!(s.len(), 1);
    s.remove_batch(&vec!["/b".to_string(), "/c".to_string()]);
    assert_eq!(s.len(), 0);
}

#[test]
fn snapshot_version_is_checked() {
    assert_eq!(SNAPSHOT_VERSION, 1);
    assert!(check_snapshot_version(1).is_ok());
    assert!(matches!(check_snapshot_version(2), Err(SnapshotError::VersionUnsupported(2))));
}

#[test]
fn repo_state_from_git_output() {
    let s = repo_state_from_git("0123456789abcdef0123456789abcdef01234567\n", Some("refs/heads/main\n"), " M README\n");
    assert_eq!(s.sha, "0123456789abcdef0123456789abcdef01234567");
    assert_eq!(s.branch, Some("main".to_string()));
    assert!(s.dirty);
    let s = repo_state_from_git("abc", None, "\n");
    assert_eq!(s.branch, None);
    assert!(!s.dirty);
}

#[test]
fn restore_stashes_dirty_tree_then_checks_out() {
    let st = RepoState { sha: "abc".to_string(), branch: None, dirty: false };
    let acts = restore_actions(&st, true, false, "s");
    assert_eq!(acts.len(), 2);
    assert!(matches!(&acts[0], RestoreAction::Stash(m) if m == "meta snapshot restore s"));
    assert!(matches!(&acts[1], RestoreAction::Checkout(r) if r == "abc"));
    let st = RepoState { sha: "abc".to_string(), branch: Some("main".to_string()), dirty: false };
    let acts = restore_actions(&st, false, true, "s");
    assert_eq!(acts.len(), 1);
    assert!(matches!(&acts[0], RestoreAction::Checkout(r) if r == "main"));
    let acts = restore_actions(&st, false, false, "s");
    assert!(matches!(&acts[0], RestoreAction::Checkout(r) if r == "abc"));
}

#[test]
fn restore_onto_unchanged_workspace_keeps_heads() {
    let st = repo_state_from_git("abc\n", Some("refs/heads/main"), "?? new\n");
    let acts = restore_actions(&st, st.dirty, st.branch.is_some(), "snap");
    let stashes = acts.iter().filter(|a| matches!(a, RestoreAction::Stash(_))).count();
    assert_eq!(stashes, 1);
    assert!(matches!(acts.last().unwrap(), RestoreAction::Checkout(r) if r == "main"));
}

#[test]
fn restore_arguments_and_counts() {
    let a = parse_restore_args(&vec!["s".to_string(), "--force".to_string()], false).unwrap();
    assert_eq!(a.name, "s");
    assert!(a.force);
    assert!(!a.dry_run);
    let a = parse_restore_args(&vec!["-f".to_string(), "--dry-run".to_string(), "x".to_string()], false).unwrap();
    assert!(a.force && a.dry_run);
    assert_eq!(a.name, "x");
    assert!(matches!(parse_restore_args(&vec!["--force".to_string()], true), Err(SnapshotError::MissingName)));
    assert_eq!(restore_summary(&vec![Some(true), None, Some(false), Some(true)]), (3, 2, 1));
}

#[test]
fn capture_keeps_repos_and_refuses_empty() {
    let st = RepoState { sha: "abc".to_string(), branch: None, dirty: false };
    let r = collect_captured(vec![("a".to_string(), Some(st)), ("b".to_string(), None)]).unwrap();
    assert_eq!(r.len(), 1);
    assert_eq!(r[0].0, "a");
    assert!(matches!(collect_captured(vec![("b".to_string(), None)]), Err(SnapshotError::NoReposCaptured)));
}

#[test]
fn help_text_lists_examples() {
    let h = meta_git::GitPlugin.get_help_output();
    assert!(h.starts_with("meta git - Meta CLI Git Plugin\n"));
    assert!(h.contains("    Examples:\n      meta git clone https://github.com/example/meta-repo.git\n"));
    assert!(h.ends_with("For standard git commands, see below.\n"));
    assert_eq!(meta_git::GitPlugin.name(), "git-clone");
}
