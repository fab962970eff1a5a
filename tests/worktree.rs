use meta_git::deps::DependencyGraph;
use meta_git::manifest::ProjectRecord;
use meta_git::store::{StoreRepoEntry, WorktreeStore, WorktreeStoreEntry};
use meta_git::worktree::{
    check_repo_orphaned, check_start_options, child_dest_name, classify_prune, classify_prune_at,
    create_prune_entry, diff_totals, entry_ttl_remaining, gitignore_lists, parse_duration,
    parse_pr_spec, parse_repo_spec, plan_branches, removal_order, resolve_branch, select_repos,
    split_key_value, status_counts, ttl_remaining_at, numstat_entry, parse_behind_ahead,
    check_add_repos, child_failure,
    validate_worktree_name, warn_or_bail, warn_store_error, DiffRepoEntry, RepoSpec, WorktreeError,
};

fn make_store_entry(name: &str, project: &str, repos: Vec<(&str, &str)>) -> WorktreeStoreEntry {
    WorktreeStoreEntry {
        name: name.to_string(),
        project: project.to_string(),
        created_at: "2025-01-01T00:00:00Z".to_string(),
        ephemeral: false,
        ttl_seconds: None,
        repos: repos
            .into_iter()
            .map(|(alias, branch)| StoreRepoEntry {
                alias: alias.to_string(),
                branch: branch.to_string(),
                created_branch: false,
            })
            .collect(),
        custom: Vec::new(),
    }
}

fn project(name: &str, provides: &[&str], depends_on: &[&str]) -> ProjectRecord {
    ProjectRecord {
        name: name.to_string(),
        path: name.to_string(),
        repo: Some(format!("git@github.com:org/{name}.git")),
        provides: provides.iter().map(|s| s.to_string()).collect(),
        depends_on: depends_on.iter().map(|s| s.to_string()).collect(),
        tags: Vec::new(),
    }
}

#[test]
fn warn_or_bail_returns_ok_in_normal_mode() {
    let result = warn_or_bail(false, "test message");
    assert!(result.is_ok());
}

#[test]
fn warn_or_bail_returns_err_in_strict_mode() {
    let result = warn_or_bail(true, "test message");
    assert!(result.is_err());
    let err = result.unwrap_err();
    assert!(err.to_string().contains("test message"));
    assert!(err.to_string().contains("strict mode"));
}

#[test]
fn warn_or_bail_includes_message_in_error() {
    let result = warn_or_bail(true, "specific error details");
    let err = result.unwrap_err();
    assert!(err.to_string().contains("specific error details"));
}

#[test]
fn warn_store_error_passes_through_ok() {
    let result = warn_store_error(Ok(()), false);
    assert!(result.is_ok());

    let result_strict = warn_store_error(Ok(()), true);
    assert!(result_strict.is_ok());
}

#[test]
fn warn_store_error_returns_ok_for_error_in_normal_mode() {
    let result = warn_store_error(Err("store failed".to_string()), false);
    assert!(result.is_ok());
}

#[test]
fn warn_store_error_returns_err_in_strict_mode() {
    let result = warn_store_error(Err("store failed".to_string()), true);
    assert!(result.is_err());
    let err = result.unwrap_err();
    assert!(err.to_string().contains("Failed to update store"));
    assert!(err.to_string().contains("store failed"));
}

#[test]
fn warn_or_bail_strict_message_is_exact() {
    let err = warn_or_bail(true, "x").unwrap_err();
    assert_eq!(err.to_string(), "x (strict mode)");
}

#[test]
fn create_prune_entry_with_age() {
    let entry = create_prune_entry("test-wt".to_string(), "/path/to/wt".to_string(), "ttl_expired", Some(3600));
    assert_eq!(entry.name, "test-wt");
    assert_eq!(entry.path, "/path/to/wt");
    assert_eq!(entry.reason, "ttl_expired");
    assert_eq!(entry.age_seconds, Some(3600));
}

#[test]
fn create_prune_entry_without_age() {
    let entry = create_prune_entry(
        "test-wt".to_string(),
        "/path/to/wt".to_string(),
        "orphaned (missing directory)",
        None,
    );
    assert_eq!(entry.name, "test-wt");
    assert_eq!(entry.reason, "orphaned (missing directory)");
    assert_eq!(entry.age_seconds, None);
}

#[test]
fn create_prune_entry_converts_into_string() {
    let entry = create_prune_entry(
        "test-wt".to_string(),
        "/path/to/wt".to_string(),
        &String::from("test reason"),
        None,
    );
    assert_eq!(entry.reason, "test reason");
}

#[test]
fn check_repo_orphaned_returns_none_when_all_repos_exist() {
    let names = vec!["repo1".to_string(), "repo2".to_string()];
    let entry = make_store_entry("test-wt", "/tmp/p", vec![("repo1", "main"), ("repo2", "feat-x")]);
    assert!(check_repo_orphaned(&entry, Some(&names)).is_none());
}

#[test]
fn check_repo_orphaned_detects_when_all_repos_missing() {
    let names = vec!["repo3".to_string()];
    let entry = make_store_entry("test-wt", "/tmp/p", vec![("repo1", "main"), ("repo2", "feat-x")]);
    assert_eq!(
        check_repo_orphaned(&entry, Some(&names)),
        Some("orphaned (all source repos removed from project)".to_string())
    );
}

#[test]
fn check_repo_orphaned_returns_none_when_some_repos_missing() {
    let names = vec!["repo1".to_string()];
    let entry = make_store_entry("test-wt", "/tmp/p", vec![("repo1", "main"), ("repo2", "feat-x")]);
    assert!(check_repo_orphaned(&entry, Some(&names)).is_none());
}

#[test]
fn check_repo_orphaned_returns_none_when_no_config() {
    let entry = make_store_entry("test-wt", "/tmp/p", vec![("repo1", "main")]);
    assert!(check_repo_orphaned(&entry, None).is_none());
}

#[test]
fn prune_of_missing_directory_then_nothing_left() {
    let mut store = WorktreeStore::new();
    store.add("/tmp/set_A".to_string(), make_store_entry("set_A", "/tmp/ws", vec![("repo1", "main")]));
    let key = "/tmp/set_A".to_string();
    let verdict = classify_prune(&key, store.get("/tmp/set_A").unwrap(), false, true, None, 1_800_000_000).unwrap();
    assert_eq!(verdict.reason, "orphaned (missing directory)");
    assert_eq!(verdict.path, "/tmp/set_A");
    assert_eq!(verdict.name, "set_A");
    store.remove_batch(&vec![verdict.path.clone()]);
    assert_eq!(store.len(), 0);
    assert!(store.get("/tmp/set_A").is_none());
}

#[test]
fn prune_reasons_in_order() {
    let key = "/k".to_string();
    let e = make_store_entry("n", "/p", vec![("repo1", "main")]);
    assert_eq!(classify_prune_at(&key, &e, true, false, None, None, 0).unwrap().reason, "orphaned (source project missing)");
    let names = vec!["other".to_string()];
    assert_eq!(
        classify_prune_at(&key, &e, true, true, Some(&names), None, 0).unwrap().reason,
        "orphaned (all source repos removed from project)"
    );
    assert!(classify_prune_at(&key, &e, true, true, None, Some(0), 100).is_none());
}

#[test]
fn prune_expired_ttl_reports_age() {
    let key = "/k".to_string();
    let mut e = make_store_entry("n", "/p", vec![("repo1", "main")]);
    e.ttl_seconds = Some(3600);
    let p = classify_prune_at(&key, &e, true, true, None, Some(1000), 1000 + 3600 + 60).unwrap();
    assert_eq!(p.reason, "ttl_expired");
    assert_eq!(p.age_seconds, Some(3660));
    assert!(classify_prune_at(&key, &e, true, true, None, Some(1000), 1000 + 100).is_none());
    let p = classify_prune_at(&key, &e, true, true, None, Some(1000), 1000 + 3600).unwrap();
    assert_eq!(p.age_seconds, Some(3600));
}

#[test]
fn ttl_remaining_values() {
    assert_eq!(ttl_remaining_at(Some(100), None, 50), None);
    assert_eq!(ttl_remaining_at(Some(100), Some(60), 130), Some(30));
    assert_eq!(ttl_remaining_at(Some(100), Some(60), 200), Some(-40));
    assert_eq!(ttl_remaining_at(None, Some(60), 200), Some(0));
    assert_eq!(ttl_remaining_at(Some(i64::MAX), Some(u64::MAX), 0), Some(i64::MAX));
}

#[test]
fn entry_ttl_remaining_reads_rfc3339() {
    let mut e = make_store_entry("n", "/p", vec![]);
    assert_eq!(entry_ttl_remaining(&e, 0), None);
    e.ttl_seconds = Some(60);
    e.created_at = "2025-01-01T00:00:00Z".to_string();
    assert_eq!(entry_ttl_remaining(&e, 1_735_689_600), Some(60));
    assert_eq!(entry_ttl_remaining(&e, 1_735_689_600 + 100), Some(-40));
    e.created_at = "2025-01-01T01:00:00+01:00".to_string();
    assert_eq!(entry_ttl_remaining(&e, 1_735_689_600), Some(60));
    e.created_at = "yesterday".to_string();
    assert_eq!(entry_ttl_remaining(&e, 1_735_689_600), Some(0));
}

#[test]
fn worktree_names() {
    assert!(validate_worktree_name("feature-1.2_x").is_ok());
    assert!(matches!(validate_worktree_name(""), Err(WorktreeError::InvalidName(_))));
    assert!(validate_worktree_name(".").is_err());
    assert!(validate_worktree_name("..").is_err());
    assert!(validate_worktree_name("a/b").is_err());
    assert!(validate_worktree_name("a b").is_err());
    assert!(validate_worktree_name("...").is_ok());
}

#[test]
fn durations() {
    assert_eq!(parse_duration("30s"), Ok(30));
    assert_eq!(parse_duration("5m"), Ok(300));
    assert_eq!(parse_duration("1h"), Ok(3600));
    assert_eq!(parse_duration("2d"), Ok(172800));
    assert_eq!(parse_duration("1w"), Ok(604800));
    assert_eq!(parse_duration("42"), Ok(42));
    assert!(parse_duration("").is_err());
    assert!(parse_duration("h").is_err());
    assert!(parse_duration("5x").is_err());
    assert!(parse_duration("-5s").is_err());
    assert!(parse_duration("18446744073709551615w").is_err());
    assert_eq!(parse_duration("18446744073709551615"), Ok(u64::MAX));
}

#[test]
fn repo_specs() {
    let s = parse_repo_spec("api").unwrap();
    assert_eq!(s.alias, "api");
    assert_eq!(s.branch, None);
    let s = parse_repo_spec("api:feat/x").unwrap();
    assert_eq!(s.alias, "api");
    assert_eq!(s.branch, Some("feat/x".to_string()));
    let s = parse_repo_spec("a:b:c").unwrap();
    assert_eq!(s.branch, Some("b:c".to_string()));
    assert!(matches!(parse_repo_spec(":x"), Err(WorktreeError::InvalidRepoSpec(_))));
    assert!(parse_repo_spec("x:").is_err());
    assert!(parse_repo_spec("").is_err());
}

#[test]
fn branch_precedence() {
    assert_eq!(resolve_branch("f1", Some("g"), Some("own")), "own");
    assert_eq!(resolve_branch("f1", Some("g"), None), "g");
    assert_eq!(resolve_branch("f1", None, None), "wt/f1");
}

#[test]
fn from_ref_and_from_pr_conflict() {
    assert!(matches!(check_start_options(Some("v1"), Some("o/r#1")), Err(WorktreeError::ConflictingOptions)));
    assert!(check_start_options(Some("v1"), None).is_ok());
    assert!(check_start_options(None, None).is_ok());
}

fn spec(alias: &str, branch: Option<&str>) -> RepoSpec {
    RepoSpec { alias: alias.to_string(), branch: branch.map(|b| b.to_string()) }
}

#[test]
fn select_repos_with_dependencies() {
    let projects = vec![
        project("api", &["api"], &["db", "auth"]),
        project("db", &["db"], &[]),
        project("auth", &["auth"], &["api"]),
        project("web", &["web"], &[]),
    ];
    let graph = DependencyGraph::build(&projects);
    let r = select_repos(&vec![spec("api", None)], false, false, &projects, &graph, true).unwrap();
    assert_eq!(r[0], ".");
    let mut rest: Vec<String> = r[1..].to_vec();
    rest.sort();
    assert_eq!(rest, vec!["api".to_string(), "auth".to_string(), "db".to_string()]);
    let r = select_repos(&vec![spec("web", None)], false, false, &projects, &graph, false).unwrap();
    assert_eq!(r, vec!["web".to_string()]);
}

#[test]
fn select_repos_modes_and_errors() {
    let projects = vec![project("x", &[], &[]), project("y", &[], &[])];
    let graph = DependencyGraph::build(&projects);
    assert!(matches!(select_repos(&vec![], false, false, &projects, &graph, true), Err(WorktreeError::NoReposSelected)));
    assert_eq!(select_repos(&vec![], true, false, &projects, &graph, true).unwrap(), vec![".", "x", "y"]);
    assert_eq!(select_repos(&vec![], true, false, &projects, &graph, false).unwrap(), vec!["x", "y"]);
    assert_eq!(
        select_repos(&vec![spec("y", None), spec(".", None)], false, true, &projects, &graph, false).unwrap(),
        vec!["y", "."]
    );
    assert!(matches!(
        select_repos(&vec![spec("zz", None)], false, false, &projects, &graph, true),
        Err(WorktreeError::ProjectNotFound(_))
    ));
}

#[test]
fn branches_for_selected_repos() {
    let plan = plan_branches(
        "f1",
        None,
        &vec!["x".to_string(), "y".to_string()],
        &vec![spec("y", Some("v9.9")), spec("x", None)],
    );
    assert_eq!(plan[0].branch, "wt/f1");
    assert_eq!(plan[1].branch, "v9.9");
}

#[test]
fn dest_names_and_gitignore() {
    assert_eq!(child_dest_name("vendor/nested-lib"), "nested-lib");
    assert_eq!(child_dest_name("api"), "api");
    assert!(gitignore_lists("target\n.worktrees/\n", ".worktrees"));
    assert!(gitignore_lists("  /.worktrees  \r\n", ".worktrees"));
    assert!(!gitignore_lists("target\n.worktrees-old\n", ".worktrees"));
    assert!(!gitignore_lists("", ".worktrees"));
}

#[test]
fn diff_totals_count_changed_repos() {
    let e = |a: &str, f, i, d| DiffRepoEntry { alias: a.to_string(), files_changed: f, insertions: i, deletions: d };
    let t = diff_totals(&vec![e("a", 2, 10, 3), e("b", 0, 0, 0), e("c", 1, 1, 1)]);
    assert_eq!((t.repos_changed, t.files_changed, t.insertions, t.deletions), (2, 3, 11, 4));
}

#[test]
fn root_is_removed_last() {
    let r = removal_order(&vec![".".to_string(), "a".to_string(), "b".to_string()]);
    assert_eq!(r, vec!["a", "b", "."]);
}

#[test]
fn custom_metadata_items() {
    assert_eq!(split_key_value("owner=me"), Some(("owner".to_string(), "me".to_string())));
    assert_eq!(split_key_value("a=b=c"), Some(("a".to_string(), "b=c".to_string())));
    assert_eq!(split_key_value("=x"), Some((String::new(), "x".to_string())));
    assert_eq!(split_key_value("novalue"), None);
}

#[test]
fn pull_request_specs() {
    assert_eq!(parse_pr_spec("org/api#42"), Some(("org/api".to_string(), "42".to_string())));
    assert_eq!(parse_pr_spec("a#b#7"), Some(("a#b".to_string(), "7".to_string())));
    assert_eq!(parse_pr_spec("org/api"), None);
    assert_eq!(parse_pr_spec("#42"), None);
    assert_eq!(parse_pr_spec("org/api#"), None);
}

#[test]
fn porcelain_status_counts() {
    assert_eq!(status_counts(" M a.rs\n?? new.txt\nA  b.rs\n?? other\n\n"), (2, 2));
    assert_eq!(status_counts(""), (0, 0));
}

#[test]
fn numstat_totals_per_repo() {
    let e = numstat_entry("api", "10\t2\tsrc/a.rs\n-\t-\timg.png\n3\t0\tREADME\n").unwrap();
    assert_eq!(e.alias, "api");
    assert_eq!((e.files_changed, e.insertions, e.deletions), (3, 13, 2));
    let e = numstat_entry("x", "").unwrap();
    assert_eq!((e.files_changed, e.insertions, e.deletions), (0, 0, 0));
}

#[test]
fn behind_and_ahead_counts() {
    assert_eq!(parse_behind_ahead("2\t5\n"), (2, 5));
    assert_eq!(parse_behind_ahead(""), (0, 0));
    assert_eq!(parse_behind_ahead("x 7"), (0, 7));
}

#[test]
fn missing_ref_skips_or_aborts() {
    assert_eq!(child_failure(true, false, "y", "invalid reference: v9.9"), Ok("Skipping 'y': invalid reference: v9.9".to_string()));
    assert_eq!(
        child_failure(true, true, "y", "invalid reference: v9.9"),
        Err("Skipping 'y': invalid reference: v9.9 (strict mode)".to_string())
    );
    assert_eq!(child_failure(false, false, "y", "boom"), Err("boom".to_string()));
}

#[test]
fn add_refuses_root_and_duplicates() {
    let v = |xs: &[&str]| xs.iter().map(|x| x.to_string()).collect::<Vec<String>>();
    assert!(check_add_repos(&v(&["api", "web"]), &v(&[".", "db"])).is_ok());
    assert!(matches!(check_add_repos(&v(&["api", "."]), &v(&[])), Err(WorktreeError::RootNotAllowed)));
    assert!(matches!(check_add_repos(&v(&["db"]), &v(&["db"])), Err(WorktreeError::DuplicateRepo(a)) if a == "db"));
    assert!(matches!(check_add_repos(&v(&["x", "y", "x"]), &v(&[])), Err(WorktreeError::DuplicateRepo(a)) if a == "x"));
}

#[test]
fn error_messages() {
    assert_eq!(WorktreeError::ProjectNotFound("zz".to_string()).message(), "Unknown repo alias 'zz'");
    assert_eq!(WorktreeError::DuplicateRepo("db".to_string()).message(), "Repo 'db' already exists in the worktree");
    assert_eq!(WorktreeError::ConflictingOptions.message(), "--from-ref and --from-pr are mutually exclusive");
}

#[test]
fn root_comes_first_even_as_a_dependency() {
    let projects = vec![project("api", &["api"], &["rootlib"]), project(".", &["rootlib"], &[])];
    let graph = DependencyGraph::build(&projects);
    let r = select_repos(&vec![spec("api", None)], false, false, &projects, &graph, false).unwrap();
    assert_eq!(r, vec![".", "api"]);
}
