use meta_git::clone::{clone_dir_name, clone_summary, effective_meta_depth, find_orphans, parse_clone_args, DirEntry};
use meta_git::clone_queue::{CloneQueue, CloneTask, ManifestChild};
use meta_git::manifest::join_path;

fn task(path: &str, depth: usize) -> CloneTask {
    CloneTask { name: path.to_string(), url: format!("git@h:o/{path}.git"), target_path: path.to_string(), depth_level: depth }
}

fn child(path: &str, exists: bool) -> ManifestChild {
    ManifestChild { name: path.to_string(), path: path.to_string(), repo: Some(format!("git@h:o/{path}.git")), exists }
}

#[test]
fn push_rejects_completed_or_pending_paths_only() {
    let mut q = CloneQueue::new(None, None);
    assert!(q.push(task("/w/a", 0)));
    assert!(!q.push(task("/w/a", 0)));
    let t = q.take_one().unwrap();
    assert!(q.push(task("/w/a", 0)));
    assert_eq!(q.get_counts(), (0, 2));
    q.mark_completed(&t, &vec![]);
    assert!(!q.push(task("/w/a", 0)));
    let t2 = q.take_one().unwrap();
    assert_eq!(t2.target_path, "/w/a");
    q.mark_completed(&t2, &vec![]);
    assert!(!q.push(task("/w/a", 0)));
    assert_eq!(q.get_counts(), (2, 2));
    assert!(q.push(task("/w/b", 0)));
    let b = q.take_one().unwrap();
    q.mark_failed(&b);
    assert!(q.push(task("/w/b", 0)));
    assert_eq!(q.get_counts(), (3, 4));
}

#[test]
fn take_one_is_last_in_first_out() {
    let mut q = CloneQueue::new(Some("1".to_string()), None);
    q.push(task("/a", 0));
    q.push(task("/b", 0));
    assert_eq!(q.take_one().unwrap().target_path, "/b");
    assert_eq!(q.take_one().unwrap().target_path, "/a");
    assert!(q.take_one().is_none());
    assert_eq!(q.git_depth(), Some("1".to_string()));
}

#[test]
fn progress_is_conserved() {
    let mut q = CloneQueue::new(None, None);
    q.push(task("/a", 0));
    q.push(task("/b", 0));
    let b = q.take_one().unwrap();
    q.mark_failed(&b);
    assert_eq!(q.get_counts(), (1, 2));
    assert!(!q.is_finished());
    let a = q.take_one().unwrap();
    assert!(!q.is_finished());
    q.mark_completed(&a, &vec![]);
    assert!(q.is_finished());
    assert_eq!(q.get_counts(), (2, 2));
}

#[test]
fn depth_budget_bounds_manifest_tasks() {
    let mut q = CloneQueue::new(None, Some(0));
    let out = q.push_from_meta("/w", 0, &vec![child("a", false), child("b", true)]);
    assert_eq!(out.added, 1);
    assert_eq!(out.descend, vec!["/w/b".to_string()]);
    let out = q.push_from_meta("/w/b", 1, &vec![child("c", false)]);
    assert_eq!(out.added, 0);
    assert!(out.descend.is_empty());
    let drained = q.drain_all();
    assert_eq!(drained.len(), 1);
    assert_eq!(drained[0].target_path, "/w/a");
    assert_eq!(drained[0].depth_level, 0);
}

#[test]
fn recursive_clone_discovers_nested_repos() {
    let mut q = CloneQueue::new(None, None);
    let initial = q.push_from_meta("/w", 0, &vec![child("a", false), child("b", false)]).added;
    assert_eq!(initial, 2);
    let mut nested = 0;
    while let Some(t) = q.take_one() {
        let children = if t.target_path == "/w/b" { vec![child("c", false)] } else { vec![] };
        nested += q.mark_completed(&t, &children).added;
    }
    assert_eq!(nested, 1);
    assert!(q.is_finished());
    let (done, discovered) = q.get_counts();
    assert_eq!((done, discovered), (3, 3));
    assert_eq!(clone_summary(done, discovered, initial), "3 repos cloned, 1 discovered via nested .meta files");
    assert_eq!(clone_summary(2, 2, 2), "2 repos cloned");
}

#[test]
fn manifest_children_without_url_are_skipped() {
    let mut q = CloneQueue::new(None, None);
    let c = ManifestChild { name: "x".to_string(), path: "x".to_string(), repo: None, exists: false };
    assert_eq!(q.push_from_meta("/w/", 0, &vec![c]).added, 0);
    assert_eq!(q.get_counts(), (0, 0));
}

#[test]
fn paths_join() {
    assert_eq!(join_path("/w", "a"), "/w/a");
    assert_eq!(join_path("/w/", "a"), "/w/a");
    assert_eq!(join_path("", "a"), "a");
    assert_eq!(join_path("/w", "/abs"), "/abs");
}

#[test]
fn clone_arguments() {
    let args: Vec<String> = ["--recursive", "--parallel", "8", "--depth", "1", "--meta-depth", "2", "-x", "git@h:o/meta.git", "dir", "extra"]
        .iter()
        .map(|s| s.to_string())
        .collect();
    let o = parse_clone_args(&args, false, None);
    assert!(o.recursive);
    assert_eq!(o.parallel, 8);
    assert_eq!(o.depth, Some("1".to_string()));
    assert_eq!(o.meta_depth, Some(2));
    assert_eq!(o.url, Some("git@h:o/meta.git".to_string()));
    assert_eq!(o.dir, Some("dir".to_string()));
    let o = parse_clone_args(&vec!["--parallel".to_string(), "many".to_string()], true, Some("3".to_string()));
    assert_eq!(o.parallel, 4);
    assert!(o.recursive);
    assert_eq!(o.depth, Some("3".to_string()));
    assert_eq!(o.url, None);
}

#[test]
fn clone_directory_and_depth() {
    assert_eq!(clone_dir_name("https://github.com/org/meta.git", None), "meta");
    assert_eq!(clone_dir_name("git@github.com:org/meta.git.git", None), "meta");
    assert_eq!(clone_dir_name("x", Some("target")), "target");
    assert_eq!(effective_meta_depth(false, Some(5)), Some(0));
    assert_eq!(effective_meta_depth(true, None), None);
}

#[test]
fn orphans_are_listed_not_removed() {
    let e = |n: &str, d: bool, g: bool| DirEntry { name: n.to_string(), is_dir: d, has_git: g };
    let entries = vec![e("a", true, true), e("stray", true, true), e(".hidden", true, true), e("notes", true, false), e("file", false, true)];
    assert_eq!(find_orphans(&entries, &vec!["a".to_string()]), vec!["stray".to_string()]);
}
