use meta_git::commit::{
    build_commit_template, commit_plan, escape_for_shell, parse_commit_args, parse_multi_commit_file,
    StagedRepo,
};

fn staged(name: &str, path: &str, files: &[&str]) -> StagedRepo {
    StagedRepo {
        name: name.to_string(),
        path: path.to_string(),
        files: files.iter().map(|f| f.to_string()).collect(),
    }
}

#[test]
fn editor_sections_with_empty_body_are_skipped() {
    let content = "========== repo1 ==========\n# files\nfeat: a\n\n========== repo2 ==========\n# files\n\n# empty\n\n========== repo3 ==========\n# files\nfix: b\n";
    let commits = parse_multi_commit_file(content);
    assert_eq!(
        commits,
        vec![
            ("repo1".to_string(), "feat: a".to_string()),
            ("repo3".to_string(), "fix: b".to_string())
        ]
    );
}

#[test]
fn unedited_template_yields_no_commit() {
    let repos = vec![
        staged(".", "/ws", &["a.rs", "b.rs"]),
        staged("api", "/ws/api", &["src/lib.rs"]),
        staged("web", "/ws/web", &[]),
    ];
    let template = build_commit_template(&repos);
    assert!(parse_multi_commit_file(&template).is_empty());
}

#[test]
fn template_layout() {
    let template = build_commit_template(&vec![staged("api", "/ws/api", &["a.rs", "b.rs"])]);
    assert_eq!(
        template,
        "# Meta Multi-Commit\n# Each section represents one repository.\n# Edit the message below each header.\n# Delete a section entirely or leave message empty to skip that repo.\n#\n\n========== api ==========\n# 2 file(s) staged: a.rs, b.rs\n\n# Enter commit message above this line\n\n"
    );
}

#[test]
fn edited_template_yields_messages_in_order() {
    let template = build_commit_template(&vec![staged("a", "/a", &["x"]), staged("b", "/b", &["y"])]);
    let edited = template.replacen("\n\n# Enter", "\n  first line\n\n  second  line \n# Enter", 1);
    let commits = parse_multi_commit_file(&edited);
    assert_eq!(commits, vec![("a".to_string(), "first line\n\n  second  line".to_string())]);
}

#[test]
fn parser_ignores_text_before_first_section_and_crlf() {
    let commits = parse_multi_commit_file("stray\r\n==========  r  ==========\r\nmsg\r\n");
    assert_eq!(commits, vec![("r".to_string(), "msg".to_string())]);
    assert!(parse_multi_commit_file("").is_empty());
}

#[test]
fn commit_args() {
    let a = parse_commit_args(&vec!["git".to_string(), "commit".to_string(), "-m".to_string(), "hello".to_string()]);
    assert!(!a.use_editor);
    assert_eq!(a.message, Some("hello".to_string()));
    let a = parse_commit_args(&vec!["--edit".to_string(), "-m".to_string()]);
    assert!(a.use_editor);
    assert_eq!(a.message, None);
    let a = parse_commit_args(&vec!["--message".to_string(), "x".to_string(), "-m".to_string(), "y".to_string()]);
    assert_eq!(a.message, Some("y".to_string()));
}

#[test]
fn bulk_commit_plan_escapes_quotes() {
    assert_eq!(escape_for_shell("it's"), "it'\\''s");
    let plan = commit_plan(&vec![staged(".", "/ws", &["a"]), staged("api", "/ws/api", &["b"])], "it's done");
    assert_eq!(plan.len(), 2);
    assert_eq!(plan[0].dir, ".");
    assert_eq!(plan[1].dir, "/ws/api");
    assert_eq!(plan[0].cmd, "git commit -m 'it'\\''s done'");
    assert!(plan[1].env.is_none());
}
