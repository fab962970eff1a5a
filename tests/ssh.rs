use meta_git::ssh::{
    discover_ssh_hosts, extract_ssh_host, is_multiplexing_configured, needs_master_connection,
    ssh_pre_commands, urls_match,
};

#[test]
fn test_ssh_pre_commands_generates_correct_format() {
    let commands = ssh_pre_commands(&vec![("example.com".to_string(), true)]);
    assert_eq!(commands.len(), 1);
    for cmd in commands {
        assert!(cmd.cmd.contains("ssh -fNM"));
        assert!(cmd.cmd.contains("ControlMaster=auto"));
        assert!(cmd.cmd.contains("ControlPersist=600"));
        assert!(cmd.cmd.contains("git@example.com"));
        assert_eq!(cmd.dir, ".");
    }
}

#[test]
fn test_needs_master_connection_respects_existing_socket() {
    let host = "test-host-that-does-not-exist.example.com";
    let config = "Host *\n  ControlMaster auto\n";
    assert!(!needs_master_connection(host, true, Some(config)));
    assert!(needs_master_connection(host, false, Some(config)));
    assert!(!needs_master_connection(host, false, None));
}

#[test]
fn ssh_pre_commands_skip_hosts_without_need() {
    let commands = ssh_pre_commands(&vec![
        ("a.example".to_string(), false),
        ("b.example".to_string(), true),
    ]);
    assert_eq!(commands.len(), 1);
    assert_eq!(
        commands[0].cmd,
        "ssh -fNM -o ControlMaster=auto -o ControlPath=~/.ssh/sockets/%r@%h-%p -o ControlPersist=600 -o ConnectTimeout=10 git@b.example"
    );
    assert!(commands[0].env.is_none());
}

#[test]
fn multiplexing_found_in_matching_host_block() {
    let config = "# comment\nHost github.com\n    ControlMaster auto\n    ControlPath ~/.ssh/sockets/%r@%h-%p\n";
    assert!(is_multiplexing_configured("github.com", config));
    assert!(!is_multiplexing_configured("gitlab.com", config));
}

#[test]
fn multiplexing_with_wildcards_and_equals() {
    let config = "host *.example.com other\nControlMaster=yes\n";
    assert!(is_multiplexing_configured("git.example.com", config));
    assert!(is_multiplexing_configured("other", config));
    assert!(!is_multiplexing_configured("example.org", config));
}

#[test]
fn multiplexing_off_values_do_not_count() {
    assert!(!is_multiplexing_configured("h", "Host h\nControlMaster no\n"));
    assert!(is_multiplexing_configured("h", "HOST h\nCONTROLMASTER autoask\n"));
    assert!(!is_multiplexing_configured("h", "ControlMaster auto\n"));
    assert!(!is_multiplexing_configured("h", ""));
}

#[test]
fn urls_match_ssh_and_scp_forms() {
    assert!(urls_match("git@github.com:org/repo.git", "ssh://git@github.com/org/repo"));
    assert!(urls_match("git@github.com:org/repo", "git@github.com:org/repo.git"));
    assert!(!urls_match("git@github.com:org/repo", "git@github.com:org/other"));
    assert!(!urls_match("git@github.com:org/repo", "git@gitlab.com:org/repo"));
}

#[test]
fn extract_ssh_host_forms() {
    assert_eq!(extract_ssh_host("git@github.com:org/repo.git"), Some("github.com".to_string()));
    assert_eq!(extract_ssh_host("ssh://git@host.example:2222/org/repo"), Some("host.example".to_string()));
    assert_eq!(extract_ssh_host("https://github.com/org/repo.git"), None);
    assert_eq!(extract_ssh_host("plain"), None);
}

#[test]
fn discover_ssh_hosts_sorted_unique_with_fallback() {
    let urls = vec![
        Some("git@gitlab.com:a/b.git".to_string()),
        None,
        Some("https://github.com/a/b".to_string()),
        Some("git@bitbucket.org:a/c.git".to_string()),
        Some("ssh://git@gitlab.com/x/y".to_string()),
    ];
    assert_eq!(discover_ssh_hosts(Some(&urls)), vec!["bitbucket.org".to_string(), "gitlab.com".to_string()]);
    let none: Vec<Option<String>> = vec![Some("https://x/y".to_string())];
    assert_eq!(discover_ssh_hosts(Some(&none)), vec!["github.com".to_string()]);
    assert_eq!(discover_ssh_hosts(None), vec!["github.com".to_string()]);
}
