use meta_git::plan::{git_env, git_env_with_ssh, status_plan, CommandResult};

#[test]
fn git_env_includes_pager_setting() {
    let env = git_env();
    assert_eq!(env.get("GIT_PAGER"), Some(&"cat".to_string()));
}

#[test]
fn git_env_includes_terminal_prompt_setting() {
    let env = git_env();
    assert_eq!(env.get("GIT_TERMINAL_PROMPT"), Some(&"0".to_string()));
}

#[test]
fn git_env_with_ssh_includes_ssh_command() {
    let env = git_env_with_ssh(Some("ssh -o StrictHostKeyChecking=no"));
    assert_eq!(
        env.get("GIT_SSH_COMMAND"),
        Some(&"ssh -o StrictHostKeyChecking=no".to_string())
    );
}

#[test]
fn git_env_with_ssh_none_has_no_ssh_command() {
    let env = git_env_with_ssh(None);
    assert!(env.get("GIT_SSH_COMMAND").is_none());
}

#[test]
fn git_env_with_ssh_preserves_base_env() {
    let env = git_env_with_ssh(Some("ssh"));
    assert_eq!(env.get("GIT_PAGER"), Some(&"cat".to_string()));
    assert_eq!(env.get("GIT_TERMINAL_PROMPT"), Some(&"0".to_string()));
}

#[test]
fn git_env_forces_color_through_config() {
    let env = git_env();
    assert_eq!(env.len(), 5);
    assert_eq!(env.get("GIT_CONFIG_COUNT"), Some(&"1".to_string()));
    assert_eq!(env.get("GIT_CONFIG_KEY_0"), Some(&"color.ui".to_string()));
    assert_eq!(env.get("GIT_CONFIG_VALUE_0"), Some(&"always".to_string()));
}

#[test]
fn git_env_with_ssh_replaces_nothing_else() {
    let env = git_env_with_ssh(Some("ssh -i key"));
    assert_eq!(env.len(), 6);
    let (k, v) = env.entry(5);
    assert_eq!(k, "GIT_SSH_COMMAND");
    assert_eq!(v, "ssh -i key");
}

#[test]
fn status_plan_runs_git_status_in_each_dir_in_order() {
    let dirs = vec![".".to_string(), "a".to_string(), "b/c".to_string()];
    match status_plan(&dirs) {
        CommandResult::Plan(cmds, parallel) => {
            assert_eq!(parallel, Some(false));
            assert_eq!(cmds.len(), 3);
            for (c, d) in cmds.iter().zip(dirs.iter()) {
                assert_eq!(&c.dir, d);
                assert_eq!(c.cmd, "git status");
                let env = c.env.as_ref().unwrap();
                assert_eq!(env.get("GIT_PAGER"), Some(&"cat".to_string()));
                assert_eq!(env.get("GIT_TERMINAL_PROMPT"), Some(&"0".to_string()));
                assert_eq!(env.get("GIT_CONFIG_VALUE_0"), Some(&"always".to_string()));
                assert_eq!(env.len(), 5);
            }
        }
        _ => panic!("expected a plan"),
    }
}
