//! Plans handed back to the outer executor: commands with their directory
//! and environment, and the command results of the plugin protocol.
use vstd::prelude::*;

verus! {

/// An ordered set of environment variables (each name at most once).
pub struct EnvVars {
    vars: Vec<(String, String)>,
}

pub open spec fn pair_views(v: Seq<(String, String)>) -> Seq<(Seq<char>, Seq<char>)> {
    v.map_values(|p: (String, String)| (p.0@, p.1@))
}

/// The value bound to `key` in a list of bindings with distinct names.
pub open spec fn lookup(v: Seq<(Seq<char>, Seq<char>)>, key: Seq<char>) -> Option<Seq<char>>
    decreases v.len(),
{
    if v.len() == 0 {
        None
    } else if v.last().0 == key {
        Some(v.last().1)
    } else {
        lookup(v.drop_last(), key)
    }
}

pub open spec fn distinct_names(v: Seq<(Seq<char>, Seq<char>)>) -> bool {
    forall|i: int, j: int| 0 <= i < j < v.len() ==> v[i].0 != v[j].0
}

/// The bindings after setting `key` to `value`: in place if it is bound,
/// else at the end.
pub open spec fn bind(v: Seq<(Seq<char>, Seq<char>)>, key: Seq<char>, value: Seq<char>) -> Seq<
    (Seq<char>, Seq<char>),
> {
    if exists|i: int| 0 <= i < v.len() && v[i].0 == key {
        v.update(choose|i: int| 0 <= i < v.len() && v[i].0 == key, (key, value))
    } else {
        v.push((key, value))
    }
}

impl View for EnvVars {
    type V = Seq<(Seq<char>, Seq<char>)>;

    closed spec fn view(&self) -> Seq<(Seq<char>, Seq<char>)> {
        pair_views(self.vars@)
    }
}

proof fn lemma_lookup_index(v: Seq<(Seq<char>, Seq<char>)>, key: Seq<char>, i: int)
    requires
        distinct_names(v),
        0 <= i < v.len(),
        v[i].0 == key,
    ensures
        lookup(v, key) == Some(v[i].1),
    decreases v.len(),
{
    if i < v.len() - 1 {
        assert(v.last().0 != key);
        lemma_lookup_index(v.drop_last(), key, i);
    }
}

proof fn lemma_lookup_absent(v: Seq<(Seq<char>, Seq<char>)>, key: Seq<char>)
    requires
        forall|i: int| 0 <= i < v.len() ==> v[i].0 != key,
    ensures
        lookup(v, key) is None,
    decreases v.len(),
{
    if v.len() > 0 {
        assert(v.last().0 != key);
        lemma_lookup_absent(v.drop_last(), key);
    }
}

impl EnvVars {
    pub closed spec fn wf(&self) -> bool {
        distinct_names(self@)
    }

    pub fn new() -> (r: Self)
        ensures
            r.wf(),
            r@ == Seq::<(Seq<char>, Seq<char>)>::empty(),
    {
        let r = EnvVars { vars: Vec::new() };
        assert(r@ =~= Seq::<(Seq<char>, Seq<char>)>::empty());
        r
    }

    pub fn len(&self) -> (r: usize)
        ensures
            r == self@.len(),
    {
        self.vars.len()
    }

    /// The binding at position `i`.
    pub fn entry(&self, i: usize) -> (r: (&String, &String))
        requires
            i < self@.len(),
        ensures
            (r.0@, r.1@) == self@[i as int],
    {
        let p = &self.vars[i];
        (&p.0, &p.1)
    }

    /// Binds `key` to `value`, replacing an earlier value of `key`.
    pub fn insert(&mut self, key: String, value: String)
        requires
            old(self).wf(),
        ensures
            final(self).wf(),
            final(self)@ == bind(old(self)@, key@, value@),
            lookup(final(self)@, key@) == Some(value@),
            forall|k: Seq<char>| k != key@ ==> lookup(final(self)@, k) == lookup(old(self)@, k),
    {
        let ghost v0 = self@;
        let mut i: usize = 0;
        while i < self.vars.len()
            invariant
                i <= self.vars.len(),
                self@ == v0,
                old(self)@ == v0,
                distinct_names(v0),
                forall|j: int| 0 <= j < i ==> v0[j].0 != key@,
            decreases self.vars.len() - i,
        {
            if self.vars[i].0 == key {
                proof {
                    assert(v0[i as int].0 == key@);
                    assert(exists|j: int| 0 <= j < v0.len() && v0[j].0 == key@);
                    let c = choose|i: int| 0 <= i < v0.len() && v0[i].0 == key@;
                    assert(c == i);
                    assert(bind(v0, key@, value@) == v0.update(i as int, (key@, value@)));
                }
                self.vars.set(i, (key, value));
                proof {
                    assert(self@ =~= v0.update(i as int, (key@, value@)));
                    assert(distinct_names(self@));
                    lemma_lookup_index(self@, key@, i as int);
                    assert forall|k: Seq<char>| k != key@ implies lookup(self@, k) == lookup(v0, k) by {
                        if exists|j: int| 0 <= j < v0.len() && v0[j].0 == k {
                            let j = choose|j: int| 0 <= j < v0.len() && v0[j].0 == k;
                            lemma_lookup_index(v0, k, j);
                            lemma_lookup_index(self@, k, j);
                        } else {
                            lemma_lookup_absent(v0, k);
                            lemma_lookup_absent(self@, k);
                        }
                    }
                }
                return;
            }
            i = i + 1;
        }
        self.vars.push((key, value));
        proof {
            assert(self@ =~= v0.push((key@, value@)));
            assert(self@.drop_last() =~= v0);
        }
    }

    /// The value bound to `key`.
    pub fn get(&self, key: &str) -> (r: Option<&String>)
        requires
            self.wf(),
        ensures
            r is Some <==> lookup(self@, key@) is Some,
            r is Some ==> r->0@ == lookup(self@, key@)->0,
    {
        let k = crate::text::chars_of(key);
        let mut i: usize = 0;
        while i < self.vars.len()
            invariant
                i <= self.vars.len(),
                self.wf(),
                k@ == key@,
                forall|j: int| 0 <= j < i ==> self@[j].0 != key@,
            decreases self.vars.len() - i,
        {
            let name = crate::text::chars_of(self.vars[i].0.as_str());
            if crate::text::same_chars(&name, &k) {
                proof {
                    lemma_lookup_index(self@, key@, i as int);
                }
                return Some(&self.vars[i].1);
            }
            i = i + 1;
        }
        proof {
            lemma_lookup_absent(self@, key@);
        }
        None
    }
}

/// One command of a plan: the directory it runs in, the shell command, and
/// extra environment variables.
pub struct PlannedCommand {
    pub dir: String,
    pub cmd: String,
    pub env: Option<EnvVars>,
}

/// What a command hands back to the outer executor.
pub enum CommandResult {
    Message(String),
    Error(String),
    ShowHelp(Option<String>),
    /// Commands to run, and whether they may run in parallel.
    Plan(Vec<PlannedCommand>, Option<bool>),
}

pub open spec fn git_env_spec() -> Seq<(Seq<char>, Seq<char>)> {
    seq![
        ("GIT_PAGER"@, "cat"@),
        ("GIT_TERMINAL_PROMPT"@, "0"@),
        ("GIT_CONFIG_COUNT"@, "1"@),
        ("GIT_CONFIG_KEY_0"@, "color.ui"@),
        ("GIT_CONFIG_VALUE_0"@, "always"@),
    ]
}

/// The environment for git run without a terminal: no pager, no prompt for
/// credentials, colours forced through git's environment configuration.
pub fn git_env() -> (r: EnvVars)
    ensures
        r.wf(),
        r@ == git_env_spec(),
{
    let mut vars: Vec<(String, String)> = Vec::new();
    vars.push(("GIT_PAGER".to_owned(), "cat".to_owned()));
    vars.push(("GIT_TERMINAL_PROMPT".to_owned(), "0".to_owned()));
    vars.push(("GIT_CONFIG_COUNT".to_owned(), "1".to_owned()));
    vars.push(("GIT_CONFIG_KEY_0".to_owned(), "color.ui".to_owned()));
    vars.push(("GIT_CONFIG_VALUE_0".to_owned(), "always".to_owned()));
    let r = EnvVars { vars };
    proof {
        assert(r@ =~= git_env_spec());
        reveal_strlit("GIT_PAGER");
        reveal_strlit("GIT_TERMINAL_PROMPT");
        reveal_strlit("GIT_CONFIG_COUNT");
        reveal_strlit("GIT_CONFIG_KEY_0");
        reveal_strlit("GIT_CONFIG_VALUE_0");
        assert(r@[0].0.len() != r@[1].0.len());
        assert(r@[2].0 != r@[3].0 && r@[2].0 != r@[4].0 && r@[3].0 != r@[4].0) by {
            assert(r@[2].0[11] != r@[3].0[11]);
            assert(r@[2].0[11] != r@[4].0[11]);
            assert(r@[3].0[11] != r@[4].0[11]);
        }
        assert(r@[0].0[4] != r@[2].0[4] && r@[0].0[4] != r@[3].0[4] && r@[0].0[4] != r@[4].0[4]);
        assert(r@[1].0[4] != r@[2].0[4] && r@[1].0[4] != r@[3].0[4] && r@[1].0[4] != r@[4].0[4]);
    }
    r
}

/// `git_env`, with `GIT_SSH_COMMAND` set when an ssh command is given.
pub fn git_env_with_ssh(ssh_command: Option<&str>) -> (r: EnvVars)
    ensures
        r.wf(),
        ssh_command is None ==> r@ == git_env_spec(),
        ssh_command is Some ==> r@ == bind(git_env_spec(), "GIT_SSH_COMMAND"@, ssh_command->0@),
{
    let mut env = git_env();
    if let Some(cmd) = ssh_command {
        env.insert("GIT_SSH_COMMAND".to_owned(), cmd.to_owned());
    }
    env
}

} // verus!

verus! {

pub open spec fn with_root(paths: Seq<Seq<char>>) -> Seq<Seq<char>> {
    seq![seq!['.']] + paths
}

fn clone_all(v: &Vec<String>) -> (r: Vec<String>)
    ensures
        r@ == v@,
{
    let mut r: Vec<String> = Vec::new();
    let mut i: usize = 0;
    while i < v.len()
        invariant
            i <= v.len(),
            r@ == v@.subrange(0, i as int),
        decreases v.len() - i,
    {
        r.push(v[i].clone());
        i = i + 1;
    }
    r
}

fn root_then(paths: Vec<String>) -> (r: Vec<String>)
    ensures
        crate::text::string_views(r@) == with_root(crate::text::string_views(paths@)),
{
    let mut r: Vec<String> = Vec::new();
    r.push(".".to_owned());
    proof {
        reveal_strlit(".");
        assert(r@[0]@ =~= seq!['.']);
        assert(crate::text::string_views(paths@).subrange(0, 0) =~= Seq::<Seq<char>>::empty());
        assert(crate::text::string_views(r@) =~= with_root(Seq::<Seq<char>>::empty()));
    }
    let mut i: usize = 0;
    while i < paths.len()
        invariant
            i <= paths.len(),
            crate::text::string_views(r@) == with_root(crate::text::string_views(paths@).subrange(0, i as int)),
        decreases paths.len() - i,
    {
        let ghost r0 = r@;
        r.push(paths[i].clone());
        proof {
            assert(crate::text::string_views(r@) =~= crate::text::string_views(r0).push(paths@[i as int]@));
            assert(crate::text::string_views(paths@).subrange(0, i + 1) =~= crate::text::string_views(paths@).subrange(0, i as int).push(paths@[i as int]@));
            assert(crate::text::string_views(r@) =~= with_root(crate::text::string_views(paths@).subrange(0, i + 1)));
        }
        i = i + 1;
    }
    assert(crate::text::string_views(paths@).subrange(0, paths.len() as int) =~= crate::text::string_views(paths@));
    r
}

/// The directories a command runs in: the projects it was handed, or else
/// the workspace root followed by the manifest's project paths in order
/// (just the root when no manifest could be read).
pub fn get_project_directories_with_fallback(projects: &Vec<String>, manifest_paths: Option<Vec<String>>) -> (r: Vec<String>)
    ensures
        projects.len() > 0 ==> r@ == projects@,
        projects.len() == 0 && manifest_paths is None ==> crate::text::string_views(r@) == seq![seq!['.']],
        projects.len() == 0 && manifest_paths is Some ==> crate::text::string_views(r@).len() == manifest_paths->0.len() + 1
            && crate::text::string_views(r@)[0] == seq!['.']
            && crate::text::sorted(crate::text::string_views(r@).drop_first())
            && crate::text::string_views(r@).drop_first().to_multiset() == crate::text::string_views(manifest_paths->0@).to_multiset(),
{
    broadcast use vstd::seq_lib::group_to_multiset_ensures;
    if projects.len() > 0 {
        return clone_all(projects);
    }
    match manifest_paths {
        None => {
            let empty: Vec<String> = Vec::new();
            assert(crate::text::string_views(empty@) =~= Seq::<Seq<char>>::empty());
            let r = root_then(empty);
            assert(with_root(Seq::<Seq<char>>::empty()) =~= seq![seq!['.']]);
            r
        },
        Some(paths) => {
            let s = crate::text::sort_strings(paths);
            let r = root_then(s);
            proof {
                assert(crate::text::string_views(r@).drop_first() =~= crate::text::string_views(s@));
                assert(crate::text::string_views(s@).len() == crate::text::string_views(s@).to_multiset().len());
            }
            r
        },
    }
}

/// The directories a snapshot covers: the projects it was handed, or else
/// the root followed by every repository of the nested manifests.
pub fn get_all_repo_directories(projects: &Vec<String>, tree_paths: Option<Vec<String>>) -> (r: Vec<String>)
    ensures
        projects.len() > 0 ==> r@ == projects@,
        projects.len() == 0 && tree_paths is None ==> crate::text::string_views(r@) == seq![seq!['.']],
        projects.len() == 0 && tree_paths is Some ==> crate::text::string_views(r@) == with_root(crate::text::string_views(tree_paths->0@)),
{
    if projects.len() > 0 {
        return clone_all(projects);
    }
    match tree_paths {
        None => {
            let empty: Vec<String> = Vec::new();
            assert(crate::text::string_views(empty@) =~= Seq::<Seq<char>>::empty());
            let r = root_then(empty);
            assert(with_root(Seq::<Seq<char>>::empty()) =~= seq![seq!['.']]);
            r
        },
        Some(paths) => root_then(paths),
    }
}

/// `git status` in each directory, in order, one after the other, in the
/// environment of `git_env` (no pager, no prompt, colours forced).
pub fn status_plan(dirs: &Vec<String>) -> (r: CommandResult)
    ensures
        r matches CommandResult::Plan(cmds, par) && par == Some(false) && cmds.len() == dirs.len() && forall|i: int|
            0 <= i < cmds.len() ==> #[trigger] cmds@[i].dir@ == dirs@[i]@ && cmds@[i].cmd@ == "git status"@
                && cmds@[i].env is Some && cmds@[i].env->0@ == git_env_spec(),
{
    let mut cmds: Vec<PlannedCommand> = Vec::new();
    let mut i: usize = 0;
    while i < dirs.len()
        invariant
            i <= dirs.len(),
            cmds.len() == i,
            forall|j: int|
                0 <= j < i ==> #[trigger] cmds@[j].dir@ == dirs@[j]@ && cmds@[j].cmd@ == "git status"@
                    && cmds@[j].env is Some && cmds@[j].env->0@ == git_env_spec(),
        decreases dirs.len() - i,
    {
        cmds.push(PlannedCommand { dir: dirs[i].clone(), cmd: "git status".to_owned(), env: Some(git_env()) });
        i = i + 1;
    }
    CommandResult::Plan(cmds, Some(false))
}

} // verus!
