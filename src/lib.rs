//! The logic of a coordinator for workspaces made of a meta repository and
//! the git repositories its manifest lists: the clone queue, dependency
//! closure, worktree store and lifecycle decisions, snapshot restores,
//! multi-repository commits, SSH checks and the plans handed to an outer
//! executor. Everything here is verified; running git and touching the disk
//! is left to the caller.
use vstd::prelude::*;

pub mod clone;
pub mod clone_queue;
pub mod commit;
pub mod deps;
pub mod manifest;
pub mod plan;
pub mod snapshot;
pub mod ssh;
pub mod store;
pub mod text;
pub mod worktree;

verus! {

/// The legacy `git clone` plugin entry: its name, commands and help.
pub struct GitPlugin;

impl GitPlugin {
    pub fn name(&self) -> (r: &'static str)
        ensures
            r@ == "git-clone"@,
    {
        "git-clone"
    }

    pub fn commands(&self) -> (r: Vec<&'static str>)
        ensures
            r@.len() == 1,
            r@[0]@ == "git clone"@,
    {
        let mut v: Vec<&'static str> = Vec::new();
        v.push("git clone");
        v
    }

    /// Help shown before the standard git help.
    pub fn get_help_output(&self) -> (r: &'static str)
        ensures
            r@ == "meta git - Meta CLI Git Plugin\n(This is NOT plain git)\n\nMeta-repo Commands:\n  meta git clone <meta-repo-url> [options]\n    Clones the meta repository and all child repositories defined in its manifest.\n\n    Options:\n      --recursive       Clone nested meta repositories recursively\n      --parallel N      Clone up to N repositories in parallel\n      --depth N         Create a shallow clone with truncated history\n\n    Examples:\n      meta git clone https://github.com/example/meta-repo.git\n      meta git clone --parallel 4 --depth 1 https://github.com/example/meta-repo.git\n\nFor standard git commands, see below.\n"@,
    {
        "meta git - Meta CLI Git Plugin\n(This is NOT plain git)\n\nMeta-repo Commands:\n  meta git clone <meta-repo-url> [options]\n    Clones the meta repository and all child repositories defined in its manifest.\n\n    Options:\n      --recursive       Clone nested meta repositories recursively\n      --parallel N      Clone up to N repositories in parallel\n      --depth N         Create a shallow clone with truncated history\n\n    Examples:\n      meta git clone https://github.com/example/meta-repo.git\n      meta git clone --parallel 4 --depth 1 https://github.com/example/meta-repo.git\n\nFor standard git commands, see below.\n"
    }
}

} // verus!
