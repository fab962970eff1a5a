//! Workspace snapshots: the recorded state of each repository, and the
//! decisions of a restore.
use crate::text::{chars_of, has_prefix, str_eq, string_of, string_views, trim, trim_chars};
use vstd::prelude::*;

verus! {

/// The snapshot format this library writes and reads.
pub const SNAPSHOT_VERSION: u64 = 1;

/// The HEAD state of one repository.
pub struct RepoState {
    /// Full commit id of HEAD.
    pub sha: String,
    /// The branch HEAD was on; absent for a detached HEAD.
    pub branch: Option<String>,
    /// Uncommitted changes were present.
    pub dirty: bool,
}

#[derive(Debug)]
pub enum SnapshotError {
    VersionUnsupported(u64),
    NoReposCaptured,
    MissingName,
}

/// A snapshot document must carry the current version.
pub fn check_snapshot_version(version: u64) -> (r: Result<(), SnapshotError>)
    ensures
        r is Ok <==> version == SNAPSHOT_VERSION,
        r is Err ==> r->Err_0 == SnapshotError::VersionUnsupported(version),
{
    if version == SNAPSHOT_VERSION {
        Ok(())
    } else {
        Err(SnapshotError::VersionUnsupported(version))
    }
}

pub open spec fn ref_prefix() -> Seq<char> {
    "refs/heads/"@
}

/// A repository state from git's answers: `rev-parse HEAD`, `symbolic-ref
/// HEAD` (absent on a detached HEAD; `refs/heads/` is dropped), and
/// `status --porcelain` (dirty when anything but whitespace is listed).
pub open spec fn state_of(rev: Seq<char>, sym: Option<Seq<char>>, porcelain: Seq<char>) -> (Seq<char>, Option<Seq<char>>, bool) {
    (
        trim(rev),
        match sym {
            Some(s) => if has_prefix(trim(s), ref_prefix()) {
                Some(trim(s).subrange(ref_prefix().len() as int, trim(s).len() as int))
            } else {
                Some(trim(s))
            },
            None => None,
        },
        trim(porcelain).len() > 0,
    )
}

pub open spec fn state_view(s: RepoState) -> (Seq<char>, Option<Seq<char>>, bool) {
    (s.sha@, match s.branch {
        Some(b) => Some(b@),
        None => None,
    }, s.dirty)
}

pub fn repo_state_from_git(rev: &str, sym: Option<&str>, porcelain: &str) -> (r: RepoState)
    ensures
        state_view(r) == state_of(rev@, match sym {
            Some(s) => Some(s@),
            None => None,
        }, porcelain@),
{
    let sha = string_of(&trim_chars(&chars_of(rev)));
    let branch = match sym {
        Some(s) => {
            let t = trim_chars(&chars_of(s));
            let p = chars_of("refs/heads/");
            if crate::text::starts_with(&t, &p) {
                Some(string_of(&crate::text::slice_of(&t, p.len(), t.len())))
            } else {
                Some(string_of(&t))
            }
        },
        None => None,
    };
    let dirty = trim_chars(&chars_of(porcelain)).len() > 0;
    RepoState { sha, branch, dirty }
}

/// One git step of a restore.
pub enum RestoreAction {
    /// `git stash push -m <message>`
    Stash(String),
    /// `git checkout <ref>`
    Checkout(String),
}

pub open spec fn stash_message(name: Seq<char>) -> Seq<char> {
    "meta snapshot restore "@ + name
}

/// The steps that bring one repository back to `state`: stash its changes
/// when it is dirty now, then check out the recorded branch when it still
/// points at the recorded commit, else the commit itself.
pub open spec fn restore_steps(state: (Seq<char>, Option<Seq<char>>, bool), dirty_now: bool, branch_at_sha: bool, name: Seq<char>) -> Seq<(bool, Seq<char>)> {
    let target = match state.1 {
        Some(b) => if branch_at_sha {
            b
        } else {
            state.0
        },
        None => state.0,
    };
    if dirty_now {
        seq![(true, stash_message(name)), (false, target)]
    } else {
        seq![(false, target)]
    }
}

pub open spec fn action_views(v: Seq<RestoreAction>) -> Seq<(bool, Seq<char>)> {
    v.map_values(|a: RestoreAction| match a {
        RestoreAction::Stash(m) => (true, m@),
        RestoreAction::Checkout(r) => (false, r@),
    })
}

pub fn restore_actions(state: &RepoState, dirty_now: bool, branch_at_sha: bool, name: &str) -> (r: Vec<RestoreAction>)
    ensures
        action_views(r@) == restore_steps(state_view(*state), dirty_now, branch_at_sha, name@),
{
    let mut out: Vec<RestoreAction> = Vec::new();
    if dirty_now {
        let mut m = chars_of("meta snapshot restore ");
        crate::text::append_chars(&mut m, &chars_of(name));
        out.push(RestoreAction::Stash(string_of(&m)));
    }
    let target = match &state.branch {
        Some(b) => if branch_at_sha {
            b.clone()
        } else {
            state.sha.clone()
        },
        None => state.sha.clone(),
    };
    out.push(RestoreAction::Checkout(target));
    assert(action_views(out@) =~= restore_steps(state_view(*state), dirty_now, branch_at_sha, name@));
    out
}

/// The commit HEAD is on after `steps`, starting from `head`, where a
/// checkout of the recorded branch lands on the commit it points at.
pub open spec fn head_after(steps: Seq<(bool, Seq<char>)>, head: Seq<char>, branch: Option<Seq<char>>, branch_commit: Seq<char>) -> Seq<char>
    decreases steps.len(),
{
    if steps.len() == 0 {
        head
    } else {
        let h = head_after(steps.drop_last(), head, branch, branch_commit);
        let s = steps.last();
        if s.0 {
            h
        } else if branch == Some(s.1) {
            branch_commit
        } else {
            s.1
        }
    }
}

pub open spec fn stash_count(steps: Seq<(bool, Seq<char>)>) -> nat
    decreases steps.len(),
{
    if steps.len() == 0 {
        0
    } else {
        stash_count(steps.drop_last()) + if steps.last().0 {
            1nat
        } else {
            0nat
        }
    }
}

/// Restoring a snapshot onto the unchanged workspace it was taken from moves
/// no HEAD: each repository ends on its recorded commit (its branch still
/// points there), and a dirty one is stashed exactly once.
pub proof fn lemma_restore_unchanged(rev: Seq<char>, sym: Option<Seq<char>>, porcelain: Seq<char>, name: Seq<char>)
    ensures
        ({
            let st = state_of(rev, sym, porcelain);
            let steps = restore_steps(st, st.2, st.1 is Some, name);
            &&& head_after(steps, st.0, st.1, st.0) == st.0
            &&& stash_count(steps) == (if st.2 { 1nat } else { 0nat })
        }),
{
    let st = state_of(rev, sym, porcelain);
    let steps = restore_steps(st, st.2, st.1 is Some, name);
    reveal_with_fuel(head_after, 3);
    reveal_with_fuel(stash_count, 3);
    if st.2 {
        assert(steps.drop_last() =~= seq![(true, stash_message(name))]);
        assert(steps.drop_last().drop_last() =~= Seq::<(bool, Seq<char>)>::empty());
    } else {
        assert(steps.drop_last() =~= Seq::<(bool, Seq<char>)>::empty());
    }
}

/// The arguments of `snapshot restore`: a name (the last word that is not
/// an option), `--force`/`-f`, and `--dry-run`.
pub struct RestoreArgs {
    pub name: String,
    pub force: bool,
    pub dry_run: bool,
}

pub open spec fn is_option(s: Seq<char>) -> bool {
    s.len() > 0 && s[0] == '-'
}

/// The last argument that is not an option.
pub open spec fn last_word(args: Seq<Seq<char>>) -> Option<Seq<char>>
    decreases args.len(),
{
    if args.len() == 0 {
        None
    } else if !is_option(args.last()) {
        Some(args.last())
    } else {
        last_word(args.drop_last())
    }
}

pub fn parse_restore_args(args: &Vec<String>, dry_run: bool) -> (r: Result<RestoreArgs, SnapshotError>)
    ensures
        match last_word(string_views(args@)) {
            Some(n) => r is Ok && r->Ok_0.name@ == n && r->Ok_0.force == (string_views(args@).contains("--force"@) || string_views(args@).contains("-f"@))
                && r->Ok_0.dry_run == (dry_run || string_views(args@).contains("--dry-run"@)),
            None => r is Err && r->Err_0 == SnapshotError::MissingName,
        },
{
    let ghost a = string_views(args@);
    let mut name: Option<String> = None;
    let mut force = false;
    let mut dry = dry_run;
    let mut i: usize = 0;
    while i < args.len()
        invariant
            i <= args.len(),
            a == string_views(args@),
            match name {
                Some(n) => last_word(a.subrange(0, i as int)) == Some(n@),
                None => last_word(a.subrange(0, i as int)) is None,
            },
            force == (a.subrange(0, i as int).contains("--force"@) || a.subrange(0, i as int).contains("-f"@)),
            dry == (dry_run || a.subrange(0, i as int).contains("--dry-run"@)),
        decreases args.len() - i,
    {
        let s = args[i].as_str();
        let ghost pre = a.subrange(0, i as int);
        let ghost nxt = a.subrange(0, i + 1);
        proof {
            assert(nxt.drop_last() =~= pre);
            assert(nxt.last() == s@);
            assert(a[i as int] == s@);
            assert forall|x: Seq<char>| nxt.contains(x) <==> (pre.contains(x) || x == s@) by {
                if nxt.contains(x) {
                    let j = choose|j: int| 0 <= j < nxt.len() && nxt[j] == x;
                    if j < pre.len() {
                        assert(pre[j] == x);
                    }
                }
                if pre.contains(x) {
                    let j = choose|j: int| 0 <= j < pre.len() && pre[j] == x;
                    assert(nxt[j] == x);
                }
                if x == s@ {
                    assert(nxt[i as int] == x);
                }
            }
        }
        if str_eq(s, "--force") || str_eq(s, "-f") {
            force = true;
        }
        if str_eq(s, "--dry-run") {
            dry = true;
        }
        let v = chars_of(s);
        if !(v.len() > 0 && v[0] == '-') {
            name = Some(args[i].clone());
        }
        i = i + 1;
    }
    proof {
        assert(a.subrange(0, args.len() as int) =~= a);
    }
    match name {
        Some(n) => Ok(RestoreArgs { name: n, force, dry_run: dry }),
        None => Err(SnapshotError::MissingName),
    }
}

} // verus!

verus! {

pub open spec fn captured_views(v: Seq<(String, Option<RepoState>)>) -> Seq<(Seq<char>, (Seq<char>, Option<Seq<char>>, bool))>
    decreases v.len(),
{
    if v.len() == 0 {
        Seq::empty()
    } else {
        let rest = captured_views(v.drop_last());
        match v.last().1 {
            Some(st) => rest.push((v.last().0@, state_view(st))),
            None => rest,
        }
    }
}

pub open spec fn recorded_views(v: Seq<(String, RepoState)>) -> Seq<(Seq<char>, (Seq<char>, Option<Seq<char>>, bool))> {
    v.map_values(|p: (String, RepoState)| (p.0@, state_view(p.1)))
}

/// The repositories a snapshot records: those whose state was captured (the
/// others are not git repositories), in order. A snapshot of nothing is refused.
pub fn collect_captured(results: Vec<(String, Option<RepoState>)>) -> (r: Result<Vec<(String, RepoState)>, SnapshotError>)
    ensures
        match r {
            Ok(v) => recorded_views(v@) == captured_views(results@) && v.len() > 0,
            Err(e) => e == SnapshotError::NoReposCaptured && captured_views(results@).len() == 0,
        },
{
    let ghost src = results@;
    let ghost n = src.len();
    let mut rest = results;
    let mut out: Vec<(String, RepoState)> = Vec::new();
    let mut i: usize = 0;
    assert(src.subrange(0, 0) =~= Seq::<(String, Option<RepoState>)>::empty());
    assert(recorded_views(out@) =~= Seq::empty());
    assert(rest@.subrange(0, n as int) =~= rest@);
    assert(n == rest.len());
    while rest.len() > 0
        invariant
            i <= n,
            n == src.len(),
            n <= usize::MAX,
            rest.len() == n - i,
            rest@ == src.subrange(i as int, n as int),
            recorded_views(out@) == captured_views(src.subrange(0, i as int)),
        decreases rest.len(),
    {
        let ghost r0 = rest@;
        let ghost o0 = out@;
        let p = rest.remove(0);
        proof {
            assert(p == src[i as int]);
            assert(rest@ =~= src.subrange(i + 1, n as int));
            assert(src.subrange(0, i + 1).drop_last() =~= src.subrange(0, i as int));
        }
        let (name, st) = p;
        match st {
            Some(s) => {
                out.push((name, s));
                proof {
                    assert(recorded_views(out@) =~= recorded_views(o0).push((src[i as int].0@, state_view(src[i as int].1->0))));
                }
            },
            None => {},
        }
        i = i + 1;
    }
    proof {
        assert(src.subrange(0, n as int) =~= src);
    }
    if out.len() == 0 {
        Err(SnapshotError::NoReposCaptured)
    } else {
        Ok(out)
    }
}

/// How many recorded repositories a restore checks out, how many of those
/// it stashes first, and how many it skips as missing; `present[i]` is the
/// current dirtiness of the i-th recorded repository, absent when it is gone.
pub open spec fn restore_counts(present: Seq<Option<bool>>) -> (nat, nat, nat)
    decreases present.len(),
{
    if present.len() == 0 {
        (0, 0, 0)
    } else {
        let (t, d, m) = restore_counts(present.drop_last());
        match present.last() {
            Some(dirty) => (t + 1, if dirty { d + 1 } else { d }, m),
            None => (t, d, m + 1),
        }
    }
}

proof fn lemma_restore_counts_bound(present: Seq<Option<bool>>)
    ensures
        restore_counts(present).0 + restore_counts(present).2 == present.len(),
        restore_counts(present).1 <= restore_counts(present).0,
    decreases present.len(),
{
    if present.len() > 0 {
        lemma_restore_counts_bound(present.drop_last());
    }
}

pub fn restore_summary(present: &Vec<Option<bool>>) -> (r: (usize, usize, usize))
    ensures
        (r.0 as nat, r.1 as nat, r.2 as nat) == restore_counts(present@),
{
    let mut t: usize = 0;
    let mut d: usize = 0;
    let mut m: usize = 0;
    let mut i: usize = 0;
    while i < present.len()
        invariant
            i <= present.len(),
            (t as nat, d as nat, m as nat) == restore_counts(present@.subrange(0, i as int)),
        decreases present.len() - i,
    {
        proof {
            assert(present@.subrange(0, i + 1).drop_last() =~= present@.subrange(0, i as int));
            lemma_restore_counts_bound(present@.subrange(0, i as int));
        }
        match present[i] {
            Some(dirty) => {
                t = t + 1;
                if dirty {
                    d = d + 1;
                }
            },
            None => {
                m = m + 1;
            },
        }
        i = i + 1;
    }
    assert(present@.subrange(0, present.len() as int) =~= present@);
    (t, d, m)
}

} // verus!
