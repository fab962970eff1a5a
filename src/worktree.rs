//! Decisions of the worktree commands: names, repository specs, branches,
//! expiry, pruning, and the strict-mode policy for warnings.
use crate::store::{StoreRepoEntry, WorktreeStoreEntry};
use crate::text::{chars_of, parse_u64, string_of, string_views, u64_text_value};
use vstd::prelude::*;

verus! {

/// A failure under strict mode, or a warning promoted to one.
#[derive(Debug)]
pub struct StrictError {
    pub message: String,
}

impl StrictError {
    pub fn to_string(&self) -> (r: String)
        ensures
            r@ == self.message@,
    {
        self.message.clone()
    }
}

pub open spec fn strict_text(message: Seq<char>) -> Seq<char> {
    message + " (strict mode)"@
}

/// A warning: under strict mode it fails with the message; otherwise the
/// caller reports it and goes on.
pub fn warn_or_bail(strict: bool, message: &str) -> (r: Result<(), StrictError>)
    ensures
        r is Ok <==> !strict,
        r is Err ==> r->Err_0.message@ == strict_text(message@),
{
    if strict {
        let mut m = chars_of(message);
        crate::text::append_chars(&mut m, &chars_of(" (strict mode)"));
        Err(StrictError { message: string_of(&m) })
    } else {
        Ok(())
    }
}

/// A failed store update is a warning, or under strict mode an error.
pub fn warn_store_error(result: Result<(), String>, strict: bool) -> (r: Result<(), StrictError>)
    ensures
        r is Err <==> (result is Err && strict),
        r is Err ==> r->Err_0.message@ == strict_text("Failed to update store: "@ + result->Err_0@),
{
    match result {
        Ok(()) => Ok(()),
        Err(e) => {
            let mut m = chars_of("Failed to update store: ");
            crate::text::append_chars(&mut m, &chars_of(e.as_str()));
            warn_or_bail(strict, string_of(&m).as_str())
        },
    }
}

pub open spec fn portable_char(c: char) -> bool {
    ('a' <= c && c <= 'z') || ('A' <= c && c <= 'Z') || ('0' <= c && c <= '9') || c == '.' || c
        == '_' || c == '-'
}

/// A worktree set name: non-empty, made of portable file-name characters,
/// and neither `.` nor `..`.
pub open spec fn valid_worktree_name(s: Seq<char>) -> bool {
    &&& s.len() > 0
    &&& forall|i: int| 0 <= i < s.len() ==> portable_char(#[trigger] s[i])
    &&& s != seq!['.']
    &&& s != seq!['.', '.']
}

#[derive(Debug)]
pub enum WorktreeError {
    InvalidName(String),
    ConflictingOptions,
    NoReposSelected,
    ProjectNotFound(String),
    RootNotAllowed,
    InvalidRepoSpec(String),
    /// The repository is already part of the set.
    DuplicateRepo(String),
}

/// The text of each error.
pub open spec fn error_text(e: WorktreeError) -> Seq<char> {
    match e {
        WorktreeError::InvalidName(n) => "Invalid worktree name '"@ + n@ + "': use letters, digits, '.', '_' and '-'"@,
        WorktreeError::ConflictingOptions => "--from-ref and --from-pr are mutually exclusive"@,
        WorktreeError::NoReposSelected => "Specify repos with --repo <alias> or use --all"@,
        WorktreeError::ProjectNotFound(a) => "Unknown repo alias '"@ + a@ + "'"@,
        WorktreeError::RootNotAllowed => "Cannot add '.' to an existing worktree: the root can only be part of a set from its creation"@,
        WorktreeError::InvalidRepoSpec(x) => "Invalid repo spec '"@ + x@ + "' (expected ALIAS or ALIAS:BRANCH)"@,
        WorktreeError::DuplicateRepo(a) => "Repo '"@ + a@ + "' already exists in the worktree"@,
    }
}

fn concat3(a: &str, b: &str, c: &str) -> (r: String)
    ensures
        r@ == a@ + b@ + c@,
{
    let mut m = chars_of(a);
    crate::text::append_chars(&mut m, &chars_of(b));
    crate::text::append_chars(&mut m, &chars_of(c));
    string_of(&m)
}

impl WorktreeError {
    pub fn message(&self) -> (r: String)
        ensures
            r@ == error_text(*self),
    {
        match self {
            WorktreeError::InvalidName(n) => concat3("Invalid worktree name '", n.as_str(), "': use letters, digits, '.', '_' and '-'"),
            WorktreeError::ConflictingOptions => "--from-ref and --from-pr are mutually exclusive".to_owned(),
            WorktreeError::NoReposSelected => "Specify repos with --repo <alias> or use --all".to_owned(),
            WorktreeError::ProjectNotFound(a) => concat3("Unknown repo alias '", a.as_str(), "'"),
            WorktreeError::RootNotAllowed => "Cannot add '.' to an existing worktree: the root can only be part of a set from its creation".to_owned(),
            WorktreeError::InvalidRepoSpec(x) => concat3("Invalid repo spec '", x.as_str(), "' (expected ALIAS or ALIAS:BRANCH)"),
            WorktreeError::DuplicateRepo(a) => concat3("Repo '", a.as_str(), "' already exists in the worktree"),
        }
    }
}

pub fn validate_worktree_name(name: &str) -> (r: Result<(), WorktreeError>)
    ensures
        r is Ok <==> valid_worktree_name(name@),
        r is Err ==> r->Err_0 is InvalidName,
{
    let s = chars_of(name);
    let mut ok = s.len() > 0 && !(s.len() == 1 && s[0] == '.') && !(s.len() == 2 && s[0] == '.'
        && s[1] == '.');
    proof {
        if s.len() == 1 && s[0] == '.' {
            assert(s@ =~= seq!['.']);
        }
        if s.len() == 2 && s[0] == '.' && s[1] == '.' {
            assert(s@ =~= seq!['.', '.']);
        }
        if s@ == seq!['.'] {
            assert(s@[0] == '.');
        }
        if s@ == seq!['.', '.'] {
            assert(s@[0] == '.' && s@[1] == '.');
        }
    }
    let mut i: usize = 0;
    while i < s.len()
        invariant
            i <= s.len(),
            ok ==> forall|j: int| 0 <= j < i ==> portable_char(#[trigger] s@[j]),
            !ok ==> !valid_worktree_name(s@),
            ok ==> (s@.len() > 0 && s@ != seq!['.'] && s@ != seq!['.', '.']),
        decreases s.len() - i,
    {
        let c = s[i];
        if !(('a' <= c && c <= 'z') || ('A' <= c && c <= 'Z') || ('0' <= c && c <= '9') || c == '.'
            || c == '_' || c == '-') {
            ok = false;
        }
        i = i + 1;
    }
    if ok {
        Ok(())
    } else {
        Err(WorktreeError::InvalidName(name.to_owned()))
    }
}

/// Seconds in one unit of a duration suffix.
pub open spec fn unit_seconds(c: char) -> nat {
    if c == 's' {
        1
    } else if c == 'm' {
        60
    } else if c == 'h' {
        3600
    } else if c == 'd' {
        86400
    } else if c == 'w' {
        604800
    } else {
        0
    }
}

/// The seconds that a duration such as `30s`, `5m`, `1h`, `2d` or `1w`
/// stands for; a bare number counts seconds.
pub open spec fn duration_seconds(s: Seq<char>) -> Option<nat> {
    let (num, mult) = if s.len() > 0 && unit_seconds(s.last()) > 0 {
        (s.drop_last(), unit_seconds(s.last()))
    } else {
        (s, 1nat)
    };
    match u64_text_value(num) {
        Some(n) => if n * mult <= u64::MAX {
            Some(n * mult)
        } else {
            None
        },
        None => None,
    }
}

pub fn parse_duration(s: &str) -> (r: Result<u64, String>)
    ensures
        match duration_seconds(s@) {
            Some(v) => r == Ok::<u64, String>(v as u64),
            None => r is Err,
        },
{
    let v = chars_of(s);
    let mut num = v.clone();
    let mut mult: u64 = 1;
    if v.len() > 0 {
        let c = v[v.len() - 1];
        let m: u64 = if c == 's' {
            1
        } else if c == 'm' {
            60
        } else if c == 'h' {
            3600
        } else if c == 'd' {
            86400
        } else if c == 'w' {
            604800
        } else {
            0
        };
        if m > 0 {
            num.pop();
            mult = m;
        }
    }
    proof {
        assert(v@ == s@);
        if v@.len() > 0 && unit_seconds(v@.last()) > 0 {
            assert(num@ =~= s@.drop_last());
        }
    }
    match parse_u64(&num) {
        Some(n) => {
            if n > u64::MAX / mult {
                proof {
                    assert((n as nat) * (mult as nat) > u64::MAX) by (nonlinear_arith)
                        requires
                            n > u64::MAX / mult,
                            mult > 0,
                    ;
                }
                Err("duration is too large".to_owned())
            } else {
                proof {
                    assert((n as nat) * (mult as nat) <= u64::MAX) by (nonlinear_arith)
                        requires
                            n <= u64::MAX / mult,
                            mult > 0,
                    ;
                }
                Ok(n * mult)
            }
        },
        None => Err("invalid duration (expected e.g. 30s, 5m, 1h, 2d or 1w)".to_owned()),
    }
}

/// A repository named on the command line, with an optional branch.
pub struct RepoSpec {
    pub alias: String,
    pub branch: Option<String>,
}

/// Index of the first `c` in `s`, or `s.len()`.
pub open spec fn first_index(s: Seq<char>, c: char) -> int
    decreases s.len(),
{
    if s.len() == 0 {
        0
    } else if s[0] == c {
        0
    } else {
        1 + first_index(s.drop_first(), c)
    }
}

pub proof fn lemma_first_index(s: Seq<char>, c: char, k: int)
    requires
        0 <= k <= s.len(),
        forall|j: int| 0 <= j < k ==> s[j] != c,
        k == s.len() || s[k] == c,
    ensures
        first_index(s, c) == k,
    decreases k,
{
    if k > 0 {
        lemma_first_index(s.drop_first(), c, k - 1);
    }
}

/// `alias` or `alias:branch`, split at the first colon; neither part may be empty.
pub open spec fn repo_spec_parts(s: Seq<char>) -> Option<(Seq<char>, Option<Seq<char>>)> {
    let p = first_index(s, ':');
    if p < s.len() {
        let a = s.subrange(0, p);
        let b = s.subrange(p + 1, s.len() as int);
        if a.len() > 0 && b.len() > 0 {
            Some((a, Some(b)))
        } else {
            None
        }
    } else if s.len() > 0 {
        Some((s, None))
    } else {
        None
    }
}

pub fn parse_repo_spec(s: &str) -> (r: Result<RepoSpec, WorktreeError>)
    ensures
        match repo_spec_parts(s@) {
            Some((a, b)) => r is Ok && r->Ok_0.alias@ == a && match r->Ok_0.branch {
                Some(x) => b == Some(x@),
                None => b is None,
            },
            None => r is Err && r->Err_0 is InvalidRepoSpec,
        },
{
    let v = chars_of(s);
    let mut p: usize = 0;
    while p < v.len() && v[p] != ':'
        invariant
            p <= v.len(),
            forall|j: int| 0 <= j < p ==> v@[j] != ':',
        decreases v.len() - p,
    {
        p = p + 1;
    }
    proof {
        lemma_first_index(s@, ':', p as int);
    }
    if p < v.len() {
        let a = crate::text::slice_of(&v, 0, p);
        let b = crate::text::slice_of(&v, p + 1, v.len());
        if a.len() > 0 && b.len() > 0 {
            Ok(RepoSpec { alias: string_of(&a), branch: Some(string_of(&b)) })
        } else {
            Err(WorktreeError::InvalidRepoSpec(s.to_owned()))
        }
    } else if v.len() > 0 {
        Ok(RepoSpec { alias: s.to_owned(), branch: None })
    } else {
        Err(WorktreeError::InvalidRepoSpec(s.to_owned()))
    }
}

/// The branch of one repository of a set: its own, else the set-wide one,
/// else `wt/<set name>`.
pub open spec fn branch_for(set_name: Seq<char>, flag: Option<Seq<char>>, own: Option<Seq<char>>) -> Seq<char> {
    match own {
        Some(b) => b,
        None => match flag {
            Some(f) => f,
            None => "wt/"@ + set_name,
        },
    }
}

pub fn resolve_branch(set_name: &str, flag: Option<&str>, own: Option<&str>) -> (r: String)
    ensures
        r@ == branch_for(
            set_name@,
            match flag {
                Some(f) => Some(f@),
                None => None,
            },
            match own {
                Some(b) => Some(b@),
                None => None,
            },
        ),
{
    match own {
        Some(b) => b.to_owned(),
        None => match flag {
            Some(f) => f.to_owned(),
            None => {
                let mut m = chars_of("wt/");
                crate::text::append_chars(&mut m, &chars_of(set_name));
                string_of(&m)
            },
        },
    }
}

/// `--from-ref` and `--from-pr` exclude each other.
pub fn check_start_options(from_ref: Option<&str>, from_pr: Option<&str>) -> (r: Result<(), WorktreeError>)
    ensures
        r is Err <==> (from_ref is Some && from_pr is Some),
        r is Err ==> r->Err_0 is ConflictingOptions,
{
    if from_ref.is_some() && from_pr.is_some() {
        Err(WorktreeError::ConflictingOptions)
    } else {
        Ok(())
    }
}

} // verus!

verus! {

/// The seconds since the Unix epoch that an RFC 3339 date-time stands for,
/// or nothing when the text is not one.
pub uninterp spec fn rfc3339_seconds(s: Seq<char>) -> Option<int>;

/// Relies on chrono's `DateTime::parse_from_rfc3339` (it accepts exactly the
/// RFC 3339 date-times) and `DateTime::timestamp` (seconds since the epoch):
/// the result depends on the text alone.
#[verifier::external_body]
fn parse_rfc3339_seconds(s: &str) -> (r: Option<i64>)
    ensures
        r is Some <==> rfc3339_seconds(s@) is Some,
        r is Some ==> rfc3339_seconds(s@)->0 == r->0 as int,
{
    match chrono::DateTime::parse_from_rfc3339(s) {
        Ok(d) => Some(d.timestamp()),
        Err(_) => None,
    }
}

pub open spec fn clamp_i64(x: int) -> int {
    if x < i64::MIN {
        i64::MIN as int
    } else if x > i64::MAX {
        i64::MAX as int
    } else {
        x
    }
}

/// Seconds left before an entry expires: none without a TTL; otherwise the
/// creation time plus the TTL minus `now` (negative once expired), where an
/// unreadable creation time counts as expiring now.
pub open spec fn ttl_left(created: Option<int>, ttl: Option<u64>, now: int) -> Option<int> {
    match ttl {
        None => None,
        Some(t) => match created {
            Some(c) => Some(clamp_i64(c + t - now)),
            None => Some(0),
        },
    }
}

pub fn ttl_remaining_at(created: Option<i64>, ttl_seconds: Option<u64>, now: i64) -> (r: Option<i64>)
    ensures
        r is Some <==> ttl_seconds is Some,
        r is Some ==> r->0 as int == ttl_left(
            match created {
                Some(c) => Some(c as int),
                None => None,
            },
            ttl_seconds,
            now as int,
        )->0,
{
    match ttl_seconds {
        None => None,
        Some(t) => match created {
            None => Some(0),
            Some(c) => {
                let x: i128 = c as i128 + t as i128 - now as i128;
                if x < i64::MIN as i128 {
                    Some(i64::MIN)
                } else if x > i64::MAX as i128 {
                    Some(i64::MAX)
                } else {
                    Some(x as i64)
                }
            },
        },
    }
}

/// Seconds left before `entry` expires at `now` (seconds since the epoch).
pub fn entry_ttl_remaining(entry: &WorktreeStoreEntry, now: i64) -> (r: Option<i64>)
    ensures
        r is Some <==> entry.ttl_seconds is Some,
        r is Some ==> r->0 as int == ttl_left(rfc3339_seconds(entry.created_at@), entry.ttl_seconds, now as int)->0,
{
    let created = parse_rfc3339_seconds(entry.created_at.as_str());
    ttl_remaining_at(created, entry.ttl_seconds, now)
}

/// A store entry that `prune` removes, and why.
pub struct PruneEntry {
    pub name: String,
    pub path: String,
    pub reason: String,
    /// For an expired entry: its TTL plus the seconds since it expired.
    pub age_seconds: Option<u64>,
}

pub fn create_prune_entry(name: String, path: String, reason: &str, age_seconds: Option<u64>) -> (r: PruneEntry)
    ensures
        r.name == name,
        r.path == path,
        r.reason@ == reason@,
        r.age_seconds == age_seconds,
{
    PruneEntry { name, path, reason: reason.to_owned(), age_seconds }
}

pub open spec fn repo_aliases(e: WorktreeStoreEntry) -> Seq<Seq<char>> {
    e.repos@.map_values(|r: StoreRepoEntry| r.alias@)
}

/// Every repository of the entry is gone from its project's manifest (and
/// it has at least one); without a readable manifest nothing can be said.
pub open spec fn all_repos_gone(aliases: Seq<Seq<char>>, names: Option<Seq<Seq<char>>>) -> bool {
    match names {
        Some(ns) => aliases.len() > 0 && forall|i: int| 0 <= i < aliases.len() ==> !ns.contains(#[trigger] aliases[i]),
        None => false,
    }
}

pub open spec fn opt_views(o: Option<&Vec<String>>) -> Option<Seq<Seq<char>>> {
    match o {
        Some(v) => Some(string_views(v@)),
        None => None,
    }
}

fn names_contain(names: &Vec<String>, s: &String) -> (r: bool)
    ensures
        r == string_views(names@).contains(s@),
{
    let mut i: usize = 0;
    while i < names.len()
        invariant
            i <= names.len(),
            forall|j: int| 0 <= j < i ==> names@[j]@ != s@,
        decreases names.len() - i,
    {
        if names[i] == *s {
            assert(string_views(names@)[i as int] == s@);
            return true;
        }
        i = i + 1;
    }
    assert forall|j: int| 0 <= j < string_views(names@).len() implies string_views(names@)[j] != s@ by {
        assert(names@[j]@ != s@);
    }
    false
}

/// Whether the entry's repositories have all left the project's manifest
/// (`project_names`: the manifest's project names, if it could be read).
pub fn check_repo_orphaned(entry: &WorktreeStoreEntry, project_names: Option<&Vec<String>>) -> (r: Option<String>)
    ensures
        r is Some <==> all_repos_gone(repo_aliases(*entry), opt_views(project_names)),
        r is Some ==> r->0@ == "orphaned (all source repos removed from project)"@,
{
    let names = match project_names {
        Some(n) => n,
        None => {
            return None;
        },
    };
    if entry.repos.len() == 0 {
        return None;
    }
    let ghost al = repo_aliases(*entry);
    let mut i: usize = 0;
    while i < entry.repos.len()
        invariant
            i <= entry.repos.len(),
            al == repo_aliases(*entry),
            opt_views(project_names) == Some(string_views(names@)),
            forall|j: int| 0 <= j < i ==> !string_views(names@).contains(#[trigger] al[j]),
        decreases entry.repos.len() - i,
    {
        if names_contain(names, &entry.repos[i].alias) {
            assert(al[i as int] == entry.repos@[i as int].alias@);
            assert(string_views(names@).contains(al[i as int]));
            return None;
        }
        i = i + 1;
    }
    Some("orphaned (all source repos removed from project)".to_owned())
}

/// Why an entry is pruned, with its age for an expired one, in the order the
/// checks run: missing set root, missing project, repositories gone from
/// the manifest, TTL run out.
pub open spec fn prune_verdict(
    e: WorktreeStoreEntry,
    dir_exists: bool,
    project_exists: bool,
    names: Option<Seq<Seq<char>>>,
    created: Option<int>,
    now: int,
) -> Option<(Seq<char>, Option<nat>)> {
    if !dir_exists {
        Some(("orphaned (missing directory)"@, None))
    } else if !project_exists {
        Some(("orphaned (source project missing)"@, None))
    } else if all_repos_gone(repo_aliases(e), names) {
        Some(("orphaned (all source repos removed from project)"@, None))
    } else {
        match ttl_left(created, e.ttl_seconds, now) {
            Some(left) => if left <= 0 {
                let age = e.ttl_seconds->0 + (-left);
                Some(("ttl_expired"@, Some(if age > u64::MAX { u64::MAX as nat } else { age as nat })))
            } else {
                None
            },
            None => None,
        }
    }
}

/// The prune decision for the entry stored under `key`, given what is on disk
/// and the parsed creation time.
pub fn classify_prune_at(
    key: &String,
    entry: &WorktreeStoreEntry,
    dir_exists: bool,
    project_exists: bool,
    project_names: Option<&Vec<String>>,
    created: Option<i64>,
    now: i64,
) -> (r: Option<PruneEntry>)
    ensures
        match prune_verdict(
            *entry,
            dir_exists,
            project_exists,
            opt_views(project_names),
            match created {
                Some(c) => Some(c as int),
                None => None,
            },
            now as int,
        ) {
            Some((reason, age)) => r is Some && r->0.name@ == entry.name@ && r->0.path@ == key@
                && r->0.reason@ == reason && match r->0.age_seconds {
                Some(a) => age == Some(a as nat),
                None => age is None,
            },
            None => r is None,
        },
{
    if !dir_exists {
        return Some(create_prune_entry(entry.name.clone(), key.clone(), "orphaned (missing directory)", None));
    }
    if !project_exists {
        return Some(create_prune_entry(entry.name.clone(), key.clone(), "orphaned (source project missing)", None));
    }
    match check_repo_orphaned(entry, project_names) {
        Some(reason) => {
            return Some(create_prune_entry(entry.name.clone(), key.clone(), reason.as_str(), None));
        },
        None => {},
    }
    match ttl_remaining_at(created, entry.ttl_seconds, now) {
        Some(left) => {
            if left <= 0 {
                let ttl = match entry.ttl_seconds {
                    Some(t) => t,
                    None => 0,
                };
                let overdue: u128 = (0i128 - left as i128) as u128;
                let total: u128 = ttl as u128 + overdue;
                let age: u64 = if total > u64::MAX as u128 {
                    u64::MAX
                } else {
                    total as u64
                };
                Some(create_prune_entry(entry.name.clone(), key.clone(), "ttl_expired", Some(age)))
            } else {
                None
            }
        },
        None => None,
    }
}

/// The prune decision for the entry stored under `key` at `now`.
pub fn classify_prune(
    key: &String,
    entry: &WorktreeStoreEntry,
    dir_exists: bool,
    project_exists: bool,
    project_names: Option<&Vec<String>>,
    now: i64,
) -> (r: Option<PruneEntry>)
    ensures
        match prune_verdict(
            *entry,
            dir_exists,
            project_exists,
            opt_views(project_names),
            rfc3339_seconds(entry.created_at@),
            now as int,
        ) {
            Some((reason, age)) => r is Some && r->0.name@ == entry.name@ && r->0.path@ == key@
                && r->0.reason@ == reason && match r->0.age_seconds {
                Some(a) => age == Some(a as nat),
                None => age is None,
            },
            None => r is None,
        },
{
    let created = parse_rfc3339_seconds(entry.created_at.as_str());
    proof {
        assert(match created {
            Some(c) => Some(c as int),
            None => None,
        } == rfc3339_seconds(entry.created_at@));
    }
    classify_prune_at(key, entry, dir_exists, project_exists, project_names, created, now)
}

} // verus!

verus! {

pub open spec fn spec_aliases(specs: Seq<RepoSpec>) -> Seq<Seq<char>> {
    specs.map_values(|s: RepoSpec| s.alias@)
}

pub open spec fn project_names(ps: Seq<crate::manifest::ProjectRecord>) -> Seq<Seq<char>> {
    ps.map_values(|p: crate::manifest::ProjectRecord| p.name@)
}

/// The repositories a new set takes by default: the workspace root when it
/// is a repository or is asked for, each repository asked for, and everything
/// those depend on.
pub open spec fn default_selection(
    specs: Seq<Seq<char>>,
    root_is_repo: bool,
    g: Seq<crate::deps::NodeModel>,
    a: Seq<char>,
) -> bool {
    ||| a == seq!['.'] && (root_is_repo || specs.contains(seq!['.']))
    ||| a != seq!['.'] && specs.contains(a)
    ||| exists|i: int| 0 <= i < specs.len() && specs[i] != seq!['.'] && #[trigger] crate::deps::reachable(g, specs[i], a)
}

fn is_root(s: &String) -> (r: bool)
    ensures
        r == (s@ == seq!['.']),
{
    let v = chars_of(s.as_str());
    let r = v.len() == 1 && v[0] == '.';
    proof {
        if v.len() == 1 && v[0] == '.' {
            assert(v@ =~= seq!['.']);
        }
    }
    r
}

fn push_new(out: &mut Vec<String>, s: &String)
    requires
        string_views(old(out)@).no_duplicates(),
    ensures
        string_views(final(out)@).no_duplicates(),
        string_views(final(out)@).to_set() == string_views(old(out)@).to_set().insert(s@),
        string_views(old(out)@).is_prefix_of(string_views(final(out)@)),
{
    let ghost before = string_views(out@);
    if !names_contain(out, s) {
        out.push(s.clone());
        proof {
            let after = string_views(out@);
            assert(after =~= before.push(s@));
            before.lemma_push_to_set_commute(s@);
            assert forall|a: int, b: int| 0 <= a < b < after.len() implies after[a] != after[b] by {
                if b == before.len() {
                    assert(before.contains(before[a]));
                } else {
                    assert(after[a] == before[a] && after[b] == before[b]);
                }
            }
        }
    } else {
        assert(before.to_set() =~= before.to_set().insert(s@));
    }
}

/// The aliases of the repositories a set takes: with `all`, the root (when
/// it is a repository) and every project; with `no_deps`, those asked for;
/// otherwise those of `default_selection`, the root first. An alias that is
/// neither `.` nor a project is an error.
pub fn select_repos(
    specs: &Vec<RepoSpec>,
    all: bool,
    no_deps: bool,
    projects: &Vec<crate::manifest::ProjectRecord>,
    graph: &crate::deps::DependencyGraph,
    root_is_repo: bool,
) -> (r: Result<Vec<String>, WorktreeError>)
    ensures
        r is Err && r->Err_0 is NoReposSelected <==> (!all && specs.len() == 0),
        r is Err ==> r->Err_0 is NoReposSelected || r->Err_0 is ProjectNotFound,
        r is Err && r->Err_0 is ProjectNotFound ==> !all && exists|i: int|
            0 <= i < specs.len() && spec_aliases(specs@)[i] != seq!['.'] && !project_names(projects@).contains(#[trigger] spec_aliases(specs@)[i]),
        r is Ok && !all ==> forall|i: int|
            0 <= i < specs.len() && #[trigger] spec_aliases(specs@)[i] != seq!['.'] ==> project_names(projects@).contains(spec_aliases(specs@)[i]),
        r is Ok && all ==> string_views(r->Ok_0@) == (if root_is_repo {
            seq![seq!['.']]
        } else {
            Seq::empty()
        }) + project_names(projects@),
        r is Ok && !all && no_deps ==> string_views(r->Ok_0@) == spec_aliases(specs@),
        r is Ok && !all && !no_deps && string_views(r->Ok_0@).contains(seq!['.']) ==> r->Ok_0@[0]@ == seq!['.'],
        r is Ok && !all && !no_deps ==> string_views(r->Ok_0@).no_duplicates() && forall|a: Seq<char>|
            #[trigger] string_views(r->Ok_0@).contains(a) <==> default_selection(
                spec_aliases(specs@),
                root_is_repo,
                graph.model(),
                a,
            ),
{
    let ghost sa = spec_aliases(specs@);
    let ghost pn = project_names(projects@);
    proof {
        reveal_strlit(".");
        assert("."@ =~= seq!['.']);
    }
    if !all && specs.len() == 0 {
        return Err(WorktreeError::NoReposSelected);
    }
    let mut out: Vec<String> = Vec::new();
    if all {
        if root_is_repo {
            out.push(".".to_owned());
        }
        let ghost base = string_views(out@);
        proof {
            assert(base =~= (if root_is_repo { seq![seq!['.']] } else { Seq::empty() }));
        }
        let mut i: usize = 0;
        while i < projects.len()
            invariant
                i <= projects.len(),
                pn == project_names(projects@),
                string_views(out@) == base + pn.subrange(0, i as int),
            decreases projects.len() - i,
        {
            let ghost b0 = out@;
            out.push(projects[i].name.clone());
            proof {
                assert(out@ == b0.push(out@.last()));
                assert(out@.last()@ == pn[i as int]);
                assert(string_views(out@) =~= string_views(b0).push(pn[i as int]));
                assert(string_views(out@) =~= base + pn.subrange(0, i + 1));
            }
            i = i + 1;
        }
        proof {
            assert(pn.subrange(0, projects.len() as int) =~= pn);
        }
        return Ok(out);
    }
    // every alias asked for must be the root or a project
    let mut i: usize = 0;
    while i < specs.len()
        invariant
            i <= specs.len(),
            sa == spec_aliases(specs@),
            pn == project_names(projects@),
            forall|j: int| 0 <= j < i && #[trigger] sa[j] != seq!['.'] ==> pn.contains(sa[j]),
            !all,
        decreases specs.len() - i,
    {
        proof {
            assert(sa[i as int] == specs@[i as int].alias@);
        }
        if !is_root(&specs[i].alias) && !project_named(projects, &specs[i].alias) {
            proof {
                assert(sa[i as int] != seq!['.'] && !pn.contains(sa[i as int]));
                assert(spec_aliases(specs@)[i as int] != seq!['.'] && !project_names(projects@).contains(spec_aliases(specs@)[i as int]));
                assert(!all);
            }
            return Err(WorktreeError::ProjectNotFound(specs[i].alias.clone()));
        }
        i = i + 1;
    }
    if no_deps {
        let mut k: usize = 0;
        while k < specs.len()
            invariant
                k <= specs.len(),
                sa == spec_aliases(specs@),
                string_views(out@) == sa.subrange(0, k as int),
            decreases specs.len() - k,
        {
            let ghost b0 = out@;
            out.push(specs[k].alias.clone());
            proof {
                assert(out@.last()@ == sa[k as int]);
                assert(string_views(out@) =~= string_views(b0).push(sa[k as int]));
                assert(string_views(out@) =~= sa.subrange(0, k + 1));
            }
            k = k + 1;
        }
        proof {
            assert(sa.subrange(0, specs.len() as int) =~= sa);
        }
        return Ok(out);
    }
    let root = ".".to_owned();
    proof {
        reveal_strlit(".");
        assert(root@ =~= seq!['.']);
    }
    let mut want_root = root_is_repo;
    let mut k: usize = 0;
    while k < specs.len()
        invariant
            k <= specs.len(),
            sa == spec_aliases(specs@),
            want_root == (root_is_repo || sa.subrange(0, k as int).contains(seq!['.'])),
        decreases specs.len() - k,
    {
        proof {
            assert(sa[k as int] == specs@[k as int].alias@);
            lemma_prefix_push_contains(sa, k as int, seq!['.']);
        }
        if is_root(&specs[k].alias) {
            want_root = true;
        }
        k = k + 1;
    }
    proof {
        assert(sa.subrange(0, specs.len() as int) =~= sa);
    }
    let ghost g = graph.model();
    let ghost want0 = want_root;
    // the selection other than the root, in order of first inclusion
    let mut rest: Vec<String> = Vec::new();
    proof {
        assert(string_views(rest@) =~= Seq::<Seq<char>>::empty());
    }
    let mut k: usize = 0;
    while k < specs.len()
        invariant
            k <= specs.len(),
            sa == spec_aliases(specs@),
            g == graph.model(),
            root@ == seq!['.'],
            want0 == (root_is_repo || sa.contains(seq!['.'])),
            want_root == (want0 || exists|i: int| 0 <= i < k && sa[i] != seq!['.'] && #[trigger] crate::deps::reachable(g, sa[i], seq!['.'])),
            string_views(rest@).no_duplicates(),
            forall|a: Seq<char>| #[trigger] string_views(rest@).contains(a) <==> a != seq!['.'] && (
                sa.subrange(0, k as int).contains(a)
                || exists|i: int| 0 <= i < k && sa[i] != seq!['.'] && #[trigger] crate::deps::reachable(g, sa[i], a)
            ),
        decreases specs.len() - k,
    {
        let ghost before = string_views(rest@);
        let ghost w_before = want_root;
        let spec = &specs[k];
        proof {
            assert(sa[k as int] == spec.alias@);
        }
        if !is_root(&spec.alias) {
            push_new(&mut rest, &spec.alias);
            let deps = graph.all_dependencies(spec.alias.as_str());
            let mut d: usize = 0;
            proof {
                assert(string_views(deps@).subrange(0, 0) =~= Seq::<Seq<char>>::empty());
                assert forall|a: Seq<char>| #[trigger] string_views(rest@).contains(a) <==> (before.contains(a) || a == spec.alias@
                    || (a != seq!['.'] && string_views(deps@).subrange(0, 0).contains(a))) by {
                    assert(string_views(rest@).contains(a) == string_views(rest@).to_set().contains(a));
                    assert(before.contains(a) == before.to_set().contains(a));
                }
            }
            while d < deps.len()
                invariant
                    d <= deps.len(),
                    root@ == seq!['.'],
                    string_views(rest@).no_duplicates(),
                    forall|a: Seq<char>| #[trigger] string_views(rest@).contains(a) <==> (before.contains(a) || a == spec.alias@
                        || (a != seq!['.'] && string_views(deps@).subrange(0, d as int).contains(a))),
                    want_root == (w_before || string_views(deps@).subrange(0, d as int).contains(seq!['.'])),
                decreases deps.len() - d,
            {
                let ghost b2 = string_views(rest@);
                proof {
                    assert(string_views(deps@)[d as int] == deps@[d as int]@);
                    assert forall|x: Seq<char>| string_views(deps@).subrange(0, d + 1).contains(x) <==> (string_views(deps@).subrange(0, d as int).contains(x) || x == deps@[d as int]@) by {
                        lemma_prefix_push_contains(string_views(deps@), d as int, x);
                    }
                }
                if is_root(&deps[d]) {
                    want_root = true;
                    proof {
                        assert forall|a: Seq<char>| #[trigger] string_views(rest@).contains(a) <==> (before.contains(a) || a == spec.alias@
                            || (a != seq!['.'] && string_views(deps@).subrange(0, d + 1).contains(a))) by {
                            lemma_prefix_push_contains(string_views(deps@), d as int, a);
                        }
                    }
                } else {
                    push_new(&mut rest, &deps[d]);
                    proof {
                        assert forall|a: Seq<char>| #[trigger] string_views(rest@).contains(a) <==> (before.contains(a) || a == spec.alias@
                            || (a != seq!['.'] && string_views(deps@).subrange(0, d + 1).contains(a))) by {
                            lemma_prefix_push_contains(string_views(deps@), d as int, a);
                            assert(string_views(rest@).contains(a) == string_views(rest@).to_set().contains(a));
                            assert(b2.contains(a) == b2.to_set().contains(a));
                        }
                    }
                }
                d = d + 1;
            }
            proof {
                assert(string_views(deps@).subrange(0, deps.len() as int) =~= string_views(deps@));
                lemma_prefix_push_contains(sa, k as int, seq!['.']);
                let after = string_views(rest@);
                if string_views(deps@).contains(seq!['.']) {
                    assert(crate::deps::reachable(g, sa[k as int], seq!['.']));
                }
                if exists|i: int| 0 <= i < k + 1 && sa[i] != seq!['.'] && #[trigger] crate::deps::reachable(g, sa[i], seq!['.']) {
                    let i = choose|i: int| 0 <= i < k + 1 && sa[i] != seq!['.'] && #[trigger] crate::deps::reachable(g, sa[i], seq!['.']);
                    if i == k {
                        assert(string_views(deps@).contains(seq!['.']));
                    }
                }
                assert forall|a: Seq<char>| #[trigger] after.contains(a) <==> a != seq!['.'] && (
                    sa.subrange(0, k + 1).contains(a)
                    || exists|i: int| 0 <= i < k + 1 && sa[i] != seq!['.'] && #[trigger] crate::deps::reachable(g, sa[i], a)
                ) by {
                    lemma_prefix_push_contains(sa, k as int, a);
                    if string_views(deps@).contains(a) {
                        assert(crate::deps::reachable(g, sa[k as int], a));
                    }
                    if crate::deps::reachable(g, sa[k as int], a) {
                        assert(string_views(deps@).contains(a));
                    }
                    if exists|i: int| 0 <= i < k + 1 && sa[i] != seq!['.'] && #[trigger] crate::deps::reachable(g, sa[i], a) {
                        let i = choose|i: int| 0 <= i < k + 1 && sa[i] != seq!['.'] && #[trigger] crate::deps::reachable(g, sa[i], a);
                        if i < k {
                            assert(before.contains(a) || a == seq!['.']);
                        }
                    }
                }
            }
        } else {
            proof {
                lemma_prefix_push_contains(sa, k as int, seq!['.']);
                assert forall|a: Seq<char>| #[trigger] string_views(rest@).contains(a) <==> a != seq!['.'] && (
                    sa.subrange(0, k + 1).contains(a)
                    || exists|i: int| 0 <= i < k + 1 && sa[i] != seq!['.'] && #[trigger] crate::deps::reachable(g, sa[i], a)
                ) by {
                    lemma_prefix_push_contains(sa, k as int, a);
                }
                if exists|i: int| 0 <= i < k + 1 && sa[i] != seq!['.'] && #[trigger] crate::deps::reachable(g, sa[i], seq!['.']) {
                    let i = choose|i: int| 0 <= i < k + 1 && sa[i] != seq!['.'] && #[trigger] crate::deps::reachable(g, sa[i], seq!['.']);
                    assert(i < k);
                }
            }
        }
        k = k + 1;
    }
    proof {
        assert(sa.subrange(0, specs.len() as int) =~= sa);
    }
    if want_root {
        out.push(root);
    }
    let ghost head = string_views(out@);
    let mut j: usize = 0;
    while j < rest.len()
        invariant
            j <= rest.len(),
            string_views(out@) == head + string_views(rest@).subrange(0, j as int),
        decreases rest.len() - j,
    {
        let ghost o0 = string_views(out@);
        out.push(rest[j].clone());
        proof {
            assert(string_views(out@) =~= o0.push(rest@[j as int]@));
            assert(string_views(rest@).subrange(0, j + 1) =~= string_views(rest@).subrange(0, j as int).push(rest@[j as int]@));
        }
        j = j + 1;
    }
    proof {
        let rv = string_views(rest@);
        assert(rv.subrange(0, rest.len() as int) =~= rv);
        let o = string_views(out@);
        if want_root {
            assert(head =~= seq![seq!['.']]);
            assert(o =~= seq![seq!['.']] + rv);
        } else {
            assert(head =~= Seq::<Seq<char>>::empty());
            assert(o =~= rv);
        }
        assert(!rv.contains(seq!['.']));
        assert forall|a: Seq<char>| #[trigger] o.contains(a) <==> (a == seq!['.'] && want_root) || (a != seq!['.'] && rv.contains(a)) by {
            if o.contains(a) {
                let i = choose|i: int| 0 <= i < o.len() && o[i] == a;
                if want_root && i > 0 {
                    assert(rv[i - 1] == a);
                }
            }
            if rv.contains(a) && want_root {
                let i = choose|i: int| 0 <= i < rv.len() && rv[i] == a;
                assert(o[i + 1] == a);
            }
            if a == seq!['.'] && want_root {
                assert(o[0] == a);
            }
        }
        assert(o.no_duplicates()) by {
            assert forall|x: int, y: int| 0 <= x < y < o.len() implies o[x] != o[y] by {
                if want_root {
                    if x == 0 {
                        assert(o[y] == rv[y - 1]);
                        assert(rv.contains(rv[y - 1]));
                    } else {
                        assert(o[x] == rv[x - 1] && o[y] == rv[y - 1]);
                    }
                }
            }
        }
        assert forall|a: Seq<char>| #[trigger] o.contains(a) <==> default_selection(sa, root_is_repo, g, a) by {
            if a != seq!['.'] && sa.contains(a) {
                let j = choose|j: int| 0 <= j < sa.len() && #[trigger] sa[j] == a;
                assert(sa.subrange(0, sa.len() as int)[j] == a);
            }
        }
        if o.contains(seq!['.']) {
            assert(want_root);
            assert(o[0] == seq!['.']);
        }
    }
    Ok(out)
}

proof fn lemma_prefix_push_contains(s: Seq<Seq<char>>, k: int, x: Seq<char>)
    requires
        0 <= k < s.len(),
    ensures
        s.subrange(0, k + 1).contains(x) <==> (s.subrange(0, k).contains(x) || s[k] == x),
{
    assert(s.subrange(0, k + 1) =~= s.subrange(0, k).push(s[k]));
    if s.subrange(0, k + 1).contains(x) {
        let j = choose|j: int| 0 <= j < k + 1 && #[trigger] s.subrange(0, k + 1)[j] == x;
        if j < k {
            assert(s.subrange(0, k)[j] == x);
        }
    }
    if s.subrange(0, k).contains(x) {
        let j = choose|j: int| 0 <= j < k && #[trigger] s.subrange(0, k)[j] == x;
        assert(s.subrange(0, k + 1)[j] == x);
    }
    if s[k] == x {
        assert(s.subrange(0, k + 1)[k] == x);
    }
}

fn project_named(projects: &Vec<crate::manifest::ProjectRecord>, name: &String) -> (r: bool)
    ensures
        r == project_names(projects@).contains(name@),
{
    let ghost pn = project_names(projects@);
    let mut i: usize = 0;
    while i < projects.len()
        invariant
            i <= projects.len(),
            pn == project_names(projects@),
            forall|j: int| 0 <= j < i ==> pn[j] != name@,
        decreases projects.len() - i,
    {
        if projects[i].name == *name {
            assert(pn[i as int] == name@);
            return true;
        }
        i = i + 1;
    }
    false
}

} // verus!

verus! {

/// The branch that the first spec naming `alias` asks for.
pub open spec fn own_branch(specs: Seq<RepoSpec>, alias: Seq<char>) -> Option<Seq<char>>
    decreases specs.len(),
{
    if specs.len() == 0 {
        None
    } else if specs[0].alias@ == alias {
        match specs[0].branch {
            Some(b) => Some(b@),
            None => None,
        }
    } else {
        own_branch(specs.drop_first(), alias)
    }
}

fn find_own_branch(specs: &Vec<RepoSpec>, alias: &String) -> (r: Option<String>)
    ensures
        match r {
            Some(b) => own_branch(specs@, alias@) == Some(b@),
            None => own_branch(specs@, alias@) is None,
        },
{
    let mut i: usize = 0;
    assert(specs@.subrange(0, specs@.len() as int) =~= specs@);
    while i < specs.len()
        invariant
            i <= specs.len(),
            own_branch(specs@, alias@) == own_branch(specs@.subrange(i as int, specs@.len() as int), alias@),
        decreases specs.len() - i,
    {
        proof {
            assert(specs@.subrange(i as int, specs@.len() as int).drop_first() =~= specs@.subrange(i + 1, specs@.len() as int));
        }
        if specs[i].alias == *alias {
            return match &specs[i].branch {
                Some(b) => Some(b.clone()),
                None => None,
            };
        }
        i = i + 1;
    }
    None
}

/// A repository of a set to be made, with its branch.
pub struct PlannedRepo {
    pub alias: String,
    pub branch: String,
}

/// The branch of each selected repository: its own spec's, else the
/// set-wide one, else `wt/<set name>`.
pub fn plan_branches(set_name: &str, flag: Option<&str>, aliases: &Vec<String>, specs: &Vec<RepoSpec>) -> (r: Vec<PlannedRepo>)
    ensures
        r.len() == aliases.len(),
        forall|i: int|
            0 <= i < r.len() ==> #[trigger] r@[i].alias@ == aliases@[i]@ && r@[i].branch@ == branch_for(
                set_name@,
                match flag {
                    Some(f) => Some(f@),
                    None => None,
                },
                own_branch(specs@, aliases@[i]@),
            ),
{
    let mut out: Vec<PlannedRepo> = Vec::new();
    let mut i: usize = 0;
    while i < aliases.len()
        invariant
            i <= aliases.len(),
            out.len() == i,
            forall|j: int|
                0 <= j < i ==> #[trigger] out@[j].alias@ == aliases@[j]@ && out@[j].branch@ == branch_for(
                    set_name@,
                    match flag {
                        Some(f) => Some(f@),
                        None => None,
                    },
                    own_branch(specs@, aliases@[j]@),
                ),
        decreases aliases.len() - i,
    {
        let own = find_own_branch(specs, &aliases[i]);
        let branch = match &own {
            Some(b) => resolve_branch(set_name, flag, Some(b.as_str())),
            None => resolve_branch(set_name, flag, None),
        };
        let ghost o0 = out@;
        out.push(PlannedRepo { alias: aliases[i].clone(), branch });
        proof {
            assert forall|j: int| 0 <= j < i implies #[trigger] out@[j] == o0[j] by {}
        }
        i = i + 1;
    }
    out
}

/// The text after the last `/` (all of it when there is none).
pub open spec fn last_segment(s: Seq<char>) -> Seq<char>
    decreases s.len(),
{
    if s.len() == 0 {
        s
    } else if s.last() == '/' {
        Seq::empty()
    } else {
        last_segment(s.drop_last()).push(s.last())
    }
}

/// The directory name of a repository inside a set: the last segment of its alias.
pub fn child_dest_name(alias: &str) -> (r: String)
    ensures
        r@ == last_segment(alias@),
{
    let v = chars_of(alias);
    let mut start: usize = v.len();
    assert(v@.subrange(0, v@.len() as int) =~= v@);
    assert(v@.subrange(v@.len() as int, v@.len() as int) =~= Seq::<char>::empty());
    assert(v@ + Seq::<char>::empty() =~= v@);
    while start > 0 && v[start - 1] != '/'
        invariant
            start <= v.len(),
            last_segment(v@) == last_segment(v@.subrange(0, start as int)) + v@.subrange(start as int, v@.len() as int),
        decreases start,
    {
        proof {
            let p = v@.subrange(0, start as int);
            assert(p.drop_last() =~= v@.subrange(0, start - 1));
            assert(v@.subrange(start - 1, v@.len() as int) =~= seq![p.last()] + v@.subrange(start as int, v@.len() as int));
            assert(last_segment(p) == last_segment(p.drop_last()).push(p.last()));
            assert(last_segment(p.drop_last()).push(p.last()) + v@.subrange(start as int, v@.len() as int) =~= last_segment(p.drop_last()) + v@.subrange(start - 1, v@.len() as int));
        }
        start = start - 1;
    }
    proof {
        assert(v@.subrange(0, v@.len() as int) =~= v@);
        if start > 0 {
            assert(last_segment(v@.subrange(0, start as int)) =~= Seq::<char>::empty());
        } else {
            assert(v@.subrange(0, 0) =~= Seq::<char>::empty());
        }
        assert(last_segment(v@) =~= v@.subrange(start as int, v@.len() as int));
    }
    string_of(&crate::text::slice_of(&v, start, v.len()))
}

/// A `.gitignore` line (trimmed) that names the directory `d` at the top level or anywhere.
pub open spec fn ignores_dir(line: Seq<char>, d: Seq<char>) -> bool {
    let t = crate::text::trim(line);
    t == d || t == d + seq!['/'] || t == seq!['/'] + d || t == seq!['/'] + d + seq!['/']
}

/// Whether a `.gitignore` text already lists the worktrees directory `dir`.
pub fn gitignore_lists(content: &str, dir: &str) -> (r: bool)
    ensures
        r == exists|i: int| 0 <= i < crate::text::lines_of(content@).len() && ignores_dir(#[trigger] crate::text::lines_of(content@)[i], dir@),
{
    let lines = crate::text::split_lines(&chars_of(content));
    let d = chars_of(dir);
    let mut d_slash = d.clone();
    d_slash.push('/');
    let mut slash_d: Vec<char> = Vec::new();
    slash_d.push('/');
    crate::text::append_chars(&mut slash_d, &d);
    let mut slash_d_slash = slash_d.clone();
    slash_d_slash.push('/');
    let ghost ls = crate::text::lines_of(content@);
    let mut i: usize = 0;
    while i < lines.len()
        invariant
            i <= lines.len(),
            crate::text::vec_views(lines@) == ls,
            ls == crate::text::lines_of(content@),
            d@ == dir@,
            d_slash@ == dir@ + seq!['/'],
            slash_d@ == seq!['/'] + dir@,
            slash_d_slash@ == seq!['/'] + dir@ + seq!['/'],
            forall|j: int| 0 <= j < i ==> !ignores_dir(#[trigger] ls[j], dir@),
        decreases lines.len() - i,
    {
        let t = crate::text::trim_chars(&lines[i]);
        proof {
            assert(ls[i as int] == lines@[i as int]@);
        }
        if crate::text::same_chars(&t, &d) || crate::text::same_chars(&t, &d_slash) || crate::text::same_chars(&t, &slash_d)
            || crate::text::same_chars(&t, &slash_d_slash) {
            return true;
        }
        i = i + 1;
    }
    false
}

/// The change of one repository against the base: files, added and removed lines.
pub struct DiffRepoEntry {
    pub alias: String,
    pub files_changed: usize,
    pub insertions: usize,
    pub deletions: usize,
}

pub struct DiffTotals {
    pub repos_changed: usize,
    pub files_changed: usize,
    pub insertions: usize,
    pub deletions: usize,
}

/// Totals over the entries that changed at least one file.
pub open spec fn diff_sums(v: Seq<DiffRepoEntry>) -> (nat, nat, nat, nat)
    decreases v.len(),
{
    if v.len() == 0 {
        (0, 0, 0, 0)
    } else {
        let (r, f, a, d) = diff_sums(v.drop_last());
        let e = v.last();
        if e.files_changed > 0 {
            (r + 1, (f + e.files_changed) as nat, (a + e.insertions) as nat, (d + e.deletions) as nat)
        } else {
            (r, f, a, d)
        }
    }
}

proof fn lemma_diff_sums_mono(v: Seq<DiffRepoEntry>, k: int)
    requires
        0 <= k <= v.len(),
    ensures
        diff_sums(v.subrange(0, k)).0 <= diff_sums(v).0,
        diff_sums(v.subrange(0, k)).1 <= diff_sums(v).1,
        diff_sums(v.subrange(0, k)).2 <= diff_sums(v).2,
        diff_sums(v.subrange(0, k)).3 <= diff_sums(v).3,
    decreases v.len() - k,
{
    if k < v.len() {
        lemma_diff_sums_mono(v, k + 1);
        assert(v.subrange(0, k + 1).drop_last() =~= v.subrange(0, k));
    } else {
        assert(v.subrange(0, k) =~= v);
    }
}

/// The totals of a cross-repository diff (the sums must fit in `usize`).
pub fn diff_totals(entries: &Vec<DiffRepoEntry>) -> (r: DiffTotals)
    requires
        diff_sums(entries@).1 <= usize::MAX,
        diff_sums(entries@).2 <= usize::MAX,
        diff_sums(entries@).3 <= usize::MAX,
    ensures
        (r.repos_changed as nat, r.files_changed as nat, r.insertions as nat, r.deletions as nat) == diff_sums(entries@),
{
    let mut t = DiffTotals { repos_changed: 0, files_changed: 0, insertions: 0, deletions: 0 };
    let mut i: usize = 0;
    while i < entries.len()
        invariant
            i <= entries.len(),
            diff_sums(entries@).1 <= usize::MAX,
            diff_sums(entries@).2 <= usize::MAX,
            diff_sums(entries@).3 <= usize::MAX,
            (t.repos_changed as nat, t.files_changed as nat, t.insertions as nat, t.deletions as nat) == diff_sums(entries@.subrange(0, i as int)),
            t.repos_changed <= i,
        decreases entries.len() - i,
    {
        proof {
            assert(entries@.subrange(0, i + 1).drop_last() =~= entries@.subrange(0, i as int));
            lemma_diff_sums_mono(entries@, i + 1);
        }
        let e = &entries[i];
        if e.files_changed > 0 {
            t.repos_changed = t.repos_changed + 1;
            t.files_changed = t.files_changed + e.files_changed;
            t.insertions = t.insertions + e.insertions;
            t.deletions = t.deletions + e.deletions;
        }
        i = i + 1;
    }
    proof {
        assert(entries@.subrange(0, entries.len() as int) =~= entries@);
    }
    t
}

/// The order in which a set's repositories are removed: the others in their
/// order, then the root `.`, whose worktree holds theirs.
pub open spec fn removal_order_spec(aliases: Seq<Seq<char>>) -> Seq<Seq<char>> {
    aliases.filter(|a: Seq<char>| a != seq!['.']) + aliases.filter(|a: Seq<char>| a == seq!['.'])
}

pub fn removal_order(aliases: &Vec<String>) -> (r: Vec<String>)
    ensures
        string_views(r@) == removal_order_spec(string_views(aliases@)),
{
    let ghost av = string_views(aliases@);
    let mut first: Vec<String> = Vec::new();
    let mut last: Vec<String> = Vec::new();
    let mut i: usize = 0;
    proof {
        reveal(Seq::filter);
        assert(string_views(first@) =~= Seq::<Seq<char>>::empty());
        assert(string_views(last@) =~= Seq::<Seq<char>>::empty());
    }
    while i < aliases.len()
        invariant
            i <= aliases.len(),
            av == string_views(aliases@),
            string_views(first@) == av.subrange(0, i as int).filter(|a: Seq<char>| a != seq!['.']),
            string_views(last@) == av.subrange(0, i as int).filter(|a: Seq<char>| a == seq!['.']),
        decreases aliases.len() - i,
    {
        proof {
            assert(av.subrange(0, i + 1).drop_last() =~= av.subrange(0, i as int));
            assert(av[i as int] == aliases@[i as int]@);
            reveal(Seq::filter);
            assert(av.subrange(0, i + 1).last() == av[i as int]);
        }
        let ghost f0 = first@;
        let ghost l0 = last@;
        if is_root(&aliases[i]) {
            last.push(aliases[i].clone());
            proof {
                assert(string_views(last@) =~= string_views(l0).push(av[i as int]));
            }
        } else {
            first.push(aliases[i].clone());
            proof {
                assert(string_views(first@) =~= string_views(f0).push(av[i as int]));
            }
        }
        i = i + 1;
    }
    proof {
        assert(av.subrange(0, aliases.len() as int) =~= av);
    }
    let mut r = first;
    let ghost r0 = r@;
    let mut k: usize = 0;
    while k < last.len()
        invariant
            k <= last.len(),
            string_views(r@) == string_views(r0) + string_views(last@).subrange(0, k as int),
        decreases last.len() - k,
    {
        let ghost rb = r@;
        r.push(last[k].clone());
        proof {
            assert(string_views(r@) =~= string_views(rb).push(last@[k as int]@));
            assert(string_views(last@).subrange(0, k + 1) =~= string_views(last@).subrange(0, k as int).push(last@[k as int]@));
            assert(string_views(r@) =~= string_views(r0) + string_views(last@).subrange(0, k + 1));
        }
        k = k + 1;
    }
    proof {
        assert(string_views(last@).subrange(0, last.len() as int) =~= string_views(last@));
    }
    r
}

} // verus!

verus! {

/// `key=value` split at the first `=`; none without one.
pub open spec fn key_value(s: Seq<char>) -> Option<(Seq<char>, Seq<char>)> {
    let p = first_index(s, '=');
    if 0 <= p < s.len() {
        Some((s.subrange(0, p), s.subrange(p + 1, s.len() as int)))
    } else {
        None
    }
}

fn first_of(v: &Vec<char>, c: char) -> (r: usize)
    ensures
        r as int == first_index(v@, c),
        r <= v.len(),
{
    let mut p: usize = 0;
    while p < v.len() && v[p] != c
        invariant
            p <= v.len(),
            forall|j: int| 0 <= j < p ==> v@[j] != c,
        decreases v.len() - p,
    {
        p = p + 1;
    }
    proof {
        lemma_first_index(v@, c, p as int);
    }
    p
}

/// A custom metadata item of `--meta key=value`.
pub fn split_key_value(s: &str) -> (r: Option<(String, String)>)
    ensures
        match key_value(s@) {
            Some((k, v)) => r is Some && (r->0).0@ == k && (r->0).1@ == v,
            None => r is None,
        },
{
    let v = chars_of(s);
    let p = first_of(&v, '=');
    if p < v.len() {
        Some((string_of(&crate::text::slice_of(&v, 0, p)), string_of(&crate::text::slice_of(&v, p + 1, v.len()))))
    } else {
        None
    }
}

/// Index of the last `c` in `s`, or -1.
pub open spec fn last_index(s: Seq<char>, c: char) -> int
    decreases s.len(),
{
    if s.len() == 0 {
        -1
    } else if s.last() == c {
        s.len() - 1
    } else {
        last_index(s.drop_last(), c)
    }
}

/// `owner/repo#N` split at the last `#` into the repository and the pull
/// request number; both parts must be non-empty.
pub open spec fn pr_spec_parts(s: Seq<char>) -> Option<(Seq<char>, Seq<char>)> {
    let p = last_index(s, '#');
    if 0 < p && p + 1 < s.len() {
        Some((s.subrange(0, p), s.subrange(p + 1, s.len() as int)))
    } else {
        None
    }
}

pub fn parse_pr_spec(s: &str) -> (r: Option<(String, String)>)
    ensures
        match pr_spec_parts(s@) {
            Some((repo, num)) => r is Some && (r->0).0@ == repo && (r->0).1@ == num,
            None => r is None,
        },
{
    let v = chars_of(s);
    let mut k: usize = v.len();
    assert(v@.subrange(0, v@.len() as int) =~= v@);
    while k > 0 && v[k - 1] != '#'
        invariant
            k <= v.len(),
            last_index(v@, '#') == last_index(v@.subrange(0, k as int), '#'),
        decreases k,
    {
        proof {
            assert(v@.subrange(0, k - 1) =~= v@.subrange(0, k as int).drop_last());
        }
        k = k - 1;
    }
    proof {
        assert(v@.subrange(0, v@.len() as int) =~= v@);
    }
    if k == 0 {
        proof {
            assert(v@.subrange(0, 0) =~= Seq::<char>::empty());
        }
        return None;
    }
    let p = k - 1;
    if p > 0 && p + 1 < v.len() {
        Some((string_of(&crate::text::slice_of(&v, 0, p)), string_of(&crate::text::slice_of(&v, p + 1, v.len()))))
    } else {
        None
    }
}

/// Entries of `git status --porcelain`: untracked ones start with `??`;
/// every other non-blank line is a modified path.
pub open spec fn porcelain_counts(ls: Seq<Seq<char>>) -> (nat, nat)
    decreases ls.len(),
{
    if ls.len() == 0 {
        (0, 0)
    } else {
        let (m, u) = porcelain_counts(ls.drop_last());
        let l = ls.last();
        if crate::text::has_prefix(l, seq!['?', '?']) {
            (m, u + 1)
        } else if crate::text::trim(l).len() > 0 {
            (m + 1, u)
        } else {
            (m, u)
        }
    }
}

/// `(modified, untracked)` of a `git status --porcelain` output.
pub fn status_counts(porcelain: &str) -> (r: (usize, usize))
    ensures
        (r.0 as nat, r.1 as nat) == porcelain_counts(crate::text::lines_of(porcelain@)),
{
    let lines = crate::text::split_lines(&chars_of(porcelain));
    let ghost ls = crate::text::lines_of(porcelain@);
    let mut qq: Vec<char> = Vec::new();
    qq.push('?');
    qq.push('?');
    let mut m: usize = 0;
    let mut u: usize = 0;
    let mut i: usize = 0;
    assert(qq@ =~= seq!['?', '?']);
    while i < lines.len()
        invariant
            i <= lines.len(),
            crate::text::vec_views(lines@) == ls,
            qq@ == seq!['?', '?'],
            (m as nat, u as nat) == porcelain_counts(ls.subrange(0, i as int)),
            m + u <= i,
        decreases lines.len() - i,
    {
        proof {
            assert(ls.subrange(0, i + 1).drop_last() =~= ls.subrange(0, i as int));
            assert(ls[i as int] == lines@[i as int]@);
        }
        if crate::text::starts_with(&lines[i], &qq) {
            u = u + 1;
        } else if crate::text::trim_chars(&lines[i]).len() > 0 {
            m = m + 1;
        }
        i = i + 1;
    }
    assert(ls.subrange(0, lines.len() as int) =~= ls);
    (m, u)
}

} // verus!

verus! {

/// The number a field of git's output writes; 0 for anything else (a
/// binary file shows `-`).
pub open spec fn field_number(f: Seq<char>) -> nat {
    match u64_text_value(f) {
        Some(v) => v,
        None => 0,
    }
}

/// The first two tab-separated fields of a line.
pub open spec fn two_fields(l: Seq<char>) -> (Seq<char>, Seq<char>) {
    let a = first_index(l, '\t');
    if 0 <= a < l.len() {
        let rest = l.subrange(a + 1, l.len() as int);
        (l.subrange(0, a), rest.subrange(0, first_index(rest, '\t')))
    } else {
        (l, Seq::empty())
    }
}

/// Files, added and removed lines of `git diff --numstat`: one file per
/// non-blank line, whose first two fields count its lines.
pub open spec fn numstat_sums(ls: Seq<Seq<char>>) -> (nat, nat, nat)
    decreases ls.len(),
{
    if ls.len() == 0 {
        (0, 0, 0)
    } else {
        let (f, a, d) = numstat_sums(ls.drop_last());
        let l = ls.last();
        if crate::text::trim(l).len() > 0 {
            let (x, y) = two_fields(l);
            (f + 1, a + field_number(x), d + field_number(y))
        } else {
            (f, a, d)
        }
    }
}

fn field_value(v: &Vec<char>) -> (r: u64)
    ensures
        r as nat == field_number(v@),
{
    match parse_u64(v) {
        Some(n) => n,
        None => 0,
    }
}

fn fields_of(l: &Vec<char>) -> (r: (Vec<char>, Vec<char>))
    ensures
        (r.0@, r.1@) == two_fields(l@),
{
    let a = first_of(l, '\t');
    if a < l.len() {
        let rest = crate::text::slice_of(l, a + 1, l.len());
        let b = first_of(&rest, '\t');
        (crate::text::slice_of(l, 0, a), crate::text::slice_of(&rest, 0, b))
    } else {
        assert(l@.subrange(0, l@.len() as int) =~= l@);
        (crate::text::slice_of(l, 0, l.len()), Vec::new())
    }
}

/// The totals of a `git diff --numstat` output for one repository; none
/// when a total does not fit in `usize`.
pub fn numstat_entry(alias: &str, numstat: &str) -> (r: Option<DiffRepoEntry>)
    ensures
        ({
            let (f, a, d) = numstat_sums(crate::text::lines_of(numstat@));
            match r {
                Some(e) => e.alias@ == alias@ && e.files_changed == f && e.insertions == a && e.deletions == d,
                None => f > usize::MAX || a > usize::MAX || d > usize::MAX,
            }
        }),
{
    let lines = crate::text::split_lines(&chars_of(numstat));
    let ghost ls = crate::text::lines_of(numstat@);
    let mut f: u128 = 0;
    let mut a: u128 = 0;
    let mut d: u128 = 0;
    let mut i: usize = 0;
    while i < lines.len()
        invariant
            i <= lines.len(),
            crate::text::vec_views(lines@) == ls,
            (f as nat, a as nat, d as nat) == numstat_sums(ls.subrange(0, i as int)),
            f <= i,
            a <= i * (u64::MAX as nat),
            d <= i * (u64::MAX as nat),
            i <= usize::MAX,
        decreases lines.len() - i,
    {
        proof {
            assert(ls.subrange(0, i + 1).drop_last() =~= ls.subrange(0, i as int));
            assert(ls[i as int] == lines@[i as int]@);
        }
        if crate::text::trim_chars(&lines[i]).len() > 0 {
            let (x, y) = fields_of(&lines[i]);
            let xv = field_value(&x);
            let yv = field_value(&y);
            proof {
                assert((i + 1) * (u64::MAX as nat) == i * (u64::MAX as nat) + u64::MAX) by (nonlinear_arith);
                assert(i * (u64::MAX as nat) <= (usize::MAX as nat) * (u64::MAX as nat)) by (nonlinear_arith)
                    requires i <= usize::MAX;
                assert((usize::MAX as nat) * (u64::MAX as nat) < 0x1_0000_0000_0000_0000_0000_0000_0000_0000 - u64::MAX) by (nonlinear_arith)
                    requires usize::MAX <= u64::MAX;
            }
            f = f + 1;
            a = a + xv as u128;
            d = d + yv as u128;
        } else {
            proof {
                assert((i + 1) * (u64::MAX as nat) >= i * (u64::MAX as nat)) by (nonlinear_arith);
            }
        }
        i = i + 1;
    }
    assert(ls.subrange(0, lines.len() as int) =~= ls);
    if f > usize::MAX as u128 || a > usize::MAX as u128 || d > usize::MAX as u128 {
        return None;
    }
    Some(DiffRepoEntry { alias: alias.to_owned(), files_changed: f as usize, insertions: a as usize, deletions: d as usize })
}

/// `(behind, ahead)` from `git rev-list --left-right --count @{u}...HEAD`:
/// its two whitespace-separated numbers (0 for a missing or bad one).
pub open spec fn behind_ahead(out: Seq<char>) -> (nat, nat) {
    let ws = crate::ssh::words(out);
    (
        if ws.len() > 0 { field_number(ws[0]) } else { 0 },
        if ws.len() > 1 { field_number(ws[1]) } else { 0 },
    )
}

pub fn parse_behind_ahead(out: &str) -> (r: (u64, u64))
    ensures
        (r.0 as nat, r.1 as nat) == behind_ahead(out@),
{
    let ws = crate::ssh::split_words(&chars_of(out));
    let b = if ws.len() > 0 { field_value(&ws[0]) } else { 0 };
    let a = if ws.len() > 1 { field_value(&ws[1]) } else { 0 };
    proof {
        if ws.len() > 0 {
            assert(crate::text::vec_views(ws@)[0] == ws@[0]@);
        }
        if ws.len() > 1 {
            assert(crate::text::vec_views(ws@)[1] == ws@[1]@);
        }
    }
    (b, a)
}

} // verus!

verus! {

/// Arguments of `worktree remove`.
pub struct DestroyArgs {
    pub name: String,
    /// Remove even with uncommitted changes.
    pub force: bool,
}

/// Arguments of `worktree list`.
pub struct ListArgs {}

/// Arguments of `worktree status`.
pub struct StatusArgs {
    pub name: String,
}

/// Arguments of `worktree diff`.
pub struct DiffArgs {
    pub name: String,
    /// Base branch for the comparison.
    pub base: String,
    /// Summary only.
    pub stat: bool,
}

/// Arguments of `worktree prune`.
pub struct PruneArgs {
    /// Report without removing.
    pub dry_run: bool,
}

} // verus!

verus! {

pub open spec fn skip_text(alias: Seq<char>, error: Seq<char>) -> Seq<char> {
    "Skipping '"@ + alias + "': "@ + error
}

/// What a failed child worktree becomes while a set is created: under
/// `--from-ref` the ref may be missing in that repository, so it is skipped
/// with a warning (the text returned), or under strict mode it fails the
/// command; without `--from-ref` the failure stands.
pub fn child_failure(from_ref: bool, strict: bool, alias: &str, error: &str) -> (r: Result<String, String>)
    ensures
        from_ref && !strict ==> r is Ok && r->Ok_0@ == skip_text(alias@, error@),
        from_ref && strict ==> r is Err && r->Err_0@ == strict_text(skip_text(alias@, error@)),
        !from_ref ==> r is Err && r->Err_0@ == error@,
{
    if !from_ref {
        return Err(error.to_owned());
    }
    let mut m = chars_of("Skipping '");
    crate::text::append_chars(&mut m, &chars_of(alias));
    crate::text::append_chars(&mut m, &chars_of("': "));
    crate::text::append_chars(&mut m, &chars_of(error));
    let text = string_of(&m);
    match warn_or_bail(strict, text.as_str()) {
        Ok(()) => Ok(text),
        Err(e) => Err(e.message),
    }
}

/// The `i`-th repository asked for is already in the set, or asked for earlier.
pub open spec fn add_offends(aliases: Seq<Seq<char>>, existing: Seq<Seq<char>>, i: int) -> bool {
    existing.contains(aliases[i]) || aliases.subrange(0, i).contains(aliases[i])
}

/// Which repositories `add` may bring into an existing set: never the root
/// `.`, and none that the set has or that is named twice.
pub fn check_add_repos(aliases: &Vec<String>, existing: &Vec<String>) -> (r: Result<(), WorktreeError>)
    ensures
        r is Err && r->Err_0 is RootNotAllowed <==> string_views(aliases@).contains(seq!['.']),
        r is Ok <==> !string_views(aliases@).contains(seq!['.']) && forall|i: int|
            0 <= i < aliases.len() ==> !#[trigger] add_offends(string_views(aliases@), string_views(existing@), i),
        r is Err ==> r->Err_0 is RootNotAllowed || r->Err_0 is DuplicateRepo,
        r matches Err(WorktreeError::DuplicateRepo(a)) ==> exists|i: int|
            0 <= i < aliases.len() && string_views(aliases@)[i] == a@ && add_offends(string_views(aliases@), string_views(existing@), i)
                && forall|j: int| 0 <= j < i ==> !#[trigger] add_offends(string_views(aliases@), string_views(existing@), j),
{
    let ghost al = string_views(aliases@);
    let ghost ex = string_views(existing@);
    let mut i: usize = 0;
    while i < aliases.len()
        invariant
            i <= aliases.len(),
            al == string_views(aliases@),
            forall|j: int| 0 <= j < i ==> al[j] != seq!['.'],
        decreases aliases.len() - i,
    {
        proof {
            assert(al[i as int] == aliases@[i as int]@);
        }
        if is_root(&aliases[i]) {
            proof {
                assert(al.contains(seq!['.']));
            }
            return Err(WorktreeError::RootNotAllowed);
        }
        i = i + 1;
    }
    proof {
        assert(!al.contains(seq!['.']));
    }
    let mut k: usize = 0;
    while k < aliases.len()
        invariant
            k <= aliases.len(),
            al == string_views(aliases@),
            ex == string_views(existing@),
            !al.contains(seq!['.']),
            forall|j: int| 0 <= j < k ==> !#[trigger] add_offends(al, ex, j),
        decreases aliases.len() - k,
    {
        proof {
            assert(al[k as int] == aliases@[k as int]@);
        }
        let mut seen = false;
        let mut j: usize = 0;
        while j < k
            invariant
                j <= k < aliases.len(),
                al == string_views(aliases@),
                seen == al.subrange(0, j as int).contains(al[k as int]),
            decreases k - j,
        {
            proof {
                assert(al[j as int] == aliases@[j as int]@);
                lemma_prefix_push_contains(al, j as int, al[k as int]);
            }
            if aliases[j] == aliases[k] {
                seen = true;
            }
            j = j + 1;
        }
        if seen || names_contain(existing, &aliases[k]) {
            proof {
                assert(add_offends(al, ex, k as int));
            }
            return Err(WorktreeError::DuplicateRepo(aliases[k].clone()));
        }
        k = k + 1;
    }
    Ok(())
}

} // verus!
