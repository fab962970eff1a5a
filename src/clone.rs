//! The `clone` and `update` commands: their arguments, the directory a
//! clone lands in, the depth budget, reports, and orphan detection.
use crate::text::{
    append_chars, chars_of, decimal, decimal_chars, has_suffix, parse_u64, str_eq, string_of,
    string_views, u64_text_value,
};
use vstd::prelude::*;

verus! {

/// What `clone` was asked to do.
pub struct CloneOptions {
    pub recursive: bool,
    pub parallel: usize,
    /// Shallow-clone depth handed to git.
    pub depth: Option<String>,
    /// Cap on manifest recursion.
    pub meta_depth: Option<usize>,
    pub url: Option<String>,
    pub dir: Option<String>,
}

pub struct CloneModel {
    pub recursive: bool,
    pub parallel: nat,
    pub depth: Option<Seq<char>>,
    pub meta_depth: Option<nat>,
    pub url: Option<Seq<char>>,
    pub dir: Option<Seq<char>>,
}

pub open spec fn usize_value(s: Seq<char>) -> Option<nat> {
    match u64_text_value(s) {
        Some(v) => if v <= usize::MAX {
            Some(v)
        } else {
            None
        },
        None => None,
    }
}

pub open spec fn is_flag(s: Seq<char>) -> bool {
    s.len() > 0 && s[0] == '-'
}

/// The arguments of `clone`, read left to right: `--recursive`/`-r`;
/// `--meta-depth N` (a bad number clears it); `--parallel N` (a bad number
/// gives 4); `--depth N`; other options are skipped; the first word is the
/// URL and the second the target directory. An option missing its value is
/// skipped.
pub open spec fn scan_clone(args: Seq<Seq<char>>, i: int, m: CloneModel) -> CloneModel
    decreases args.len() - i,
{
    if i < 0 || i >= args.len() {
        m
    } else {
        let a = args[i];
        let has_next = i + 1 < args.len();
        if a == "--recursive"@ || a == "-r"@ {
            scan_clone(args, i + 1, CloneModel { recursive: true, ..m })
        } else if a == "--meta-depth"@ && has_next {
            scan_clone(args, i + 2, CloneModel { meta_depth: usize_value(args[i + 1]), ..m })
        } else if a == "--parallel"@ && has_next {
            scan_clone(args, i + 2, CloneModel {
                parallel: match usize_value(args[i + 1]) {
                    Some(v) => v,
                    None => 4,
                },
                ..m
            })
        } else if a == "--depth"@ && has_next {
            scan_clone(args, i + 2, CloneModel { depth: Some(args[i + 1]), ..m })
        } else if is_flag(a) {
            scan_clone(args, i + 1, m)
        } else if m.url is None {
            scan_clone(args, i + 1, CloneModel { url: Some(a), ..m })
        } else if m.dir is None {
            scan_clone(args, i + 1, CloneModel { dir: Some(a), ..m })
        } else {
            scan_clone(args, i + 1, m)
        }
    }
}

pub open spec fn opt_str(o: Option<String>) -> Option<Seq<char>> {
    match o {
        Some(s) => Some(s@),
        None => None,
    }
}

pub open spec fn clone_model(o: CloneOptions) -> CloneModel {
    CloneModel {
        recursive: o.recursive,
        parallel: o.parallel as nat,
        depth: opt_str(o.depth),
        meta_depth: match o.meta_depth {
            Some(d) => Some(d as nat),
            None => None,
        },
        url: opt_str(o.url),
        dir: opt_str(o.dir),
    }
}

fn parse_usize(s: &str) -> (r: Option<usize>)
    ensures
        match usize_value(s@) {
            Some(v) => r == Some(v as usize),
            None => r is None,
        },
{
    match parse_u64(&chars_of(s)) {
        Some(v) => if v <= usize::MAX as u64 {
            Some(v as usize)
        } else {
            None
        },
        None => None,
    }
}

/// Reads the arguments of `clone`, starting from the recursion flag and the
/// shallow depth that the request options carry, with 4 workers.
pub fn parse_clone_args(args: &Vec<String>, recursive: bool, depth: Option<String>) -> (r: CloneOptions)
    ensures
        clone_model(r) == scan_clone(
            string_views(args@),
            0,
            CloneModel { recursive, parallel: 4, depth: opt_str(depth), meta_depth: None, url: None, dir: None },
        ),
{
    let ghost a = string_views(args@);
    let mut o = CloneOptions { recursive, parallel: 4, depth, meta_depth: None, url: None, dir: None };
    let mut i: usize = 0;
    while i < args.len()
        invariant
            i <= args.len() + 1,
            a == string_views(args@),
            scan_clone(a, 0, CloneModel { recursive, parallel: 4, depth: opt_str(depth), meta_depth: None, url: None, dir: None })
                == scan_clone(a, i as int, clone_model(o)),
        decreases args.len() + 1 - i,
    {
        let s = args[i].as_str();
        proof {
            assert(a[i as int] == s@);
        }
        let has_next = i + 1 < args.len();
        proof {
            if has_next {
                assert(a[i + 1] == args@[i + 1]@);
            }
        }
        if str_eq(s, "--recursive") || str_eq(s, "-r") {
            o.recursive = true;
            i = i + 1;
        } else if str_eq(s, "--meta-depth") && has_next {
            o.meta_depth = parse_usize(args[i + 1].as_str());
            i = i + 2;
        } else if str_eq(s, "--parallel") && has_next {
            o.parallel = match parse_usize(args[i + 1].as_str()) {
                Some(v) => v,
                None => 4,
            };
            i = i + 2;
        } else if str_eq(s, "--depth") && has_next {
            o.depth = Some(args[i + 1].clone());
            i = i + 2;
        } else {
            let v = chars_of(s);
            if v.len() > 0 && v[0] == '-' {
            } else if o.url.is_none() {
                o.url = Some(args[i].clone());
            } else if o.dir.is_none() {
                o.dir = Some(args[i].clone());
            }
            i = i + 1;
        }
    }
    o
}

/// `s` without any number of trailing `.git`.
pub open spec fn strip_git_suffixes(s: Seq<char>) -> Seq<char>
    decreases s.len(),
{
    if s.len() >= 4 && has_suffix(s, ".git"@) {
        strip_git_suffixes(s.subrange(0, s.len() - 4))
    } else {
        s
    }
}

/// The directory a clone of `url` lands in: the one given, else the last
/// path segment of the URL without `.git`.
pub open spec fn clone_dir_spec(url: Seq<char>, dir: Option<Seq<char>>) -> Seq<char> {
    match dir {
        Some(d) => d,
        None => crate::worktree::last_segment(strip_git_suffixes(url)),
    }
}

pub fn clone_dir_name(url: &str, dir: Option<&str>) -> (r: String)
    ensures
        r@ == clone_dir_spec(url@, match dir {
            Some(d) => Some(d@),
            None => None,
        }),
{
    match dir {
        Some(d) => d.to_owned(),
        None => {
            let mut v = chars_of(url);
            let git = chars_of(".git");
            while v.len() >= 4 && crate::text::ends_with(&v, &git)
                invariant
                    git@ == ".git"@,
                    strip_git_suffixes(url@) == strip_git_suffixes(v@),
                decreases v.len(),
            {
                let ghost v0 = v@;
                v.truncate(v.len() - 4);
                proof {
                    assert(v@ =~= v0.subrange(0, v0.len() - 4));
                }
            }
            crate::worktree::child_dest_name(string_of(&v).as_str())
        },
    }
}

/// The manifest depth budget of a clone: the given cap when recursive,
/// else only the first level.
pub fn effective_meta_depth(recursive: bool, meta_depth: Option<usize>) -> (r: Option<usize>)
    ensures
        r == (if recursive {
            meta_depth
        } else {
            Some(0usize)
        }),
{
    if recursive {
        meta_depth
    } else {
        Some(0)
    }
}

/// The report of a finished clone or update: repositories cloned, and how
/// many were found in nested manifests beyond the `initial` ones.
pub open spec fn summary_text(done: nat, discovered: nat, initial: nat) -> Seq<char> {
    if discovered > initial {
        decimal(done) + " repos cloned, "@ + decimal((discovered - initial) as nat) + " discovered via nested .meta files"@
    } else {
        decimal(done) + " repos cloned"@
    }
}

pub fn clone_summary(done: usize, discovered: usize, initial: usize) -> (r: String)
    ensures
        r@ == summary_text(done as nat, discovered as nat, initial as nat),
{
    let mut m = decimal_chars(done);
    if discovered > initial {
        append_chars(&mut m, &chars_of(" repos cloned, "));
        append_chars(&mut m, &decimal_chars(discovered - initial));
        append_chars(&mut m, &chars_of(" discovered via nested .meta files"));
    } else {
        append_chars(&mut m, &chars_of(" repos cloned"));
    }
    string_of(&m)
}

/// A directory entry of a workspace: its name, whether it is a directory,
/// and whether it holds a `.git`.
pub struct DirEntry {
    pub name: String,
    pub is_dir: bool,
    pub has_git: bool,
}

/// A repository on disk that the manifest does not list: a visible
/// directory holding `.git` whose name is no project path.
pub open spec fn is_orphan(e: DirEntry, paths: Seq<Seq<char>>) -> bool {
    e.is_dir && e.has_git && !(e.name@.len() > 0 && e.name@[0] == '.') && !paths.contains(e.name@)
}

/// The orphaned repositories among `entries`, in order. Reporting only:
/// nothing is removed.
pub fn find_orphans(entries: &Vec<DirEntry>, project_paths: &Vec<String>) -> (r: Vec<String>)
    ensures
        string_views(r@) == entries@.filter(|e: DirEntry| is_orphan(e, string_views(project_paths@))).map_values(|e: DirEntry| e.name@),
{
    let ghost pp = string_views(project_paths@);
    let mut out: Vec<String> = Vec::new();
    let mut i: usize = 0;
    proof {
        reveal(Seq::filter);
        assert(entries@.subrange(0, 0) =~= Seq::<DirEntry>::empty());
        assert(string_views(out@) =~= Seq::<Seq<char>>::empty());
    }
    while i < entries.len()
        invariant
            i <= entries.len(),
            pp == string_views(project_paths@),
            string_views(out@) == entries@.subrange(0, i as int).filter(|e: DirEntry| is_orphan(e, pp)).map_values(|e: DirEntry| e.name@),
        decreases entries.len() - i,
    {
        let ghost o0 = string_views(out@);
        proof {
            reveal(Seq::filter);
            assert(entries@.subrange(0, i + 1).drop_last() =~= entries@.subrange(0, i as int));
            assert(entries@.subrange(0, i + 1).last() == entries@[i as int]);
        }
        let e = &entries[i];
        let n = chars_of(e.name.as_str());
        let hidden = n.len() > 0 && n[0] == '.';
        let mut listed = false;
        let mut k: usize = 0;
        while k < project_paths.len()
            invariant
                k <= project_paths.len(),
                n@ == e.name@,
                pp == string_views(project_paths@),
                listed == pp.subrange(0, k as int).contains(e.name@),
            decreases project_paths.len() - k,
        {
            proof {
                assert(pp.subrange(0, k + 1) =~= pp.subrange(0, k as int).push(pp[k as int]));
                assert(pp[k as int] == project_paths@[k as int]@);
                if pp.subrange(0, k + 1).contains(e.name@) {
                    let j = choose|j: int| 0 <= j < k + 1 && #[trigger] pp.subrange(0, k + 1)[j] == e.name@;
                    if j < k {
                        assert(pp.subrange(0, k as int)[j] == e.name@);
                    }
                }
                if pp.subrange(0, k as int).contains(e.name@) {
                    let j = choose|j: int| 0 <= j < k && #[trigger] pp.subrange(0, k as int)[j] == e.name@;
                    assert(pp.subrange(0, k + 1)[j] == e.name@);
                }
            }
            if str_eq(project_paths[k].as_str(), e.name.as_str()) {
                listed = true;
                proof {
                    assert(pp.subrange(0, k + 1)[k as int] == e.name@);
                }
            }
            k = k + 1;
        }
        proof {
            assert(pp.subrange(0, project_paths.len() as int) =~= pp);
        }
        if e.is_dir && e.has_git && !hidden && !listed {
            out.push(e.name.clone());
            proof {
                assert(string_views(out@) =~= o0.push(e.name@));
                assert(string_views(out@) =~= entries@.subrange(0, i + 1).filter(|e: DirEntry| is_orphan(e, pp)).map_values(|e: DirEntry| e.name@));
            }
        } else {
            proof {
                assert(string_views(out@) =~= entries@.subrange(0, i + 1).filter(|e: DirEntry| is_orphan(e, pp)).map_values(|e: DirEntry| e.name@));
            }
        }
        i = i + 1;
    }
    proof {
        assert(entries@.subrange(0, entries.len() as int) =~= entries@);
    }
    out
}

} // verus!
