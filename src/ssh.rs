//! SSH: remote URL equivalence, the hosts a manifest reaches over SSH, and
//! whether an SSH configuration multiplexes connections to a host.
use crate::plan::PlannedCommand;
use crate::text::{
    append_chars, chars_of, has_prefix, has_suffix, is_space, is_ws, lines_of, occurs_in, same_chars,
    slice_of, sort_dedup_strings, sorted, split_lines, string_of, string_views, trim, trim_chars,
    vec_views,
};
use crate::worktree::first_index;
use vstd::prelude::*;

verus! {

/// Index of the first whitespace character of `s`, or `s.len()`.
pub open spec fn ws_index(s: Seq<char>) -> int
    decreases s.len(),
{
    if s.len() == 0 {
        0
    } else if is_ws(s[0]) {
        0
    } else {
        1 + ws_index(s.drop_first())
    }
}

proof fn lemma_ws_index(s: Seq<char>, k: int)
    requires
        0 <= k <= s.len(),
        forall|j: int| 0 <= j < k ==> !is_ws(#[trigger] s[j]),
        k == s.len() || is_ws(s[k]),
    ensures
        ws_index(s) == k,
    decreases k,
{
    if k > 0 {
        lemma_ws_index(s.drop_first(), k - 1);
    }
}

fn find_char(v: &Vec<char>, c: char, from: usize) -> (r: usize)
    requires
        from <= v.len(),
    ensures
        from <= r <= v.len(),
        r == from + first_index(v@.subrange(from as int, v@.len() as int), c),
{
    let mut i = from;
    while i < v.len() && v[i] != c
        invariant
            from <= i <= v.len(),
            forall|j: int| from <= j < i ==> v@[j] != c,
        decreases v.len() - i,
    {
        i = i + 1;
    }
    proof {
        let t = v@.subrange(from as int, v@.len() as int);
        assert forall|j: int| 0 <= j < i - from implies t[j] != c by {
            assert(t[j] == v@[from + j]);
        }
        crate::worktree::lemma_first_index(t, c, i - from);
    }
    i
}

/// The words of `s`, as `str::split_whitespace` yields them.
pub open spec fn words(s: Seq<char>) -> Seq<Seq<char>>
    decreases s.len(),
{
    if s.len() == 0 {
        Seq::empty()
    } else if is_ws(s[0]) {
        words(s.drop_first())
    } else {
        let k = ws_index(s);
        if 0 < k <= s.len() {
            seq![s.subrange(0, k)] + words(s.subrange(k, s.len() as int))
        } else {
            Seq::empty()
        }
    }
}

fn words_from(v: &Vec<char>, from: usize) -> (r: Vec<Vec<char>>)
    requires
        from <= v.len(),
    ensures
        vec_views(r@) == words(v@.subrange(from as int, v@.len() as int)),
    decreases v.len() - from,
{
    let ghost t = v@.subrange(from as int, v@.len() as int);
    if from == v.len() {
        assert(t =~= Seq::<char>::empty());
        return Vec::new();
    }
    if is_space(v[from]) {
        assert(t.drop_first() =~= v@.subrange(from + 1, v@.len() as int));
        return words_from(v, from + 1);
    }
    let mut k = from + 1;
    while k < v.len() && !is_space(v[k])
        invariant
            from < k <= v.len(),
            !is_ws(v@[from as int]),
            forall|j: int| from <= j < k ==> !is_ws(#[trigger] v@[j]),
        decreases v.len() - k,
    {
        k = k + 1;
    }
    proof {
        assert forall|j: int| 0 <= j < k - from implies !is_ws(#[trigger] t[j]) by {
            assert(t[j] == v@[from + j]);
        }
        lemma_ws_index(t, k - from);
        assert(t.subrange(0, k - from) =~= v@.subrange(from as int, k as int));
        assert(t.subrange(k - from, t.len() as int) =~= v@.subrange(k as int, v@.len() as int));
    }
    let rest = words_from(v, k);
    let mut r: Vec<Vec<char>> = Vec::new();
    r.push(slice_of(v, from, k));
    let mut i: usize = 0;
    while i < rest.len()
        invariant
            i <= rest.len(),
            r.len() == i + 1,
            vec_views(r@) == seq![v@.subrange(from as int, k as int)] + vec_views(rest@).subrange(0, i as int),
        decreases rest.len() - i,
    {
        let ghost r0 = r@;
        r.push(rest[i].clone());
        proof {
            assert(vec_views(r@) =~= vec_views(r0).push(rest@[i as int]@));
            assert(vec_views(rest@).subrange(0, i + 1) =~= vec_views(rest@).subrange(0, i as int).push(rest@[i as int]@));
        }
        i = i + 1;
    }
    assert(vec_views(rest@).subrange(0, rest.len() as int) =~= vec_views(rest@));
    r
}

/// The words of `s`, as `str::split_whitespace` yields them.
pub fn split_words(v: &Vec<char>) -> (r: Vec<Vec<char>>)
    ensures
        vec_views(r@) == words(v@),
{
    assert(v@.subrange(0, v@.len() as int) =~= v@);
    words_from(v, 0)
}

/// `pattern` matches `host` as a `Host` line of an SSH configuration does
/// here: `*` matches all; a pattern with `*` matches hosts that contain it
/// with its stars removed; any other pattern matches itself.
pub open spec fn host_pattern_matches(pattern: Seq<char>, host: Seq<char>) -> bool {
    if pattern == seq!['*'] {
        true
    } else if pattern.contains('*') {
        occurs_in(pattern.filter(|c: char| c != '*'), host)
    } else {
        pattern == host
    }
}

/// ASCII letters in either case match the lower-case letters of `p`; any
/// other character matches itself.
pub open spec fn ci_char(c: char, p: char) -> bool {
    c == p || ('a' <= p && p <= 'z' && (c as u32) + 32 == (p as u32))
}

/// `l` starts with `p`, ignoring the case of ASCII letters (`p` is lower case).
pub open spec fn ci_prefix(l: Seq<char>, p: Seq<char>) -> bool {
    p.len() <= l.len() && forall|i: int| 0 <= i < p.len() ==> ci_char(#[trigger] l[i], p[i])
}

/// The value of a `ControlMaster` line: what follows its first whitespace,
/// else what follows its first `=`, trimmed.
pub open spec fn option_value(l: Seq<char>) -> Seq<char> {
    let w = ws_index(l);
    if 0 <= w < l.len() {
        trim(l.subrange(w + 1, l.len() as int))
    } else {
        let e = first_index(l, '=');
        if 0 <= e < l.len() {
            trim(l.subrange(e + 1, l.len() as int))
        } else {
            Seq::empty()
        }
    }
}

pub open spec fn enables_master(v: Seq<char>) -> bool {
    v == "auto"@ || v == "yes"@ || v == "autoask"@
}

/// Reads the configuration lines in order, tracking whether the current
/// `Host` block matches `host`, and whether a matching block turned
/// `ControlMaster` on. Comments and blank lines are skipped.
pub open spec fn scan_config(ls: Seq<Seq<char>>, host: Seq<char>, in_block: bool, found: bool) -> bool
    decreases ls.len(),
{
    if ls.len() == 0 {
        found
    } else {
        let l = trim(ls[0]);
        if (l.len() > 0 && l[0] == '#') || l.len() == 0 {
            scan_config(ls.drop_first(), host, in_block, found)
        } else {
            let ib = if ci_prefix(l, "host "@) {
                exists|i: int| 0 <= i < words(l.subrange(5, l.len() as int)).len()
                    && host_pattern_matches(#[trigger] words(l.subrange(5, l.len() as int))[i], host)
            } else {
                in_block
            };
            let f = found || (ib && (ci_prefix(l, "controlmaster "@) || ci_prefix(l, "controlmaster="@))
                && enables_master(option_value(l)));
            scan_config(ls.drop_first(), host, ib, f)
        }
    }
}

/// Whether the SSH configuration text turns on `ControlMaster` in a block
/// that matches `host`.
pub open spec fn multiplexing_configured(config: Seq<char>, host: Seq<char>) -> bool {
    scan_config(lines_of(config), host, false, false)
}

fn ci_starts(l: &Vec<char>, p: &str) -> (r: bool)
    ensures
        r == ci_prefix(l@, p@),
{
    let pv = chars_of(p);
    if pv.len() > l.len() {
        return false;
    }
    let mut i: usize = 0;
    while i < pv.len()
        invariant
            i <= pv.len(),
            pv.len() <= l.len(),
            pv@ == p@,
            forall|j: int| 0 <= j < i ==> ci_char(#[trigger] l@[j], pv@[j]),
        decreases pv.len() - i,
    {
        let c = l[i];
        let q = pv[i];
        if !(c == q || ('a' <= q && q <= 'z' && (c as u32) as u64 + 32 == (q as u32) as u64)) {
            return false;
        }
        i = i + 1;
    }
    true
}

fn pattern_matches(pattern: &Vec<char>, host: &Vec<char>) -> (r: bool)
    ensures
        r == host_pattern_matches(pattern@, host@),
{
    if pattern.len() == 1 && pattern[0] == '*' {
        assert(pattern@ =~= seq!['*']);
        return true;
    }
    proof {
        if pattern@ == seq!['*'] {
            assert(pattern@[0] == '*');
        }
    }
    let mut stripped: Vec<char> = Vec::new();
    let mut star = false;
    let mut i: usize = 0;
    proof {
        reveal(Seq::filter);
        assert(pattern@.subrange(0, 0) =~= Seq::<char>::empty());
    }
    while i < pattern.len()
        invariant
            i <= pattern.len(),
            stripped@ == pattern@.subrange(0, i as int).filter(|c: char| c != '*'),
            star == pattern@.subrange(0, i as int).contains('*'),
        decreases pattern.len() - i,
    {
        proof {
            reveal(Seq::filter);
            assert(pattern@.subrange(0, i + 1).drop_last() =~= pattern@.subrange(0, i as int));
            assert(pattern@.subrange(0, i + 1).last() == pattern@[i as int]);
            assert(pattern@.subrange(0, i + 1) =~= pattern@.subrange(0, i as int).push(pattern@[i as int]));
            if pattern@.subrange(0, i + 1).contains('*') {
                let j = choose|j: int| 0 <= j < i + 1 && #[trigger] pattern@.subrange(0, i + 1)[j] == '*';
                if j < i {
                    assert(pattern@.subrange(0, i as int)[j] == '*');
                }
            }
            if pattern@.subrange(0, i as int).contains('*') {
                let j = choose|j: int| 0 <= j < i && #[trigger] pattern@.subrange(0, i as int)[j] == '*';
                assert(pattern@.subrange(0, i + 1)[j] == '*');
            }
        }
        if pattern[i] == '*' {
            star = true;
            proof {
                assert(pattern@.subrange(0, i + 1)[i as int] == '*');
            }
        } else {
            stripped.push(pattern[i]);
        }
        i = i + 1;
    }
    proof {
        assert(pattern@.subrange(0, pattern@.len() as int) =~= pattern@);
    }
    if star {
        crate::text::contains_chars(host, &stripped)
    } else {
        same_chars(pattern, host)
    }
}

fn value_of(l: &Vec<char>) -> (r: Vec<char>)
    ensures
        r@ == option_value(l@),
{
    let mut w: usize = 0;
    while w < l.len() && !is_space(l[w])
        invariant
            w <= l.len(),
            forall|j: int| 0 <= j < w ==> !is_ws(#[trigger] l@[j]),
        decreases l.len() - w,
    {
        w = w + 1;
    }
    proof {
        lemma_ws_index(l@, w as int);
    }
    if w < l.len() {
        return trim_chars(&slice_of(l, w + 1, l.len()));
    }
    let e = find_char(l, '=', 0);
    proof {
        assert(l@.subrange(0, l@.len() as int) =~= l@);
    }
    if e < l.len() {
        trim_chars(&slice_of(l, e + 1, l.len()))
    } else {
        Vec::new()
    }
}

/// Whether `config`, the text of an SSH configuration, turns on
/// `ControlMaster` (`auto`, `yes` or `autoask`) in a block matching `host`.
pub fn is_multiplexing_configured(host: &str, config: &str) -> (r: bool)
    ensures
        r == multiplexing_configured(config@, host@),
{
    let h = chars_of(host);
    let lines = split_lines(&chars_of(config));
    let ghost ls = lines_of(config@);
    let mut in_block = false;
    let mut found = false;
    let mut i: usize = 0;
    assert(ls.subrange(0, ls.len() as int) =~= ls);
    while i < lines.len()
        invariant
            i <= lines.len(),
            vec_views(lines@) == ls,
            h@ == host@,
            scan_config(ls, host@, false, false) == scan_config(ls.subrange(i as int, ls.len() as int), host@, in_block, found),
        decreases lines.len() - i,
    {
        let ghost rest = ls.subrange(i as int, ls.len() as int);
        proof {
            assert(rest.drop_first() =~= ls.subrange(i + 1, ls.len() as int));
            assert(rest[0] == lines@[i as int]@);
        }
        let l = trim_chars(&lines[i]);
        if (l.len() > 0 && l[0] == '#') || l.len() == 0 {
        } else {
            if ci_starts(&l, "host ") {
                proof {
                    reveal_strlit("host ");
                }
                let ws = words_from(&l, 5);
                let mut any = false;
                let mut k: usize = 0;
                while k < ws.len()
                    invariant
                        k <= ws.len(),
                        h@ == host@,
                        any == exists|j: int| 0 <= j < k && host_pattern_matches(#[trigger] vec_views(ws@)[j], host@),
                    decreases ws.len() - k,
                {
                    proof {
                        assert(vec_views(ws@)[k as int] == ws@[k as int]@);
                    }
                    if pattern_matches(&ws[k], &h) {
                        any = true;
                    }
                    k = k + 1;
                }
                in_block = any;
            }
            if in_block && (ci_starts(&l, "controlmaster ") || ci_starts(&l, "controlmaster=")) {
                let v = value_of(&l);
                let auto = chars_of("auto");
                let yes = chars_of("yes");
                let autoask = chars_of("autoask");
                if same_chars(&v, &auto) || same_chars(&v, &yes) || same_chars(&v, &autoask) {
                    found = true;
                }
            }
        }
        i = i + 1;
    }
    proof {
        assert(ls.subrange(i as int, ls.len() as int) =~= Seq::<Seq<char>>::empty());
    }
    found
}

/// A master connection is worth opening for `host` when none is open yet
/// and the user's SSH configuration (if readable) multiplexes it.
pub fn needs_master_connection(host: &str, socket_exists: bool, ssh_config: Option<&str>) -> (r: bool)
    ensures
        r == (!socket_exists && match ssh_config {
            Some(c) => multiplexing_configured(c@, host@),
            None => false,
        }),
{
    if socket_exists {
        return false;
    }
    match ssh_config {
        Some(c) => is_multiplexing_configured(host, c),
        None => false,
    }
}

pub open spec fn master_command(host: Seq<char>) -> Seq<char> {
    "ssh -fNM -o ControlMaster=auto -o ControlPath=~/.ssh/sockets/%r@%h-%p -o ControlPersist=600 -o ConnectTimeout=10 git@"@
        + host
}

/// Commands, run from `.`, that open a persistent master connection to each
/// host marked as needing one, in order, before git runs in parallel.
pub fn ssh_pre_commands(hosts: &Vec<(String, bool)>) -> (r: Vec<PlannedCommand>)
    ensures
        r@.map_values(|c: PlannedCommand| (c.dir@, c.cmd@, c.env is None)) == hosts@.filter(
            |h: (String, bool)| h.1,
        ).map_values(|h: (String, bool)| ("."@, master_command(h.0@), true)),
{
    let mut out: Vec<PlannedCommand> = Vec::new();
    let mut i: usize = 0;
    proof {
        reveal(Seq::filter);
        assert(hosts@.subrange(0, 0) =~= Seq::<(String, bool)>::empty());
        assert(out@.map_values(|c: PlannedCommand| (c.dir@, c.cmd@, c.env is None)) =~= Seq::empty());
    }
    while i < hosts.len()
        invariant
            i <= hosts.len(),
            out@.map_values(|c: PlannedCommand| (c.dir@, c.cmd@, c.env is None)) == hosts@.subrange(0, i as int).filter(
                |h: (String, bool)| h.1,
            ).map_values(|h: (String, bool)| ("."@, master_command(h.0@), true)),
        decreases hosts.len() - i,
    {
        let ghost o0 = out@;
        proof {
            reveal(Seq::filter);
            assert(hosts@.subrange(0, i + 1).drop_last() =~= hosts@.subrange(0, i as int));
            assert(hosts@.subrange(0, i + 1).last() == hosts@[i as int]);
        }
        if hosts[i].1 {
            let mut cmd = chars_of(
                "ssh -fNM -o ControlMaster=auto -o ControlPath=~/.ssh/sockets/%r@%h-%p -o ControlPersist=600 -o ConnectTimeout=10 git@",
            );
            append_chars(&mut cmd, &chars_of(hosts[i].0.as_str()));
            out.push(PlannedCommand { dir: ".".to_owned(), cmd: string_of(&cmd), env: None });
            proof {
                assert(out@.map_values(|c: PlannedCommand| (c.dir@, c.cmd@, c.env is None)) =~= o0.map_values(
                    |c: PlannedCommand| (c.dir@, c.cmd@, c.env is None),
                ).push(("."@, master_command(hosts@[i as int].0@), true)));
            }
        } else {
            proof {
                assert(out@ == o0);
            }
        }
        i = i + 1;
    }
    proof {
        assert(hosts@.subrange(0, hosts.len() as int) =~= hosts@);
    }
    out
}

} // verus!

verus! {

pub open spec fn ssh_scheme() -> Seq<char> {
    "ssh://"@
}

/// An `ssh://user@host/path` URL written as `user@host:path`; other URLs unchanged.
pub open spec fn scp_form(u: Seq<char>) -> Seq<char> {
    if has_prefix(u, ssh_scheme()) {
        let rest = u.subrange(6, u.len() as int);
        let k = first_index(rest, '/');
        if 0 <= k < rest.len() {
            rest.subrange(0, k) + seq![':'] + rest.subrange(k + 1, rest.len() as int)
        } else {
            rest
        }
    } else {
        u
    }
}

/// What two remote URLs are compared by: the scp-like form, without a final `.git`.
pub open spec fn url_key(u: Seq<char>) -> Seq<char> {
    let s = scp_form(u);
    if has_suffix(s, ".git"@) {
        s.subrange(0, s.len() - 4)
    } else {
        s
    }
}

fn url_key_of(u: &str) -> (r: Vec<char>)
    ensures
        r@ == url_key(u@),
{
    proof {
        reveal_strlit("ssh://");
        reveal_strlit(".git");
    }
    let v = chars_of(u);
    let scheme = chars_of("ssh://");
    let s = if crate::text::starts_with(&v, &scheme) {
        let rest = slice_of(&v, 6, v.len());
        let k = find_char(&rest, '/', 0);
        proof {
            assert(rest@.subrange(0, rest@.len() as int) =~= rest@);
        }
        if k < rest.len() {
            let mut t = slice_of(&rest, 0, k);
            t.push(':');
            append_chars(&mut t, &slice_of(&rest, k + 1, rest.len()));
            t
        } else {
            rest
        }
    } else {
        v
    };
    assert(s@ == scp_form(u@));
    let git = chars_of(".git");
    if crate::text::ends_with(&s, &git) {
        slice_of(&s, 0, s.len() - 4)
    } else {
        s
    }
}

/// Whether two remote URLs name the same repository: `git@host:owner/repo`
/// and `ssh://git@host/owner/repo` are the same, with or without `.git`.
pub fn urls_match(a: &str, b: &str) -> (r: bool)
    ensures
        r == (url_key(a@) == url_key(b@)),
{
    same_chars(&url_key_of(a), &url_key_of(b))
}

/// The text after the last `c` (all of it when there is none).
pub open spec fn after_last(s: Seq<char>, c: char) -> Seq<char>
    decreases s.len(),
{
    if s.len() == 0 {
        s
    } else if s.last() == c {
        Seq::empty()
    } else {
        after_last(s.drop_last(), c).push(s.last())
    }
}

fn after_last_of(v: &Vec<char>, c: char) -> (r: Vec<char>)
    ensures
        r@ == after_last(v@, c),
{
    let mut start: usize = v.len();
    assert(v@.subrange(0, v@.len() as int) =~= v@);
    assert(v@ + Seq::<char>::empty() =~= v@);
    while start > 0 && v[start - 1] != c
        invariant
            start <= v.len(),
            after_last(v@, c) == after_last(v@.subrange(0, start as int), c) + v@.subrange(start as int, v@.len() as int),
        decreases start,
    {
        proof {
            let p = v@.subrange(0, start as int);
            assert(p.drop_last() =~= v@.subrange(0, start - 1));
            assert(after_last(p.drop_last(), c).push(p.last()) + v@.subrange(start as int, v@.len() as int) =~= after_last(p.drop_last(), c) + v@.subrange(start - 1, v@.len() as int));
        }
        start = start - 1;
    }
    proof {
        if start == 0 {
            assert(v@.subrange(0, 0) =~= Seq::<char>::empty());
        }
        assert(after_last(v@, c) =~= v@.subrange(start as int, v@.len() as int));
    }
    slice_of(v, start, v.len())
}

/// The host an SSH remote URL reaches: in `ssh://[user@]host[:port]/path`,
/// or in the scp-like `[user@]host:path`; none for other URLs.
pub open spec fn ssh_host(u: Seq<char>) -> Option<Seq<char>> {
    let h = if has_prefix(u, ssh_scheme()) {
        let rest = u.subrange(6, u.len() as int);
        let auth = rest.subrange(0, first_index(rest, '/'));
        let hp = after_last(auth, '@');
        hp.subrange(0, first_index(hp, ':'))
    } else if !occurs_in("://"@, u) && first_index(u, ':') < u.len() {
        after_last(u.subrange(0, first_index(u, ':')), '@')
    } else {
        Seq::empty()
    };
    if h.len() > 0 {
        Some(h)
    } else {
        None
    }
}

pub fn extract_ssh_host(u: &str) -> (r: Option<String>)
    ensures
        match ssh_host(u@) {
            Some(h) => r is Some && r->0@ == h,
            None => r is None,
        },
{
    proof {
        reveal_strlit("ssh://");
    }
    let v = chars_of(u);
    let scheme = chars_of("ssh://");
    let h = if crate::text::starts_with(&v, &scheme) {
        let rest = slice_of(&v, 6, v.len());
        let k = find_char(&rest, '/', 0);
        proof {
            assert(rest@.subrange(0, rest@.len() as int) =~= rest@);
        }
        let auth = slice_of(&rest, 0, k);
        let hp = after_last_of(&auth, '@');
        let p = find_char(&hp, ':', 0);
        proof {
            assert(hp@.subrange(0, hp@.len() as int) =~= hp@);
        }
        slice_of(&hp, 0, p)
    } else {
        let colon = find_char(&v, ':', 0);
        proof {
            assert(v@.subrange(0, v@.len() as int) =~= v@);
        }
        if !crate::text::contains_chars(&v, &chars_of("://")) && colon < v.len() {
            after_last_of(&slice_of(&v, 0, colon), '@')
        } else {
            Vec::new()
        }
    };
    if h.len() > 0 {
        Some(string_of(&h))
    } else {
        None
    }
}

/// The SSH hosts among `urls`.
pub open spec fn hosts_of(urls: Seq<Option<String>>) -> Set<Seq<char>> {
    Set::new(|h: Seq<char>| exists|i: int| 0 <= i < urls.len() && urls[i] is Some && #[trigger] ssh_host(urls[i]->0@) == Some(h))
}

/// The SSH hosts a manifest's remote URLs reach, sorted and each once;
/// `["github.com"]` when there are none or no manifest could be read
/// (`urls` absent).
pub fn discover_ssh_hosts(urls: Option<&Vec<Option<String>>>) -> (r: Vec<String>)
    ensures
        sorted(string_views(r@)),
        string_views(r@).no_duplicates(),
        match urls {
            Some(u) => if hosts_of(u@).is_empty() {
                string_views(r@) == seq!["github.com"@]
            } else {
                string_views(r@).to_set() == hosts_of(u@)
            },
            None => string_views(r@) == seq!["github.com"@],
        },
{
    let mut fallback: Vec<String> = Vec::new();
    fallback.push("github.com".to_owned());
    proof {
        assert(string_views(fallback@) =~= seq!["github.com"@]);
    }
    let u = match urls {
        Some(u) => u,
        None => {
            return fallback;
        },
    };
    let mut found: Vec<String> = Vec::new();
    let mut i: usize = 0;
    while i < u.len()
        invariant
            i <= u.len(),
            string_views(fallback@) == seq!["github.com"@],
            string_views(found@).to_set() == hosts_of(u@.subrange(0, i as int)),
        decreases u.len() - i,
    {
        let ghost f0 = string_views(found@);
        let ghost pre = u@.subrange(0, i as int);
        let ghost nxt = u@.subrange(0, i + 1);
        proof {
            assert forall|h: Seq<char>| hosts_of(nxt).contains(h) <==> (hosts_of(pre).contains(h) || (u@[i as int] is Some && ssh_host(u@[i as int]->0@) == Some(h))) by {
                if hosts_of(nxt).contains(h) {
                    let j = choose|j: int| 0 <= j < nxt.len() && nxt[j] is Some && #[trigger] ssh_host(nxt[j]->0@) == Some(h);
                    if j < i {
                        assert(pre[j] == nxt[j]);
                    }
                }
                if hosts_of(pre).contains(h) {
                    let j = choose|j: int| 0 <= j < pre.len() && pre[j] is Some && #[trigger] ssh_host(pre[j]->0@) == Some(h);
                    assert(nxt[j] == pre[j]);
                }
                if u@[i as int] is Some && ssh_host(u@[i as int]->0@) == Some(h) {
                    assert(nxt[i as int] == u@[i as int]);
                }
            }
        }
        match &u[i] {
            Some(url) => match extract_ssh_host(url.as_str()) {
                Some(h) => {
                    found.push(h);
                    proof {
                        assert(string_views(found@) =~= f0.push(ssh_host(u@[i as int]->0@)->0));
                        f0.lemma_push_to_set_commute(ssh_host(u@[i as int]->0@)->0);
                        assert(string_views(found@).to_set() =~= hosts_of(nxt));
                    }
                },
                None => {
                    proof {
                        assert(string_views(found@).to_set() =~= hosts_of(nxt));
                    }
                },
            },
            None => {
                proof {
                    assert(string_views(found@).to_set() =~= hosts_of(nxt));
                }
            },
        }
        i = i + 1;
    }
    proof {
        assert(u@.subrange(0, u.len() as int) =~= u@);
    }
    if found.len() == 0 {
        proof {
            assert(string_views(found@) =~= Seq::<Seq<char>>::empty());
            assert(hosts_of(u@) =~= Set::empty());
        }
        return fallback;
    }
    proof {
        let fv = string_views(found@);
        assert(fv.contains(fv[0]));
        assert(fv.to_set().contains(fv[0]));
        assert(hosts_of(u@).contains(fv[0]));
    }
    sort_dedup_strings(found)
}

} // verus!
