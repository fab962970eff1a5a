//! The commit coordinator: which message goes to which repository, through
//! one message for all or an edited multi-section template.
use crate::plan::PlannedCommand;
use crate::text::{
    str_eq,
    is_ws, lemma_decimal_no_nl, lemma_lines_of_join, lemma_trim_all_ws, no_nl, strip_cr,
    join_lines, lemma_join_lines_append, string_views, decimal,
    all_ws, append_chars, chars_of, has_prefix, has_suffix, lines_of, split_lines, starts_with, ends_with,
    string_of, strip_leading, strip_leading_chars, strip_trailing, strip_trailing_chars, trim,
    trim_chars, vec_views,
};
use vstd::prelude::*;

verus! {

/// A repository with staged changes: its name in the workspace, its path,
/// and the staged file names.
pub struct StagedRepo {
    pub name: String,
    pub path: String,
    pub files: Vec<String>,
}

pub open spec fn marker() -> Seq<char> {
    seq!['=', '=', '=', '=', '=', '=', '=', '=', '=', '=']
}

/// A line that opens a section: it starts and ends with the marker.
pub open spec fn is_header(l: Seq<char>) -> bool {
    has_prefix(l, marker()) && has_suffix(l, marker())
}

/// The repository a section header names: the text between the runs of `=`, trimmed.
pub open spec fn header_name(l: Seq<char>) -> Seq<char> {
    trim(strip_trailing(strip_leading(l, '='), '='))
}

pub open spec fn is_comment(l: Seq<char>) -> bool {
    l.len() > 0 && l[0] == '#'
}

/// The commit a finished section yields: none without a repository or when
/// the trimmed message is empty.
pub open spec fn flush(cur: Option<Seq<char>>, msg: Seq<char>) -> Seq<(Seq<char>, Seq<char>)> {
    match cur {
        Some(n) => if trim(msg).len() > 0 {
            seq![(n, trim(msg))]
        } else {
            Seq::empty()
        },
        None => Seq::empty(),
    }
}

/// The commits of the remaining lines `ls`, in the section of `cur` whose
/// message so far is `msg`. Outside a section only headers count; inside one,
/// every line but a comment adds itself and a line break to the message.
pub open spec fn parse_lines(ls: Seq<Seq<char>>, cur: Option<Seq<char>>, msg: Seq<char>) -> Seq<
    (Seq<char>, Seq<char>),
>
    decreases ls.len(),
{
    if ls.len() == 0 {
        flush(cur, msg)
    } else {
        let l = ls[0];
        if is_header(l) {
            flush(cur, msg) + parse_lines(ls.drop_first(), Some(header_name(l)), Seq::empty())
        } else if !is_comment(l) && cur is Some {
            parse_lines(ls.drop_first(), cur, msg + l + seq!['\n'])
        } else {
            parse_lines(ls.drop_first(), cur, msg)
        }
    }
}

/// The `(repository, message)` pairs of an edited template, in file order.
pub open spec fn parsed_commits(content: Seq<char>) -> Seq<(Seq<char>, Seq<char>)> {
    parse_lines(lines_of(content), None, Seq::empty())
}

pub open spec fn commit_views(v: Seq<(String, String)>) -> Seq<(Seq<char>, Seq<char>)> {
    v.map_values(|p: (String, String)| (p.0@, p.1@))
}

fn flush_into(out: &mut Vec<(String, String)>, cur: &Option<Vec<char>>, msg: &Vec<char>)
    ensures
        commit_views(final(out)@) == commit_views(old(out)@) + flush(
            match cur {
                Some(c) => Some(c@),
                None => None,
            },
            msg@,
        ),
{
    let ghost o = out@;
    match cur {
        Some(name) => {
            let m = trim_chars(msg);
            if m.len() > 0 {
                let p = (string_of(name), string_of(&m));
                out.push(p);
                assert(commit_views(out@) =~= commit_views(o) + seq![(name@, m@)]);
            } else {
                assert(commit_views(out@) =~= commit_views(o) + Seq::empty());
            }
        },
        None => {
            assert(commit_views(out@) =~= commit_views(o) + Seq::empty());
        },
    }
}

pub open spec fn opt_view(o: Option<Vec<char>>) -> Option<Seq<char>> {
    match o {
        Some(c) => Some(c@),
        None => None,
    }
}

/// Parses an edited multi-commit template into `(repository, message)`
/// pairs: each section runs from its header to the next; comment lines are
/// left out; messages are trimmed and empty ones dropped.
pub fn parse_multi_commit_file(content: &str) -> (r: Vec<(String, String)>)
    ensures
        commit_views(r@) == parsed_commits(content@),
{
    let text = chars_of(content);
    let lines = split_lines(&text);
    let mark = marker_chars();
    let mut out: Vec<(String, String)> = Vec::new();
    let mut cur: Option<Vec<char>> = None;
    let mut msg: Vec<char> = Vec::new();
    let mut k: usize = 0;
    let ghost ls = lines_of(content@);
    proof {
        assert(vec_views(lines@).subrange(0, lines@.len() as int) =~= ls);
    }
    while k < lines.len()
        invariant
            k <= lines.len(),
            ls == vec_views(lines@),
            mark@ == marker(),
            parsed_commits(content@) == commit_views(out@) + parse_lines(
                ls.subrange(k as int, ls.len() as int),
                opt_view(cur),
                msg@,
            ),
        decreases lines.len() - k,
    {
        let ghost rest = ls.subrange(k as int, ls.len() as int);
        let ghost o = out@;
        let ghost c0 = opt_view(cur);
        let ghost m0 = msg@;
        proof {
            assert(rest.drop_first() =~= ls.subrange(k + 1, ls.len() as int));
            assert(rest[0] == lines@[k as int]@);
        }
        let line = &lines[k];
        if starts_with(line, &mark) && ends_with(line, &mark) {
            flush_into(&mut out, &cur, &msg);
            let name = trim_chars(&strip_trailing_chars(&strip_leading_chars(line, '='), '='));
            cur = Some(name);
            msg = Vec::new();
            proof {
                assert(commit_views(o) + parse_lines(rest, c0, m0) == commit_views(out@)
                    + parse_lines(rest.drop_first(), opt_view(cur), msg@)) by {
                    assert(msg@ =~= Seq::<char>::empty());
                    assert(commit_views(out@) + parse_lines(rest.drop_first(), opt_view(cur), msg@)
                        =~= commit_views(o) + (flush(c0, m0) + parse_lines(
                        rest.drop_first(),
                        opt_view(cur),
                        msg@,
                    )));
                }
            }
        } else if !(line.len() > 0 && line[0] == '#') && cur.is_some() {
            append_chars(&mut msg, line);
            msg.push('\n');
            proof {
                assert(msg@ =~= m0 + rest[0] + seq!['\n']);
            }
        }
        k = k + 1;
    }
    proof {
        assert(ls.subrange(k as int, ls.len() as int) =~= Seq::<Seq<char>>::empty());
    }
    flush_into(&mut out, &cur, &msg);
    out
}

fn marker_chars() -> (r: Vec<char>)
    ensures
        r@ == marker(),
{
    let mut r: Vec<char> = Vec::new();
    let mut i: usize = 0;
    while i < 10
        invariant
            i <= 10,
            r@.len() == i,
            forall|j: int| 0 <= j < i ==> r@[j] == '=',
        decreases 10 - i,
    {
        r.push('=');
        i = i + 1;
    }
    assert(r@ =~= marker());
    r
}

} // verus!

verus! {

pub open spec fn preamble_lines() -> Seq<Seq<char>> {
    seq![
        "# Meta Multi-Commit"@,
        "# Each section represents one repository."@,
        "# Edit the message below each header."@,
        "# Delete a section entirely or leave message empty to skip that repo."@,
        "#"@,
        Seq::empty(),
    ]
}

pub open spec fn header_line(name: Seq<char>) -> Seq<char> {
    marker() + seq![' '] + name + seq![' '] + marker()
}

/// The items separated by `sep`.
pub open spec fn join_sep(items: Seq<Seq<char>>, sep: Seq<char>) -> Seq<char>
    decreases items.len(),
{
    if items.len() == 0 {
        Seq::empty()
    } else if items.len() == 1 {
        items[0]
    } else {
        join_sep(items.drop_last(), sep) + sep + items.last()
    }
}

pub open spec fn files_line(files: Seq<Seq<char>>) -> Seq<char> {
    "# "@ + decimal(files.len()) + " file(s) staged: "@ + join_sep(files, ", "@)
}

pub open spec fn enter_line() -> Seq<char> {
    "# Enter commit message above this line"@
}

pub open spec fn section_lines(name: Seq<char>, files: Seq<Seq<char>>) -> Seq<Seq<char>> {
    seq![header_line(name), files_line(files), Seq::empty(), enter_line(), Seq::empty()]
}

/// The template's lines: a comment preamble, then one section per repository.
pub open spec fn template_lines(repos: Seq<(Seq<char>, Seq<Seq<char>>)>) -> Seq<Seq<char>>
    decreases repos.len(),
{
    if repos.len() == 0 {
        preamble_lines()
    } else {
        template_lines(repos.drop_last()) + section_lines(repos.last().0, repos.last().1)
    }
}

pub open spec fn template_text(repos: Seq<(Seq<char>, Seq<Seq<char>>)>) -> Seq<char> {
    join_lines(template_lines(repos))
}

pub open spec fn staged_views(v: Seq<StagedRepo>) -> Seq<(Seq<char>, Seq<Seq<char>>)> {
    v.map_values(|r: StagedRepo| (r.name@, string_views(r.files@)))
}

fn push_line(out: &mut Vec<char>, line: &Vec<char>)
    ensures
        final(out)@ == old(out)@ + line@ + seq!['\n'],
{
    append_chars(out, line);
    out.push('\n');
}

fn joined_files(files: &Vec<String>) -> (r: Vec<char>)
    ensures
        r@ == join_sep(string_views(files@), ", "@),
{
    let sep = chars_of(", ");
    let mut r: Vec<char> = Vec::new();
    let mut i: usize = 0;
    while i < files.len()
        invariant
            i <= files.len(),
            sep@ == ", "@,
            r@ == join_sep(string_views(files@).subrange(0, i as int), ", "@),
        decreases files.len() - i,
    {
        let ghost pre = string_views(files@).subrange(0, i as int);
        let ghost nxt = string_views(files@).subrange(0, i + 1);
        proof {
            assert(nxt.drop_last() =~= pre);
            assert(nxt.last() == files@[i as int]@);
        }
        if i > 0 {
            append_chars(&mut r, &sep);
        } else {
            assert(pre =~= Seq::<Seq<char>>::empty());
        }
        append_chars(&mut r, &chars_of(files[i].as_str()));
        proof {
            if i == 0 {
                assert(r@ =~= nxt[0]);
            }
        }
        i = i + 1;
    }
    assert(string_views(files@).subrange(0, files@.len() as int) =~= string_views(files@));
    r
}

/// The editor template: a comment preamble, then for each repository a
/// header, a comment with its staged files, and an empty message.
pub fn build_commit_template(repos: &Vec<StagedRepo>) -> (r: String)
    ensures
        r@ == template_text(staged_views(repos@)),
{
    let mut out: Vec<char> = Vec::new();
    push_line(&mut out, &chars_of("# Meta Multi-Commit"));
    push_line(&mut out, &chars_of("# Each section represents one repository."));
    push_line(&mut out, &chars_of("# Edit the message below each header."));
    push_line(&mut out, &chars_of("# Delete a section entirely or leave message empty to skip that repo."));
    push_line(&mut out, &chars_of("#"));
    out.push('\n');
    let ghost sv = staged_views(repos@);
    proof {
        reveal_with_fuel(join_lines, 7);
        assert(out@ =~= join_lines(preamble_lines()));
        assert(sv.subrange(0, 0) =~= Seq::<(Seq<char>, Seq<Seq<char>>)>::empty());
    }
    let mark = marker_chars();
    let enter = chars_of("# Enter commit message above this line");
    let empty: Vec<char> = Vec::new();
    let mut i: usize = 0;
    while i < repos.len()
        invariant
            i <= repos.len(),
            sv == staged_views(repos@),
            mark@ == marker(),
            enter@ == enter_line(),
            empty@ == Seq::<char>::empty(),
            out@ == join_lines(template_lines(sv.subrange(0, i as int))),
        decreases repos.len() - i,
    {
        let repo = &repos[i];
        let mut header = mark.clone();
        header.push(' ');
        append_chars(&mut header, &chars_of(repo.name.as_str()));
        header.push(' ');
        append_chars(&mut header, &mark);
        let mut files = chars_of("# ");
        append_chars(&mut files, &crate::text::decimal_chars(repo.files.len()));
        append_chars(&mut files, &chars_of(" file(s) staged: "));
        append_chars(&mut files, &joined_files(&repo.files));
        let ghost before = out@;
        push_line(&mut out, &header);
        push_line(&mut out, &files);
        push_line(&mut out, &empty);
        push_line(&mut out, &enter);
        push_line(&mut out, &empty);
        proof {
            let x = sv[i as int];
            assert(x == (repo.name@, string_views(repo.files@)));
            assert(header@ =~= header_line(x.0));
            assert(files@ =~= files_line(x.1));
            let pre = sv.subrange(0, i as int);
            assert(sv.subrange(0, i + 1).drop_last() =~= pre);
            assert(template_lines(sv.subrange(0, i + 1)) == template_lines(pre) + section_lines(
                x.0,
                x.1,
            ));
            lemma_join_lines_append(template_lines(pre), section_lines(x.0, x.1));
            reveal_with_fuel(join_lines, 6);
            assert(out@ =~= before + join_lines(section_lines(x.0, x.1)));
        }
        i = i + 1;
    }
    proof {
        assert(sv.subrange(0, repos@.len() as int) =~= sv);
    }
    string_of(&out)
}

} // verus!

verus! {

pub open spec fn inert_line(l: Seq<char>) -> bool {
    is_header(l) || is_comment(l) || all_ws(l)
}

proof fn lemma_flush_ws(cur: Option<Seq<char>>, msg: Seq<char>)
    requires
        all_ws(msg),
    ensures
        flush(cur, msg) == Seq::<(Seq<char>, Seq<char>)>::empty(),
{
    lemma_trim_all_ws(msg);
}

proof fn lemma_parse_inert(ls: Seq<Seq<char>>, cur: Option<Seq<char>>, msg: Seq<char>)
    requires
        forall|i: int| 0 <= i < ls.len() ==> inert_line(#[trigger] ls[i]),
        all_ws(msg),
    ensures
        parse_lines(ls, cur, msg) == Seq::<(Seq<char>, Seq<char>)>::empty(),
    decreases ls.len(),
{
    lemma_flush_ws(cur, msg);
    if ls.len() > 0 {
        let l = ls[0];
        assert(inert_line(l));
        assert forall|i: int| 0 <= i < ls.drop_first().len() implies inert_line(
            #[trigger] ls.drop_first()[i],
        ) by {
            assert(ls.drop_first()[i] == ls[i + 1]);
        }
        if is_header(l) {
            lemma_parse_inert(ls.drop_first(), Some(header_name(l)), Seq::empty());
            assert(flush(cur, msg) + Seq::<(Seq<char>, Seq<char>)>::empty() =~= Seq::<
                (Seq<char>, Seq<char>),
            >::empty());
        } else if !is_comment(l) && cur is Some {
            let m2 = msg + l + seq!['\n'];
            assert(all_ws(m2)) by {
                assert forall|j: int| 0 <= j < m2.len() implies is_ws(#[trigger] m2[j]) by {
                    if j < msg.len() {
                        assert(m2[j] == msg[j]);
                    } else if j < msg.len() + l.len() {
                        assert(m2[j] == l[j - msg.len()]);
                    }
                }
            }
            lemma_parse_inert(ls.drop_first(), cur, m2);
        } else {
            lemma_parse_inert(ls.drop_first(), cur, msg);
        }
    }
}

proof fn lemma_join_sep_no_nl(items: Seq<Seq<char>>, sep: Seq<char>)
    requires
        no_nl(sep),
        forall|i: int| 0 <= i < items.len() ==> no_nl(#[trigger] items[i]),
    ensures
        no_nl(join_sep(items, sep)),
    decreases items.len(),
{
    if items.len() > 1 {
        assert forall|i: int| 0 <= i < items.drop_last().len() implies no_nl(
            #[trigger] items.drop_last()[i],
        ) by {
            assert(items.drop_last()[i] == items[i]);
        }
        lemma_join_sep_no_nl(items.drop_last(), sep);
        lemma_concat_no_nl(join_sep(items.drop_last(), sep), sep);
        lemma_concat_no_nl(join_sep(items.drop_last(), sep) + sep, items.last());
    } else if items.len() == 1 {
        assert(no_nl(items[0]));
    }
}

proof fn lemma_concat_no_nl(a: Seq<char>, b: Seq<char>)
    requires
        no_nl(a),
        no_nl(b),
    ensures
        no_nl(a + b),
{
    assert forall|j: int| 0 <= j < (a + b).len() implies (a + b)[j] != '\n' by {
        if j < a.len() {
            assert((a + b)[j] == a[j]);
            assert(a.contains(a[j]));
        } else {
            assert((a + b)[j] == b[j - a.len()]);
            assert(b.contains(b[j - a.len()]));
        }
    }
}

pub open spec fn plain_names(repos: Seq<(Seq<char>, Seq<Seq<char>>)>) -> bool {
    forall|i: int|
        0 <= i < repos.len() ==> no_nl(#[trigger] repos[i].0) && forall|j: int|
            0 <= j < repos[i].1.len() ==> no_nl(#[trigger] repos[i].1[j])
}

proof fn lemma_template_lines_inert(repos: Seq<(Seq<char>, Seq<Seq<char>>)>)
    requires
        plain_names(repos),
    ensures
        forall|i: int|
            0 <= i < template_lines(repos).len() ==> no_nl(#[trigger] template_lines(repos)[i])
                && inert_line(strip_cr(template_lines(repos)[i])),
    decreases repos.len(),
{
    reveal_strlit("# Meta Multi-Commit");
    reveal_strlit("# Each section represents one repository.");
    reveal_strlit("# Edit the message below each header.");
    reveal_strlit("# Delete a section entirely or leave message empty to skip that repo.");
    reveal_strlit("#");
    reveal_strlit("# Enter commit message above this line");
    reveal_strlit("# ");
    reveal_strlit(" file(s) staged: ");
    reveal_strlit(", ");
    if repos.len() == 0 {
        let p = preamble_lines();
        assert forall|i: int| 0 <= i < p.len() implies no_nl(#[trigger] p[i]) && inert_line(
            strip_cr(p[i]),
        ) by {
            if i < 5 {
                assert(p[i][0] == '#');
                assert(p[i].last() != '\r');
                assert(no_nl(p[i]));
            } else {
                assert(p[i].len() == 0);
                assert(strip_cr(p[i]) =~= p[i]);
            }
        }
    } else {
        let pre = repos.drop_last();
        assert(plain_names(pre)) by {
            assert forall|i: int| 0 <= i < pre.len() implies no_nl(#[trigger] pre[i].0) && forall|j: int|
                0 <= j < pre[i].1.len() ==> no_nl(#[trigger] pre[i].1[j]) by {
                assert(pre[i] == repos[i]);
            }
        }
        lemma_template_lines_inert(pre);
        let x = repos.last();
        assert(x == repos[repos.len() - 1]);
        let sl = section_lines(x.0, x.1);
        let h = header_line(x.0);
        assert(no_nl(h)) by {
            assert(no_nl(marker()));
            assert(no_nl(seq![' ']));
            lemma_concat_no_nl(marker(), seq![' ']);
            lemma_concat_no_nl(marker() + seq![' '], x.0);
            lemma_concat_no_nl(marker() + seq![' '] + x.0, seq![' ']);
            lemma_concat_no_nl(marker() + seq![' '] + x.0 + seq![' '], marker());
        }
        assert(is_header(strip_cr(h))) by {
            assert(h.last() == '=');
            assert(h.subrange(0, 10) =~= marker());
            assert(h.subrange(h.len() - 10, h.len() as int) =~= marker());
        }
        let f = files_line(x.1);
        assert(no_nl(f)) by {
            lemma_decimal_no_nl(x.1.len());
            assert forall|j: int| 0 <= j < x.1.len() implies no_nl(#[trigger] x.1[j]) by {
                assert(no_nl(repos[repos.len() - 1].1[j]));
            }
            lemma_join_sep_no_nl(x.1, ", "@);
            lemma_concat_no_nl("# "@, decimal(x.1.len()));
            lemma_concat_no_nl("# "@ + decimal(x.1.len()), " file(s) staged: "@);
            lemma_concat_no_nl(
                "# "@ + decimal(x.1.len()) + " file(s) staged: "@,
                join_sep(x.1, ", "@),
            );
        }
        assert(is_comment(strip_cr(f))) by {
            assert(f[0] == '#');
            assert(f.len() >= 2);
        }
        assert(inert_line(strip_cr(enter_line()))) by {
            assert(enter_line().last() != '\r');
        }
        assert(strip_cr(Seq::<char>::empty()) =~= Seq::<char>::empty());
        let t = template_lines(repos);
        assert(t == template_lines(pre) + sl);
        assert forall|i: int| 0 <= i < t.len() implies no_nl(#[trigger] t[i]) && inert_line(
            strip_cr(t[i]),
        ) by {
            if i < template_lines(pre).len() {
                assert(t[i] == template_lines(pre)[i]);
            } else {
                let k = i - template_lines(pre).len();
                assert(t[i] == sl[k]);
                if k == 1 {
                    assert(sl[1] == f);
                } else if k == 0 {
                    assert(sl[0] == h);
                } else if k == 3 {
                    assert(sl[3] == enter_line());
                } else {
                    assert(sl[k] == Seq::<char>::empty());
                }
            }
        }
    }
}

/// Parsing an unedited template yields no commit: every message region is
/// empty. (Repository and file names are single lines.)
pub proof fn lemma_unedited_template_yields_nothing(repos: Seq<(Seq<char>, Seq<Seq<char>>)>)
    requires
        plain_names(repos),
    ensures
        parsed_commits(template_text(repos)) == Seq::<(Seq<char>, Seq<char>)>::empty(),
{
    let t = template_lines(repos);
    lemma_template_lines_inert(repos);
    lemma_lines_of_join(t);
    let ls = lines_of(template_text(repos));
    assert forall|i: int| 0 <= i < ls.len() implies inert_line(#[trigger] ls[i]) by {
        assert(ls[i] == strip_cr(t[i]));
    }
    assert(all_ws(Seq::<char>::empty()));
    lemma_parse_inert(ls, None, Seq::empty());
}

} // verus!

verus! {

/// How `commit` was asked to run.
pub struct CommitArgs {
    pub use_editor: bool,
    pub message: Option<String>,
}

/// The flags of `commit`, read left to right: `--edit`/`-e` asks for the
/// editor; `-m`/`--message` takes the next argument as the message (the last
/// one counts); a `-m` without a value, and anything else, is skipped.
pub open spec fn scan_commit_args(args: Seq<Seq<char>>, i: int, edit: bool, msg: Option<Seq<char>>) -> (
    bool,
    Option<Seq<char>>,
)
    decreases args.len() - i,
{
    if i < 0 || i >= args.len() {
        (edit, msg)
    } else if args[i] == "--edit"@ || args[i] == "-e"@ {
        scan_commit_args(args, i + 1, true, msg)
    } else if (args[i] == "-m"@ || args[i] == "--message"@) && i + 1 < args.len() {
        scan_commit_args(args, i + 2, edit, Some(args[i + 1]))
    } else {
        scan_commit_args(args, i + 1, edit, msg)
    }
}

pub fn parse_commit_args(args: &Vec<String>) -> (r: CommitArgs)
    ensures
        (r.use_editor, match r.message {
            Some(m) => Some(m@),
            None => None,
        }) == scan_commit_args(string_views(args@), 0, false, None),
{
    let ghost a = string_views(args@);
    let mut use_editor = false;
    let mut message: Option<String> = None;
    let mut idx: usize = 0;
    while idx < args.len()
        invariant
            idx <= args.len() + 1,
            a == string_views(args@),
            scan_commit_args(a, 0, false, None) == scan_commit_args(
                a,
                idx as int,
                use_editor,
                match message {
                    Some(m) => Some(m@),
                    None => None,
                },
            ),
        decreases args.len() + 1 - idx,
    {
        let s = args[idx].as_str();
        proof {
            assert(a[idx as int] == s@);
        }
        if str_eq(s, "--edit") || str_eq(s, "-e") {
            use_editor = true;
            idx = idx + 1;
        } else if (str_eq(s, "-m") || str_eq(s, "--message")) && idx + 1 < args.len() {
            proof {
                assert(a[idx + 1] == args@[idx + 1]@);
            }
            message = Some(args[idx + 1].clone());
            idx = idx + 2;
        } else {
            idx = idx + 1;
        }
    }
    CommitArgs { use_editor, message }
}

/// `s` with each single quote written as `'\''`, for use inside single quotes.
pub open spec fn escape_single_quotes(s: Seq<char>) -> Seq<char>
    decreases s.len(),
{
    if s.len() == 0 {
        Seq::empty()
    } else {
        escape_single_quotes(s.drop_last()) + if s.last() == '\'' {
            seq!['\'', '\\', '\'', '\'']
        } else {
            seq![s.last()]
        }
    }
}

pub fn escape_for_shell(s: &str) -> (r: String)
    ensures
        r@ == escape_single_quotes(s@),
{
    let v = chars_of(s);
    let mut out: Vec<char> = Vec::new();
    let mut i: usize = 0;
    while i < v.len()
        invariant
            i <= v.len(),
            v@ == s@,
            out@ == escape_single_quotes(v@.subrange(0, i as int)),
        decreases v.len() - i,
    {
        proof {
            assert(v@.subrange(0, i + 1).drop_last() =~= v@.subrange(0, i as int));
        }
        if v[i] == '\'' {
            out.push('\'');
            out.push('\\');
            out.push('\'');
            out.push('\'');
        } else {
            out.push(v[i]);
        }
        proof {
            assert(out@ =~= escape_single_quotes(v@.subrange(0, i + 1)));
        }
        i = i + 1;
    }
    assert(v@.subrange(0, v@.len() as int) =~= v@);
    string_of(&out)
}

pub open spec fn commit_command(message: Seq<char>) -> Seq<char> {
    "git commit -m '"@ + escape_single_quotes(message) + "'"@
}

/// The directory a plan entry of a staged repository runs in: `.` for the
/// workspace root, its path otherwise.
pub open spec fn commit_dir(r: StagedRepo) -> Seq<char> {
    if r.name@ == "."@ {
        "."@
    } else {
        r.path@
    }
}

/// One `git commit -m '<message>'` per staged repository, in order.
pub fn commit_plan(repos: &Vec<StagedRepo>, message: &str) -> (r: Vec<PlannedCommand>)
    ensures
        r.len() == repos.len(),
        forall|i: int|
            0 <= i < r.len() ==> #[trigger] r@[i].dir@ == commit_dir(repos@[i]) && r@[i].cmd@
                == commit_command(message@) && r@[i].env is None,
{
    let escaped = chars_of(escape_for_shell(message).as_str());
    let mut cmd = chars_of("git commit -m '");
    append_chars(&mut cmd, &escaped);
    cmd.push('\'');
    proof {
        reveal_strlit("'");
        assert(cmd@ =~= commit_command(message@));
    }
    let mut out: Vec<PlannedCommand> = Vec::new();
    let mut i: usize = 0;
    while i < repos.len()
        invariant
            i <= repos.len(),
            out.len() == i,
            cmd@ == commit_command(message@),
            forall|j: int|
                0 <= j < i ==> #[trigger] out@[j].dir@ == commit_dir(repos@[j]) && out@[j].cmd@
                    == commit_command(message@) && out@[j].env is None,
        decreases repos.len() - i,
    {
        let dir = if str_eq(repos[i].name.as_str(), ".") {
            ".".to_owned()
        } else {
            repos[i].path.clone()
        };
        out.push(PlannedCommand { dir, cmd: string_of(&cmd), env: None });
        i = i + 1;
    }
    out
}

} // verus!
