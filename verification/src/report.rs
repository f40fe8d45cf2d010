//! What is told to the user: the checks of the arguments, the orphans and the issues.
use crate::collections::{lemma_take_next, StringMap, StringSet};
use crate::config::{find_project_ignore_ancestor, first_with_ignore, ancestors_of};
use crate::path::{base_name, base_of, dir_name, dir_of, is_under, rel_of, rel_path, under};
use crate::scene::{
    issue_views, IssueKind, IssueKindView, IssueView, LinkIssue, ScopeView, StyleScope,
};
use crate::sort::{
    law_text_order, sort, sorted_members, text_before, text_le, text_order, views, Ranked,
};
use crate::text::{
    chars_of, concat2, concat3, contains_char, join, join_first, split, split_text, str_eq, texts,
};
use vstd::prelude::*;
use vstd::relations::total_ordering;
use vstd::string::StringExecFns;

verus! {

/// The number in decimal digits.
pub open spec fn decimal(n: nat) -> Seq<char>
    decreases n,
{
    if n < 10 {
        seq![('0' as int + n) as char]
    } else {
        decimal(n / 10).push(('0' as int + (n % 10)) as char)
    }
}

fn decimal_text(n: usize) -> (r: String)
    ensures
        r@ == decimal(n as nat),
    decreases n,
{
    let mut r = if n < 10 {
        String::new()
    } else {
        decimal_text(n / 10)
    };
    let ghost head = r@;
    r.push((0x30u8 + (n % 10) as u8) as char);
    if n < 10 {
        assert(head =~= Seq::empty());
        assert(r@ =~= seq![('0' as int + n) as char]);
    }
    r
}

/// The patterns of the arguments: each argument holds one or more, with commas between.
pub open spec fn split_all(args: Seq<Seq<char>>) -> Seq<Seq<char>>
    decreases args.len(),
{
    if args.len() == 0 {
        Seq::empty()
    } else {
        split_all(args.drop_last()) + split(args.last(), ',')
    }
}

/// The patterns of the arguments, which have commas between them.
pub fn exclude_patterns(args: &Vec<String>) -> (r: Vec<String>)
    ensures
        texts(r@) == split_all(texts(args@)),
{
    let ghost all = texts(args@);
    let mut r: Vec<String> = Vec::new();
    let mut i: usize = 0;
    assert(all.take(0) =~= Seq::empty());
    assert(texts(r@) =~= Seq::empty());
    while i < args.len()
        invariant
            i <= args.len(),
            all == texts(args@),
            texts(r@) == split_all(all.take(i as int)),
        decreases args.len() - i,
    {
        assert(all.take(i + 1).drop_last() =~= all.take(i as int));
        assert(all.take(i + 1).last() == args@[i as int]@);
        let mut more = split_text(args[i].as_str(), ',');
        let ghost before = r@;
        let ghost added = more@;
        r.append(&mut more);
        assert(texts(r@) =~= texts(before) + texts(added));
        i += 1;
    }
    assert(all.take(i as int) =~= all);
    r
}

/// Two stars stand side by side.
pub open spec fn globstar(p: Seq<char>) -> bool {
    exists|i: int| 0 <= i < p.len() - 1 && #[trigger] p[i] == '*' && p[i + 1] == '*'
}

/// What is wrong with a pattern.
pub open spec fn pattern_error(p: Seq<char>) -> Option<Seq<char>> {
    if globstar(p) {
        Some("--exclude: '**' globstar not supported; * matches within a single directory"@)
    } else if p.contains('[') && !p.contains(']') {
        Some("--exclude: unclosed '[' in pattern '"@ + p + "'"@)
    } else {
        None
    }
}

/// The first error of the patterns.
pub open spec fn first_error(ps: Seq<Seq<char>>) -> Option<Seq<char>>
    decreases ps.len(),
{
    if ps.len() == 0 {
        None
    } else {
        match pattern_error(ps[0]) {
            Some(e) => Some(e),
            None => first_error(ps.skip(1)),
        }
    }
}

fn has_globstar(p: &str) -> (r: bool)
    ensures
        r == globstar(p@),
{
    let cs = chars_of(p);
    let mut i: usize = 0;
    while cs.len() - i > 1
        invariant
            i <= cs.len(),
            cs@ == p@,
            forall|j: int| 0 <= j < i ==> !(#[trigger] p@[j] == '*' && p@[j + 1] == '*'),
        decreases cs.len() - i,
    {
        if cs[i] == '*' && cs[i + 1] == '*' {
            assert(p@[i as int] == '*');
            return true;
        }
        i += 1;
    }
    false
}

/// Checks the patterns of the arguments; gives the first error.
pub fn check_patterns(ps: &Vec<String>) -> (r: Option<String>)
    ensures
        (match r {
            Some(e) => Some(e@),
            None => None,
        }) == first_error(texts(ps@)),
{
    let ghost all = texts(ps@);
    let mut i: usize = 0;
    assert(all.skip(0) =~= all);
    while i < ps.len()
        invariant
            i <= ps.len(),
            all == texts(ps@),
            first_error(all) == first_error(all.skip(i as int)),
        decreases ps.len() - i,
    {
        assert(all.skip(i as int)[0] == ps@[i as int]@);
        assert(all.skip(i as int).skip(1) =~= all.skip(i + 1));
        let p = ps[i].as_str();
        if has_globstar(p) {
            return Some(
                "--exclude: '**' globstar not supported; * matches within a single directory".to_owned(),
            );
        }
        if contains_char(p, '[') && !contains_char(p, ']') {
            return Some(concat3("--exclude: unclosed '[' in pattern '", p, "'"));
        }
        i += 1;
    }
    None
}

/// The message about an entry point outside the root.
pub open spec fn outside_root(entry: Seq<char>, root: Seq<char>) -> Seq<char> {
    entry + ": outside repo root `"@ + root
        + "` (derived from the first entry point)\nAll entry points must live under one repo root; run md-orphan once per repo."@
}

/// The first entry point, from the `i`th on, that is not under the root.
pub open spec fn first_outside(entries: Seq<Seq<char>>, root: Seq<char>, i: int) -> Option<
    Seq<char>,
>
    decreases entries.len() - i,
{
    if i >= entries.len() {
        None
    } else if !under(entries[i], root) {
        Some(entries[i])
    } else {
        first_outside(entries, root, i + 1)
    }
}

/// The root of the repository: the directory of the first entry point. The other entry
/// points must lie under it.
pub open spec fn root_of(entries: Seq<Seq<char>>) -> Result<Seq<char>, Seq<char>> {
    if entries.len() == 0 {
        Err("missing entry point"@)
    } else {
        let root = dir_of(entries[0]);
        match first_outside(entries, root, 1) {
            Some(e) => Err(outside_root(e, root)),
            None => Ok(root),
        }
    }
}

/// The root of the repository that the entry points belong to, or what is wrong.
pub fn repo_root(entries: &Vec<String>) -> (r: Result<String, String>)
    ensures
        (match r {
            Ok(s) => Ok(s@),
            Err(e) => Err(e@),
        }) == root_of(texts(entries@)),
{
    let ghost all = texts(entries@);
    if entries.len() == 0 {
        return Err("missing entry point".to_owned());
    }
    assert(all[0] == entries@[0]@);
    let root = dir_name(entries[0].as_str());
    let mut i: usize = 1;
    while i < entries.len()
        invariant
            1 <= i <= entries.len(),
            all == texts(entries@),
            root@ == dir_of(all[0]),
            first_outside(all, root@, 1) == first_outside(all, root@, i as int),
        decreases entries.len() - i,
    {
        assert(all[i as int] == entries@[i as int]@);
        if !is_under(entries[i].as_str(), root) {
            let mut m = concat3(entries[i].as_str(), ": outside repo root `", root);
            m.append(
                "` (derived from the first entry point)\nAll entry points must live under one repo root; run md-orphan once per repo.",
            );
            return Err(m);
        }
        i += 1;
    }
    Ok(root.to_owned())
}

/// The first of the names that a file of the directory has.
pub open spec fn usual_entry(
    dir: Seq<char>,
    usual: Seq<Seq<char>>,
    existing: Set<Seq<char>>,
) -> Option<Seq<char>>
    decreases usual.len(),
{
    if usual.len() == 0 {
        None
    } else if existing.contains(dir + "/"@ + usual[0]) {
        Some(usual[0])
    } else {
        usual_entry(dir, usual.skip(1), existing)
    }
}

fn find_usual_entry<'a>(dir: &str, usual: &'a Vec<String>, existing: &StringSet) -> (r: Option<
    &'a str,
>)
    ensures
        (match r {
            Some(n) => Some(n@),
            None => None,
        }) == usual_entry(dir@, texts(usual@), existing@),
{
    let ghost all = texts(usual@);
    let mut i: usize = 0;
    assert(all.skip(0) =~= all);
    while i < usual.len()
        invariant
            i <= usual.len(),
            all == texts(usual@),
            usual_entry(dir@, all, existing@) == usual_entry(
                dir@,
                all.skip(i as int),
                existing@,
            ),
        decreases usual.len() - i,
    {
        assert(all.skip(i as int)[0] == usual@[i as int]@);
        assert(all.skip(i as int).skip(1) =~= all.skip(i + 1));
        if existing.contains(concat3(dir, "/", usual[i].as_str()).as_str()) {
            return Some(usual[i].as_str());
        }
        i += 1;
    }
    None
}

/// The message about a repository without an `.md-orphan` file.
pub open spec fn missing_ignore(
    root: Seq<char>,
    usual: Seq<Seq<char>>,
    existing: Set<Seq<char>>,
) -> Seq<char> {
    match first_with_ignore(ancestors_of(root), existing) {
        Some(dir) => root + "/.md-orphan: missing, but an ancestor has one:\n  "@ + dir
            + "/.md-orphan\n\nmd-orphan treats the entry point's parent as the repo root. Your entry point is below the\nconfigured root — pass an entry point inside `"@
            + dir + "` instead"@ + (match usual_entry(dir, usual, existing) {
            Some(name) => " (e.g. `md-orphan "@ + dir + "/"@ + name + "`)"@,
            None => Seq::empty(),
        }) + ".\n\nIf `"@ + root + "` really is a separate repo with its own scope, create `"@ + root
            + "/.md-orphan` to declare it."@,
        None => root
            + "/.md-orphan: missing\nEvery md-orphan-checked repo needs a `.md-orphan` file at its root listing project-specific\nignore patterns (gitignore-style line patterns). Built-in defaults handle .git, node_modules,\nLibrary, Pods, etc., but project-specific dirs (Unity Packages, vendored docs, build outputs)\nmust be enumerated explicitly. Create the file with `touch "@
            + root + "/.md-orphan` if you have\nno extras."@,
    }
}

/// The message about a repository without an `.md-orphan` file, given which files exist.
/// `usual` are the names of entry files to suggest.
pub fn missing_ignore_message(root: &str, usual: &Vec<String>, existing: &StringSet) -> (r: String)
    ensures
        r@ == missing_ignore(root@, texts(usual@), existing@),
{
    match find_project_ignore_ancestor(root, existing) {
        Some(dir) => {
            let d = dir.as_str();
            let mut m = concat3(root, "/.md-orphan: missing, but an ancestor has one:\n  ", d);
            m.append(
                "/.md-orphan\n\nmd-orphan treats the entry point's parent as the repo root. Your entry point is below the\nconfigured root — pass an entry point inside `",
            );
            m.append(d);
            m.append("` instead");
            let ghost head = m@;
            match find_usual_entry(d, usual, existing) {
                Some(name) => {
                    let mut e = concat3(" (e.g. `md-orphan ", d, "/");
                    e.append(name);
                    e.append("`)");
                    m.append(e.as_str());
                },
                None => {},
            }
            assert(m@ =~= head + (match usual_entry(d@, texts(usual@), existing@) {
                Some(name) => " (e.g. `md-orphan "@ + d@ + "/"@ + name + "`)"@,
                None => Seq::empty(),
            }));
            m.append(".\n\nIf `");
            m.append(root);
            m.append("` really is a separate repo with its own scope, create `");
            m.append(root);
            m.append("/.md-orphan` to declare it.");
            m
        },
        None => {
            let mut m = concat2(
                root,
                "/.md-orphan: missing\nEvery md-orphan-checked repo needs a `.md-orphan` file at its root listing project-specific\nignore patterns (gitignore-style line patterns). Built-in defaults handle .git, node_modules,\nLibrary, Pods, etc., but project-specific dirs (Unity Packages, vendored docs, build outputs)\nmust be enumerated explicitly. Create the file with `touch ",
            );
            m.append(root);
            m.append("/.md-orphan` if you have\nno extras.");
            m
        },
    }
}

/// The file `rel` of the repository was reached, under its path or its canonical path.
pub open spec fn was_reached(
    rel: Seq<char>,
    root: Seq<char>,
    reachable: Set<Seq<char>>,
    canonical: Map<Seq<char>, Seq<char>>,
) -> bool {
    let path = root + "/"@ + rel;
    reachable.contains(path) || (canonical.contains_key(path) && reachable.contains(
        canonical[path],
    ))
}

/// The files of the repository that were not reached.
pub open spec fn orphan_set(
    md_files: Set<Seq<char>>,
    root: Seq<char>,
    reachable: Set<Seq<char>>,
    canonical: Map<Seq<char>, Seq<char>>,
) -> Set<Seq<char>> {
    md_files.filter(|rel: Seq<char>| !was_reached(rel, root, reachable, canonical))
}

/// The markdown files of the repository at `root` that were not reached, in order.
/// `canonical` has the canonical path of each that is not reached under its own.
pub fn orphans(
    md_files: &StringSet,
    root: &str,
    reachable: &StringSet,
    canonical: &StringMap<String>,
) -> (r: Vec<String>)
    ensures
        texts(r@) == sorted_members(
            orphan_set(md_files@, root@, reachable@, crate::config::text_values(canonical@)),
        ),
{
    let ghost known = crate::config::text_values(canonical@);
    let ghost want = orphan_set(md_files@, root@, reachable@, known);
    let n: usize = md_files.len();
    let ghost order = md_files.order();
    let mut left = StringSet::new();
    let mut i: usize = 0;
    while i < n
        invariant
            i <= n == order.len(),
            order == md_files.order(),
            known == crate::config::text_values(canonical@),
            forall|k: Seq<char>| #[trigger]
                left@.contains(k) <==> order.take(i as int).contains(k) && !was_reached(
                    k,
                    root@,
                    reachable@,
                    known,
                ),
        decreases n - i,
    {
        let ghost k = order[i as int];
        proof {
            lemma_take_next(order, i as int);
        }
        let rel = md_files.get(i);
        let path = concat3(root, "/", rel);
        let mut reached: bool = reachable.contains(path.as_str());
        if !reached {
            match canonical.get(path.as_str()) {
                Some(c) => {
                    assert(known[path@] == c@);
                    reached = reachable.contains(c.as_str());
                },
                None => {},
            }
        }
        if !reached {
            let _ = left.insert(rel.to_owned());
        }
        i += 1;
    }
    proof {
        assert(order.take(n as int) =~= order);
        assert forall|k: Seq<char>| left@.contains(k) <==> want.contains(k) by {
            assert(md_files@.contains(k) <==> order.contains(k));
        }
        assert(left@ =~= want);
    }
    crate::cache::sorted_list(&left)
}

/// The paths of the markdown files that are not reached under their own path: what may
/// still be reached under a canonical path.
pub fn unreached_paths(md_files: &StringSet, root: &str, reachable: &StringSet) -> (r: StringSet)
    ensures
        forall|path: Seq<char>| #[trigger]
            r@.contains(path) <==> !reachable@.contains(path) && exists|rel: Seq<char>| #[trigger]
                md_files@.contains(rel) && path == root@ + "/"@ + rel,
{
    let n: usize = md_files.len();
    let ghost order = md_files.order();
    let mut r = StringSet::new();
    let mut i: usize = 0;
    while i < n
        invariant
            i <= n == order.len(),
            order == md_files.order(),
            forall|path: Seq<char>| #[trigger]
                r@.contains(path) <==> !reachable@.contains(path) && exists|j: int|
                    0 <= j < i && path == root@ + "/"@ + #[trigger] order[j],
        decreases n - i,
    {
        let ghost before = r@;
        let path = concat3(root, "/", md_files.get(i));
        let ghost pv = path@;
        assert(pv == root@ + "/"@ + order[i as int]);
        if !reachable.contains(path.as_str()) {
            let _ = r.insert(path);
        }
        assert forall|p: Seq<char>| #[trigger]
            r@.contains(p) <==> !reachable@.contains(p) && exists|j: int|
                0 <= j < i + 1 && p == root@ + "/"@ + #[trigger] order[j] by {
            if before.contains(p) {
                let j = choose|j: int| 0 <= j < i && p == root@ + "/"@ + #[trigger] order[j];
                assert(0 <= j < i + 1 && p == root@ + "/"@ + order[j]);
            }
        }
        i += 1;
    }
    proof {
        assert forall|path: Seq<char>| #[trigger]
            r@.contains(path) <==> !reachable@.contains(path) && exists|rel: Seq<char>| #[trigger]
                md_files@.contains(rel) && path == root@ + "/"@ + rel by {
            if exists|j: int| 0 <= j < n && path == root@ + "/"@ + #[trigger] order[j] {
                let j = choose|j: int| 0 <= j < n && path == root@ + "/"@ + #[trigger] order[j];
                assert(order.contains(order[j]));
                assert(md_files@.contains(order[j]));
            }
            if exists|rel: Seq<char>| #[trigger]
                md_files@.contains(rel) && path == root@ + "/"@ + rel {
                let rel = choose|rel: Seq<char>| #[trigger]
                    md_files@.contains(rel) && path == root@ + "/"@ + rel;
                let j = choose|j: int| 0 <= j < order.len() && order[j] == rel;
                assert(path == root@ + "/"@ + order[j]);
            }
        }
    }
    r
}

/// The base names of the entry points, with commas between.
pub open spec fn names_of(entries: Seq<Seq<char>>) -> Seq<char> {
    join(entries.map_values(|e: Seq<char>| base_of(e)), ", "@)
}

/// The base names of the entry points, with commas between.
pub fn entry_names(entry_points: &Vec<String>) -> (r: String)
    ensures
        r@ == names_of(texts(entry_points@)),
{
    let mut names: Vec<String> = Vec::new();
    let mut i: usize = 0;
    while i < entry_points.len()
        invariant
            i <= entry_points.len(),
            names.len() == i,
            forall|j: int| 0 <= j < i ==> (#[trigger] names@[j])@ == base_of(entry_points@[j]@),
        decreases entry_points.len() - i,
    {
        names.push(base_name(entry_points[i].as_str()).to_owned());
        i += 1;
    }
    assert(texts(names@) =~= texts(entry_points@).map_values(|e: Seq<char>| base_of(e)));
    assert(texts(names@).take(i as int) =~= texts(names@));
    join_first(&names, i, ", ")
}

/// How the file of an issue is called: relative to the root, where it lies under it.
pub open spec fn shown_source(source: Seq<char>, root: Seq<char>) -> Seq<char> {
    match rel_of(source, root) {
        Some(rel) => rel,
        None => source,
    }
}

fn rel_source(issue: &LinkIssue, root: &str) -> (r: String)
    ensures
        r@ == shown_source(issue@.source, root@),
{
    match rel_path(issue.source.as_str(), root) {
        Some(rel) => rel.to_owned(),
        None => issue.source.clone(),
    }
}

/// The groups of issues, in the order in which they are told.
#[derive(Debug, Clone, Copy, PartialEq, Eq, Structural)]
pub enum Group {
    Unreadable,
    Broken,
    Ambiguous,
    BrokenAnchor,
    CrossRepoBroken,
}

/// The line about an issue of the group; none for an issue of another group.
pub open spec fn group_line(g: Group, issue: IssueView, root: Seq<char>) -> Option<Seq<char>> {
    let rel = shown_source(issue.source, root);
    match (g, issue.kind) {
        (Group::Unreadable, IssueKindView::Unreadable) => Some("  "@ + rel),
        (Group::Broken, IssueKindView::Broken) => Some("  "@ + issue.link + " in "@ + rel),
        (Group::Ambiguous, IssueKindView::Ambiguous(n)) => Some(
            "  "@ + issue.link + " in "@ + rel + " ("@ + decimal(n as nat) + " files match)"@,
        ),
        (Group::BrokenAnchor, IssueKindView::BrokenAnchor(fragment)) => Some(
            "  "@ + issue.link + "#"@ + fragment + " in "@ + rel,
        ),
        (Group::CrossRepoBroken, IssueKindView::CrossRepoBroken(repo)) => Some(
            "  `"@ + issue.link + "` ("@ + repo + ") in "@ + rel,
        ),
        _ => None,
    }
}

/// The sign of a group.
pub open spec fn group_sign(g: Group) -> Seq<char> {
    match g {
        Group::Unreadable => "\u{26D4} "@,
        Group::Broken => "\u{1F517} "@,
        Group::Ambiguous => "\u{26A0}\u{FE0F} "@,
        Group::BrokenAnchor => "\u{2693} "@,
        Group::CrossRepoBroken => "\u{1F517} "@,
    }
}

/// The title of a group.
pub open spec fn group_title(g: Group) -> Seq<char> {
    match g {
        Group::Unreadable => " unreadable files:"@,
        Group::Broken => " broken links:"@,
        Group::Ambiguous => " ambiguous links:"@,
        Group::BrokenAnchor => " broken anchors:"@,
        Group::CrossRepoBroken => " broken cross-repo links:"@,
    }
}

/// The lines about the issues of the group.
pub open spec fn group_lines(g: Group, issues: Seq<IssueView>, root: Seq<char>) -> Seq<Seq<char>>
    decreases issues.len(),
{
    if issues.len() == 0 {
        Seq::empty()
    } else {
        let before = group_lines(g, issues.drop_last(), root);
        match group_line(g, issues.last(), root) {
            Some(line) => before.push(line),
            None => before,
        }
    }
}

/// The lines with a title that counts them; nothing without lines.
pub open spec fn titled(
    sign: Seq<char>,
    title: Seq<char>,
    lines: Seq<Seq<char>>,
) -> Seq<Seq<char>> {
    if lines.len() == 0 {
        Seq::empty()
    } else {
        seq![sign + decimal(lines.len()) + title] + lines
    }
}

/// The group as it is told.
pub open spec fn group_told(g: Group, issues: Seq<IssueView>, root: Seq<char>) -> Seq<Seq<char>> {
    titled(group_sign(g), group_title(g), group_lines(g, issues, root))
}

/// How a link is written: in brackets, or in backticks with the repository behind it.
pub open spec fn link_text(link: Seq<char>, scope: ScopeView) -> Seq<char> {
    match scope {
        ScopeView::Wiki => "[["@ + link + "]]"@,
        ScopeView::CrossRepo(repo) => "`"@ + link + "` ("@ + repo + ")"@,
    }
}

/// How the link is written, and how it should be.
pub fn render_style(link: &str, suggested: &str, scope: &StyleScope) -> (r: (String, String))
    ensures
        r.0@ == link_text(link@, scope@),
        r.1@ == link_text(suggested@, scope@),
{
    (show_link(link, scope), show_link(suggested, scope))
}

fn show_link(link: &str, scope: &StyleScope) -> (r: String)
    ensures
        r@ == link_text(link@, scope@),
{
    match scope {
        StyleScope::Wiki => concat3("[[", link, "]]"),
        StyleScope::CrossRepo { repo } => {
            let mut r = concat3("`", link, "` (");
            r.append(repo.as_str());
            r.append(")");
            r
        },
    }
}

/// The line about a style note; none for another issue.
pub open spec fn style_line(issue: IssueView, root: Seq<char>) -> Option<Seq<char>> {
    match issue.kind {
        IssueKindView::Style { scope, suggested, path_start: _, path_end: _ } => Some(
            "  "@ + shown_source(issue.source, root) + ": "@ + link_text(issue.link, scope)
                + " -> "@ + link_text(suggested, scope),
        ),
        _ => None,
    }
}

/// Where the note stands in the list of style notes: by file, then by place in the file,
/// then in the order in which the notes came.
pub struct Row {
    pub text: String,
    pub num: usize,
    pub at: usize,
}

impl View for Row {
    type V = (Seq<char>, int, int);

    open spec fn view(&self) -> (Seq<char>, int, int) {
        (self.text@, self.num as int, self.at as int)
    }
}

/// The order of rows.
pub open spec fn row_order() -> spec_fn((Seq<char>, int, int), (Seq<char>, int, int)) -> bool {
    |a: (Seq<char>, int, int), b: (Seq<char>, int, int)|
        if a.0 != b.0 {
            text_le(a.0, b.0)
        } else {
            a.1 < b.1 || (a.1 == b.1 && a.2 <= b.2)
        }
}

pub(crate) proof fn lemma_row_order()
    ensures
        total_ordering(row_order()),
{
    law_text_order();
    let t = text_order();
    let r = row_order();
    assert forall|a: (Seq<char>, int, int), b: (Seq<char>, int, int)| #[trigger]
        r(a, b) && #[trigger] r(b, a) implies a == b by {
        if a.0 != b.0 {
            assert(t(a.0, b.0) && t(b.0, a.0));
        }
    }
    assert forall|
        a: (Seq<char>, int, int),
        b: (Seq<char>, int, int),
        c: (Seq<char>, int, int),
    | #[trigger]
        r(a, b) && #[trigger] r(b, c) implies r(a, c) by {
        if a.0 != b.0 && b.0 != c.0 {
            assert(t(a.0, b.0) && t(b.0, c.0));
            assert(t(a.0, c.0));
            if a.0 == c.0 {
                assert(t(b.0, a.0));
            }
        }
    }
    assert forall|a: (Seq<char>, int, int), b: (Seq<char>, int, int)| #[trigger]
        r(a, b) || #[trigger] r(b, a) by {
        assert(t(a.0, b.0) || t(b.0, a.0));
    }
}

impl Ranked for Row {
    open spec fn rank() -> spec_fn((Seq<char>, int, int), (Seq<char>, int, int)) -> bool {
        row_order()
    }

    proof fn rank_is_total() {
        lemma_row_order();
    }

    fn before(&self, other: &Self) -> (r: bool) {
        if str_eq(self.text.as_str(), other.text.as_str()) {
            self.num < other.num || (self.num == other.num && self.at <= other.at)
        } else {
            text_before(self.text.as_str(), other.text.as_str())
        }
    }
}

/// The rows of the style notes, as they came.
pub open spec fn style_rows(issues: Seq<IssueView>, root: Seq<char>) -> Seq<(Seq<char>, int, int)>
    decreases issues.len(),
{
    if issues.len() == 0 {
        Seq::empty()
    } else {
        let before = style_rows(issues.drop_last(), root);
        match issues.last().kind {
            IssueKindView::Style { scope: _, suggested: _, path_start, path_end: _ } => before.push(
                (shown_source(issues.last().source, root), path_start, issues.len() - 1),
            ),
            _ => before,
        }
    }
}

/// The lines of the rows.
pub open spec fn row_lines(
    issues: Seq<IssueView>,
    root: Seq<char>,
    rows: Seq<(Seq<char>, int, int)>,
) -> Seq<Seq<char>> {
    Seq::new(rows.len(), |i: int| style_line(issues[rows[i].2], root)->0)
}

/// The lines about the style notes, in order.
pub open spec fn style_lines(issues: Seq<IssueView>, root: Seq<char>) -> Seq<Seq<char>> {
    row_lines(issues, root, style_rows(issues, root).sort_by(row_order()))
}

/// The style notes as they are told. Without `fix` there is a hint at the end.
pub open spec fn style_told(issues: Seq<IssueView>, root: Seq<char>, fix: bool) -> Seq<Seq<char>> {
    let lines = style_lines(issues, root);
    if lines.len() == 0 {
        Seq::empty()
    } else if fix {
        titled("\u{1F4DD} "@, " link style fixed:"@, lines)
    } else {
        titled("\u{1F4DD} "@, " link style issues:"@, lines).push("  (run with --fix to apply)"@)
    }
}

/// The lines, each moved in.
pub open spec fn indented(lines: Seq<Seq<char>>) -> Seq<Seq<char>> {
    lines.map_values(|l: Seq<char>| "  "@ + l)
}

/// The orphans as they are told.
pub open spec fn orphans_told(orphans: Seq<Seq<char>>, names: Seq<char>) -> Seq<Seq<char>> {
    titled(
        "\u{274C} "@,
        " orphan markdown files (not reachable from "@ + names + "):"@,
        indented(orphans),
    )
}

/// All that is told.
pub open spec fn told(
    issues: Seq<IssueView>,
    orphans: Seq<Seq<char>>,
    root: Seq<char>,
    names: Seq<char>,
    fix: bool,
) -> Seq<Seq<char>> {
    group_told(Group::Unreadable, issues, root) + group_told(Group::Broken, issues, root)
        + group_told(Group::Ambiguous, issues, root) + group_told(Group::BrokenAnchor, issues, root)
        + group_told(Group::CrossRepoBroken, issues, root) + style_told(issues, root, fix)
        + orphans_told(orphans, names)
}

/// The run failed: there is an issue other than a style note, a style note that was not
/// fixed, or an orphan. `fixes` is the number of files that could not be fixed, where
/// fixing was asked for.
pub open spec fn run_failed(
    issues: Seq<IssueView>,
    orphans: Seq<Seq<char>>,
    fixes: Option<int>,
) -> bool {
    ||| exists|i: int| 0 <= i < issues.len() && !((#[trigger] issues[i]).kind is Style)
    ||| (exists|i: int| 0 <= i < issues.len() && (#[trigger] issues[i]).kind is Style) && (
    match fixes {
        Some(failures) => failures > 0,
        None => true,
    })
    ||| orphans.len() > 0
}

fn line_of(g: Group, issue: &LinkIssue, root: &str) -> (r: Option<String>)
    ensures
        (match r {
            Some(l) => Some(l@),
            None => None,
        }) == group_line(g, issue@, root@),
{
    let rel = rel_source(issue, root);
    match g {
        Group::Unreadable => match &issue.kind {
            IssueKind::Unreadable => Some(concat2("  ", rel.as_str())),
            _ => None,
        },
        Group::Broken => match &issue.kind {
            IssueKind::Broken => {
                let mut l = concat3("  ", issue.link.as_str(), " in ");
                l.append(rel.as_str());
                Some(l)
            },
            _ => None,
        },
        Group::Ambiguous => match &issue.kind {
            IssueKind::Ambiguous(n) => {
                let mut l = concat3("  ", issue.link.as_str(), " in ");
                l.append(rel.as_str());
                l.append(" (");
                l.append(decimal_text(*n).as_str());
                l.append(" files match)");
                Some(l)
            },
            _ => None,
        },
        Group::BrokenAnchor => match &issue.kind {
            IssueKind::BrokenAnchor(fragment) => {
                let mut l = concat3("  ", issue.link.as_str(), "#");
                l.append(fragment.as_str());
                l.append(" in ");
                l.append(rel.as_str());
                Some(l)
            },
            _ => None,
        },
        Group::CrossRepoBroken => match &issue.kind {
            IssueKind::CrossRepoBroken(repo) => {
                let mut l = concat3("  `", issue.link.as_str(), "` (");
                l.append(repo.as_str());
                l.append(") in ");
                l.append(rel.as_str());
                Some(l)
            },
            _ => None,
        },
    }
}

fn lines_of(g: Group, issues: &Vec<LinkIssue>, root: &str) -> (r: Vec<String>)
    ensures
        texts(r@) == group_lines(g, issue_views(issues@), root@),
{
    let ghost all = issue_views(issues@);
    let mut r: Vec<String> = Vec::new();
    let mut i: usize = 0;
    assert(all.take(0) =~= Seq::empty());
    assert(texts(r@) =~= Seq::empty());
    while i < issues.len()
        invariant
            i <= issues.len(),
            all == issue_views(issues@),
            texts(r@) == group_lines(g, all.take(i as int), root@),
        decreases issues.len() - i,
    {
        assert(all.take(i + 1).drop_last() =~= all.take(i as int));
        assert(all.take(i + 1).last() == issues@[i as int]@);
        let ghost before = r@;
        match line_of(g, &issues[i], root) {
            Some(l) => {
                let ghost lv = l@;
                r.push(l);
                assert(texts(r@) =~= texts(before).push(lv));
            },
            None => {},
        }
        i += 1;
    }
    assert(all.take(i as int) =~= all);
    r
}

fn tell(sign: &str, title: &str, lines: Vec<String>, out: &mut Vec<String>)
    ensures
        texts(final(out)@) == texts(old(out)@) + titled(sign@, title@, texts(lines@)),
{
    let ghost had = texts(out@);
    let ghost lv = texts(lines@);
    if lines.len() == 0 {
        assert(had + titled(sign@, title@, lv) =~= had);
        return;
    }
    let head = concat3(sign, decimal_text(lines.len()).as_str(), title);
    let ghost hv = head@;
    out.push(head);
    let ghost mid = out@;
    assert(texts(mid) =~= had.push(hv));
    let mut rest = lines;
    out.append(&mut rest);
    assert(texts(out@) =~= texts(mid) + lv);
    assert(texts(out@) =~= had + (seq![hv] + lv));
}

fn tell_group(
    g: Group,
    sign: &str,
    title: &str,
    issues: &Vec<LinkIssue>,
    root: &str,
    out: &mut Vec<String>,
)
    requires
        sign@ == group_sign(g),
        title@ == group_title(g),
    ensures
        texts(final(out)@) == texts(old(out)@) + group_told(g, issue_views(issues@), root@),
{
    tell(sign, title, lines_of(g, issues, root), out);
}

proof fn lemma_style_rows(issues: Seq<IssueView>, root: Seq<char>)
    ensures
        forall|k: int|
            0 <= k < style_rows(issues, root).len() ==> 0 <= (#[trigger] style_rows(
                issues,
                root,
            )[k]).2 < issues.len() && issues[style_rows(issues, root)[k].2].kind is Style,
        (style_rows(issues, root).len() > 0) == (exists|i: int|
            0 <= i < issues.len() && (#[trigger] issues[i]).kind is Style),
    decreases issues.len(),
{
    if issues.len() > 0 {
        let before = issues.drop_last();
        lemma_style_rows(before, root);
        let rows = style_rows(issues, root);
        let rows0 = style_rows(before, root);
        assert forall|k: int| 0 <= k < rows.len() implies 0 <= (#[trigger] rows[k]).2
            < issues.len() && issues[rows[k].2].kind is Style by {
            if k < rows0.len() {
                assert(rows[k] == rows0[k]);
                assert(before[rows0[k].2] == issues[rows0[k].2]);
            }
        }
        if rows.len() > 0 {
            assert(issues[rows[0].2].kind is Style);
        }
        if exists|i: int| 0 <= i < issues.len() && (#[trigger] issues[i]).kind is Style {
            let i = choose|i: int| 0 <= i < issues.len() && (#[trigger] issues[i]).kind is Style;
            if i < before.len() {
                assert(before[i].kind is Style);
            }
        }
    }
}

pub(crate) proof fn lemma_sorted_rows(issues: Seq<IssueView>, root: Seq<char>)
    ensures
        ({
            let rows = style_rows(issues, root).sort_by(row_order());
            &&& rows.len() == style_rows(issues, root).len()
            &&& forall|k: int|
                0 <= k < rows.len() ==> 0 <= (#[trigger] rows[k]).2 < issues.len()
                    && issues[rows[k].2].kind is Style
        }),
{
    broadcast use vstd::seq_lib::group_to_multiset_ensures;

    let given = style_rows(issues, root);
    let rows = given.sort_by(row_order());
    lemma_row_order();
    lemma_style_rows(issues, root);
    given.lemma_sort_by_ensures(row_order());
    assert(rows.len() == rows.to_multiset().len());
    assert(given.len() == given.to_multiset().len());
    assert forall|k: int| 0 <= k < rows.len() implies 0 <= (#[trigger] rows[k]).2 < issues.len()
        && issues[rows[k].2].kind is Style by {
        assert(rows.contains(rows[k]));
        assert(given.contains(rows[k]));
        let j = choose|j: int| 0 <= j < given.len() && given[j] == rows[k];
    }
}

fn rows_of(issues: &Vec<LinkIssue>, root: &str) -> (r: Vec<Row>)
    ensures
        views(r@) == style_rows(issue_views(issues@), root@),
{
    let ghost all = issue_views(issues@);
    let mut r: Vec<Row> = Vec::new();
    let mut i: usize = 0;
    assert(all.take(0) =~= Seq::empty());
    assert(views(r@) =~= Seq::empty());
    while i < issues.len()
        invariant
            i <= issues.len(),
            all == issue_views(issues@),
            views(r@) == style_rows(all.take(i as int), root@),
        decreases issues.len() - i,
    {
        assert(all.take(i + 1).drop_last() =~= all.take(i as int));
        assert(all.take(i + 1).last() == issues@[i as int]@);
        let ghost before = r@;
        match &issues[i].kind {
            IssueKind::Style { scope: _, suggested: _, path_start, path_end: _ } => {
                let row = Row { text: rel_source(&issues[i], root), num: *path_start, at: i };
                let ghost rv = row@;
                r.push(row);
                assert(views(r@) =~= views(before).push(rv));
            },
            _ => {},
        }
        i += 1;
    }
    assert(all.take(i as int) =~= all);
    r
}

fn style_line_of(issue: &LinkIssue, root: &str) -> (r: String)
    requires
        issue@.kind is Style,
    ensures
        style_line(issue@, root@) == Some(r@),
{
    match &issue.kind {
        IssueKind::Style { scope, suggested, path_start: _, path_end: _ } => {
            let rel = rel_source(issue, root);
            let (lhs, rhs) = render_style(issue.link.as_str(), suggested.as_str(), scope);
            let mut l = concat3("  ", rel.as_str(), ": ");
            l.append(lhs.as_str());
            l.append(" -> ");
            l.append(rhs.as_str());
            l
        },
        _ => String::new(),
    }
}

fn style_lines_of(issues: &Vec<LinkIssue>, root: &str) -> (r: Vec<String>)
    ensures
        texts(r@) == style_lines(issue_views(issues@), root@),
{
    let ghost all = issue_views(issues@);
    let rows = sort(rows_of(issues, root));
    let ghost rv = views(rows@);
    proof {
        lemma_sorted_rows(all, root@);
    }
    let mut r: Vec<String> = Vec::new();
    let mut i: usize = 0;
    while i < rows.len()
        invariant
            i <= rows.len(),
            all == issue_views(issues@),
            rv == views(rows@),
            forall|k: int|
                0 <= k < rv.len() ==> 0 <= (#[trigger] rv[k]).2 < all.len()
                    && all[rv[k].2].kind is Style,
            r.len() == i,
            forall|k: int|
                0 <= k < i ==> Some((#[trigger] r@[k])@) == style_line(all[rv[k].2], root@),
        decreases rows.len() - i,
    {
        assert(rv[i as int] == rows@[i as int]@);
        let at: usize = rows[i].at;
        assert(all[at as int] == issues@[at as int]@);
        r.push(style_line_of(&issues[at], root));
        i += 1;
    }
    assert(texts(r@) =~= row_lines(all, root@, rv));
    r
}

fn indent(lines: &Vec<String>) -> (r: Vec<String>)
    ensures
        texts(r@) == indented(texts(lines@)),
{
    let mut r: Vec<String> = Vec::new();
    let mut i: usize = 0;
    while i < lines.len()
        invariant
            i <= lines.len(),
            r.len() == i,
            forall|k: int| 0 <= k < i ==> (#[trigger] r@[k])@ == "  "@ + lines@[k]@,
        decreases lines.len() - i,
    {
        r.push(concat2("  ", lines[i].as_str()));
        i += 1;
    }
    assert(texts(r@) =~= indented(texts(lines@)));
    r
}

fn any_but_style(issues: &Vec<LinkIssue>) -> (r: bool)
    ensures
        r == exists|i: int|
            0 <= i < issues.len() && !((#[trigger] issue_views(issues@)[i]).kind is Style),
{
    let ghost all = issue_views(issues@);
    let mut i: usize = 0;
    while i < issues.len()
        invariant
            i <= issues.len(),
            all == issue_views(issues@),
            forall|k: int| 0 <= k < i ==> (#[trigger] all[k]).kind is Style,
        decreases issues.len() - i,
    {
        assert(all[i as int] == issues@[i as int]@);
        match &issues[i].kind {
            IssueKind::Style { .. } => {},
            _ => {
                assert(!(all[i as int].kind is Style));
                return true;
            },
        }
        i += 1;
    }
    false
}

/// What to tell of the issues and orphans, line by line, and whether the run failed.
/// `fixes` is the number of files that could not be fixed, where fixing was asked for.
pub fn render_issues(
    issues: &Vec<LinkIssue>,
    orphans: &Vec<String>,
    root: &str,
    names: &str,
    fixes: Option<usize>,
) -> (r: (Vec<String>, bool))
    ensures
        texts(r.0@) == told(
            issue_views(issues@),
            texts(orphans@),
            root@,
            names@,
            fixes is Some,
        ),
        r.1 == run_failed(
            issue_views(issues@),
            texts(orphans@),
            match fixes {
                Some(n) => Some(n as int),
                None => None,
            },
        ),
{
    let ghost all = issue_views(issues@);
    let mut out: Vec<String> = Vec::new();
    assert(texts(out@) =~= Seq::empty());
    assert(texts(out@) + group_told(Group::Unreadable, all, root@) =~= group_told(
        Group::Unreadable,
        all,
        root@,
    ));
    tell_group(
        Group::Unreadable,
        "\u{26D4} ",
        " unreadable files:",
        issues,
        root,
        &mut out,
    );
    tell_group(Group::Broken, "\u{1F517} ", " broken links:", issues, root, &mut out);
    tell_group(
        Group::Ambiguous,
        "\u{26A0}\u{FE0F} ",
        " ambiguous links:",
        issues,
        root,
        &mut out,
    );
    tell_group(Group::BrokenAnchor, "\u{2693} ", " broken anchors:", issues, root, &mut out);
    tell_group(
        Group::CrossRepoBroken,
        "\u{1F517} ",
        " broken cross-repo links:",
        issues,
        root,
        &mut out,
    );
    let ghost before = texts(out@);
    let style = style_lines_of(issues, root);
    let any_style: bool = style.len() > 0;
    proof {
        lemma_sorted_rows(all, root@);
        lemma_style_rows(all, root@);
    }
    if any_style {
        match fixes {
            Some(_) => {
                tell("\u{1F4DD} ", " link style fixed:", style, &mut out);
            },
            None => {
                tell("\u{1F4DD} ", " link style issues:", style, &mut out);
                let ghost mid = out@;
                let hint = "  (run with --fix to apply)".to_owned();
                let ghost hv = hint@;
                out.push(hint);
                assert(texts(out@) =~= texts(mid).push(hv));
                assert(texts(out@) =~= before + style_told(all, root@, false));
            },
        }
    } else {
        assert(before + style_told(all, root@, fixes is Some) =~= before);
    }
    assert(texts(out@) == before + style_told(all, root@, fixes is Some));
    let title = concat3(" orphan markdown files (not reachable from ", names, "):");
    tell("\u{274C} ", title.as_str(), indent(orphans), &mut out);
    let unfixed: bool = match fixes {
        Some(failures) => failures > 0,
        None => true,
    };
    let failed: bool = any_but_style(issues) || (any_style && unfixed) || orphans.len() > 0;
    (out, failed)
}

/// What is told of a clean run.
pub fn success_line(files: usize, names: &str) -> (r: String)
    ensures
        r@ == "\u{2705} All "@ + decimal(files as nat) + " markdown files are reachable from "@
            + names@,
{
    let mut r = concat3(
        "\u{2705} All ",
        decimal_text(files).as_str(),
        " markdown files are reachable from ",
    );
    r.append(names);
    r
}

/// Without fixing, a run fails exactly when there is an issue or an orphan.
pub proof fn law_clean_run(issues: Seq<IssueView>, orphans: Seq<Seq<char>>)
    ensures
        run_failed(issues, orphans, None) <==> issues.len() > 0 || orphans.len() > 0,
{
    if issues.len() > 0 {
        let first = issues[0];
        if first.kind is Style {
            assert(exists|i: int| 0 <= i < issues.len() && (#[trigger] issues[i]).kind is Style);
        } else {
            assert(exists|i: int| 0 <= i < issues.len() && !((#[trigger] issues[i]).kind is Style));
        }
    }
}

/// Every file of the index is an orphan or was reached, and none is both.
pub proof fn law_orphans(
    md_files: Set<Seq<char>>,
    root: Seq<char>,
    reachable: Set<Seq<char>>,
    canonical: Map<Seq<char>, Seq<char>>,
    rel: Seq<char>,
)
    requires
        md_files.contains(rel),
    ensures
        orphan_set(md_files, root, reachable, canonical).contains(rel) <==> !was_reached(
            rel,
            root,
            reachable,
            canonical,
        ),
        reachable.contains(root + "/"@ + rel) ==> !orphan_set(
            md_files,
            root,
            reachable,
            canonical,
        ).contains(rel),
{
}

proof fn lemma_one_line_each(issues: Seq<IssueView>, root: Seq<char>)
    ensures
        group_lines(Group::Unreadable, issues, root).len() + group_lines(
            Group::Broken,
            issues,
            root,
        ).len() + group_lines(Group::Ambiguous, issues, root).len() + group_lines(
            Group::BrokenAnchor,
            issues,
            root,
        ).len() + group_lines(Group::CrossRepoBroken, issues, root).len() + style_rows(
            issues,
            root,
        ).len() == issues.len(),
    decreases issues.len(),
{
    if issues.len() > 0 {
        lemma_one_line_each(issues.drop_last(), root);
    }
}

/// Every issue is told in one line of one group, and the titles count them.
pub proof fn law_every_issue_is_told(issues: Seq<IssueView>, root: Seq<char>)
    ensures
        group_lines(Group::Unreadable, issues, root).len() + group_lines(
            Group::Broken,
            issues,
            root,
        ).len() + group_lines(Group::Ambiguous, issues, root).len() + group_lines(
            Group::BrokenAnchor,
            issues,
            root,
        ).len() + group_lines(Group::CrossRepoBroken, issues, root).len() + style_lines(
            issues,
            root,
        ).len() == issues.len(),
{
    lemma_one_line_each(issues, root);
    lemma_sorted_rows(issues, root);
}

/// Nothing is told exactly when there is no issue and no orphan.
pub proof fn law_silent_when_clean(
    issues: Seq<IssueView>,
    orphans: Seq<Seq<char>>,
    root: Seq<char>,
    names: Seq<char>,
    fix: bool,
)
    ensures
        told(issues, orphans, root, names, fix).len() == 0 <==> issues.len() == 0 && orphans.len()
            == 0,
{
    law_every_issue_is_told(issues, root);
}

} // verus!
