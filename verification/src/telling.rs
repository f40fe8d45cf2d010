//! What the user can rely on in the report: which files are orphans, when a run fails, and
//! that each issue is told with what it is about.
use crate::path::{base_of, dir_of, law_rel_path, lemma_last_slash, under};
use crate::report::{
    decimal, first_error, first_outside, globstar, group_line, group_lines, group_told,
    lemma_row_order, names_of, orphan_set, orphans_told, pattern_error, root_of, row_order,
    run_failed, shown_source, split_all, style_line, style_lines, style_rows, style_told, told,
    Group,
};
use crate::resolve::lemma_join_add;
use crate::scene::{IssueKindView, IssueView, ScopeView};
use crate::sort::{law_sorted_keeps_members, sorted_members};
use crate::text::{join, law_join_split, lemma_split_not_empty, split};
use vstd::prelude::*;

verus! {

/// A markdown file is told as an orphan exactly when neither its full path, the root and the
/// whole of its path in the repository, nor the canonical path of that was reached.
pub proof fn law_told_orphans(
    md_files: Set<Seq<char>>,
    root: Seq<char>,
    reachable: Set<Seq<char>>,
    canonical: Map<Seq<char>, Seq<char>>,
    rel: Seq<char>,
)
    requires
        md_files.finite(),
    ensures
        sorted_members(orphan_set(md_files, root, reachable, canonical)).contains(rel) <==> {
            &&& md_files.contains(rel)
            &&& !reachable.contains(root + "/"@ + rel)
            &&& canonical.contains_key(root + "/"@ + rel) ==> !reachable.contains(
                canonical[root + "/"@ + rel],
            )
        },
{
    let left = orphan_set(md_files, root, reachable, canonical);
    assert(left.subset_of(md_files));
    vstd::set_lib::lemma_set_subset_finite(md_files, left);
    law_sorted_keeps_members(left);
    assert(sorted_members(left).to_set().contains(rel) <==> sorted_members(left).contains(rel));
}

/// The more files are reached, the fewer are orphans.
pub proof fn law_fewer_orphans(
    md_files: Set<Seq<char>>,
    root: Seq<char>,
    few: Set<Seq<char>>,
    many: Set<Seq<char>>,
    canonical: Map<Seq<char>, Seq<char>>,
)
    requires
        few.subset_of(many),
    ensures
        orphan_set(md_files, root, many, canonical).subset_of(
            orphan_set(md_files, root, few, canonical),
        ),
{
}

/// A run fails for any issue that is no style note and for any orphan, with fixing and
/// without. A style note makes it fail unless all files were fixed. Nothing else does.
pub proof fn law_failing_run(
    issues: Seq<IssueView>,
    orphans: Seq<Seq<char>>,
    fixes: Option<int>,
    i: int,
)
    ensures
        0 <= i < issues.len() && !(issues[i].kind is Style) ==> run_failed(issues, orphans, fixes),
        orphans.len() > 0 ==> run_failed(issues, orphans, fixes),
        0 <= i < issues.len() && fixes is None ==> run_failed(issues, orphans, fixes),
        0 <= i < issues.len() && fixes is Some && fixes->0 > 0 ==> run_failed(
            issues,
            orphans,
            fixes,
        ),
        orphans.len() == 0 && issues.len() == 0 ==> !run_failed(issues, orphans, fixes),
        orphans.len() == 0 && fixes == Some(0int) && (forall|k: int|
            0 <= k < issues.len() ==> (#[trigger] issues[k]).kind is Style) ==> !run_failed(
            issues,
            orphans,
            fixes,
        ),
{
    if 0 <= i < issues.len() && !(issues[i].kind is Style) {
        assert(exists|k: int| 0 <= k < issues.len() && !((#[trigger] issues[k]).kind is Style));
    }
    if 0 <= i < issues.len() && issues[i].kind is Style {
        assert(exists|k: int| 0 <= k < issues.len() && (#[trigger] issues[k]).kind is Style);
    }
}

/// An issue more never turns a failed run into a good one.
pub proof fn law_more_issues_fail(
    issues: Seq<IssueView>,
    more: Seq<IssueView>,
    orphans: Seq<Seq<char>>,
    fixes: Option<int>,
)
    requires
        run_failed(issues, orphans, fixes),
    ensures
        run_failed(issues + more, orphans, fixes),
        run_failed(more + issues, orphans, fixes),
{
    let n = issues.len() as int;
    let a = issues + more;
    let b = more + issues;
    assert forall|k: int| 0 <= k < n implies a[k] == issues[k] && b[more.len() + k]
        == issues[k] by {}
    if exists|k: int| 0 <= k < n && !((#[trigger] issues[k]).kind is Style) {
        let k = choose|k: int| 0 <= k < n && !((#[trigger] issues[k]).kind is Style);
        assert(!(a[k].kind is Style));
        assert(!(b[more.len() + k].kind is Style));
    }
    if exists|k: int| 0 <= k < n && (#[trigger] issues[k]).kind is Style {
        let k = choose|k: int| 0 <= k < n && (#[trigger] issues[k]).kind is Style;
        assert(a[k].kind is Style);
        assert(b[more.len() + k].kind is Style);
    }
}

/// The part stands somewhere in the text.
pub open spec fn holds(text: Seq<char>, part: Seq<char>) -> bool {
    exists|i: int|
        0 <= i && i + part.len() <= text.len() && #[trigger] text.subrange(i, i + part.len())
            == part
}

pub(crate) proof fn lemma_holds(a: Seq<char>, part: Seq<char>, b: Seq<char>)
    ensures
        holds(a + part + b, part),
{
    let i = a.len() as int;
    assert((a + part + b).subrange(i, i + part.len()) =~= part);
}

/// Below the root a file is told by the rest of its path, elsewhere by the whole path.
pub proof fn law_shown_source(root: Seq<char>, rest: Seq<char>, source: Seq<char>)
    ensures
        shown_source(root + seq!['/'] + rest, root) == rest,
        source != root && (forall|r: Seq<char>| source != #[trigger] (root + seq!['/'] + r))
            ==> shown_source(source, root) == source,
{
    law_rel_path(root, rest, source);
}

/// An issue that is no style note has a line in one group, that of its kind. The line holds
/// the file, and the link, the fragment, the repository or the number of files that the
/// issue is about.
pub proof fn law_line_tells_its_issue(issue: IssueView, root: Seq<char>, g: Group)
    requires
        group_line(g, issue, root) is Some,
    ensures
        ({
            let line = group_line(g, issue, root)->0;
            &&& holds(line, shown_source(issue.source, root))
            &&& !(issue.kind is Unreadable) ==> holds(line, issue.link)
            &&& issue.kind matches IssueKindView::BrokenAnchor(fragment) ==> holds(line, fragment)
            &&& issue.kind matches IssueKindView::CrossRepoBroken(repo) ==> holds(line, repo)
            &&& issue.kind matches IssueKindView::Ambiguous(n) ==> holds(line, decimal(n as nat))
        }),
        match issue.kind {
            IssueKindView::Unreadable => g is Unreadable,
            IssueKindView::Broken => g is Broken,
            IssueKindView::Ambiguous(_) => g is Ambiguous,
            IssueKindView::BrokenAnchor(_) => g is BrokenAnchor,
            IssueKindView::CrossRepoBroken(_) => g is CrossRepoBroken,
            IssueKindView::Style { .. } => false,
        },
{
    let line = group_line(g, issue, root)->0;
    let rel = shown_source(issue.source, root);
    let none = Seq::<char>::empty();
    match issue.kind {
        IssueKindView::Unreadable => {
            assert(line =~= "  "@ + rel + none);
            lemma_holds("  "@, rel, none);
        },
        IssueKindView::Broken => {
            assert(line =~= "  "@ + issue.link + (" in "@ + rel));
            lemma_holds("  "@, issue.link, " in "@ + rel);
            assert(line =~= ("  "@ + issue.link + " in "@) + rel + none);
            lemma_holds("  "@ + issue.link + " in "@, rel, none);
        },
        IssueKindView::Ambiguous(n) => {
            let d = decimal(n as nat);
            let t = " files match)"@;
            assert(line =~= "  "@ + issue.link + (" in "@ + rel + " ("@ + d + t));
            lemma_holds("  "@, issue.link, " in "@ + rel + " ("@ + d + t);
            assert(line =~= ("  "@ + issue.link + " in "@) + rel + (" ("@ + d + t));
            lemma_holds("  "@ + issue.link + " in "@, rel, " ("@ + d + t);
            assert(line =~= ("  "@ + issue.link + " in "@ + rel + " ("@) + d + t);
            lemma_holds("  "@ + issue.link + " in "@ + rel + " ("@, d, t);
        },
        IssueKindView::BrokenAnchor(f) => {
            assert(line =~= "  "@ + issue.link + ("#"@ + f + " in "@ + rel));
            lemma_holds("  "@, issue.link, "#"@ + f + " in "@ + rel);
            assert(line =~= ("  "@ + issue.link + "#"@) + f + (" in "@ + rel));
            lemma_holds("  "@ + issue.link + "#"@, f, " in "@ + rel);
            assert(line =~= ("  "@ + issue.link + "#"@ + f + " in "@) + rel + none);
            lemma_holds("  "@ + issue.link + "#"@ + f + " in "@, rel, none);
        },
        IssueKindView::CrossRepoBroken(repo) => {
            assert(line =~= "  `"@ + issue.link + ("` ("@ + repo + ") in "@ + rel));
            lemma_holds("  `"@, issue.link, "` ("@ + repo + ") in "@ + rel);
            assert(line =~= ("  `"@ + issue.link + "` ("@) + repo + (") in "@ + rel));
            lemma_holds("  `"@ + issue.link + "` ("@, repo, ") in "@ + rel);
            assert(line =~= ("  `"@ + issue.link + "` ("@ + repo + ") in "@) + rel + none);
            lemma_holds("  `"@ + issue.link + "` ("@ + repo + ") in "@, rel, none);
        },
        IssueKindView::Style { .. } => {},
    }
}

/// The line of a style note holds the file, the link, the suggestion and the repository.
pub proof fn law_style_line_tells_its_note(issue: IssueView, root: Seq<char>)
    requires
        issue.kind is Style,
    ensures
        style_line(issue, root) matches Some(line) && {
            &&& holds(line, shown_source(issue.source, root))
            &&& holds(line, issue.link)
            &&& holds(line, issue.kind->suggested)
            &&& issue.kind->scope matches ScopeView::CrossRepo(repo) ==> holds(line, repo)
        },
{
    let line = style_line(issue, root)->0;
    let rel = shown_source(issue.source, root);
    let link = issue.link;
    let to = issue.kind->suggested;
    let (open, close) = match issue.kind->scope {
        ScopeView::Wiki => ("[["@, "]]"@),
        ScopeView::CrossRepo(repo) => ("`"@, "` ("@ + repo + ")"@),
    };
    let a = "  "@;
    let arrow = " -> "@;
    assert(line =~= a + rel + (": "@ + open + link + close + arrow + open + to + close));
    lemma_holds(a, rel, ": "@ + open + link + close + arrow + open + to + close);
    assert(line =~= (a + rel + ": "@ + open) + link + (close + arrow + open + to + close));
    lemma_holds(a + rel + ": "@ + open, link, close + arrow + open + to + close);
    assert(line =~= (a + rel + ": "@ + open + link + close + arrow + open) + to + close);
    lemma_holds(a + rel + ": "@ + open + link + close + arrow + open, to, close);
    if let ScopeView::CrossRepo(repo) = issue.kind->scope {
        let head = a + rel + ": "@ + open + link + close + arrow + open + to + "` ("@;
        assert(line =~= head + repo + ")"@);
        lemma_holds(head, repo, ")"@);
    }
}

/// Every issue that is no style note has its line in the report.
pub proof fn law_issue_is_told(
    issues: Seq<IssueView>,
    orphans: Seq<Seq<char>>,
    root: Seq<char>,
    names: Seq<char>,
    fix: bool,
    i: int,
)
    requires
        0 <= i < issues.len(),
        !(issues[i].kind is Style),
    ensures
        exists|g: Group| #[trigger]
            group_line(g, issues[i], root) is Some && told(
                issues,
                orphans,
                root,
                names,
                fix,
            ).contains(group_line(g, issues[i], root)->0),
{
    let g = match issues[i].kind {
        IssueKindView::Unreadable => Group::Unreadable,
        IssueKindView::Broken => Group::Broken,
        IssueKindView::Ambiguous(_) => Group::Ambiguous,
        IssueKindView::BrokenAnchor(_) => Group::BrokenAnchor,
        _ => Group::CrossRepoBroken,
    };
    assert(group_line(g, issues[i], root) is Some);
    let line = group_line(g, issues[i], root)->0;
    lemma_line_in_group(g, issues, root, i);
    let lines = group_lines(g, issues, root);
    let k = choose|k: int| 0 <= k < lines.len() && lines[k] == line;
    let part = group_told(g, issues, root);
    assert(part[k + 1] == line);
    assert(part.contains(line));
    let a = group_told(Group::Unreadable, issues, root);
    let b = group_told(Group::Broken, issues, root);
    let c = group_told(Group::Ambiguous, issues, root);
    let d = group_told(Group::BrokenAnchor, issues, root);
    let e = group_told(Group::CrossRepoBroken, issues, root);
    let f = style_told(issues, root, fix);
    let h = orphans_told(orphans, names);
    lemma_in_sum(a, b, line);
    lemma_in_sum(a + b, c, line);
    lemma_in_sum(a + b + c, d, line);
    lemma_in_sum(a + b + c + d, e, line);
    lemma_in_sum(a + b + c + d + e, f, line);
    lemma_in_sum(a + b + c + d + e + f, h, line);
}

proof fn lemma_in_sum(a: Seq<Seq<char>>, b: Seq<Seq<char>>, x: Seq<char>)
    ensures
        a.contains(x) || b.contains(x) ==> (a + b).contains(x),
{
    if a.contains(x) {
        let k = choose|k: int| 0 <= k < a.len() && a[k] == x;
        assert((a + b)[k] == x);
    }
    if b.contains(x) {
        let k = choose|k: int| 0 <= k < b.len() && b[k] == x;
        assert((a + b)[a.len() + k] == x);
    }
}

proof fn lemma_line_in_group(g: Group, issues: Seq<IssueView>, root: Seq<char>, i: int)
    requires
        0 <= i < issues.len(),
        group_line(g, issues[i], root) is Some,
    ensures
        group_lines(g, issues, root).contains(group_line(g, issues[i], root)->0),
    decreases issues.len(),
{
    let lines = group_lines(g, issues, root);
    let line = group_line(g, issues[i], root)->0;
    if i == issues.len() - 1 {
        assert(lines.last() == line);
        assert(lines[lines.len() - 1] == line);
    } else {
        let before = issues.drop_last();
        assert(before[i] == issues[i]);
        lemma_line_in_group(g, before, root, i);
        let old = group_lines(g, before, root);
        let k = choose|k: int| 0 <= k < old.len() && old[k] == line;
        assert(lines[k] == line);
    }
}

/// Every style note has its line in the report, and without fixing a hint comes behind them.
pub proof fn law_note_is_told(
    issues: Seq<IssueView>,
    orphans: Seq<Seq<char>>,
    root: Seq<char>,
    names: Seq<char>,
    fix: bool,
    i: int,
)
    requires
        0 <= i < issues.len(),
        issues[i].kind is Style,
    ensures
        told(issues, orphans, root, names, fix).contains(style_line(issues[i], root)->0),
        !fix ==> told(issues, orphans, root, names, fix).contains("  (run with --fix to apply)"@),
{
    broadcast use vstd::seq_lib::group_to_multiset_ensures;

    let rows = style_rows(issues, root);
    let sorted = rows.sort_by(row_order());
    let lines = style_lines(issues, root);
    let line = style_line(issues[i], root)->0;
    lemma_row_of(issues, root, i);
    let k = choose|k: int| 0 <= k < rows.len() && (#[trigger] rows[k]).2 == i;
    lemma_row_order();
    rows.lemma_sort_by_ensures(row_order());
    assert(rows.contains(rows[k]));
    assert(rows.to_multiset().count(rows[k]) > 0);
    assert(sorted.contains(rows[k]));
    let m = choose|m: int| 0 <= m < sorted.len() && sorted[m] == rows[k];
    assert(lines[m] == line);
    let part = style_told(issues, root, fix);
    assert(part[m + 1] == line);
    assert(part.contains(line));
    if !fix {
        assert(part[part.len() - 1] == "  (run with --fix to apply)"@);
        assert(part.contains("  (run with --fix to apply)"@));
    }
    let a = group_told(Group::Unreadable, issues, root) + group_told(Group::Broken, issues, root)
        + group_told(Group::Ambiguous, issues, root) + group_told(
        Group::BrokenAnchor,
        issues,
        root,
    ) + group_told(Group::CrossRepoBroken, issues, root);
    let h = orphans_told(orphans, names);
    lemma_in_sum(a, part, line);
    lemma_in_sum(a + part, h, line);
    lemma_in_sum(a, part, "  (run with --fix to apply)"@);
    lemma_in_sum(a + part, h, "  (run with --fix to apply)"@);
}

proof fn lemma_row_of(issues: Seq<IssueView>, root: Seq<char>, i: int)
    requires
        0 <= i < issues.len(),
        issues[i].kind is Style,
    ensures
        exists|k: int|
            0 <= k < style_rows(issues, root).len() && (#[trigger] style_rows(issues, root)[k]).2
                == i,
    decreases issues.len(),
{
    let rows = style_rows(issues, root);
    if i == issues.len() - 1 {
        assert(rows[rows.len() - 1].2 == i);
    } else {
        let before = issues.drop_last();
        assert(before[i] == issues[i]);
        lemma_row_of(before, root, i);
        let old = style_rows(before, root);
        let k = choose|k: int| 0 <= k < old.len() && (#[trigger] old[k]).2 == i;
        assert(rows[k] == old[k]);
    }
}

/// Every orphan has a line of its own in the report, under a title with the names of the
/// entry files.
pub proof fn law_orphan_is_told(
    issues: Seq<IssueView>,
    orphans: Seq<Seq<char>>,
    root: Seq<char>,
    names: Seq<char>,
    fix: bool,
    i: int,
)
    requires
        0 <= i < orphans.len(),
    ensures
        ({
            let lines = told(issues, orphans, root, names, fix);
            let n = lines.len() - orphans.len();
            &&& 0 < n
            &&& lines[n + i] == "  "@ + orphans[i]
            &&& holds(lines[n - 1], decimal(orphans.len()))
            &&& holds(lines[n - 1], names)
        }),
{
    let lines = told(issues, orphans, root, names, fix);
    let part = orphans_told(orphans, names);
    let n = lines.len() - orphans.len();
    assert(part.len() == orphans.len() + 1);
    assert(lines[n + i] == part[i + 1]);
    let title = lines[n - 1];
    assert(title == part[0]);
    let a = "\u{274C} "@;
    let d = decimal(orphans.len());
    let b = " orphan markdown files (not reachable from "@;
    let c = "):"@;
    assert(title =~= a + d + (b + names + c));
    lemma_holds(a, d, b + names + c);
    assert(title =~= (a + d + b) + names + c);
    lemma_holds(a + d + b, names, c);
}

/// The number that decimal digits stand for.
pub open spec fn number(digits: Seq<char>) -> int
    decreases digits.len(),
{
    if digits.len() == 0 {
        0
    } else {
        number(digits.drop_last()) * 10 + (digits.last() as int - '0' as int)
    }
}

/// The digits of a number stand for it, and only zero starts with a zero.
pub proof fn law_decimal(n: nat)
    ensures
        number(decimal(n)) == n,
        decimal(n).len() > 0,
        forall|i: int| 0 <= i < decimal(n).len() ==> '0' <= #[trigger] decimal(n)[i] <= '9',
        decimal(n)[0] == '0' ==> n == 0,
    decreases n,
{
    let s = decimal(n);
    if n < 10 {
        assert(s.drop_last() =~= Seq::empty());
        assert(number(s.drop_last()) == 0);
    } else {
        law_decimal(n / 10);
        let up = decimal(n / 10);
        assert(s.drop_last() =~= up);
        assert(s.last() as int - '0' as int == n % 10);
        assert(s[0] == up[0]);
        assert forall|i: int| 0 <= i < s.len() implies '0' <= #[trigger] s[i] <= '9' by {
            if i < up.len() {
                assert(s[i] == up[i]);
            }
        }
    }
}

/// The patterns of the arguments are what stands between commas: written with commas again,
/// they give the arguments, and none holds a comma.
pub proof fn law_split_all(args: Seq<Seq<char>>)
    ensures
        join(split_all(args), seq![',']) == join(args, seq![',']),
        forall|i: int|
            0 <= i < split_all(args).len() ==> !(#[trigger] split_all(args)[i]).contains(','),
        args.len() > 0 ==> split_all(args).len() > 0,
    decreases args.len(),
{
    let all = split_all(args);
    if args.len() > 0 {
        let before = args.drop_last();
        let ps = split(args.last(), ',');
        law_split_all(before);
        law_join_split(args.last(), ',');
        lemma_split_not_empty(args.last(), ',');
        let old = split_all(before);
        assert forall|i: int| 0 <= i < all.len() implies !(#[trigger] all[i]).contains(',') by {
            if i < old.len() {
                assert(all[i] == old[i]);
            } else {
                assert(all[i] == ps[i - old.len()]);
            }
        }
        if before.len() == 0 {
            assert(all =~= ps);
            assert(join(args, seq![',']) == args[0]);
        } else {
            lemma_join_add(old, ps, seq![',']);
            lemma_join_add(before, seq![args.last()], seq![',']);
            assert(before + seq![args.last()] =~= args);
        }
    }
}

/// The patterns are in order exactly when none has two stars side by side and none has an
/// opening bracket without a closing one. Otherwise the error is about the first that is not.
pub proof fn law_pattern_errors(ps: Seq<Seq<char>>)
    ensures
        first_error(ps) is None <==> forall|k: int|
            0 <= k < ps.len() ==> !has_two_stars(#[trigger] ps[k]) && (ps[k].contains('[')
                ==> ps[k].contains(']')),
        first_error(ps) matches Some(e) ==> exists|k: int| #[trigger]
            first_bad(ps, k) && (!has_two_stars(ps[k]) ==> holds(e, ps[k])),
    decreases ps.len(),
{
    if ps.len() > 0 {
        let rest = ps.skip(1);
        law_pattern_errors(rest);
        assert(has_two_stars(ps[0]) == globstar(ps[0]));
        assert forall|k: int| 0 <= k < rest.len() implies rest[k] == ps[k + 1] by {}
        if pattern_error(ps[0]) is None {
            if first_error(rest) is Some {
                let e = first_error(rest)->0;
                let k = choose|k: int| #[trigger]
                    first_bad(rest, k) && (!has_two_stars(rest[k]) ==> holds(e, rest[k]));
                assert(first_bad(ps, k + 1)) by {
                    assert forall|j: int| 0 <= j < k + 1 implies !has_two_stars(#[trigger] ps[j])
                        && (ps[j].contains('[') ==> ps[j].contains(']')) by {
                        if j > 0 {
                            assert(rest[j - 1] == ps[j]);
                        }
                    }
                }
            } else {
                assert forall|k: int| 0 <= k < ps.len() implies !has_two_stars(#[trigger] ps[k])
                    && (ps[k].contains('[') ==> ps[k].contains(']')) by {
                    if k > 0 {
                        assert(rest[k - 1] == ps[k]);
                    }
                }
            }
        } else {
            assert(first_bad(ps, 0));
            let a = "--exclude: unclosed '[' in pattern '"@;
            lemma_holds(a, ps[0], "'"@);
        }
    }
}

/// Two stars stand side by side.
pub open spec fn has_two_stars(p: Seq<char>) -> bool {
    exists|i: int| 0 <= i && i + 1 < p.len() && #[trigger] p[i] == '*' && p[i + 1] == '*'
}

/// The pattern `k` is the first that is not in order.
pub open spec fn first_bad(ps: Seq<Seq<char>>, k: int) -> bool {
    &&& 0 <= k < ps.len()
    &&& has_two_stars(ps[k]) || (ps[k].contains('[') && !ps[k].contains(']'))
    &&& forall|j: int|
        0 <= j < k ==> !has_two_stars(#[trigger] ps[j]) && (ps[j].contains('[')
            ==> ps[j].contains(']'))
}

/// The root is what stands before the last slash of the first entry point, and every other
/// entry point lies under it. Where one does not, the message names it and the root.
pub proof fn law_root_of(entries: Seq<Seq<char>>, dir: Seq<char>, name: Seq<char>)
    requires
        entries.len() > 0,
        entries[0] == dir + seq!['/'] + name,
        !name.contains('/'),
    ensures
        root_of(entries) is Ok <==> forall|i: int|
            1 <= i < entries.len() ==> entries[i] == dir || exists|r: Seq<char>|
                #[trigger] entries[i] == #[trigger] (dir + seq!['/'] + r),
        root_of(entries) is Ok ==> root_of(entries)->Ok_0 == dir,
        root_of(entries) is Err ==> holds(root_of(entries)->Err_0, dir),
        root_of(entries) is Err ==> exists|i: int|
            1 <= i < entries.len() && !under(#[trigger] entries[i], dir) && holds(
                root_of(entries)->Err_0,
                entries[i],
            ),
{
    lemma_dir_of(dir, name);
    lemma_first_outside(entries, dir, 1);
    assert forall|i: int| 1 <= i < entries.len() implies under(#[trigger] entries[i], dir) == (
    entries[i] == dir || exists|r: Seq<char>| entries[i] == #[trigger] (dir + seq!['/'] + r)) by {
        law_rel_path(dir, name, entries[i]);
    }
    if let Some(e) = first_outside(entries, dir, 1) {
        let a = ": outside repo root `"@;
        let b = root_of(entries)->Err_0.skip((e + a + dir).len() as int);
        assert(root_of(entries)->Err_0 =~= (e + a) + dir + b);
        lemma_holds(e + a, dir, b);
        assert(root_of(entries)->Err_0 =~= Seq::<char>::empty() + e + (a + dir + b));
        lemma_holds(Seq::empty(), e, a + dir + b);
    }
}

pub(crate) proof fn lemma_dir_of(dir: Seq<char>, name: Seq<char>)
    requires
        !name.contains('/'),
    ensures
        dir_of(dir + seq!['/'] + name) == dir,
        base_of(dir + seq!['/'] + name) == name,
{
    let path = dir + seq!['/'] + name;
    lemma_last_slash(path);
    assert(path[dir.len() as int] == '/');
    assert forall|j: int| dir.len() < j < path.len() implies path[j] != '/' by {
        assert(path[j] == name[j - dir.len() - 1]);
    }
    assert(path.take(dir.len() as int) =~= dir);
    assert(path.skip(dir.len() + 1int) =~= name);
}

proof fn lemma_first_outside(entries: Seq<Seq<char>>, root: Seq<char>, i: int)
    requires
        0 <= i,
    ensures
        first_outside(entries, root, i) is None <==> forall|j: int|
            i <= j < entries.len() ==> under(#[trigger] entries[j], root),
        first_outside(entries, root, i) matches Some(e) ==> exists|j: int|
            i <= j < entries.len() && !under(#[trigger] entries[j], root) && entries[j] == e,
    decreases entries.len() - i,
{
    if i < entries.len() {
        lemma_first_outside(entries, root, i + 1);
        if !under(entries[i], root) {
            assert(entries[i] == first_outside(entries, root, i)->0);
        }
    }
}

/// The names of the entry points are their last parts, with commas between.
pub proof fn law_names_of(entries: Seq<Seq<char>>, dir: Seq<char>, name: Seq<char>)
    requires
        !name.contains('/'),
    ensures
        names_of(entries.push(dir + seq!['/'] + name)) == if entries.len() == 0 {
            name
        } else {
            names_of(entries) + ", "@ + name
        },
{
    lemma_dir_of(dir, name);
    let f = |e: Seq<char>| base_of(e);
    let all = entries.push(dir + seq!['/'] + name).map_values(f);
    assert(all.drop_last() =~= entries.map_values(f));
    assert(all.last() == name);
}

} // verus!
