//! The report line by line: its sections, their titles, and the order of what is in them.
use crate::config::{ancestors_of, first_with_ignore};
use crate::path::under;
use crate::report::{
    decimal, first_error, first_outside, globstar, group_line, group_lines, group_told,
    lemma_row_order, lemma_sorted_rows, link_text, missing_ignore, orphans_told, root_of, row_order,
    shown_source, style_line, style_lines, style_rows, style_told, told, usual_entry, Group,
};
use crate::scene::{IssueKindView, IssueView, ScopeView};
use crate::sort::text_le;
use crate::telling::{has_two_stars, holds, lemma_dir_of, lemma_holds};
use vstd::prelude::*;

verus! {

/// The issues of this kind are told in this group.
pub open spec fn belongs(g: Group, kind: IssueKindView) -> bool {
    match g {
        Group::Unreadable => kind is Unreadable,
        Group::Broken => kind is Broken,
        Group::Ambiguous => kind is Ambiguous,
        Group::BrokenAnchor => kind is BrokenAnchor,
        Group::CrossRepoBroken => kind is CrossRepoBroken,
    }
}

/// The issues of the group, in order.
pub open spec fn only(g: Group, issues: Seq<IssueView>) -> Seq<IssueView> {
    issues.filter(|i: IssueView| belongs(g, i.kind))
}

/// What each line says, word for word.
pub proof fn law_exact_lines(issue: IssueView, root: Seq<char>)
    ensures
        ({
            let file = shown_source(issue.source, root);
            match issue.kind {
                IssueKindView::Unreadable => group_line(Group::Unreadable, issue, root) == Some(
                    "  "@ + file,
                ),
                IssueKindView::Broken => group_line(Group::Broken, issue, root) == Some(
                    "  "@ + issue.link + " in "@ + file,
                ),
                IssueKindView::Ambiguous(n) => group_line(Group::Ambiguous, issue, root) == Some(
                    "  "@ + issue.link + " in "@ + file + " ("@ + decimal(n as nat)
                        + " files match)"@,
                ),
                IssueKindView::BrokenAnchor(fragment) => group_line(
                    Group::BrokenAnchor,
                    issue,
                    root,
                ) == Some("  "@ + issue.link + "#"@ + fragment + " in "@ + file),
                IssueKindView::CrossRepoBroken(repo) => group_line(
                    Group::CrossRepoBroken,
                    issue,
                    root,
                ) == Some("  `"@ + issue.link + "` ("@ + repo + ") in "@ + file),
                IssueKindView::Style { scope, suggested, .. } => style_line(issue, root) == Some(
                    "  "@ + file + ": "@ + link_text(issue.link, scope) + " -> "@ + link_text(
                        suggested,
                        scope,
                    ),
                ),
            }
        }),
{
}

/// A wiki link is shown in brackets, a link into another repository in backticks with the name
/// of the repository behind it.
pub proof fn law_link_text(link: Seq<char>, repo: Seq<char>)
    ensures
        link_text(link, ScopeView::Wiki) == "[["@ + link + "]]"@,
        link_text(link, ScopeView::CrossRepo(repo)) == "`"@ + link + "` ("@ + repo + ")"@,
{
}

proof fn lemma_only_push(g: Group, issues: Seq<IssueView>, i: IssueView)
    ensures
        only(g, issues.push(i)) == if belongs(g, i.kind) {
            only(g, issues).push(i)
        } else {
            only(g, issues)
        },
{
    reveal(Seq::filter);
    assert(issues.push(i).drop_last() =~= issues);
}

proof fn lemma_lines_of_only(g: Group, h: Group, issues: Seq<IssueView>, root: Seq<char>)
    ensures
        group_lines(g, only(h, issues), root) == if g == h {
            group_lines(g, issues, root)
        } else {
            Seq::empty()
        },
        style_rows(only(h, issues), root) == Seq::<(Seq<char>, int, int)>::empty(),
    decreases issues.len(),
{
    if issues.len() == 0 {
        reveal(Seq::filter);
        assert(only(h, issues) =~= issues);
    } else {
        let before = issues.drop_last();
        let last = issues.last();
        lemma_lines_of_only(g, h, before, root);
        assert(issues =~= before.push(last));
        lemma_only_push(h, before, last);
        let few = only(h, before);
        assert(few.push(last).drop_last() =~= few);
        assert(few.push(last).last() == last);
    }
}

proof fn lemma_no_style_lines(issues: Seq<IssueView>, root: Seq<char>)
    requires
        style_rows(issues, root) == Seq::<(Seq<char>, int, int)>::empty(),
    ensures
        style_lines(issues, root).len() == 0,
{
    lemma_sorted_rows(issues, root);
}

proof fn lemma_told_only(
    g: Group,
    issues: Seq<IssueView>,
    root: Seq<char>,
    names: Seq<char>,
    fix: bool,
)
    ensures
        told(only(g, issues), Seq::empty(), root, names, fix) == group_told(g, issues, root),
{
    let few = only(g, issues);
    lemma_lines_of_only(Group::Unreadable, g, issues, root);
    lemma_lines_of_only(Group::Broken, g, issues, root);
    lemma_lines_of_only(Group::Ambiguous, g, issues, root);
    lemma_lines_of_only(Group::BrokenAnchor, g, issues, root);
    lemma_lines_of_only(Group::CrossRepoBroken, g, issues, root);
    lemma_no_style_lines(few, root);
    assert(told(few, Seq::empty(), root, names, fix) =~= group_told(g, issues, root));
}

/// The sections come one behind the other: the files that cannot be read, the broken links, the
/// ambiguous ones, the headings, the links into other repositories, the style notes, and the
/// orphans. Each is told as if it were alone.
pub proof fn law_sections(
    issues: Seq<IssueView>,
    orphans: Seq<Seq<char>>,
    root: Seq<char>,
    names: Seq<char>,
    fix: bool,
)
    ensures
        ({
            let no_orphans = Seq::<Seq<char>>::empty();
            told(issues, orphans, root, names, fix) == told(
                only(Group::Unreadable, issues),
                no_orphans,
                root,
                names,
                fix,
            ) + told(only(Group::Broken, issues), no_orphans, root, names, fix) + told(
                only(Group::Ambiguous, issues),
                no_orphans,
                root,
                names,
                fix,
            ) + told(only(Group::BrokenAnchor, issues), no_orphans, root, names, fix) + told(
                only(Group::CrossRepoBroken, issues),
                no_orphans,
                root,
                names,
                fix,
            ) + style_told(issues, root, fix) + told(Seq::empty(), orphans, root, names, fix)
        }),
{
    lemma_told_only(Group::Unreadable, issues, root, names, fix);
    lemma_told_only(Group::Broken, issues, root, names, fix);
    lemma_told_only(Group::Ambiguous, issues, root, names, fix);
    lemma_told_only(Group::BrokenAnchor, issues, root, names, fix);
    lemma_told_only(Group::CrossRepoBroken, issues, root, names, fix);
    let none = Seq::<IssueView>::empty();
    lemma_no_style_lines(none, root);
    assert(told(none, orphans, root, names, fix) =~= orphans_told(orphans, names));
}

proof fn lemma_all_lines(g: Group, issues: Seq<IssueView>, root: Seq<char>)
    requires
        forall|k: int| 0 <= k < issues.len() ==> belongs(g, (#[trigger] issues[k]).kind),
    ensures
        group_lines(g, issues, root) == Seq::new(
            issues.len(),
            |k: int| group_line(g, issues[k], root)->0,
        ),
    decreases issues.len(),
{
    let lines = Seq::new(issues.len(), |k: int| group_line(g, issues[k], root)->0);
    if issues.len() > 0 {
        let before = issues.drop_last();
        assert forall|k: int| 0 <= k < before.len() implies belongs(
            g,
            (#[trigger] before[k]).kind,
        ) by {
            assert(before[k] == issues[k]);
        }
        lemma_all_lines(g, before, root);
        assert(belongs(g, issues[issues.len() - 1].kind));
    }
    assert(group_lines(g, issues, root) =~= lines);
}

/// The section of a group is a title that counts the issues, and a line for each, in order.
pub proof fn law_section(
    g: Group,
    issues: Seq<IssueView>,
    root: Seq<char>,
    names: Seq<char>,
    fix: bool,
)
    requires
        issues.len() > 0,
        forall|k: int| 0 <= k < issues.len() ==> belongs(g, (#[trigger] issues[k]).kind),
    ensures
        ({
            let lines = told(issues, Seq::empty(), root, names, fix);
            let n = decimal(issues.len());
            &&& lines.len() == issues.len() + 1
            &&& lines[0] == match g {
                Group::Unreadable => "\u{26D4} "@ + n + " unreadable files:"@,
                Group::Broken => "\u{1F517} "@ + n + " broken links:"@,
                Group::Ambiguous => "\u{26A0}\u{FE0F} "@ + n + " ambiguous links:"@,
                Group::BrokenAnchor => "\u{2693} "@ + n + " broken anchors:"@,
                Group::CrossRepoBroken => "\u{1F517} "@ + n + " broken cross-repo links:"@,
            }
            &&& forall|k: int|
                0 <= k < issues.len() ==> #[trigger] lines[k + 1] == group_line(
                    g,
                    issues[k],
                    root,
                )->0
        }),
{
    reveal(Seq::filter);
    lemma_all_kept(g, issues);
    lemma_told_only(g, issues, root, names, fix);
    lemma_all_lines(g, issues, root);
}

proof fn lemma_all_kept(g: Group, issues: Seq<IssueView>)
    requires
        forall|k: int| 0 <= k < issues.len() ==> belongs(g, (#[trigger] issues[k]).kind),
    ensures
        only(g, issues) == issues,
    decreases issues.len(),
{
    if issues.len() == 0 {
        reveal(Seq::filter);
        assert(only(g, issues) =~= issues);
    } else {
        let before = issues.drop_last();
        assert forall|k: int| 0 <= k < before.len() implies belongs(
            g,
            (#[trigger] before[k]).kind,
        ) by {
            assert(before[k] == issues[k]);
        }
        lemma_all_kept(g, before);
        assert(issues =~= before.push(issues.last()));
        assert(belongs(g, issues[issues.len() - 1].kind));
        lemma_only_push(g, before, issues.last());
    }
}

/// The style notes in this order: each of them once, by file, then by place in the file, then
/// as they came.
pub open spec fn in_file_order(issues: Seq<IssueView>, root: Seq<char>, order: Seq<int>) -> bool {
    &&& order.no_duplicates()
    &&& forall|i: int|
        #![trigger order.contains(i)]
        order.contains(i) <==> 0 <= i < issues.len() && issues[i].kind is Style
    &&& forall|k: int, l: int|
        0 <= k < l < order.len() ==> {
            let x = issues[#[trigger] order[k]];
            let y = issues[#[trigger] order[l]];
            let a = shown_source(x.source, root);
            let b = shown_source(y.source, root);
            if a != b {
                text_le(a, b)
            } else {
                x.kind->path_start < y.kind->path_start || (x.kind->path_start
                    == y.kind->path_start && order[k] < order[l])
            }
        }
}

proof fn lemma_rows(issues: Seq<IssueView>, root: Seq<char>)
    ensures
        forall|k: int|
            0 <= k < style_rows(issues, root).len() ==> {
                let row = #[trigger] style_rows(issues, root)[k];
                &&& 0 <= row.2 < issues.len() && issues[row.2].kind is Style
                &&& row.0 == shown_source(issues[row.2].source, root)
                &&& row.1 == issues[row.2].kind->path_start
            },
        forall|k: int, l: int|
            0 <= k < l < style_rows(issues, root).len() ==> (#[trigger] style_rows(
                issues,
                root,
            )[k]).2 < (#[trigger] style_rows(issues, root)[l]).2,
        forall|i: int|
            0 <= i < issues.len() && (#[trigger] issues[i]).kind is Style ==> exists|k: int|
                0 <= k < style_rows(issues, root).len() && (#[trigger] style_rows(
                    issues,
                    root,
                )[k]).2 == i,
    decreases issues.len(),
{
    if issues.len() > 0 {
        let before = issues.drop_last();
        lemma_rows(before, root);
        let rows = style_rows(issues, root);
        let old = style_rows(before, root);
        assert forall|k: int| 0 <= k < rows.len() implies {
            let row = #[trigger] rows[k];
            &&& 0 <= row.2 < issues.len() && issues[row.2].kind is Style
            &&& row.0 == shown_source(issues[row.2].source, root)
            &&& row.1 == issues[row.2].kind->path_start
        } by {
            if k < old.len() {
                assert(rows[k] == old[k]);
                assert(before[old[k].2] == issues[old[k].2]);
            }
        }
        assert forall|k: int, l: int| 0 <= k < l < rows.len() implies (#[trigger] rows[k]).2 < (
        #[trigger] rows[l]).2 by {
            assert(rows[k] == old[k]);
            if l < old.len() {
                assert(rows[l] == old[l]);
            }
        }
        assert forall|i: int|
            0 <= i < issues.len() && (#[trigger] issues[i]).kind is Style implies exists|k: int|
            0 <= k < rows.len() && (#[trigger] rows[k]).2 == i by {
            if i < before.len() {
                assert(before[i] == issues[i]);
                let k = choose|k: int| 0 <= k < old.len() && (#[trigger] old[k]).2 == i;
                assert(rows[k] == old[k]);
            } else {
                assert(rows[rows.len() - 1].2 == i);
            }
        }
    }
}

/// Every style note has one line, and the lines are in the order of the files and of the places
/// in them.
pub proof fn law_style_order(issues: Seq<IssueView>, root: Seq<char>)
    ensures
        exists|order: Seq<int>| #[trigger]
            in_file_order(issues, root, order) && style_lines(issues, root) == Seq::new(
                order.len(),
                |k: int| style_line(issues[order[k]], root)->0,
            ),
{
    broadcast use vstd::seq_lib::group_to_multiset_ensures;

    let rows = style_rows(issues, root);
    let sorted = rows.sort_by(row_order());
    lemma_rows(issues, root);
    lemma_row_order();
    lemma_sorted_rows(issues, root);
    rows.lemma_sort_by_ensures(row_order());
    let order = Seq::new(sorted.len(), |k: int| sorted[k].2);
    assert forall|k: int| 0 <= k < sorted.len() implies rows.contains(#[trigger] sorted[k]) by {
        assert(sorted.contains(sorted[k]));
        assert(sorted.to_multiset().count(sorted[k]) > 0);
        assert(rows.to_multiset().count(sorted[k]) > 0);
    }
    assert(rows.no_duplicates()) by {
        assert forall|k: int, l: int| 0 <= k < l < rows.len() implies rows[k] != rows[l] by {
            assert(rows[k].2 < rows[l].2);
        }
    }
    assert(sorted.no_duplicates()) by {
        rows.lemma_multiset_has_no_duplicates();
        assert forall|x: (Seq<char>, int, int)|
            sorted.to_multiset().contains(x) implies sorted.to_multiset().count(x) == 1 by {
            assert(rows.to_multiset().contains(x));
        }
        sorted.lemma_multiset_has_no_duplicates_conv();
    }
    assert forall|k: int, l: int| 0 <= k < l < order.len() implies order[k] != order[l] by {
        assert(rows.contains(sorted[k]) && rows.contains(sorted[l]));
        let a = choose|a: int| 0 <= a < rows.len() && rows[a] == sorted[k];
        let b = choose|b: int| 0 <= b < rows.len() && rows[b] == sorted[l];
        if order[k] == order[l] {
            assert(rows[a].2 == rows[b].2);
            assert(a == b);
        }
    }
    assert forall|i: int| #![trigger order.contains(i)]
        order.contains(i) <==> 0 <= i < issues.len() && issues[i].kind is Style by {
        if order.contains(i) {
            let k = choose|k: int| 0 <= k < order.len() && order[k] == i;
            assert(sorted[k].2 == i);
        }
        if 0 <= i < issues.len() && issues[i].kind is Style {
            let k = choose|k: int| 0 <= k < rows.len() && (#[trigger] rows[k]).2 == i;
            assert(rows.contains(rows[k]));
            assert(rows.to_multiset().count(rows[k]) > 0);
            assert(sorted.contains(rows[k]));
            let m = choose|m: int| 0 <= m < sorted.len() && sorted[m] == rows[k];
            assert(order[m] == i);
        }
    }
    assert forall|k: int, l: int| 0 <= k < l < order.len() implies {
        let x = issues[#[trigger] order[k]];
        let y = issues[#[trigger] order[l]];
        let a = shown_source(x.source, root);
        let b = shown_source(y.source, root);
        if a != b {
            text_le(a, b)
        } else {
            x.kind->path_start < y.kind->path_start || (x.kind->path_start == y.kind->path_start
                && order[k] < order[l])
        }
    } by {
        let r = row_order();
        assert(r(sorted[k], sorted[l]));
        assert(rows.contains(sorted[k]) && rows.contains(sorted[l]));
        assert(order[k] != order[l]);
    }
    assert(in_file_order(issues, root, order));
    assert(style_lines(issues, root) =~= Seq::new(
        order.len(),
        |k: int| style_line(issues[order[k]], root)->0,
    ));
}

/// The style notes have a title that counts them and says whether they were fixed. Where they
/// were not, a hint comes at the end.
pub proof fn law_style_section(issues: Seq<IssueView>, root: Seq<char>)
    ensures
        ({
            let lines = style_lines(issues, root);
            let n = decimal(lines.len());
            &&& lines.len() == 0 ==> style_told(issues, root, true).len() == 0 && style_told(
                issues,
                root,
                false,
            ).len() == 0
            &&& lines.len() > 0 ==> {
                &&& style_told(issues, root, true) == seq![
                    "\u{1F4DD} "@ + n + " link style fixed:"@,
                ] + lines
                &&& style_told(issues, root, false) == (seq![
                    "\u{1F4DD} "@ + n + " link style issues:"@,
                ] + lines).push("  (run with --fix to apply)"@)
            }
        }),
{
}

/// The title of the orphans counts them and names the entry files.
pub proof fn law_orphan_section(
    orphans: Seq<Seq<char>>,
    root: Seq<char>,
    names: Seq<char>,
    fix: bool,
)
    requires
        orphans.len() > 0,
    ensures
        ({
            let lines = told(Seq::empty(), orphans, root, names, fix);
            &&& lines.len() == orphans.len() + 1
            &&& lines[0] == "\u{274C} "@ + decimal(orphans.len())
                + (" orphan markdown files (not reachable from "@ + names + "):"@)
            &&& forall|k: int|
                0 <= k < orphans.len() ==> #[trigger] lines[k + 1] == "  "@ + orphans[k]
        }),
{
    let none = Seq::<IssueView>::empty();
    lemma_no_style_lines(none, root);
    assert(told(none, orphans, root, names, fix) =~= orphans_told(orphans, names));
}

/// What is wrong with the first pattern that is not in order, word for word.
pub proof fn law_pattern_messages(p: Seq<char>, ps: Seq<Seq<char>>)
    ensures
        has_two_stars(p) ==> first_error(seq![p] + ps) == Some(
            "--exclude: '**' globstar not supported; * matches within a single directory"@,
        ),
        !has_two_stars(p) && p.contains('[') && !p.contains(']') ==> first_error(seq![p] + ps)
            == Some("--exclude: unclosed '[' in pattern '"@ + p + "'"@),
        !has_two_stars(p) && (p.contains('[') ==> p.contains(']')) ==> first_error(seq![p] + ps)
            == first_error(ps),
{
    let all = seq![p] + ps;
    assert(all[0] == p);
    assert(all.skip(1) =~= ps);
    assert(has_two_stars(p) == globstar(p));
}

/// The message about entry points names the first that is not under the root, and the root.
pub proof fn law_outside_message(
    inside: Seq<Seq<char>>,
    e: Seq<char>,
    more: Seq<Seq<char>>,
    dir: Seq<char>,
    name: Seq<char>,
)
    requires
        inside.len() > 0,
        inside[0] == dir + seq!['/'] + name,
        !name.contains('/'),
        forall|i: int| 1 <= i < inside.len() ==> under(#[trigger] inside[i], dir),
        !under(e, dir),
    ensures
        root_of(inside + seq![e] + more) == Err::<Seq<char>, Seq<char>>(
            e + ": outside repo root `"@ + dir
                + "` (derived from the first entry point)\nAll entry points must live under one repo root; run md-orphan once per repo."@,
        ),
        root_of(Seq::empty()) == Err::<Seq<char>, Seq<char>>("missing entry point"@),
{
    let all = inside + seq![e] + more;
    lemma_dir_of(dir, name);
    assert(all[0] == inside[0]);
    assert(all[inside.len() as int] == e);
    lemma_first_out(all, dir, 1, inside.len() as int, inside);
}

proof fn lemma_first_out(
    all: Seq<Seq<char>>,
    dir: Seq<char>,
    i: int,
    at: int,
    inside: Seq<Seq<char>>,
)
    requires
        1 <= i <= at < all.len(),
        at == inside.len(),
        forall|j: int| 0 <= j < at ==> all[j] == inside[j],
        forall|j: int| 1 <= j < inside.len() ==> under(#[trigger] inside[j], dir),
        !under(all[at], dir),
    ensures
        first_outside(all, dir, i) == Some(all[at]),
    decreases at - i,
{
    if i < at {
        assert(under(inside[i], dir));
        lemma_first_out(all, dir, i + 1, at, inside);
    }
}

/// The message about a missing `.md-orphan` file names the root. Where a directory above has
/// such a file, it names that, and below it the first of the usual entry files that is there.
pub proof fn law_missing_ignore(
    root: Seq<char>,
    usual: Seq<Seq<char>>,
    existing: Set<Seq<char>>,
    k: int,
)
    ensures
        holds(missing_ignore(root, usual, existing), root),
        first_with_ignore(ancestors_of(root), existing) matches Some(dir) ==> {
            &&& holds(missing_ignore(root, usual, existing), dir)
            &&& 0 <= k < usual.len() && existing.contains(dir + "/"@ + usual[k]) && (forall|j: int|
                0 <= j < k ==> !existing.contains(dir + "/"@ + #[trigger] usual[j])) ==> holds(
                missing_ignore(root, usual, existing),
                dir + "/"@ + usual[k],
            )
        },
{
    let said = missing_ignore(root, usual, existing);
    match first_with_ignore(ancestors_of(root), existing) {
        None => {
            let a = "/.md-orphan: missing\nEvery md-orphan-checked repo needs a `.md-orphan` file at its root listing project-specific\nignore patterns (gitignore-style line patterns). Built-in defaults handle .git, node_modules,\nLibrary, Pods, etc., but project-specific dirs (Unity Packages, vendored docs, build outputs)\nmust be enumerated explicitly. Create the file with `touch "@;
            let b = "/.md-orphan` if you have\nno extras."@;
            assert(said == root + a + root + b);
            lemma_holds(root + a, root, b);
        },
        Some(dir) => {
            let example = match usual_entry(dir, usual, existing) {
                Some(name) => " (e.g. `md-orphan "@ + dir + "/"@ + name + "`)"@,
                None => Seq::empty(),
            };
            let a = "/.md-orphan: missing, but an ancestor has one:\n  "@;
            let b = "/.md-orphan\n\nmd-orphan treats the entry point's parent as the repo root. Your entry point is below the\nconfigured root — pass an entry point inside `"@;
            let c = "` instead"@;
            let d = ".\n\nIf `"@;
            let e = "` really is a separate repo with its own scope, create `"@;
            let f = "/.md-orphan` to declare it."@;
            assert(said == root + a + dir + b + dir + c + example + d + root + e + root + f);
            lemma_message(root, a, dir, b, c, example, d, e, f, root);
            lemma_message(root, a, dir, b, c, example, d, e, f, dir);
            if 0 <= k < usual.len() && existing.contains(dir + "/"@ + usual[k]) && (forall|j: int|
                0 <= j < k ==> !existing.contains(dir + "/"@ + #[trigger] usual[j])) {
                lemma_usual(dir, usual, existing, k);
                let file = dir + "/"@ + usual[k];
                lemma_example(dir, usual[k]);
                lemma_message(root, a, dir, b, c, example, d, e, f, file);
            }
        },
    }
}

proof fn lemma_example(dir: Seq<char>, name: Seq<char>)
    ensures
        holds(" (e.g. `md-orphan "@ + dir + "/"@ + name + "`)"@, dir + "/"@ + name),
{
    let lead = " (e.g. `md-orphan "@;
    let file = dir + "/"@ + name;
    let end = "`)"@;
    assert(lead + dir + "/"@ + name + end =~= lead + file + end);
    lemma_holds(lead, file, end);
}

/// The part stands in the text.
#[verifier::opaque]
spec fn within(text: Seq<char>, part: Seq<char>) -> bool {
    holds(text, part)
}

/// What stands in one of two texts stands in both together.
proof fn lemma_within(a: Seq<char>, b: Seq<char>, part: Seq<char>)
    ensures
        within(a, part) || within(b, part) ==> within(a + b, part),
{
    reveal(within);
    let n = part.len();
    if holds(a, part) {
        let i = choose|i: int|
            0 <= i && i + n <= a.len() && #[trigger] a.subrange(i, i + n) == part;
        assert((a + b).subrange(i, i + n) =~= a.subrange(i, i + n));
    } else if holds(b, part) {
        let i = choose|i: int|
            0 <= i && i + n <= b.len() && #[trigger] b.subrange(i, i + n) == part;
        let k = a.len() + i;
        assert((a + b).subrange(k, k + n) =~= b.subrange(i, i + n));
    }
}

proof fn lemma_message(
    root: Seq<char>,
    a: Seq<char>,
    dir: Seq<char>,
    b: Seq<char>,
    c: Seq<char>,
    example: Seq<char>,
    d: Seq<char>,
    e: Seq<char>,
    f: Seq<char>,
    part: Seq<char>,
)
    requires
        part == root || part == dir || holds(example, part),
    ensures
        holds(root + a + dir + b + dir + c + example + d + root + e + root + f, part),
{
    assert(within(root, part) || within(dir, part) || within(example, part)) by {
        reveal(within);
        let none = Seq::<char>::empty();
        assert(none + part + none =~= part);
        lemma_holds(none, part, none);
    }
    let s1 = root + a;
    let s2 = s1 + dir;
    let s3 = s2 + b;
    let s4 = s3 + dir;
    let s5 = s4 + c;
    let s6 = s5 + example;
    let s7 = s6 + d;
    let s8 = s7 + root;
    let s9 = s8 + e;
    let last = s9 + root;
    lemma_within(root, a, part);
    lemma_within(s1, dir, part);
    lemma_within(s2, b, part);
    lemma_within(s3, dir, part);
    lemma_within(s4, c, part);
    lemma_within(s5, example, part);
    lemma_within(s6, d, part);
    lemma_within(s7, root, part);
    lemma_within(s8, e, part);
    lemma_within(s9, root, part);
    lemma_within(last, f, part);
    assert(within(last + f, part));
    reveal(within);
}

proof fn lemma_usual(
    dir: Seq<char>,
    usual: Seq<Seq<char>>,
    existing: Set<Seq<char>>,
    k: int,
)
    requires
        0 <= k < usual.len(),
        existing.contains(dir + "/"@ + usual[k]),
        forall|j: int| 0 <= j < k ==> !existing.contains(dir + "/"@ + #[trigger] usual[j]),
    ensures
        usual_entry(dir, usual, existing) == Some(usual[k]),
    decreases k,
{
    if k > 0 {
        let rest = usual.skip(1);
        assert(!existing.contains(dir + "/"@ + usual[0]));
        assert(rest[k - 1] == usual[k]);
        assert forall|j: int| 0 <= j < k - 1 implies !existing.contains(
            dir + "/"@ + #[trigger] rest[j],
        ) by {
            assert(rest[j] == usual[j + 1]);
        }
        lemma_usual(dir, rest, existing, k - 1);
    }
}

} // verus!
