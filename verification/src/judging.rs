//! What a link comes to, case by case: whether it is broken, ambiguous, badly anchored or
//! badly written, and which file is gone on to.
use crate::discovery::IndexView;
use crate::extract::{anchor, KindView, LinkView};
use crate::path::{base_of, rel_of, under};
use crate::resolve::{resolved, resolved_strictly};
use crate::scene::{
    first_holder, fragment_issues, holder, outcome, root_or, settled, style_issues, to_markdown,
    FactsView, IssueKindView, IssueView, QueryView, ResolutionView, SceneView, ScopeView,
};
use vstd::prelude::*;

verus! {

/// The text ends in `.md`.
pub open spec fn ends_in_md(s: Seq<char>) -> bool {
    s.len() >= 3 && s[s.len() - 3] == '.' && s[s.len() - 2] == 'm' && s[s.len() - 1] == 'd'
}

proof fn lemma_md(link: LinkView)
    ensures
        to_markdown(link) == ends_in_md(link.target),
{
    reveal_strlit(".md");
    let s = link.target;
    if s.len() >= 3 {
        let end = s.skip(s.len() - 3);
        assert(end[0] == s[s.len() - 3] && end[1] == s[s.len() - 2] && end[2] == s[s.len() - 1]);
        if ends_in_md(s) {
            assert(end =~= ".md"@);
        }
    }
}

/// It is known that `place` is the file `file`, or that there is none.
pub open spec fn leads_to(facts: FactsView, place: Seq<char>, file: Option<Seq<char>>) -> bool {
    facts.canonical.contains_key(place) && facts.canonical[place] == file
}

/// No file goes by this name.
pub open spec fn nameless(facts: FactsView, ix: IndexView, name: Seq<char>) -> bool {
    ||| !ix.by_name.contains_key(name)
    ||| ix.by_name[name].len() == 0
    ||| ix.by_name[name].len() == 1 && leads_to(facts, ix.by_name[name][0], None)
}

/// The link, of a file of the repository with this index, stands for nothing at its path: not
/// from its own directory, nor, for a wiki link, from the root.
pub open spec fn nothing_there(
    w: SceneView,
    link: LinkView,
    source: Seq<char>,
    ix: IndexView,
) -> bool {
    &&& resolved(link.target, source, ix.root) matches Some(p) && leads_to(w.facts, p, None)
    &&& link.kind is Wiki ==> (resolved_strictly(link.target, ix.root) matches Some(q) ==> leads_to(
        w.facts,
        q,
        None,
    ))
}

/// How a link to the file `c` of the repository with this root is best written: by the last
/// part of its path, where it is the only file of that name, else by its path from the root.
pub open spec fn best_form(
    by_name: Map<Seq<char>, Seq<Seq<char>>>,
    root: Seq<char>,
    c: Seq<char>,
) -> Option<Seq<char>> {
    match rel_of(c, root) {
        Some(rel) => if by_name.contains_key(base_of(rel)) && by_name[base_of(rel)].len() == 1 {
            Some(base_of(rel))
        } else {
            Some(rel)
        },
        None => None,
    }
}

/// The file names a heading of the fragment, as a link of this kind may give it: by its
/// anchor, or, in all but standard links, by its text.
pub open spec fn heading_there(
    facts: FactsView,
    kind: KindView,
    file: Seq<char>,
    fragment: Seq<char>,
) -> bool {
    facts.files[file] matches Some(f) && (f.headings.contains(fragment) || (!(kind is Standard)
        && f.headings.contains(anchor(fragment))))
}

/// The issue is about this link of the file `source`.
pub open spec fn is_about(issue: IssueView, link: LinkView, source: Seq<char>) -> bool {
    issue.link == link.target && issue.source == source
}

/// What a link comes to that stands for the file `c` of a repository: a style note exactly
/// when it is not written in the best form, a note about the fragment exactly when the file
/// has no such heading, nothing else; and a markdown file is gone on to.
pub open spec fn as_found(
    w: SceneView,
    link: LinkView,
    source: Seq<char>,
    c: Seq<char>,
    form: Option<Seq<char>>,
    scope: ScopeView,
    r: ResolutionView,
) -> bool {
    let md = ends_in_md(link.target);
    &&& forall|i: int|
        0 <= i < r.issues.len() ==> is_about(#[trigger] r.issues[i], link, source) && (
        r.issues[i].kind is Style || r.issues[i].kind is BrokenAnchor)
    &&& (exists|i: int| 0 <= i < r.issues.len() && (#[trigger] r.issues[i]).kind is Style) <==> (
    form is Some && link.target != form->0)
    &&& forall|i: int|
        0 <= i < r.issues.len() && (#[trigger] r.issues[i]).kind is Style ==> r.issues[i].kind == (
        IssueKindView::Style {
            scope,
            suggested: form->0,
            path_start: link.path_start,
            path_end: link.path_end,
        })
    &&& (exists|i: int| 0 <= i < r.issues.len() && (#[trigger] r.issues[i]).kind is BrokenAnchor)
        <==> (md && link.fragment is Some && !heading_there(
        w.facts,
        link.kind,
        c,
        link.fragment->0,
    ))
    &&& forall|i: int|
        0 <= i < r.issues.len() && (#[trigger] r.issues[i]).kind is BrokenAnchor
            ==> r.issues[i].kind == IssueKindView::BrokenAnchor(link.fragment->0)
    &&& r.issues.len() <= 2 && (r.issues.len() == 2 ==> r.issues[0].kind is Style
        && r.issues[1].kind is BrokenAnchor)
    &&& r.next is Some <==> md
    &&& r.next matches Some((path, owner)) ==> path == c && (under(c, w.entry_root) ==> owner
        == w.entry_root)
}

/// What is needed to check the fragment is known.
pub open spec fn checkable(w: SceneView, link: LinkView, c: Seq<char>) -> bool {
    ends_in_md(link.target) && link.fragment is Some ==> w.facts.files.contains_key(c)
}

/// The issues of a link whose style notes are `style` and whose fragment is checked.
proof fn lemma_settled(
    w: SceneView,
    link: LinkView,
    source: Seq<char>,
    c: Seq<char>,
    owner: Seq<char>,
    by_name: Map<Seq<char>, Seq<Seq<char>>>,
    root: Seq<char>,
    scope: ScopeView,
    styled: bool,
)
    requires
        checkable(w, link, c),
        under(c, w.entry_root) ==> owner == w.entry_root,
    ensures
        ({
            let style = if styled {
                style_issues(link, source, c, root, by_name, scope)
            } else {
                Seq::empty()
            };
            let form = if styled {
                best_form(by_name, root, c)
            } else {
                None
            };
            settled(w, link, source, c, owner, style) matches Ok(r) && as_found(
                w,
                link,
                source,
                c,
                form,
                scope,
                r,
            )
        }),
{
    lemma_md(link);
    let style = if styled {
        style_issues(link, source, c, root, by_name, scope)
    } else {
        Seq::empty()
    };
    let r = settled(w, link, source, c, owner, style)->Ok_0;
    if style.len() > 0 {
        assert(r.issues[0] == style[0]);
        assert(r.issues[0].kind is Style);
    }
    if ends_in_md(link.target) && link.fragment is Some {
        let more = fragment_issues(w, link, source, c, link.fragment->0)->Ok_0;
        assert(r.issues == style + more);
        if more.len() > 0 {
            assert(r.issues[style.len() as int] == more[0]);
            assert(r.issues[style.len() as int].kind is BrokenAnchor);
        }
    } else {
        assert(r.issues == style);
    }
}

/// A wiki or standard link leads, first of all, to the file at its path from its own
/// directory.
pub proof fn law_found_beside(
    w: SceneView,
    link: LinkView,
    source: Seq<char>,
    root: Seq<char>,
    p: Seq<char>,
    c: Seq<char>,
)
    requires
        !(link.kind is CrossRepo),
        link.target.len() > 0,
        w.facts.indices.contains_key(root),
        resolved(link.target, source, w.facts.indices[root].root) == Some(p),
        leads_to(w.facts, p, Some(c)),
        checkable(w, link, c),
    ensures
        outcome(w, link, source, root) matches Ok(r) && as_found(
            w,
            link,
            source,
            c,
            if link.kind is Wiki {
                best_form(w.facts.indices[root].by_name, w.facts.indices[root].root, c)
            } else {
                None
            },
            ScopeView::Wiki,
            r,
        ),
{
    let ix = w.facts.indices[root];
    lemma_settled(
        w,
        link,
        source,
        c,
        root_or(holder(w, c), ix.root),
        ix.by_name,
        ix.root,
        ScopeView::Wiki,
        link.kind is Wiki,
    );
}

/// A wiki link that leads to nothing from its own directory leads to the file at its path
/// from the root.
pub proof fn law_found_from_root(
    w: SceneView,
    link: LinkView,
    source: Seq<char>,
    root: Seq<char>,
    p: Seq<char>,
    q: Seq<char>,
    c: Seq<char>,
)
    requires
        link.kind is Wiki,
        link.target.len() > 0,
        w.facts.indices.contains_key(root),
        resolved(link.target, source, w.facts.indices[root].root) == Some(p),
        leads_to(w.facts, p, None),
        resolved_strictly(link.target, w.facts.indices[root].root) == Some(q),
        leads_to(w.facts, q, Some(c)),
        checkable(w, link, c),
    ensures
        outcome(w, link, source, root) matches Ok(r) && as_found(
            w,
            link,
            source,
            c,
            best_form(w.facts.indices[root].by_name, w.facts.indices[root].root, c),
            ScopeView::Wiki,
            r,
        ),
{
    let ix = w.facts.indices[root];
    lemma_settled(
        w,
        link,
        source,
        c,
        root_or(holder(w, c), ix.root),
        ix.by_name,
        ix.root,
        ScopeView::Wiki,
        true,
    );
}

/// A link to a markdown file that leads to nothing at its path leads to the one file of its
/// name. With all extensions indexed, so does any link.
pub proof fn law_found_by_name(
    w: SceneView,
    link: LinkView,
    source: Seq<char>,
    root: Seq<char>,
    c: Seq<char>,
)
    requires
        !(link.kind is CrossRepo),
        link.target.len() > 0,
        w.facts.indices.contains_key(root),
        nothing_there(w, link, source, w.facts.indices[root]),
        ends_in_md(link.target) || w.all_extensions,
        ({
            let by_name = w.facts.indices[root].by_name;
            let name = base_of(link.target);
            by_name.contains_key(name) && by_name[name].len() == 1 && leads_to(
                w.facts,
                by_name[name][0],
                Some(c),
            )
        }),
        checkable(w, link, c),
    ensures
        outcome(w, link, source, root) matches Ok(r) && as_found(
            w,
            link,
            source,
            c,
            if link.kind is Wiki {
                best_form(w.facts.indices[root].by_name, w.facts.indices[root].root, c)
            } else {
                None
            },
            ScopeView::Wiki,
            r,
        ),
{
    let ix = w.facts.indices[root];
    lemma_md(link);
    lemma_settled(
        w,
        link,
        source,
        c,
        root_or(holder(w, c), ix.root),
        ix.by_name,
        ix.root,
        ScopeView::Wiki,
        link.kind is Wiki,
    );
}

/// A wiki or standard link that leads to no file is broken, whatever its kind and the
/// extension of its target: there is that one issue, and nothing is gone on to.
pub proof fn law_broken(w: SceneView, link: LinkView, source: Seq<char>, root: Seq<char>)
    requires
        !(link.kind is CrossRepo),
        link.target.len() > 0,
        w.facts.indices.contains_key(root),
        nothing_there(w, link, source, w.facts.indices[root]),
        ends_in_md(link.target) || w.all_extensions ==> nameless(
            w.facts,
            w.facts.indices[root],
            base_of(link.target),
        ),
    ensures
        outcome(w, link, source, root) matches Ok(r) && r.next is None && r.issues.len() == 1
            && is_about(r.issues[0], link, source) && r.issues[0].kind is Broken,
{
    lemma_md(link);
}

/// A link that leads to nothing at its path, and whose name several files have, is ambiguous,
/// and the issue counts them.
pub proof fn law_ambiguous(w: SceneView, link: LinkView, source: Seq<char>, root: Seq<char>)
    requires
        !(link.kind is CrossRepo),
        link.target.len() > 0,
        w.facts.indices.contains_key(root),
        nothing_there(w, link, source, w.facts.indices[root]),
        ends_in_md(link.target) || w.all_extensions,
        w.facts.indices[root].by_name.contains_key(base_of(link.target)),
        w.facts.indices[root].by_name[base_of(link.target)].len() >= 2,
    ensures
        outcome(w, link, source, root) matches Ok(r) && r.next is None && r.issues.len() == 1
            && is_about(r.issues[0], link, source) && r.issues[0].kind == IssueKindView::Ambiguous(
            w.facts.indices[root].by_name[base_of(link.target)].len() as int,
        ),
{
    lemma_md(link);
}

/// Nothing is said of a link that leads out of the repository.
pub proof fn law_out_of_root(w: SceneView, link: LinkView, source: Seq<char>, root: Seq<char>)
    requires
        !(link.kind is CrossRepo),
        link.target.len() > 0,
        w.facts.indices.contains_key(root),
        resolved(link.target, source, w.facts.indices[root].root) is None,
    ensures
        outcome(w, link, source, root) matches Ok(r) && r.next is None && r.issues.len() == 0,
{
}

/// A link without a path is to a heading of its own file: there is an issue exactly when the
/// file has no such heading.
pub proof fn law_own_heading(w: SceneView, link: LinkView, source: Seq<char>, root: Seq<char>)
    requires
        !(link.kind is CrossRepo),
        link.target.len() == 0,
        link.fragment is Some,
        w.facts.files.contains_key(source),
    ensures
        outcome(w, link, source, root) matches Ok(r) && r.next is None && (if heading_there(
            w.facts,
            link.kind,
            source,
            link.fragment->0,
        ) {
            r.issues.len() == 0
        } else {
            r.issues.len() == 1 && is_about(r.issues[0], link, source) && r.issues[0].kind
                == IssueKindView::BrokenAnchor(link.fragment->0)
        }),
{
}

/// A reference into another repository leads to the file at its path from the root there. A
/// style note is about the repository by its name.
pub proof fn law_found_far(
    w: SceneView,
    link: LinkView,
    source: Seq<char>,
    root: Seq<char>,
    name: Seq<char>,
    q: Seq<char>,
    c: Seq<char>,
)
    requires
        link.kind == KindView::CrossRepo(name),
        w.repos.contains_key(name),
        w.facts.indices.contains_key(w.repos[name]),
        resolved_strictly(link.target, w.repos[name]) == Some(q),
        leads_to(w.facts, q, Some(c)),
        checkable(w, link, c),
    ensures
        outcome(w, link, source, root) matches Ok(r) && as_found(
            w,
            link,
            source,
            c,
            best_form(w.facts.indices[w.repos[name]].by_name, w.repos[name], c),
            ScopeView::CrossRepo(name),
            r,
        ) && (r.next matches Some((_, owner)) ==> !under(c, w.entry_root) ==> owner
            == w.repos[name]),
{
    let top = w.repos[name];
    lemma_settled(
        w,
        link,
        source,
        c,
        if under(c, w.entry_root) {
            w.entry_root
        } else {
            top
        },
        w.facts.indices[top].by_name,
        top,
        ScopeView::CrossRepo(name),
        true,
    );
}

/// The reference into the repository at `top` stands for nothing at its path there, or climbs
/// out of it.
pub open spec fn nothing_far(w: SceneView, link: LinkView, top: Seq<char>) -> bool {
    resolved_strictly(link.target, top) matches Some(q) ==> leads_to(w.facts, q, None)
}

/// A reference into another repository that leads to nothing at its path leads to the one
/// file of its name there.
pub proof fn law_found_far_by_name(
    w: SceneView,
    link: LinkView,
    source: Seq<char>,
    root: Seq<char>,
    name: Seq<char>,
    c: Seq<char>,
)
    requires
        link.kind == KindView::CrossRepo(name),
        w.repos.contains_key(name),
        w.facts.indices.contains_key(w.repos[name]),
        nothing_far(w, link, w.repos[name]),
        ends_in_md(link.target),
        ({
            let by_name = w.facts.indices[w.repos[name]].by_name;
            let last = base_of(link.target);
            by_name.contains_key(last) && by_name[last].len() == 1 && leads_to(
                w.facts,
                by_name[last][0],
                Some(c),
            )
        }),
        checkable(w, link, c),
    ensures
        outcome(w, link, source, root) matches Ok(r) && as_found(
            w,
            link,
            source,
            c,
            best_form(w.facts.indices[w.repos[name]].by_name, w.repos[name], c),
            ScopeView::CrossRepo(name),
            r,
        ),
{
    let top = w.repos[name];
    lemma_md(link);
    lemma_settled(
        w,
        link,
        source,
        c,
        if under(c, w.entry_root) {
            w.entry_root
        } else {
            top
        },
        w.facts.indices[top].by_name,
        top,
        ScopeView::CrossRepo(name),
        true,
    );
}

/// A reference into a known repository that leads to no file there is broken, and the issue
/// names the repository. Where several files have its name it is ambiguous.
pub proof fn law_broken_far(
    w: SceneView,
    link: LinkView,
    source: Seq<char>,
    root: Seq<char>,
    name: Seq<char>,
)
    requires
        link.kind == KindView::CrossRepo(name),
        w.repos.contains_key(name),
        w.facts.indices.contains_key(w.repos[name]),
        nothing_far(w, link, w.repos[name]),
    ensures
        (ends_in_md(link.target) ==> nameless(
            w.facts,
            w.facts.indices[w.repos[name]],
            base_of(link.target),
        )) ==> (outcome(w, link, source, root) matches Ok(r) && r.next is None
            && r.issues.len() == 1 && is_about(r.issues[0], link, source) && r.issues[0].kind
            == IssueKindView::CrossRepoBroken(name)),
        ends_in_md(link.target) && w.facts.indices[w.repos[name]].by_name.contains_key(
            base_of(link.target),
        ) && w.facts.indices[w.repos[name]].by_name[base_of(link.target)].len() >= 2 ==> (outcome(
            w,
            link,
            source,
            root,
        ) matches Ok(r) && r.next is None && r.issues.len() == 1 && is_about(
            r.issues[0],
            link,
            source,
        ) && r.issues[0].kind == IssueKindView::Ambiguous(
            w.facts.indices[w.repos[name]].by_name[base_of(link.target)].len() as int,
        )),
{
    lemma_md(link);
}

/// Nothing is said of a reference into a repository that is not known.
pub proof fn law_unknown_repo(
    w: SceneView,
    link: LinkView,
    source: Seq<char>,
    root: Seq<char>,
    name: Seq<char>,
)
    requires
        link.kind == KindView::CrossRepo(name),
        !w.repos.contains_key(name),
    ensures
        outcome(w, link, source, root) matches Ok(r) && r.next is None && r.issues.len() == 0,
{
}

/// A path belongs to the crawled repository when it lies there, else to the first of the
/// others that it lies in, else to none.
pub proof fn law_holder(w: SceneView, path: Seq<char>)
    ensures
        under(path, w.entry_root) ==> holder(w, path) == Some(w.entry_root),
        !under(path, w.entry_root) ==> match holder(w, path) {
            Some(top) => exists|i: int| #[trigger] first_under(w, path, i, top),
            None => forall|i: int|
                0 <= i < w.order.len() ==> !under(path, w.repos[#[trigger] w.order[i]]),
        },
{
    if !under(path, w.entry_root) {
        lemma_first_holder(w, path, 0);
    }
}

/// The repository `i` is the first that the path lies in, and `top` is its root.
pub open spec fn first_under(w: SceneView, path: Seq<char>, i: int, top: Seq<char>) -> bool {
    &&& 0 <= i < w.order.len() && w.repos[w.order[i]] == top && under(path, top)
    &&& forall|j: int| 0 <= j < i ==> !under(path, w.repos[#[trigger] w.order[j]])
}

proof fn lemma_first_holder(w: SceneView, path: Seq<char>, i: int)
    requires
        0 <= i <= w.order.len(),
        forall|j: int| 0 <= j < i ==> !under(path, w.repos[#[trigger] w.order[j]]),
    ensures
        first_holder(w, path, i) is Some ==> exists|k: int| #[trigger]
            first_under(w, path, k, first_holder(w, path, i)->0),
        first_holder(w, path, i) is None ==> forall|j: int|
            0 <= j < w.order.len() ==> !under(path, w.repos[#[trigger] w.order[j]]),
    decreases w.order.len() - i,
{
    if i < w.order.len() {
        let top = w.repos[w.order[i]];
        if under(path, top) {
            assert(first_under(w, path, i, top));
            assert(first_under(w, path, i, first_holder(w, path, i)->0));
        } else {
            assert forall|j: int| 0 <= j < i + 1 implies !under(
                path,
                w.repos[#[trigger] w.order[j]],
            ) by {
                if j == i {
                    assert(w.order[j] == w.order[i]);
                }
            }
            lemma_first_holder(w, path, i + 1);
            let next = first_holder(w, path, i + 1);
            assert(first_holder(w, path, i) == next);
            if next is Some {
                let k = choose|k: int| #[trigger] first_under(w, path, k, next->0);
                assert(first_under(w, path, k, first_holder(w, path, i)->0));
            }
        }
    }
}

/// What is not known is asked for, one thing at a time: the index, then the path from the
/// own directory.
pub proof fn law_asks(w: SceneView, link: LinkView, source: Seq<char>, root: Seq<char>)
    requires
        !(link.kind is CrossRepo),
        link.target.len() > 0,
    ensures
        !w.facts.indices.contains_key(root) ==> outcome(w, link, source, root) == Err::<
            ResolutionView,
            QueryView,
        >(QueryView::Index(root)),
        w.facts.indices.contains_key(root) ==> (resolved(
            link.target,
            source,
            w.facts.indices[root].root,
        ) matches Some(p) ==> !w.facts.canonical.contains_key(p) ==> outcome(
            w,
            link,
            source,
            root,
        ) == Err::<ResolutionView, QueryView>(QueryView::Canonical(p))),
{
}

/// A file that is gone on to goes by the repository it lies in: for a wiki or standard link,
/// that which holds it, or else that of the link; for a link into another repository, the
/// crawled one where the file lies there, or else the other.
pub proof fn law_owner(w: SceneView, link: LinkView, source: Seq<char>, root: Seq<char>)
    ensures
        outcome(w, link, source, root) matches Ok(r) ==> (r.next matches Some((path, owner)) ==> (
        match link.kind {
            KindView::CrossRepo(name) => owner == if under(path, w.entry_root) {
                w.entry_root
            } else {
                w.repos[name]
            },
            _ => owner == match holder(w, path) {
                Some(top) => top,
                None => w.facts.indices[root].root,
            },
        })),
{
}

/// Only what is not known is asked for: the index of the repository that the link leads into,
/// the canonical form of a path, and, for a fragment, the file, as one of the repository that
/// holds it, or else of the crawled one.
pub proof fn law_asks_for_the_unknown(
    w: SceneView,
    link: LinkView,
    source: Seq<char>,
    root: Seq<char>,
)
    ensures
        outcome(w, link, source, root) matches Err(q) ==> match q {
            QueryView::Canonical(p) => !w.facts.canonical.contains_key(p),
            QueryView::Index(top) => !w.facts.indices.contains_key(top) && match link.kind {
                KindView::CrossRepo(name) => top == w.repos[name],
                _ => top == root,
            },
            QueryView::File(p, top) => !w.facts.files.contains_key(p) && link.fragment is Some
                && top == match holder(w, p) {
                Some(holds_it) => holds_it,
                None => w.entry_root,
            },
        },
{
}

/// The headings of a file are asked for when the link gives a fragment of it.
pub proof fn law_asks_for_headings(
    w: SceneView,
    link: LinkView,
    source: Seq<char>,
    root: Seq<char>,
    p: Seq<char>,
    c: Seq<char>,
)
    requires
        !(link.kind is CrossRepo),
        ends_in_md(link.target),
        link.fragment is Some,
        w.facts.indices.contains_key(root),
        resolved(link.target, source, w.facts.indices[root].root) == Some(p),
        leads_to(w.facts, p, Some(c)),
        !w.facts.files.contains_key(c),
    ensures
        outcome(w, link, source, root) matches Err(QueryView::File(path, _)) && path == c,
{
    lemma_md(link);
}

/// For a link into another repository its index is asked for first, then its path from the
/// root there.
pub proof fn law_asks_far(
    w: SceneView,
    link: LinkView,
    source: Seq<char>,
    root: Seq<char>,
    name: Seq<char>,
    p: Seq<char>,
)
    requires
        link.kind == KindView::CrossRepo(name),
        w.repos.contains_key(name),
    ensures
        !w.facts.indices.contains_key(w.repos[name]) ==> outcome(w, link, source, root) == Err::<
            ResolutionView,
            QueryView,
        >(QueryView::Index(w.repos[name])),
        w.facts.indices.contains_key(w.repos[name]) && resolved_strictly(link.target, w.repos[name])
            == Some(p) && !w.facts.canonical.contains_key(p) ==> outcome(w, link, source, root)
            == Err::<ResolutionView, QueryView>(QueryView::Canonical(p)),
{
}

} // verus!
