//! What fixing does to a file: of all its bytes, the paths of the links that have style
//! notes are replaced, and nothing else.
use crate::crawl::{
    after_link, after_steps, at_start, informed, moved_on, reaches, seeded, step,
    unreadable, CrawlOptions, CrawlView, StepView,
};
use crate::discovery::IndexView;
use crate::extract::{links_of, KindView, LinkView};
use crate::fix::{
    apart, edit_of, edits_for, law_rewritten_at_once, lemma_edits_for_add, rewritten, woven,
    EditView,
};
use crate::reachability::{
    begun, checked, comes_to, done_with, grown, law_more_facts, law_sound_step, queued_at,
    scene_with, sound,
};
use crate::path::{base_of, law_dir_base, law_rel_base, under};
use crate::reread::{
    as_noted, law_replaced_paths, lemma_notes_apart, note_edits, notes_fit, same_link,
};
use crate::resolve::{law_resolved_name, proper, resolved, resolved_strictly};
use crate::scene::{
    law_issues_name_their_link, law_one_style_note, located, located_in_repo, outcome,
    to_markdown, FactsView, FoundView, IssueView, ResolutionView, SceneView,
};
use vstd::prelude::*;
use vstd::utf8::encode_utf8;

verus! {

/// The edits that the style notes about the link `j` of the file `f` ask for.
pub open spec fn edits_of_link(w: SceneView, f: Seq<char>, j: int) -> Seq<EditView> {
    edits_for(outcome(w, w.facts.files[f]->0.links[j], f, w.entry_root)->Ok_0.issues, f)
}

/// The edits for the first `k` links of the file `f`, in order.
pub open spec fn edits_of_links(w: SceneView, f: Seq<char>, k: int) -> Seq<EditView>
    decreases k,
{
    if k <= 0 {
        Seq::empty()
    } else {
        edits_of_links(w, f, k - 1) + edits_of_link(w, f, k - 1)
    }
}

/// How many links of the file `f`, which was read, have been judged.
pub open spec fn judged(s: CrawlView, f: Seq<char>) -> int {
    match s.link {
        Some(j) => if s.queue[s.cursor].path == f {
            j
        } else {
            s.scene.facts.files[f]->0.links.len() as int
        },
        None => s.scene.facts.files[f]->0.links.len() as int,
    }
}

/// The edits that the crawl should have come to for the file `f`.
pub open spec fn edits_due(s: CrawlView, f: Seq<char>) -> Seq<EditView> {
    if s.reachable.contains(f) && s.scene.facts.files.contains_key(f) && s.scene.facts.files[f]
        is Some {
        edits_of_links(s.scene, f, judged(s, f))
    } else {
        Seq::empty()
    }
}

/// The edits for every file are those of the links that have been judged.
pub open spec fn traced(s: CrawlView) -> bool {
    forall|f: Seq<char>| #[trigger] edits_for(s.issues, f) == edits_due(s, f)
}

proof fn lemma_no_edits(issues: Seq<IssueView>, f: Seq<char>)
    requires
        forall|i: int| 0 <= i < issues.len() ==> (#[trigger] issues[i]).source != f,
    ensures
        edits_for(issues, f) == Seq::<EditView>::empty(),
    decreases issues.len(),
{
    if issues.len() > 0 {
        assert forall|i: int| 0 <= i < issues.drop_last().len() implies (
        #[trigger] issues.drop_last()[i]).source != f by {
            assert(issues.drop_last()[i] == issues[i]);
        }
        lemma_no_edits(issues.drop_last(), f);
    }
}

/// What was judged stays as it is when more becomes known.
proof fn lemma_edits_stay(s: CrawlView, g: FactsView, f: Seq<char>, k: int)
    requires
        grown(s.scene.facts, g),
        s.scene.facts.files.contains_key(f),
        forall|j: int| 0 <= j < k ==> #[trigger] checked(s, f, j),
    ensures
        edits_of_links(scene_with(s.scene, g), f, k) == edits_of_links(s.scene, f, k),
    decreases k,
{
    if k > 0 {
        lemma_edits_stay(s, g, f, k - 1);
        assert(checked(s, f, k - 1));
        let r = choose|r: ResolutionView| #[trigger] comes_to(s.scene, f, k - 1, r);
        let w = s.scene;
        assert(g.files.dom().contains(f));
        assert(g.files[f] == w.facts.files[f]);
        law_more_facts(w, g, w.facts.files[f]->0.links[k - 1], f, w.entry_root);
    }
}

/// The links of a file that have been judged are checked.
pub(crate) proof fn lemma_judged(s: CrawlView, seeds: Set<Seq<char>>, f: Seq<char>)
    requires
        sound(s, seeds),
        s.reachable.contains(f),
    ensures
        s.scene.facts.files.contains_key(f),
        s.scene.facts.files[f] is Some ==> forall|j: int|
            0 <= j < judged(s, f) ==> #[trigger] checked(s, f, j),
{
    let i = choose|i: int| queued_at(s, i, f) && i < begun(s);
    assert(s.queue[i].entry && s.queue[i].path == f);
    if i < s.cursor {
        assert(done_with(s, s.queue[i].path));
    }
}

/// More facts keep a crawl traced.
pub proof fn law_traced_with_more_facts(s: CrawlView, g: FactsView, seeds: Set<Seq<char>>)
    requires
        sound(s, seeds),
        traced(s),
        grown(s.scene.facts, g),
    ensures
        traced(informed(s, g)),
{
    let t = informed(s, g);
    assert forall|f: Seq<char>| #[trigger] edits_for(t.issues, f) == edits_due(t, f) by {
        assert(edits_for(s.issues, f) == edits_due(s, f));
        if s.reachable.contains(f) {
            lemma_judged(s, seeds, f);
            assert(g.files.dom().contains(f));
            assert(g.files[f] == s.scene.facts.files[f]);
            if s.scene.facts.files[f] is Some {
                lemma_edits_stay(s, g, f, judged(s, f));
            }
        }
    }
}

/// Every step keeps a crawl traced.
#[verifier::rlimit(30)]
pub proof fn law_traced_step(s: CrawlView, t: CrawlView, seeds: Set<Seq<char>>)
    requires
        sound(s, seeds),
        traced(s),
        step(s) == StepView::Next(t),
    ensures
        traced(t),
{
    let item = s.queue[s.cursor];
    assert forall|f: Seq<char>| #[trigger] edits_for(t.issues, f) == edits_due(t, f) by {
        assert(edits_for(s.issues, f) == edits_due(s, f));
        match s.link {
            None => {
                if t.issues != s.issues {
                    assert(t.issues == s.issues.push(unreadable(item.path)));
                    assert(t.issues.drop_last() =~= s.issues);
                    assert(edit_of(unreadable(item.path)) is None);
                }
                assert(edits_for(t.issues, f) == edits_for(s.issues, f));
            },
            Some(j) => {
                let file = s.scene.facts.files[item.path]->0;
                if j < file.links.len() {
                    let r = outcome(s.scene, file.links[j], item.path, item.root)->Ok_0;
                    assert(item.root == s.scene.entry_root);
                    assert(t == after_link(s, j, r));
                    assert(t.issues == s.issues + r.issues);
                    lemma_edits_for_add(s.issues, r.issues, f);
                    assert(t.queue[t.cursor] == item);
                    assert(s.reachable.contains(s.queue[s.cursor].path));
                    if f == item.path {
                        assert(edits_for(r.issues, f) == edits_of_link(s.scene, f, j));
                    } else {
                        law_issues_name_their_link(
                            s.scene,
                            file.links[j],
                            item.path,
                            s.scene.entry_root,
                        );
                        lemma_no_edits(r.issues, f);
                        assert(edits_for(s.issues, f) + edits_for(r.issues, f) =~= edits_for(
                            s.issues,
                            f,
                        ));
                    }
                } else {
                    assert(t == moved_on(s));
                }
            },
        }
    }
}

/// A crawl stays traced as far as it goes.
pub proof fn law_traced_reaches(s: CrawlView, t: CrawlView, seeds: Set<Seq<char>>)
    requires
        sound(s, seeds),
        traced(s),
        reaches(s, t),
    ensures
        traced(t),
{
    let n = choose|n: nat| #[trigger] after_steps(s, n) == t;
    lemma_traced_steps(s, n, seeds);
}

proof fn lemma_traced_steps(s: CrawlView, n: nat, seeds: Set<Seq<char>>)
    requires
        sound(s, seeds),
        traced(s),
    ensures
        traced(after_steps(s, n)),
    decreases n,
{
    if n > 0 {
        match step(s) {
            StepView::Next(t) => {
                law_sound_step(s, t, seeds);
                law_traced_step(s, t, seeds);
                lemma_traced_steps(t, (n - 1) as nat, seeds);
            },
            _ => {},
        }
    }
}

proof fn lemma_seeded_keeps(s: CrawlView, entries: Seq<Seq<char>>)
    ensures
        seeded(s, entries).issues == s.issues,
        seeded(s, entries).reachable == s.reachable,
    decreases entries.len(),
{
    if entries.len() > 0 {
        lemma_seeded_keeps(s, entries.drop_last());
    }
}

/// The crawl of a repository is traced from the start.
pub proof fn law_traced_crawl(
    index: IndexView,
    options: CrawlOptions,
    facts: FactsView,
    entries: Seq<Seq<char>>,
)
    ensures
        traced(at_start(index, options, facts, entries)),
{
    let s = at_start(index, options, facts, Seq::empty());
    lemma_seeded_keeps(s, entries);
}

/// At most the first issue is a style note, and all are about the file `f`: the edit is that
/// of the first issue.
proof fn lemma_one_edit(issues: Seq<IssueView>, f: Seq<char>)
    requires
        forall|i: int| 0 <= i < issues.len() ==> (#[trigger] issues[i]).source == f,
        forall|i: int| 0 <= i < issues.len() && (#[trigger] issues[i]).kind is Style ==> i == 0,
    ensures
        edits_for(issues, f) == if issues.len() > 0 && issues[0].kind is Style {
            seq![edit_of(issues[0])->0]
        } else {
            Seq::empty()
        },
    decreases issues.len(),
{
    if issues.len() > 0 {
        let before = issues.drop_last();
        assert forall|i: int| 0 <= i < before.len() implies (#[trigger] before[i]).source == f by {
            assert(before[i] == issues[i]);
        }
        assert forall|i: int| 0 <= i < before.len() && (#[trigger] before[i]).kind is Style implies i
            == 0 by {
            assert(before[i] == issues[i]);
        }
        lemma_one_edit(before, f);
        assert(issues.last() == issues[issues.len() - 1]);
        if issues.len() == 1 {
            assert(edits_for(before, f) == Seq::<EditView>::empty());
            assert(Seq::<EditView>::empty().push(edit_of(issues[0])->0) =~= seq![
                edit_of(issues[0])->0,
            ]);
        } else {
            assert(before[0] == issues[0]);
        }
    }
}

/// The edit for a link that was judged puts the suggestion in the place of its path.
proof fn lemma_edit_of_link(s: CrawlView, f: Seq<char>, j: int)
    requires
        checked(s, f, j),
    ensures
        ({
            let link = s.scene.facts.files[f]->0.links[j];
            edits_of_link(s.scene, f, j) == match suggestion(
                s.scene,
                link,
                f,
                s.scene.entry_root,
            ) {
                Some(t) => seq![
                    EditView { start: link.path_start, end: link.path_end, bytes: encode_utf8(t) },
                ],
                None => Seq::empty(),
            }
        }),
{
    let w = s.scene;
    let link = w.facts.files[f]->0.links[j];
    let r = choose|r: ResolutionView| #[trigger] comes_to(w, f, j, r);
    law_one_style_note(w, link, f, w.entry_root);
    law_issues_name_their_link(w, link, f, w.entry_root);
    lemma_one_edit(r.issues, f);
}

/// The edits for the links that were judged are those that the notes ask for.
proof fn lemma_edits_are_notes(s: CrawlView, f: Seq<char>, k: int)
    requires
        0 <= k <= s.scene.facts.files[f]->0.links.len(),
        forall|j: int| 0 <= j < k ==> #[trigger] checked(s, f, j),
    ensures
        edits_of_links(s.scene, f, k) == note_edits(
            s.scene.facts.files[f]->0.links,
            notes_of(s.scene, f),
            k,
        ),
    decreases k,
{
    if k > 0 {
        lemma_edits_are_notes(s, f, k - 1);
        assert(checked(s, f, k - 1));
        lemma_edit_of_link(s, f, k - 1);
    }
}

/// At the end of a crawl, the edits for a reachable file are those that the notes about its
/// links ask for.
proof fn lemma_edits_at_end(s: CrawlView, seeds: Set<Seq<char>>, f: Seq<char>)
    requires
        sound(s, seeds),
        traced(s),
        step(s) is Finished,
        s.reachable.contains(f),
        s.scene.facts.files[f] is Some,
    ensures
        ({
            let links = s.scene.facts.files[f]->0.links;
            edits_for(s.issues, f) == note_edits(
                links,
                notes_of(s.scene, f),
                links.len() as int,
            )
        }),
{
    lemma_judged(s, seeds, f);
    assert(edits_for(s.issues, f) == edits_due(s, f));
    lemma_edits_are_notes(s, f, judged(s, f));
}

/// At the end of a crawl, the edits for a file stand apart from each other, each at the
/// path of a link. Fixing the file puts the suggested paths in their places, and every
/// other byte, of fragments, aliases and repository names too, stays as it is.
pub proof fn law_fixed_file(
    s: CrawlView,
    seeds: Set<Seq<char>>,
    f: Seq<char>,
    bytes: Seq<u8>,
    repos: Set<Seq<char>>,
)
    requires
        sound(s, seeds),
        traced(s),
        step(s) is Finished,
        s.scene.facts.files.contains_key(f),
        s.scene.facts.files[f] is Some,
        s.scene.facts.files[f]->0.links == links_of(bytes, repos),
    ensures
        apart(bytes, edits_for(s.issues, f)),
        rewritten(bytes, edits_for(s.issues, f)) == woven(bytes, edits_for(s.issues, f), 0, 0),
{
    let links = links_of(bytes, repos);
    if s.reachable.contains(f) {
        lemma_edits_at_end(s, seeds, f);
        lemma_notes_apart(bytes, repos, links, notes_of(s.scene, f), links.len() as int);
    } else {
        assert(edits_for(s.issues, f) == edits_due(s, f));
    }
    law_rewritten_at_once(bytes, edits_for(s.issues, f));
}

/// The file that a link leads to, in the file `source` of the repository at `root`, as far
/// as the facts tell.
pub open spec fn found_at(w: SceneView, link: LinkView, source: Seq<char>, root: Seq<char>) -> Option<
    Seq<char>,
> {
    let found = match link.kind {
        KindView::CrossRepo(name) => {
            let top = w.repos[name];
            located(
                w.facts,
                resolved_strictly(link.target, top),
                to_markdown(link),
                link.target,
                w.facts.indices[top].by_name,
            )
        },
        _ => {
            let ix = w.facts.indices[root];
            match resolved(link.target, source, ix.root) {
                Some(path) => located_in_repo(w, link, path, ix),
                None => Ok(FoundView::Missing),
            }
        },
    };
    match found {
        Ok(FoundView::At(path)) => Some(path),
        _ => None,
    }
}

/// How a style note asks for the link to be written, where there is one.
pub open spec fn suggestion(
    w: SceneView,
    link: LinkView,
    source: Seq<char>,
    root: Seq<char>,
) -> Option<Seq<char>> {
    match outcome(w, link, source, root) {
        Ok(r) => if r.issues.len() > 0 && r.issues[0].kind is Style {
            Some(r.issues[0].kind->suggested)
        } else {
            None
        },
        Err(_) => None,
    }
}

/// There is no style note about the link.
pub open spec fn quiet(w: SceneView, link: LinkView, source: Seq<char>, root: Seq<char>) -> bool {
    outcome(w, link, source, root) matches Ok(r) ==> forall|i: int|
        0 <= i < r.issues.len() ==> !((#[trigger] r.issues[i]).kind is Style)
}

/// The same repositories, paths and indices; the files may have changed.
pub open spec fn same_setting(w: SceneView, v: SceneView) -> bool {
    &&& v.entry_root == w.entry_root && v.repos == w.repos && v.order == w.order
    &&& v.all_extensions == w.all_extensions
    &&& v.facts.canonical == w.facts.canonical && v.facts.indices == w.facts.indices
}

/// A link without a style note has none in another place and among other files.
#[verifier::rlimit(30)]
pub proof fn law_stays_quiet(
    w: SceneView,
    v: SceneView,
    a: LinkView,
    b: LinkView,
    source: Seq<char>,
    root: Seq<char>,
)
    requires
        same_setting(w, v),
        same_link(a, b, a.target),
        outcome(w, a, source, root) is Ok,
        suggestion(w, a, source, root) is None,
    ensures
        quiet(v, b, source, root),
{
    law_one_style_note(v, b, source, root);
}

/// A link that was rewritten as its style note asked gets no style note, as long as it
/// leads to the same file, or to none.
#[verifier::rlimit(30)]
pub proof fn law_rewritten_link_is_quiet(
    w: SceneView,
    v: SceneView,
    a: LinkView,
    b: LinkView,
    source: Seq<char>,
    root: Seq<char>,
)
    requires
        same_setting(w, v),
        suggestion(w, a, source, root) is Some,
        same_link(a, b, suggestion(w, a, source, root)->0),
        found_at(w, b, source, root) is None || found_at(w, b, source, root) == found_at(
            w,
            a,
            source,
            root,
        ),
    ensures
        quiet(v, b, source, root),
{
    law_one_style_note(v, b, source, root);
}

/// The base names of paths are those of the files they stand for: no file goes by another
/// name.
pub open spec fn names_kept(facts: FactsView) -> bool {
    forall|p: Seq<char>| #[trigger]
        facts.canonical.contains_key(p) && facts.canonical[p] is Some ==> base_of(
            facts.canonical[p]->0,
        ) == base_of(p)
}

/// The root of the repository that the link leads into, in a file of the repository at
/// `root`.
pub open spec fn top_of(w: SceneView, link: LinkView, root: Seq<char>) -> Seq<char> {
    match link.kind {
        KindView::CrossRepo(repo) => w.repos[repo],
        _ => w.facts.indices[root].root,
    }
}

/// The name is that of one file of the repository that the link leads into, and the index
/// has it by its name.
pub open spec fn one_of_its_name(
    w: SceneView,
    link: LinkView,
    root: Seq<char>,
    name: Seq<char>,
) -> bool {
    let by_name = match link.kind {
        KindView::CrossRepo(repo) => w.facts.indices[w.repos[repo]].by_name,
        _ => w.facts.indices[root].by_name,
    };
    proper(name) && by_name.contains_key(name) && by_name[name].len() == 1 && base_of(
        by_name[name][0],
    ) == name
}

/// A link that was rewritten to a base name which is unique in its repository gets no style
/// note, whichever file of that name below the root it leads to.
#[verifier::rlimit(30)]
pub proof fn law_unique_name_is_quiet(
    w: SceneView,
    v: SceneView,
    a: LinkView,
    b: LinkView,
    source: Seq<char>,
    root: Seq<char>,
)
    requires
        same_setting(w, v),
        suggestion(w, a, source, root) is Some,
        same_link(a, b, suggestion(w, a, source, root)->0),
        one_of_its_name(w, a, root, b.target),
        names_kept(w.facts),
        found_at(w, b, source, root) != Some(top_of(w, a, root)),
    ensures
        quiet(v, b, source, root),
{
    law_one_style_note(v, b, source, root);
    let t = b.target;
    let top = top_of(w, a, root);
    law_dir_base(t);
    law_resolved_name(t, source, top);
    if let Some(path) = found_at(v, b, source, root) {
        assert(base_of(path) == t);
        if under(path, top) {
            law_rel_base(path, top);
        }
    }
}

/// The suggestions about the links of the file `f`, where there are any.
pub open spec fn notes_of(w: SceneView, f: Seq<char>) -> Seq<Option<Seq<char>>> {
    let links = w.facts.files[f]->0.links;
    Seq::new(links.len(), |j: int| suggestion(w, links[j], f, w.entry_root))
}

/// A file that was fixed has the same links as before, in the same order, those with style
/// notes written as suggested.
pub proof fn law_fixed_links(
    s: CrawlView,
    seeds: Set<Seq<char>>,
    f: Seq<char>,
    bytes: Seq<u8>,
    repos: Set<Seq<char>>,
)
    requires
        sound(s, seeds),
        traced(s),
        step(s) is Finished,
        s.reachable.contains(f),
        s.scene.facts.files[f] is Some,
        s.scene.facts.files[f]->0.links == links_of(bytes, repos),
        notes_fit(bytes, links_of(bytes, repos), notes_of(s.scene, f)),
    ensures
        as_noted(
            links_of(bytes, repos),
            notes_of(s.scene, f),
            links_of(rewritten(bytes, edits_for(s.issues, f)), repos),
        ),
{
    law_fixed_file(s, seeds, f, bytes, repos);
    lemma_edits_at_end(s, seeds, f);
    law_replaced_paths(bytes, repos, notes_of(s.scene, f));
}

/// The link, written as suggested, leads to the same file or to none, or it is written by a
/// base name that is unique in its repository.
pub open spec fn suggestion_holds(w: SceneView, link: LinkView, f: Seq<char>) -> bool {
    let fixed = LinkView { target: suggestion(w, link, f, w.entry_root)->0, ..link };
    let there = found_at(w, fixed, f, w.entry_root);
    ||| there is None
    ||| there == found_at(w, link, f, w.entry_root)
    ||| one_of_its_name(w, link, w.entry_root, fixed.target) && names_kept(w.facts) && there != Some(
        top_of(w, link, w.entry_root),
    )
}

/// Fixing is done once: when a file that was fixed is checked again, no link of it gets a
/// style note.
#[verifier::rlimit(30)]
pub proof fn law_fix_is_idempotent(
    s: CrawlView,
    seeds: Set<Seq<char>>,
    f: Seq<char>,
    bytes: Seq<u8>,
    repos: Set<Seq<char>>,
    again: SceneView,
    k: int,
)
    requires
        sound(s, seeds),
        traced(s),
        step(s) is Finished,
        s.reachable.contains(f),
        s.scene.facts.files[f] is Some,
        s.scene.facts.files[f]->0.links == links_of(bytes, repos),
        notes_fit(bytes, links_of(bytes, repos), notes_of(s.scene, f)),
        forall|j: int|
            0 <= j < links_of(bytes, repos).len() && notes_of(s.scene, f)[j] is Some
                ==> suggestion_holds(s.scene, #[trigger] links_of(bytes, repos)[j], f),
        same_setting(s.scene, again),
        0 <= k < links_of(rewritten(bytes, edits_for(s.issues, f)), repos).len(),
    ensures
        quiet(
            again,
            links_of(rewritten(bytes, edits_for(s.issues, f)), repos)[k],
            f,
            s.scene.entry_root,
        ),
{
    law_fixed_links(s, seeds, f, bytes, repos);
    lemma_judged(s, seeds, f);
    let w = s.scene;
    let root = w.entry_root;
    let link = links_of(bytes, repos)[k];
    let fixed = links_of(rewritten(bytes, edits_for(s.issues, f)), repos)[k];
    assert(checked(s, f, k));
    match notes_of(w, f)[k] {
        None => {
            let r = choose|r: ResolutionView| #[trigger] comes_to(w, f, k, r);
            assert(same_link(link, fixed, link.target));
            law_stays_quiet(w, again, link, fixed, f, root);
        },
        Some(t) => {
            assert(same_link(link, fixed, t));
            assert(suggestion_holds(w, link, f));
            let there = found_at(w, fixed, f, root);
            assert(there == found_at(w, (LinkView { target: t, ..link }), f, root));
            if there is None || there == found_at(w, link, f, root) {
                law_rewritten_link_is_quiet(w, again, link, fixed, f, root);
            } else {
                law_unique_name_is_quiet(w, again, link, fixed, f, root);
            }
        },
    }
}

} // verus!
