//! What a whole crawl promises: which files it reaches, and which issues it comes to, each as
//! often as it occurs.
use crate::cache::{CacheState, CacheView, Stamp};
use crate::crawl::{
    after_link, after_steps, at_start, canonical_or_raw, crawled, has_stale, informed, moved_on,
    pruned_by, reaches, read_through, referenced, refers, resolved_roots, seeded, step, unreadable,
    Crawl, CrawlOptions, CrawlView, StepView,
};
use crate::discovery::IndexView;
use crate::extract::{KindView, LinkView};
use crate::judging::{
    checkable, ends_in_md, law_broken, law_found_beside, law_holder, law_owner, leads_to, nameless,
    nothing_there,
};
use crate::path::{base_of, under};
use crate::reachability::{
    begun, checked, closed_set, comes_to, grown, law_crawled, law_issues, law_more_facts,
    law_reachable, law_sound_crawl, law_sound_step, leads, says, scene_with, seed_paths, sound,
};
use crate::resolve::resolved;
use crate::rewriting::{judged, lemma_judged};
use crate::scene::{
    law_issues_name_their_link, outcome, FactsView, IssueKindView, IssueView, QueryView,
    ResolutionView, SceneView,
};
use vstd::prelude::*;

verus! {

/// The issues about the file `f`, in order.
pub open spec fn issues_about(issues: Seq<IssueView>, f: Seq<char>) -> Seq<IssueView> {
    issues.filter(|i: IssueView| i.source == f)
}

/// The issues with the first `k` links of the file `f`, link by link.
pub open spec fn issues_of_links(w: SceneView, f: Seq<char>, k: int) -> Seq<IssueView>
    decreases k,
{
    if k <= 0 {
        Seq::empty()
    } else {
        issues_of_links(w, f, k - 1) + outcome(
            w,
            w.facts.files[f]->0.links[k - 1],
            f,
            w.entry_root,
        )->Ok_0.issues
    }
}

/// One for yes.
pub open spec fn one_if(b: bool) -> nat {
    if b {
        1
    } else {
        0
    }
}

/// The issues about the file `f` that the crawl should have come to: those with the links that
/// were judged, or, once for each time it was to be read, that it could not be.
pub open spec fn issues_due(s: CrawlView, f: Seq<char>) -> Seq<IssueView> {
    if s.scene.facts.files.contains_key(f) {
        match s.scene.facts.files[f] {
            Some(_) => if s.reachable.contains(f) {
                issues_of_links(s.scene, f, judged(s, f))
            } else {
                Seq::empty()
            },
            None => Seq::new(
                one_if(s.reachable.contains(f)) + one_if(s.cross_visited.contains(f)),
                |i: int| unreadable(f),
            ),
        }
    } else {
        Seq::empty()
    }
}

/// The issues about every file are those that are due.
pub open spec fn accounted(s: CrawlView) -> bool {
    forall|f: Seq<char>| #[trigger] issues_about(s.issues, f) == issues_due(s, f)
}

proof fn lemma_about_push(issues: Seq<IssueView>, i: IssueView, f: Seq<char>)
    ensures
        issues_about(issues.push(i), f) == if i.source == f {
            issues_about(issues, f).push(i)
        } else {
            issues_about(issues, f)
        },
{
    reveal(Seq::filter);
    assert(issues.push(i).drop_last() =~= issues);
}

proof fn lemma_about_add(a: Seq<IssueView>, b: Seq<IssueView>, f: Seq<char>)
    ensures
        issues_about(a + b, f) == issues_about(a, f) + issues_about(b, f),
    decreases b.len(),
{
    if b.len() == 0 {
        assert(a + b =~= a);
        reveal(Seq::filter);
        assert(issues_about(a, f) + issues_about(b, f) =~= issues_about(a, f));
    } else {
        let rest = b.drop_last();
        lemma_about_add(a, rest, f);
        assert(a + b =~= (a + rest).push(b.last()));
        assert(b =~= rest.push(b.last()));
        lemma_about_push(a + rest, b.last(), f);
        lemma_about_push(rest, b.last(), f);
        assert(issues_about(a + b, f) =~= issues_about(a, f) + issues_about(b, f));
    }
}

proof fn lemma_about_one(issues: Seq<IssueView>, g: Seq<char>, f: Seq<char>)
    requires
        forall|i: int| 0 <= i < issues.len() ==> (#[trigger] issues[i]).source == g,
    ensures
        issues_about(issues, f) == if f == g {
            issues
        } else {
            Seq::empty()
        },
    decreases issues.len(),
{
    if issues.len() == 0 {
        reveal(Seq::filter);
        assert(issues =~= Seq::empty());
    } else {
        let rest = issues.drop_last();
        assert forall|i: int| 0 <= i < rest.len() implies (#[trigger] rest[i]).source == g by {
            assert(rest[i] == issues[i]);
        }
        lemma_about_one(rest, g, f);
        assert(issues =~= rest.push(issues.last()));
        assert(issues[issues.len() - 1].source == g);
        lemma_about_push(rest, issues.last(), f);
    }
}

proof fn lemma_issues_stay(s: CrawlView, g: FactsView, f: Seq<char>, k: int)
    requires
        grown(s.scene.facts, g),
        s.scene.facts.files.contains_key(f),
        forall|j: int| 0 <= j < k ==> #[trigger] checked(s, f, j),
    ensures
        issues_of_links(scene_with(s.scene, g), f, k) == issues_of_links(s.scene, f, k),
    decreases k,
{
    if k > 0 {
        lemma_issues_stay(s, g, f, k - 1);
        assert(checked(s, f, k - 1));
        let r = choose|r: ResolutionView| #[trigger] comes_to(s.scene, f, k - 1, r);
        let w = s.scene;
        assert(g.files.dom().contains(f));
        assert(g.files[f] == w.facts.files[f]);
        law_more_facts(w, g, w.facts.files[f]->0.links[k - 1], f, w.entry_root);
    }
}

/// More facts keep a crawl accounted for.
pub proof fn law_accounted_with_more_facts(s: CrawlView, g: FactsView, seeds: Set<Seq<char>>)
    requires
        sound(s, seeds),
        accounted(s),
        grown(s.scene.facts, g),
    ensures
        accounted(informed(s, g)),
{
    let t = informed(s, g);
    assert forall|f: Seq<char>| #[trigger] issues_about(t.issues, f) == issues_due(t, f) by {
        assert(issues_about(s.issues, f) == issues_due(s, f));
        if s.scene.facts.files.contains_key(f) {
            assert(g.files.dom().contains(f));
            assert(g.files[f] == s.scene.facts.files[f]);
            if s.reachable.contains(f) && s.scene.facts.files[f] is Some {
                lemma_judged(s, seeds, f);
                lemma_issues_stay(s, g, f, judged(s, f));
            }
        } else {
            if s.reachable.contains(f) {
                lemma_judged(s, seeds, f);
            }
            assert(!s.reachable.contains(f) && !s.cross_visited.contains(f));
            assert(issues_due(t, f) =~= Seq::empty());
        }
    }
}

/// Every step keeps a crawl accounted for.
#[verifier::rlimit(40)]
pub proof fn law_accounted_step(s: CrawlView, t: CrawlView, seeds: Set<Seq<char>>)
    requires
        sound(s, seeds),
        accounted(s),
        step(s) == StepView::Next(t),
    ensures
        accounted(t),
{
    let item = s.queue[s.cursor];
    assert forall|f: Seq<char>| #[trigger] issues_about(t.issues, f) == issues_due(t, f) by {
        assert(issues_about(s.issues, f) == issues_due(s, f));
        match s.link {
            None => {
                if t.issues != s.issues {
                    assert(t.issues == s.issues.push(unreadable(item.path)));
                    lemma_about_push(s.issues, unreadable(item.path), f);
                    if f == item.path {
                        assert(issues_due(s, f).push(unreadable(f)) =~= issues_due(t, f));
                    }
                }
            },
            Some(j) => {
                let file = s.scene.facts.files[item.path]->0;
                if j < file.links.len() {
                    let r = outcome(s.scene, file.links[j], item.path, item.root)->Ok_0;
                    assert(item.root == s.scene.entry_root);
                    assert(t == after_link(s, j, r));
                    assert(t.issues == s.issues + r.issues);
                    lemma_about_add(s.issues, r.issues, f);
                    assert(t.queue[t.cursor] == item);
                    assert(s.reachable.contains(s.queue[s.cursor].path));
                    law_issues_name_their_link(
                        s.scene,
                        file.links[j],
                        item.path,
                        s.scene.entry_root,
                    );
                    lemma_about_one(r.issues, item.path, f);
                    if f != item.path {
                        assert(issues_about(s.issues, f) + Seq::<IssueView>::empty()
                            =~= issues_about(s.issues, f));
                    }
                } else {
                    assert(t == moved_on(s));
                }
            },
        }
    }
}

proof fn lemma_accounted_steps(s: CrawlView, n: nat, seeds: Set<Seq<char>>)
    requires
        sound(s, seeds),
        accounted(s),
    ensures
        accounted(after_steps(s, n)),
    decreases n,
{
    if n > 0 {
        match step(s) {
            StepView::Next(t) => {
                law_sound_step(s, t, seeds);
                law_accounted_step(s, t, seeds);
                lemma_accounted_steps(t, (n - 1) as nat, seeds);
            },
            _ => {},
        }
    }
}

/// A crawl stays accounted for as far as it goes.
pub proof fn law_accounted_reaches(s: CrawlView, t: CrawlView, seeds: Set<Seq<char>>)
    requires
        sound(s, seeds),
        accounted(s),
        reaches(s, t),
    ensures
        accounted(t),
{
    let n = choose|n: nat| #[trigger] after_steps(s, n) == t;
    lemma_accounted_steps(s, n, seeds);
}

proof fn lemma_nothing_yet(s: CrawlView, entries: Seq<Seq<char>>)
    ensures
        seeded(s, entries).issues == s.issues,
        seeded(s, entries).reachable == s.reachable,
        seeded(s, entries).cross_visited == s.cross_visited,
    decreases entries.len(),
{
    if entries.len() > 0 {
        lemma_nothing_yet(s, entries.drop_last());
    }
}

/// The crawl of a repository is accounted for from the start.
pub proof fn law_accounted_crawl(
    index: IndexView,
    options: CrawlOptions,
    facts: FactsView,
    entries: Seq<Seq<char>>,
)
    ensures
        accounted(at_start(index, options, facts, entries)),
{
    let s = at_start(index, options, facts, Seq::empty());
    let t = at_start(index, options, facts, entries);
    lemma_nothing_yet(s, entries);
    assert forall|f: Seq<char>| #[trigger] issues_about(t.issues, f) == issues_due(t, f) by {
        reveal(Seq::filter);
        assert(issues_due(t, f) =~= Seq::empty());
    }
}

/// At the end of a crawl the issues about a file that was read are those with each of its links
/// in turn: none is left out, told twice or out of order. That a file cannot be read is told
/// once.
pub proof fn law_issues_in_turn(s: CrawlView, seeds: Set<Seq<char>>, f: Seq<char>)
    requires
        sound(s, seeds),
        accounted(s),
        step(s) is Finished,
        s.reachable.contains(f),
    ensures
        s.scene.facts.files[f] matches Some(file) ==> s.issues.filter(
            |i: IssueView| i.source == f,
        ) == issues_of_links(s.scene, f, file.links.len() as int),
        s.scene.facts.files[f] is None && !s.cross_visited.contains(f) ==> s.issues.filter(
            |i: IssueView| i.source == f,
        ) == seq![unreadable(f)],
{
    lemma_judged(s, seeds, f);
    assert(issues_about(s.issues, f) == issues_due(s, f));
    if s.link is Some {
        assert(s.cursor < s.queue.len());
    }
    if s.scene.facts.files[f] is None && !s.cross_visited.contains(f) {
        assert(issues_due(s, f) =~= seq![unreadable(f)]);
    }
}

/// The link `j` of the file `f` leads to the file `q` of another repository, that at `top`.
pub open spec fn leads_away(
    w: SceneView,
    f: Seq<char>,
    j: int,
    q: Seq<char>,
    top: Seq<char>,
) -> bool {
    top != w.entry_root && exists|r: ResolutionView| #[trigger]
        comes_to(w, f, j, r) && r.next == Some((q, top))
}

/// The file `q` stands at position `i` of the queue, as one of another repository.
pub open spec fn queued_away(s: CrawlView, i: int, q: Seq<char>) -> bool {
    0 <= i < s.queue.len() && !s.queue[i].entry && s.queue[i].path == q
}

/// Some link of a file that was reached leads to the file `q` of the other repository at `top`.
pub open spec fn linked_away(s: CrawlView, q: Seq<char>, top: Seq<char>) -> bool {
    exists|f: Seq<char>, j: int| #[trigger]
        leads_away(s.scene, f, j, q, top) && s.reachable.contains(f)
}

/// Some link of a file that was reached leads to the file `q` of another repository.
pub open spec fn linked_somewhere(s: CrawlView, q: Seq<char>) -> bool {
    exists|top: Seq<char>| #[trigger] linked_away(s, q, top)
}

/// What holds of the files of other repositories at all times: those that links lead to are
/// visited or queued, and no others.
pub open spec fn outgoing(s: CrawlView) -> bool {
    &&& forall|i: int|
        0 <= i < begun(s) && !(#[trigger] s.queue[i]).entry ==> s.cross_visited.contains(
            s.queue[i].path,
        )
    &&& forall|f: Seq<char>, j: int, q: Seq<char>, top: Seq<char>|
        s.reachable.contains(f) && 0 <= j < judged(s, f) && #[trigger] leads_away(
            s.scene,
            f,
            j,
            q,
            top,
        ) ==> s.cross_visited.contains(q) || exists|i: int| #[trigger] queued_away(s, i, q)
    &&& forall|i: int|
        0 <= i < s.queue.len() && !(#[trigger] s.queue[i]).entry ==> linked_away(
            s,
            s.queue[i].path,
            s.queue[i].root,
        )
    &&& forall|q: Seq<char>| #[trigger] s.cross_visited.contains(q) ==> linked_somewhere(s, q)
}

proof fn lemma_linked_away_stays(s: CrawlView, t: CrawlView, q: Seq<char>, top: Seq<char>)
    requires
        linked_away(s, q, top),
        s.reachable.subset_of(t.reachable),
        t.scene == scene_with(s.scene, t.scene.facts),
        grown(s.scene.facts, t.scene.facts),
    ensures
        linked_away(t, q, top),
        linked_somewhere(t, q),
{
    let (f, j) = choose|f: Seq<char>, j: int| #[trigger]
        leads_away(s.scene, f, j, q, top) && s.reachable.contains(f);
    let w = s.scene;
    let r = choose|r: ResolutionView| #[trigger]
        comes_to(w, f, j, r) && r.next == Some((q, top));
    let g = t.scene.facts;
    assert(g.files.dom().contains(f));
    assert(g.files[f] == w.facts.files[f]);
    law_more_facts(w, g, w.facts.files[f]->0.links[j], f, w.entry_root);
    assert(comes_to(t.scene, f, j, r));
    assert(leads_away(t.scene, f, j, q, top));
    assert(linked_away(t, q, top));
}

/// More facts change nothing about the files of other repositories.
pub proof fn law_outgoing_with_more_facts(s: CrawlView, g: FactsView, seeds: Set<Seq<char>>)
    requires
        sound(s, seeds),
        outgoing(s),
        grown(s.scene.facts, g),
    ensures
        outgoing(informed(s, g)),
{
    let t = informed(s, g);
    assert forall|f: Seq<char>, j: int, q: Seq<char>, top: Seq<char>|
        t.reachable.contains(f) && 0 <= j < judged(t, f) && #[trigger] leads_away(
            t.scene,
            f,
            j,
            q,
            top,
        ) implies t.cross_visited.contains(q) || exists|i: int| #[trigger] queued_away(t, i, q) by {
        lemma_judged(s, seeds, f);
        assert(g.files.dom().contains(f));
        assert(g.files[f] == s.scene.facts.files[f]);
        let r = choose|r: ResolutionView| #[trigger]
            comes_to(t.scene, f, j, r) && r.next == Some((q, top));
        assert(judged(s, f) == judged(t, f));
        assert(checked(s, f, j));
        let was = choose|was: ResolutionView| #[trigger] comes_to(s.scene, f, j, was);
        law_more_facts(s.scene, g, s.scene.facts.files[f]->0.links[j], f, s.scene.entry_root);
        assert(comes_to(s.scene, f, j, r));
        assert(leads_away(s.scene, f, j, q, top));
        if !s.cross_visited.contains(q) {
            let i = choose|i: int| #[trigger] queued_away(s, i, q);
            assert(queued_away(t, i, q));
        }
    }
    assert forall|i: int|
        0 <= i < t.queue.len() && !(#[trigger] t.queue[i]).entry implies linked_away(
        t,
        t.queue[i].path,
        t.queue[i].root,
    ) by {
        assert(!s.queue[i].entry);
        lemma_linked_away_stays(s, t, t.queue[i].path, t.queue[i].root);
    }
    assert forall|q: Seq<char>| #[trigger] t.cross_visited.contains(q) implies linked_somewhere(
        t,
        q,
    ) by {
        assert(s.cross_visited.contains(q));
        let top = choose|top: Seq<char>| #[trigger] linked_away(s, q, top);
        lemma_linked_away_stays(s, t, q, top);
    }
}

/// Every step keeps what holds of the files of other repositories.
#[verifier::rlimit(60)]
pub proof fn law_outgoing_step(s: CrawlView, t: CrawlView, seeds: Set<Seq<char>>)
    requires
        sound(s, seeds),
        outgoing(s),
        step(s) == StepView::Next(t),
    ensures
        outgoing(t),
{
    let item = s.queue[s.cursor];
    assert(t.scene == s.scene);
    assert(s.reachable.subset_of(t.reachable));
    assert(s.cross_visited.subset_of(t.cross_visited));
    assert(s.queue.len() <= t.queue.len());
    assert forall|i: int| 0 <= i < s.queue.len() implies t.queue[i] == s.queue[i] by {}
    assert forall|q: Seq<char>, top: Seq<char>|
        linked_away(s, q, top) implies #[trigger] linked_away(t, q, top) by {
        lemma_linked_away_stays(s, t, q, top);
    }
    assert forall|q: Seq<char>| linked_somewhere(s, q) implies #[trigger] linked_somewhere(
        t,
        q,
    ) by {
        let top = choose|top: Seq<char>| #[trigger] linked_away(s, q, top);
        assert(linked_away(t, q, top));
    }
    match s.link {
        None => {
            assert(t.queue == s.queue);
            assert forall|f: Seq<char>, j: int, q: Seq<char>, top: Seq<char>|
                t.reachable.contains(f) && 0 <= j < judged(t, f) && #[trigger] leads_away(
                    t.scene,
                    f,
                    j,
                    q,
                    top,
                ) implies t.cross_visited.contains(q) || exists|i: int| #[trigger]
                queued_away(t, i, q) by {
                if s.reachable.contains(f) {
                    lemma_judged(s, seeds, f);
                    assert(j < judged(s, f));
                    if !s.cross_visited.contains(q) {
                        let i = choose|i: int| #[trigger] queued_away(s, i, q);
                        assert(queued_away(t, i, q));
                    }
                } else {
                    assert(f == item.path);
                    let r = choose|r: ResolutionView| #[trigger] comes_to(t.scene, f, j, r);
                    assert(t.scene.facts.files[f] is Some);
                    assert(judged(t, f) == 0);
                }
            }
            assert forall|q: Seq<char>| #[trigger]
                t.cross_visited.contains(q) implies linked_somewhere(t, q) by {
                if !s.cross_visited.contains(q) {
                    assert(q == item.path && !item.entry);
                    assert(linked_away(s, item.path, item.root));
                    assert(linked_away(t, q, item.root));
                } else {
                    assert(linked_somewhere(s, q));
                }
            }
        },
        Some(j) => {
            let file = s.scene.facts.files[item.path]->0;
            assert(item.root == s.scene.entry_root);
            assert(s.reachable.contains(s.queue[s.cursor].path));
            if j < file.links.len() {
                let r = outcome(s.scene, file.links[j], item.path, item.root)->Ok_0;
                assert(t == after_link(s, j, r));
                assert(t.queue[t.cursor] == item);
                assert(comes_to(s.scene, item.path, j, r));
                assert forall|f: Seq<char>, k: int, q: Seq<char>, top: Seq<char>|
                    t.reachable.contains(f) && 0 <= k < judged(t, f) && #[trigger] leads_away(
                        t.scene,
                        f,
                        k,
                        q,
                        top,
                    ) implies t.cross_visited.contains(q) || exists|i: int| #[trigger]
                    queued_away(t, i, q) by {
                    if f == item.path && k == j {
                        assert(r.next matches Some((path, owner)) && path == q);
                        if !s.cross_visited.contains(q) {
                            assert(queued_away(t, s.queue.len() as int, q));
                        }
                    } else {
                        assert(k < judged(s, f));
                        if !s.cross_visited.contains(q) {
                            let i = choose|i: int| #[trigger] queued_away(s, i, q);
                            assert(queued_away(t, i, q));
                        }
                    }
                }
                assert forall|i: int|
                    0 <= i < t.queue.len() && !(#[trigger] t.queue[i]).entry implies linked_away(
                    t,
                    t.queue[i].path,
                    t.queue[i].root,
                ) by {
                    if i < s.queue.len() {
                        assert(!s.queue[i].entry);
                        assert(linked_away(s, s.queue[i].path, s.queue[i].root));
                    } else {
                        assert(leads_away(t.scene, item.path, j, t.queue[i].path, t.queue[i].root));
                        assert(t.reachable.contains(item.path));
                    }
                }
            } else {
                assert(t == moved_on(s));
                assert forall|f: Seq<char>, k: int, q: Seq<char>, top: Seq<char>|
                    t.reachable.contains(f) && 0 <= k < judged(t, f) && #[trigger] leads_away(
                        t.scene,
                        f,
                        k,
                        q,
                        top,
                    ) implies t.cross_visited.contains(q) || exists|i: int| #[trigger]
                    queued_away(t, i, q) by {
                    assert(k < judged(s, f));
                    if !s.cross_visited.contains(q) {
                        let i = choose|i: int| #[trigger] queued_away(s, i, q);
                        assert(queued_away(t, i, q));
                    }
                }
            }
        },
    }
}

proof fn lemma_outgoing_steps(s: CrawlView, n: nat, seeds: Set<Seq<char>>)
    requires
        sound(s, seeds),
        outgoing(s),
    ensures
        outgoing(after_steps(s, n)),
    decreases n,
{
    if n > 0 {
        match step(s) {
            StepView::Next(t) => {
                law_sound_step(s, t, seeds);
                law_outgoing_step(s, t, seeds);
                lemma_outgoing_steps(t, (n - 1) as nat, seeds);
            },
            _ => {},
        }
    }
}

/// What holds of the files of other repositories holds as far as a crawl goes.
pub proof fn law_outgoing_reaches(s: CrawlView, t: CrawlView, seeds: Set<Seq<char>>)
    requires
        sound(s, seeds),
        outgoing(s),
        reaches(s, t),
    ensures
        outgoing(t),
{
    let n = choose|n: nat| #[trigger] after_steps(s, n) == t;
    lemma_outgoing_steps(s, n, seeds);
}

proof fn lemma_entries_only(s: CrawlView, entries: Seq<Seq<char>>)
    requires
        s.queue.len() == 0,
    ensures
        forall|i: int|
            0 <= i < seeded(s, entries).queue.len() ==> (#[trigger] seeded(
                s,
                entries,
            ).queue[i]).entry,
        seeded(s, entries).cursor == s.cursor,
        seeded(s, entries).link == s.link,
    decreases entries.len(),
{
    if entries.len() > 0 {
        lemma_entries_only(s, entries.drop_last());
    }
}

/// No file of another repository is visited or queued at the start.
pub proof fn law_outgoing_crawl(
    index: IndexView,
    options: CrawlOptions,
    facts: FactsView,
    entries: Seq<Seq<char>>,
)
    ensures
        outgoing(at_start(index, options, facts, entries)),
{
    let s = at_start(index, options, facts, Seq::empty());
    lemma_nothing_yet(s, entries);
    lemma_entries_only(s, entries);
}

/// At the end of a crawl the files of other repositories that were visited are those that links
/// of reached files lead to, and no others. Those that could not be read are told.
pub proof fn law_files_away(s: CrawlView, seeds: Set<Seq<char>>, q: Seq<char>)
    requires
        sound(s, seeds),
        outgoing(s),
        step(s) is Finished,
    ensures
        s.cross_visited.contains(q) <==> linked_somewhere(s, q),
        linked_somewhere(s, q) ==> s.scene.facts.files.contains_key(q) && (
        s.scene.facts.files[q] is None ==> s.issues.contains(
            IssueView { link: q, source: q, kind: IssueKindView::Unreadable },
        )),
{
    if s.link is Some {
        assert(s.cursor < s.queue.len());
    }
    if linked_somewhere(s, q) {
        let top = choose|top: Seq<char>| #[trigger] linked_away(s, q, top);
        let (f, j) = choose|f: Seq<char>, j: int| #[trigger]
            leads_away(s.scene, f, j, q, top) && s.reachable.contains(f);
        lemma_judged(s, seeds, f);
        let r = choose|r: ResolutionView| #[trigger] comes_to(s.scene, f, j, r);
        assert(j < judged(s, f));
        if !s.cross_visited.contains(q) {
            let i = choose|i: int| #[trigger] queued_away(s, i, q);
            assert(!s.queue[i].entry);
        }
    }
}

/// While a file is waited for, it is the one that stands next in the queue, and it is read as
/// one of the repository it was found in.
pub proof fn law_asks_for_next_file(
    s: CrawlView,
    seeds: Set<Seq<char>>,
    path: Seq<char>,
    root: Seq<char>,
)
    requires
        sound(s, seeds),
        outgoing(s),
        s.link is None,
        step(s) == StepView::Ask(QueryView::File(path, root)),
    ensures
        path == s.queue[s.cursor].path,
        !s.scene.facts.files.contains_key(path),
        s.queue[s.cursor].entry ==> root == s.scene.entry_root,
        !s.queue[s.cursor].entry ==> linked_away(s, path, root),
{
}

/// The note about a file that cannot be read names the file.
pub proof fn law_unreadable_note(f: Seq<char>)
    ensures
        unreadable(f).link == f && unreadable(f).source == f && unreadable(f).kind is Unreadable,
{
}

/// A path stands for its canonical form where it has one, and else for itself; so do the roots
/// of the known repositories, of which none is lost.
pub proof fn law_known_paths(
    facts: FactsView,
    path: Seq<char>,
    repos: Map<Seq<char>, String>,
    name: Seq<char>,
)
    ensures
        facts.canonical.contains_key(path) && facts.canonical[path] is Some ==> canonical_or_raw(
            facts,
            path,
        ) == facts.canonical[path]->0,
        !facts.canonical.contains_key(path) || facts.canonical[path] is None ==> canonical_or_raw(
            facts,
            path,
        ) == path,
        resolved_roots(facts, repos).contains_key(name) <==> repos.contains_key(name),
        repos.contains_key(name) && repos[name]@ == path ==> resolved_roots(facts, repos)[name]
            == canonical_or_raw(facts, path),
{
}

/// Every entry file is reached, under its canonical path, or as it is named when it has none.
pub proof fn law_entries_reached(
    index: IndexView,
    options: CrawlOptions,
    facts: FactsView,
    entries: Seq<Seq<char>>,
    cache: CacheState,
    r: Crawl,
    k: int,
)
    requires
        crawled(at_start(index, options, facts, entries), cache, r),
        0 <= k < entries.len(),
    ensures
        r matches Crawl::Done(reachable, _, _) ==> reachable@.contains(
            if facts.canonical.contains_key(entries[k]) && facts.canonical[entries[k]] is Some {
                facts.canonical[entries[k]]->0
            } else {
                entries[k]
            },
        ),
{
    let s = at_start(index, options, facts, entries);
    let seeds = seed_paths(facts, entries);
    law_sound_crawl(index, options, facts, entries);
    law_crawled(s, cache, r, seeds);
    let paths = entries.map_values(|e: Seq<char>| canonical_or_raw(facts, e));
    assert(paths[k] == canonical_or_raw(facts, entries[k]));
    assert(paths.contains(paths[k]));
    assert(seeds.contains(paths[k]));
}

/// The file `f` was read, and `link` is among its links.
pub open spec fn has_link(w: SceneView, f: Seq<char>, link: LinkView) -> bool {
    w.facts.files.contains_key(f) && w.facts.files[f] is Some
        && w.facts.files[f]->0.links.contains(link)
}

proof fn lemma_link_checked(
    s: CrawlView,
    seeds: Set<Seq<char>>,
    f: Seq<char>,
    link: LinkView,
    r: ResolutionView,
)
    requires
        sound(s, seeds),
        step(s) is Finished,
        s.reachable.contains(f),
        has_link(s.scene, f, link),
        outcome(s.scene, link, f, s.scene.entry_root) == Ok::<ResolutionView, QueryView>(r),
    ensures
        forall|i: IssueView| r.issues.contains(i) ==> #[trigger] s.issues.contains(i),
        r.next matches Some((q, owner)) ==> owner == s.scene.entry_root ==> s.reachable.contains(q),
{
    let links = s.scene.facts.files[f]->0.links;
    let j = choose|j: int| 0 <= j < links.len() && links[j] == link;
    assert(comes_to(s.scene, f, j, r));
    law_reachable(s, seeds);
    if let Some((q, owner)) = r.next {
        if owner == s.scene.entry_root {
            assert(leads(s.scene, f, j, q));
        }
    }
    assert forall|i: IssueView| r.issues.contains(i) implies #[trigger] s.issues.contains(i) by {
        assert(says(s.scene, f, j, i));
        law_issues(s, seeds, i);
    }
}

/// A markdown file of the crawled repository is reached when a reached file links to it by its
/// path.
pub proof fn law_linked_is_reached(
    s: CrawlView,
    seeds: Set<Seq<char>>,
    f: Seq<char>,
    link: LinkView,
    p: Seq<char>,
    c: Seq<char>,
)
    requires
        sound(s, seeds),
        step(s) is Finished,
        s.reachable.contains(f),
        has_link(s.scene, f, link),
        !(link.kind is CrossRepo),
        ends_in_md(link.target),
        s.scene.facts.indices.contains_key(s.scene.entry_root),
        resolved(
            link.target,
            f,
            s.scene.facts.indices[s.scene.entry_root].root,
        ) == Some(p),
        leads_to(s.scene.facts, p, Some(c)),
        checkable(s.scene, link, c),
        under(c, s.scene.entry_root),
    ensures
        s.reachable.contains(c),
{
    law_found_beside(s.scene, link, f, s.scene.entry_root, p, c);
    let r = outcome(s.scene, link, f, s.scene.entry_root)->Ok_0;
    lemma_link_checked(s, seeds, f, link, r);
}

/// A link of a reached file that leads to no file is told as broken.
pub proof fn law_broken_is_noted(s: CrawlView, seeds: Set<Seq<char>>, f: Seq<char>, link: LinkView)
    requires
        sound(s, seeds),
        step(s) is Finished,
        s.reachable.contains(f),
        has_link(s.scene, f, link),
        !(link.kind is CrossRepo),
        link.target.len() > 0,
        s.scene.facts.indices.contains_key(s.scene.entry_root),
        nothing_there(s.scene, link, f, s.scene.facts.indices[s.scene.entry_root]),
        nameless(
            s.scene.facts,
            s.scene.facts.indices[s.scene.entry_root],
            base_of(link.target),
        ),
    ensures
        s.issues.contains(
            IssueView { link: link.target, source: f, kind: IssueKindView::Broken },
        ),
{
    law_broken(s.scene, link, f, s.scene.entry_root);
    let r = outcome(s.scene, link, f, s.scene.entry_root)->Ok_0;
    lemma_link_checked(s, seeds, f, link, r);
    assert(r.issues.contains(r.issues[0]));
}

/// The crawl loads every repository that a link in the queue goes to, and no other.
pub proof fn law_referenced(s: CrawlView, root: Seq<char>)
    ensures
        referenced(s, root) <==> exists|i: int, name: Seq<char>|
            #![trigger s.queue[i], s.scene.repos[name]]
            {
                &&& 0 <= i < s.queue.len() && s.queue[i].entry
                &&& s.scene.repos.contains_key(name) && s.scene.repos[name] == root
                &&& exists|link: LinkView| #[trigger]
                    has_link(s.scene, s.queue[i].path, link) && link.kind == KindView::CrossRepo(
                        name,
                    )
            },
{
    if referenced(s, root) {
        let (i, j) = choose|i: int, j: int| #[trigger] refers(s, i, j, root);
        let link = s.scene.facts.files[s.queue[i].path]->0.links[j];
        let name = link.kind->CrossRepo_0;
        assert(s.scene.facts.files[s.queue[i].path]->0.links.contains(link));
        assert(has_link(s.scene, s.queue[i].path, link));
        assert(s.scene.repos[name] == root);
    }
    if exists|i: int, name: Seq<char>|
        #![trigger s.queue[i], s.scene.repos[name]]
        {
            &&& 0 <= i < s.queue.len() && s.queue[i].entry
            &&& s.scene.repos.contains_key(name) && s.scene.repos[name] == root
            &&& exists|link: LinkView| #[trigger]
                has_link(s.scene, s.queue[i].path, link) && link.kind == KindView::CrossRepo(name)
        } {
        let (i, name) = choose|i: int, name: Seq<char>|
            #![trigger s.queue[i], s.scene.repos[name]]
            {
                &&& 0 <= i < s.queue.len() && s.queue[i].entry
                &&& s.scene.repos.contains_key(name) && s.scene.repos[name] == root
                &&& exists|link: LinkView| #[trigger]
                    has_link(s.scene, s.queue[i].path, link) && link.kind == KindView::CrossRepo(
                        name,
                    )
            };
        let link = choose|link: LinkView| #[trigger]
            has_link(s.scene, s.queue[i].path, link) && link.kind == KindView::CrossRepo(name);
        let links = s.scene.facts.files[s.queue[i].path]->0.links;
        let j = choose|j: int| 0 <= j < links.len() && links[j] == link;
        assert(refers(s, i, j, root));
    }
}

/// At the end the cache keeps the entries of the files that are indexed, and all entries of
/// repositories without an index. It is marked where an entry was dropped.
pub proof fn law_cache_pruned(
    cache: CacheState,
    indices: Map<Seq<char>, IndexView>,
    root: Seq<char>,
    k: Seq<char>,
)
    requires
        cache.caches.contains_key(root),
    ensures
        ({
            let after = pruned_by(cache, indices);
            let was = cache.caches[root].entries;
            let now = after.caches[root].entries;
            &&& after.caches.dom() == cache.caches.dom()
            &&& now.contains_key(k) <==> was.contains_key(k) && (!indices.contains_key(root)
                || indices[root].md_files.contains(k))
            &&& now.contains_key(k) ==> now[k] == was[k]
            &&& cache.dirty.contains(root) ==> after.dirty.contains(root)
            &&& was.contains_key(k) && !now.contains_key(k) ==> after.dirty.contains(root)
            &&& was == now ==> (after.dirty.contains(root) <==> cache.dirty.contains(root))
            &&& after.enabled == cache.enabled && after.repos == cache.repos
        }),
{
    let after = pruned_by(cache, indices);
    let was = cache.caches[root].entries;
    let now = after.caches[root].entries;
    assert(after.caches.dom() =~= cache.caches.dom());
    if has_stale(cache, indices, root) {
        let x = choose|x: Seq<char>|
            was.dom().contains(x) && !indices[root].md_files.contains(x);
        assert(was.dom().contains(x) && !now.dom().contains(x));
    }
}

/// A file that could not be read leaves the cache as it is.
pub proof fn law_unread_file(
    cache: CacheState,
    path: Seq<char>,
    root: Seq<char>,
    stamp: Option<Stamp>,
    stored: Option<CacheView>,
)
    ensures
        read_through(cache, path, root, None, stamp, stored).0 is None,
        read_through(cache, path, root, None, stamp, stored).1 == cache,
{
}

/// A crawl does not go on into other repositories: what it reaches is an entry file, or lies in
/// the crawled repository, or in none that is known.
pub proof fn law_stays_at_home(s: CrawlView, seeds: Set<Seq<char>>, q: Seq<char>)
    requires
        sound(s, seeds),
        step(s) is Finished,
        s.reachable.contains(q),
        forall|name: Seq<char>| #[trigger]
            s.scene.repos.contains_key(name) ==> s.scene.repos[name] != s.scene.entry_root,
    ensures
        seeds.contains(q) || under(q, s.scene.entry_root) || forall|i: int|
            0 <= i < s.scene.order.len() ==> !under(q, s.scene.repos[#[trigger] s.scene.order[i]]),
{
    let w = s.scene;
    let home = Set::new(
        |p: Seq<char>|
            seeds.contains(p) || under(p, w.entry_root) || forall|i: int|
                0 <= i < w.order.len() ==> !under(p, w.repos[#[trigger] w.order[i]]),
    );
    assert(closed_set(w, home)) by {
        assert forall|f: Seq<char>, j: int, p: Seq<char>|
            home.contains(f) && #[trigger] leads(w, f, j, p) implies home.contains(p) by {
            let r = choose|r: ResolutionView| #[trigger]
                comes_to(w, f, j, r) && r.next == Some((p, w.entry_root));
            let link = w.facts.files[f]->0.links[j];
            law_owner(w, link, f, w.entry_root);
            law_holder(w, p);
        }
    }
    law_reachable(s, seeds);
    assert(seeds.subset_of(home));
}

} // verus!
