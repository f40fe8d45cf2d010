//! What a crawl finds: its end depends on the facts alone, the files it reaches are those
//! that the links lead to from the entry files, and the issues are those of their links.
use crate::cache::{CacheState, ExtractedView};
use crate::collections::lemma_members_push;
use crate::crawl::{
    after_link, after_steps, at_start, canonical_or_raw, crawled, informed, moved_on, pruned_by,
    reaches, resolved_roots, seeded, step, unreadable, with_canonical, with_file, with_index, Crawl,
    CrawlOptions, CrawlView, StepView,
};
use crate::discovery::IndexView;
use crate::extract::LinkView;
use crate::scene::{
    first_holder, holder, issue_views, outcome, FactsView, IssueView, QueryView, ResolutionView,
    SceneView,
};
use vstd::prelude::*;

verus! {

/// All facts of `f` are among those of `g`.
pub open spec fn grown(f: FactsView, g: FactsView) -> bool {
    f.canonical.submap_of(g.canonical) && f.files.submap_of(g.files) && f.indices.submap_of(
        g.indices,
    )
}

/// The scene with these facts.
pub open spec fn scene_with(w: SceneView, facts: FactsView) -> SceneView {
    SceneView { facts, ..w }
}

/// What a link comes to does not change when more becomes known.
pub proof fn law_more_facts(
    w: SceneView,
    g: FactsView,
    link: LinkView,
    source: Seq<char>,
    root: Seq<char>,
)
    requires
        grown(w.facts, g),
        outcome(w, link, source, root) is Ok,
    ensures
        outcome(scene_with(w, g), link, source, root) == outcome(w, link, source, root),
{
    let v = scene_with(w, g);
    assert forall|path: Seq<char>| holder(v, path) == holder(
        w,
        path,
    ) by {
        lemma_same_holder(w, g, path, 0);
    }
}

proof fn lemma_same_holder(w: SceneView, g: FactsView, path: Seq<char>, i: int)
    ensures
        first_holder(scene_with(w, g), path, i) == first_holder(
            w,
            path,
            i,
        ),
    decreases w.order.len() - i,
{
    if i < w.order.len() {
        lemma_same_holder(w, g, path, i + 1);
    }
}

/// A note of a canonical path, a file or an index adds to the facts and takes none away.
pub proof fn law_facts_only_grow(
    f: FactsView,
    path: Seq<char>,
    canonical: Option<Seq<char>>,
    file: Option<ExtractedView>,
    index: IndexView,
)
    ensures
        grown(f, with_canonical(f, path, canonical)),
        grown(f, with_file(f, path, file)),
        grown(f, with_index(f, path, index)),
{
}

/// The crawl stands still: it is done, or needs a fact.
pub open spec fn stuck(s: CrawlView) -> bool {
    !(step(s) is Next)
}

proof fn lemma_stuck_after(s: CrawlView, n: nat, m: nat)
    requires
        stuck(after_steps(s, n)),
        n <= m,
    ensures
        after_steps(s, m) == after_steps(s, n),
    decreases n,
{
    match step(s) {
        StepView::Next(t) => {
            if n > 0 {
                lemma_stuck_after(t, (n - 1) as nat, (m - 1) as nat);
            }
        },
        _ => {},
    }
}

/// Where a crawl comes to a stand depends on where it was and on the facts alone.
pub proof fn law_crawl_is_determined(s: CrawlView, t: CrawlView, u: CrawlView)
    requires
        reaches(s, t),
        stuck(t),
        reaches(s, u),
        stuck(u),
    ensures
        t == u,
{
    let n = choose|n: nat| #[trigger] after_steps(s, n) == t;
    let m = choose|m: nat| #[trigger] after_steps(s, m) == u;
    if n <= m {
        lemma_stuck_after(s, n, m);
    } else {
        lemma_stuck_after(s, m, n);
    }
}

/// The link `j` of the file `f`, of the crawled repository, comes to `r`.
pub open spec fn comes_to(w: SceneView, f: Seq<char>, j: int, r: ResolutionView) -> bool {
    &&& w.facts.files.contains_key(f)
    &&& w.facts.files[f] matches Some(file)
    &&& 0 <= j < file.links.len()
    &&& outcome(w, file.links[j], f, w.entry_root) == Ok::<ResolutionView, QueryView>(r)
}

/// The link `j` of the file `f` leads to the file `q` of the crawled repository.
pub open spec fn leads(w: SceneView, f: Seq<char>, j: int, q: Seq<char>) -> bool {
    exists|r: ResolutionView| #[trigger] comes_to(w, f, j, r) && r.next == Some((q, w.entry_root))
}

/// There is the issue `i` with the link `j` of the file `f`.
pub open spec fn says(w: SceneView, f: Seq<char>, j: int, i: IssueView) -> bool {
    exists|r: ResolutionView| #[trigger] comes_to(w, f, j, r) && r.issues.contains(i)
}

/// A set of files that no link leads out of.
pub open spec fn closed_set(w: SceneView, files: Set<Seq<char>>) -> bool {
    forall|f: Seq<char>, j: int, q: Seq<char>|
        files.contains(f) && #[trigger] leads(w, f, j, q) ==> files.contains(q)
}

/// The issues with link `j` of the file `f` are noted, and the file it leads to is queued.
pub open spec fn checked(s: CrawlView, f: Seq<char>, j: int) -> bool {
    exists|r: ResolutionView| #[trigger]
        comes_to(s.scene, f, j, r) && (forall|i: IssueView|
            r.issues.contains(i) ==> #[trigger] s.issues.contains(i)) && (r.next matches Some(
            (q, owner),
        ) ==> owner == s.scene.entry_root ==> s.queued.contains(q))
}

/// The file `f` is done with: it could not be read, and that is noted, or all its links
/// are checked.
pub open spec fn done_with(s: CrawlView, f: Seq<char>) -> bool {
    &&& s.scene.facts.files.contains_key(f)
    &&& match s.scene.facts.files[f] {
        None => s.issues.contains(unreadable(f)),
        Some(file) => forall|j: int| 0 <= j < file.links.len() ==> #[trigger] checked(s, f, j),
    }
}

/// How many items of the queue have been begun.
pub open spec fn begun(s: CrawlView) -> int {
    if s.link is Some {
        s.cursor + 1
    } else {
        s.cursor
    }
}

/// The file `p` of the crawled repository stands at position `i` of the queue.
pub open spec fn queued_at(s: CrawlView, i: int, p: Seq<char>) -> bool {
    0 <= i < s.queue.len() && s.queue[i].entry && s.queue[i].path == p
}

/// The issue has its ground: a link of a file that was reached, or a file that could not
/// be read.
pub open spec fn grounded(s: CrawlView, i: IssueView) -> bool {
    ||| exists|f: Seq<char>, j: int| #[trigger] says(s.scene, f, j, i) && s.reachable.contains(f)
    ||| exists|f: Seq<char>| #[trigger]
        s.scene.facts.files.contains_key(f) && s.scene.facts.files[f] is None && (
        s.reachable.contains(f) || s.cross_visited.contains(f)) && i == unreadable(f)
}

/// What holds of a crawl from `seeds` at all times.
pub open spec fn sound(s: CrawlView, seeds: Set<Seq<char>>) -> bool {
    &&& 0 <= s.cursor <= s.queue.len()
    &&& s.link matches Some(j) ==> {
        &&& s.cursor < s.queue.len()
        &&& s.queue[s.cursor].entry
        &&& s.scene.facts.files.contains_key(s.queue[s.cursor].path)
        &&& s.scene.facts.files[s.queue[s.cursor].path] is Some
        &&& 0 <= j <= s.scene.facts.files[s.queue[s.cursor].path]->0.links.len()
        &&& forall|k: int| 0 <= k < j ==> #[trigger] checked(s, s.queue[s.cursor].path, k)
    }
    &&& forall|i: int|
        0 <= i < s.queue.len() && (#[trigger] s.queue[i]).entry ==> s.queue[i].root
            == s.scene.entry_root && s.queued.contains(s.queue[i].path)
    &&& forall|p: Seq<char>| #[trigger]
        s.queued.contains(p) ==> exists|i: int| queued_at(s, i, p)
    &&& forall|i: int|
        0 <= i < begun(s) && (#[trigger] s.queue[i]).entry ==> s.reachable.contains(s.queue[i].path)
    &&& forall|p: Seq<char>| #[trigger] s.reachable.contains(p) ==> s.queued.contains(p)
    &&& forall|i: int|
        0 <= i < s.cursor && (#[trigger] s.queue[i]).entry ==> done_with(s, s.queue[i].path)
    &&& forall|p: Seq<char>| #[trigger]
        s.reachable.contains(p) ==> exists|i: int| queued_at(s, i, p) && i < begun(s)
    &&& forall|p: Seq<char>| #[trigger]
        s.cross_visited.contains(p) ==> s.scene.facts.files.contains_key(p) && (
        s.scene.facts.files[p] is None ==> s.issues.contains(unreadable(p)))
    &&& seeds.subset_of(s.queued)
    &&& forall|files: Set<Seq<char>>| #[trigger]
        closed_set(s.scene, files) && seeds.subset_of(files) ==> s.queued.subset_of(files)
    &&& forall|i: IssueView| s.issues.contains(i) ==> #[trigger] grounded(s, i)
}

/// `t` knows as much as `s`, and has noted, queued and visited no less.
spec fn extends(s: CrawlView, t: CrawlView) -> bool {
    &&& grown(s.scene.facts, t.scene.facts)
    &&& t.scene == scene_with(s.scene, t.scene.facts)
    &&& forall|i: IssueView| s.issues.contains(i) ==> #[trigger] t.issues.contains(i)
    &&& s.queued.subset_of(t.queued)
    &&& s.reachable.subset_of(t.reachable)
    &&& s.cross_visited.subset_of(t.cross_visited)
}

proof fn lemma_comes_to_stays(w: SceneView, g: FactsView, f: Seq<char>, j: int, r: ResolutionView)
    requires
        grown(w.facts, g),
        comes_to(w, f, j, r),
    ensures
        comes_to(scene_with(w, g), f, j, r),
{
    let file = w.facts.files[f]->0;
    law_more_facts(w, g, file.links[j], f, w.entry_root);
    assert(g.files[f] == w.facts.files[f]);
}

proof fn lemma_extends(s: CrawlView, t: CrawlView)
    requires
        extends(s, t),
    ensures
        forall|f: Seq<char>, j: int| checked(s, f, j) ==> #[trigger] checked(t, f, j),
        forall|f: Seq<char>| done_with(s, f) ==> #[trigger] done_with(t, f),
        forall|i: IssueView| grounded(s, i) ==> #[trigger] grounded(t, i),
{
    let w = s.scene;
    let g = t.scene.facts;
    assert forall|f: Seq<char>, j: int| checked(s, f, j) implies #[trigger] checked(t, f, j) by {
        let r = choose|r: ResolutionView| #[trigger]
            comes_to(s.scene, f, j, r) && (forall|i: IssueView|
                r.issues.contains(i) ==> #[trigger] s.issues.contains(i)) && (
            r.next matches Some((q, owner)) ==> owner == s.scene.entry_root ==> s.queued.contains(
                q,
            ));
        lemma_comes_to_stays(w, g, f, j, r);
        assert forall|i: IssueView| r.issues.contains(i) implies #[trigger] t.issues.contains(
            i,
        ) by {
            assert(s.issues.contains(i));
        }
        assert(comes_to(t.scene, f, j, r));
    }
    assert forall|f: Seq<char>| done_with(s, f) implies #[trigger] done_with(t, f) by {
        assert(g.files.dom().contains(f));
        assert(g.files[f] == w.facts.files[f]);
        match s.scene.facts.files[f] {
            None => {
                assert(t.issues.contains(unreadable(f)));
            },
            Some(file) => {
                assert forall|j: int| 0 <= j < file.links.len() implies #[trigger] checked(
                    t,
                    f,
                    j,
                ) by {
                    assert(checked(s, f, j));
                }
            },
        }
    }
    assert forall|i: IssueView| grounded(s, i) implies #[trigger] grounded(t, i) by {
        if exists|f: Seq<char>, j: int| #[trigger]
            says(s.scene, f, j, i) && s.reachable.contains(f) {
            let (f, j) = choose|f: Seq<char>, j: int| #[trigger]
                says(s.scene, f, j, i) && s.reachable.contains(f);
            let r = choose|r: ResolutionView| #[trigger]
                comes_to(s.scene, f, j, r) && r.issues.contains(i);
            lemma_comes_to_stays(w, g, f, j, r);
            assert(comes_to(t.scene, f, j, r));
            assert(says(t.scene, f, j, i) && t.reachable.contains(f));
        } else {
            let f = choose|f: Seq<char>| #[trigger]
                s.scene.facts.files.contains_key(f) && s.scene.facts.files[f] is None && (
                s.reachable.contains(f) || s.cross_visited.contains(f)) && i == unreadable(f);
            assert(g.files.dom().contains(f));
        assert(g.files[f] == w.facts.files[f]);
            assert(t.scene.facts.files.contains_key(f));
        }
    }
}

proof fn lemma_closed_before(w: SceneView, g: FactsView, files: Set<Seq<char>>)
    requires
        grown(w.facts, g),
        closed_set(scene_with(w, g), files),
    ensures
        closed_set(w, files),
{
    let v = scene_with(w, g);
    assert forall|f: Seq<char>, j: int, q: Seq<char>|
        files.contains(f) && #[trigger] leads(w, f, j, q) implies files.contains(q) by {
        let r = choose|r: ResolutionView| #[trigger]
            comes_to(w, f, j, r) && r.next == Some((q, w.entry_root));
        lemma_comes_to_stays(w, g, f, j, r);
        assert(comes_to(v, f, j, r));
        assert(leads(v, f, j, q));
    }
}

/// More facts keep a crawl sound.
pub proof fn law_sound_with_more_facts(s: CrawlView, g: FactsView, seeds: Set<Seq<char>>)
    requires
        sound(s, seeds),
        grown(s.scene.facts, g),
    ensures
        sound(informed(s, g), seeds),
{
    let t = informed(s, g);
    assert(extends(s, t));
    lemma_extends(s, t);
    assert forall|p: Seq<char>| #[trigger] t.queued.contains(p) implies exists|i: int|
        queued_at(t, i, p) by {
        assert(s.queued.contains(p));
        let i = choose|i: int| queued_at(s, i, p);
        assert(queued_at(t, i, p));
    }
    assert forall|p: Seq<char>| #[trigger] t.reachable.contains(p) implies exists|i: int|
        queued_at(t, i, p) && i < begun(t) by {
        assert(s.reachable.contains(p));
        let i = choose|i: int| queued_at(s, i, p) && i < begun(s);
        assert(queued_at(t, i, p) && i < begun(t));
    }
    assert forall|files: Set<Seq<char>>| #[trigger]
        closed_set(t.scene, files) && seeds.subset_of(files) implies t.queued.subset_of(files) by {
        lemma_closed_before(s.scene, g, files);
    }
    assert forall|i: int|
        0 <= i < t.cursor && (#[trigger] t.queue[i]).entry implies done_with(
        t,
        t.queue[i].path,
    ) by {
        assert(done_with(s, s.queue[i].path));
    }
    assert forall|p: Seq<char>| #[trigger] t.cross_visited.contains(p) implies g.files.contains_key(
        p,
    ) && (g.files[p] is None ==> t.issues.contains(unreadable(p))) by {
        assert(s.cross_visited.contains(p));
        assert(g.files.dom().contains(p));
        assert(g.files[p] == s.scene.facts.files[p]);
    }
    assert forall|i: IssueView| t.issues.contains(i) implies #[trigger] grounded(t, i) by {
        assert(grounded(s, i));
    }
    if let Some(j) = t.link {
        let f = s.queue[s.cursor].path;
        assert(g.files.dom().contains(f));
        assert(g.files[f] == s.scene.facts.files[f]);
        assert forall|k: int| 0 <= k < j implies #[trigger] checked(
            t,
            t.queue[t.cursor].path,
            k,
        ) by {
            assert(checked(s, f, k));
        }
    }
}

/// The parts of soundness that speak of the queue alone carry over when the cursor moves
/// on and nothing is put in the queue.
proof fn lemma_sound_visit(s: CrawlView, t: CrawlView, seeds: Set<Seq<char>>)
    requires
        sound(s, seeds),
        s.link is None,
        step(s) == StepView::Next(t),
    ensures
        sound(t, seeds),
{
    let item = s.queue[s.cursor];
    let p0 = item.path;
    assert(extends(s, t)) by {
        assert forall|i: IssueView| s.issues.contains(i) implies #[trigger] t.issues.contains(
            i,
        ) by {
            let k = choose|k: int| 0 <= k < s.issues.len() && s.issues[k] == i;
            assert(t.issues[k] == i);
        }
    }
    lemma_extends(s, t);
    if item.entry {
        assert(s.queue[s.cursor].root == s.scene.entry_root);
        assert(s.queued.contains(p0));
    }
    assert forall|p: Seq<char>| #[trigger] t.queued.contains(p) implies exists|i: int|
        queued_at(t, i, p) by {
        let i = choose|i: int| queued_at(s, i, p);
        assert(queued_at(t, i, p));
    }
    assert forall|i: int|
        0 <= i < begun(t) && (#[trigger] t.queue[i]).entry implies t.reachable.contains(
        t.queue[i].path,
    ) by {
        if i < s.cursor {
            assert(s.reachable.contains(s.queue[i].path));
        }
    }
    assert forall|p: Seq<char>| #[trigger] t.reachable.contains(p) implies exists|i: int|
        queued_at(t, i, p) && i < begun(t) by {
        if s.reachable.contains(p) {
            let i = choose|i: int| queued_at(s, i, p) && i < begun(s);
            assert(queued_at(t, i, p) && i < begun(t));
        } else {
            assert(queued_at(t, s.cursor, p) && s.cursor < begun(t));
        }
    }
    assert(t.issues.len() > s.issues.len() ==> t.issues[s.issues.len() as int] == unreadable(p0));
    assert forall|i: int|
        0 <= i < t.cursor && (#[trigger] t.queue[i]).entry implies done_with(
        t,
        t.queue[i].path,
    ) by {
        if i < s.cursor {
            assert(done_with(s, s.queue[i].path));
        } else if s.reachable.contains(p0) {
            let k = choose|k: int| queued_at(s, k, p0) && k < begun(s);
            assert(done_with(s, s.queue[k].path));
        } else {
            assert(t.issues.contains(unreadable(p0)));
        }
    }
    assert forall|p: Seq<char>| #[trigger]
        t.cross_visited.contains(p) implies t.scene.facts.files.contains_key(p) && (
    t.scene.facts.files[p] is None ==> t.issues.contains(unreadable(p))) by {
        if s.cross_visited.contains(p) {
            assert(s.scene.facts.files[p] is None ==> s.issues.contains(unreadable(p)));
        }
    }
    assert forall|i: IssueView| t.issues.contains(i) implies #[trigger] grounded(t, i) by {
        let k = choose|k: int| 0 <= k < t.issues.len() && t.issues[k] == i;
        if k < s.issues.len() {
            assert(s.issues[k] == i);
            assert(grounded(s, i));
        } else {
            assert(t.scene.facts.files.contains_key(p0));
        }
    }
}

proof fn lemma_sound_link(s: CrawlView, t: CrawlView, seeds: Set<Seq<char>>)
    requires
        sound(s, seeds),
        s.link is Some,
        step(s) == StepView::Next(t),
    ensures
        sound(t, seeds),
{
    let item = s.queue[s.cursor];
    let f = item.path;
    let j = s.link->0;
    let file = s.scene.facts.files[f]->0;
    assert(item.root == s.scene.entry_root);
    if j >= file.links.len() {
        assert(t == moved_on(s));
        assert(extends(s, t));
        lemma_extends(s, t);
        assert forall|p: Seq<char>| #[trigger] t.queued.contains(p) implies exists|i: int|
            queued_at(t, i, p) by {
            let i = choose|i: int| queued_at(s, i, p);
            assert(queued_at(t, i, p));
        }
        assert forall|p: Seq<char>| #[trigger] t.reachable.contains(p) implies exists|i: int|
            queued_at(t, i, p) && i < begun(t) by {
            let i = choose|i: int| queued_at(s, i, p) && i < begun(s);
            assert(queued_at(t, i, p) && i < begun(t));
        }
        assert forall|i: int|
            0 <= i < t.cursor && (#[trigger] t.queue[i]).entry implies done_with(
            t,
            t.queue[i].path,
        ) by {
            if i < s.cursor {
                assert(done_with(s, s.queue[i].path));
            } else {
                assert forall|k: int| 0 <= k < file.links.len() implies #[trigger] checked(
                    t,
                    f,
                    k,
                ) by {
                    assert(checked(s, f, k));
                }
            }
        }
        assert forall|i: IssueView| t.issues.contains(i) implies #[trigger] grounded(t, i) by {
            assert(grounded(s, i));
        }
    } else {
        let r = outcome(s.scene, file.links[j], f, s.scene.entry_root)->Ok_0;
        assert(comes_to(s.scene, f, j, r));
        assert(t == after_link(s, j, r));
        assert(t.issues == s.issues + r.issues);
        assert(extends(s, t)) by {
            assert forall|i: IssueView| s.issues.contains(i) implies #[trigger] t.issues.contains(
                i,
            ) by {
                let k = choose|k: int| 0 <= k < s.issues.len() && s.issues[k] == i;
                assert(t.issues[k] == i);
            }
        }
        lemma_extends(s, t);
        assert(s.reachable.contains(f));
        assert(s.queued.contains(f));
        assert(checked(t, f, j)) by {
            assert forall|i: IssueView| r.issues.contains(i) implies #[trigger] t.issues.contains(
                i,
            ) by {
                let k = choose|k: int| 0 <= k < r.issues.len() && r.issues[k] == i;
                assert(t.issues[s.issues.len() + k] == i);
            }
            assert(comes_to(t.scene, f, j, r));
        }
        assert forall|k: int| 0 <= k < j + 1 implies #[trigger] checked(t, f, k) by {
            if k < j {
                assert(checked(s, f, k));
            }
        }
        assert forall|i: int| 0 <= i < s.queue.len() implies t.queue[i] == s.queue[i] by {}
        assert(t.queue[t.cursor] == item);
        assert forall|p: Seq<char>| #[trigger] t.queued.contains(p) implies exists|i: int|
            queued_at(t, i, p) by {
            if s.queued.contains(p) {
                let i = choose|i: int| queued_at(s, i, p);
                assert(queued_at(t, i, p));
            } else {
                assert(queued_at(t, s.queue.len() as int, p));
            }
        }
        assert forall|p: Seq<char>| #[trigger] t.reachable.contains(p) implies exists|i: int|
            queued_at(t, i, p) && i < begun(t) by {
            let i = choose|i: int| queued_at(s, i, p) && i < begun(s);
            assert(queued_at(t, i, p) && i < begun(t));
        }
        assert forall|i: int|
            0 <= i < t.queue.len() && (#[trigger] t.queue[i]).entry implies t.queue[i].root
            == t.scene.entry_root && t.queued.contains(t.queue[i].path) by {
            if i < s.queue.len() {
                assert(s.queued.contains(s.queue[i].path));
            }
        }
        assert forall|i: int|
            0 <= i < begun(t) && (#[trigger] t.queue[i]).entry implies t.reachable.contains(
            t.queue[i].path,
        ) by {
            assert(s.reachable.contains(s.queue[i].path));
        }
        assert forall|i: int|
            0 <= i < t.cursor && (#[trigger] t.queue[i]).entry implies done_with(
            t,
            t.queue[i].path,
        ) by {
            assert(done_with(s, s.queue[i].path));
        }
        assert forall|p: Seq<char>| #[trigger]
            t.cross_visited.contains(p) implies t.scene.facts.files.contains_key(p) && (
        t.scene.facts.files[p] is None ==> t.issues.contains(unreadable(p))) by {
            assert(s.cross_visited.contains(p));
            assert(s.scene.facts.files[p] is None ==> s.issues.contains(unreadable(p)));
        }
        assert forall|files: Set<Seq<char>>| #[trigger]
            closed_set(t.scene, files) && seeds.subset_of(files) implies t.queued.subset_of(
            files,
        ) by {
            assert(s.queued.subset_of(files));
            assert forall|p: Seq<char>| t.queued.contains(p) implies files.contains(p) by {
                if !s.queued.contains(p) {
                    assert(r.next == Some((p, s.scene.entry_root)));
                    assert(leads(t.scene, f, j, p));
                }
            }
        }
        assert forall|i: IssueView| t.issues.contains(i) implies #[trigger] grounded(t, i) by {
            let k = choose|k: int| 0 <= k < t.issues.len() && t.issues[k] == i;
            if k < s.issues.len() {
                assert(s.issues[k] == i);
                assert(s.issues.contains(i));
                assert(grounded(s, i));
            } else {
                assert(r.issues[k - s.issues.len()] == i);
                assert(comes_to(t.scene, f, j, r) && r.issues.contains(i));
                assert(says(t.scene, f, j, i) && t.reachable.contains(f));
            }
        }
    }
}

/// Every step keeps a crawl sound.
pub proof fn law_sound_step(s: CrawlView, t: CrawlView, seeds: Set<Seq<char>>)
    requires
        sound(s, seeds),
        step(s) == StepView::Next(t),
    ensures
        sound(t, seeds),
{
    if s.link is None {
        lemma_sound_visit(s, t, seeds);
    } else {
        lemma_sound_link(s, t, seeds);
    }
}

/// A crawl stays sound as far as it goes.
pub proof fn law_sound_reaches(s: CrawlView, t: CrawlView, seeds: Set<Seq<char>>)
    requires
        sound(s, seeds),
        reaches(s, t),
    ensures
        sound(t, seeds),
{
    let n = choose|n: nat| #[trigger] after_steps(s, n) == t;
    lemma_sound_steps(s, n, seeds);
}

proof fn lemma_sound_steps(s: CrawlView, n: nat, seeds: Set<Seq<char>>)
    requires
        sound(s, seeds),
    ensures
        sound(after_steps(s, n), seeds),
    decreases n,
{
    if n > 0 {
        match step(s) {
            StepView::Next(t) => {
                law_sound_step(s, t, seeds);
                lemma_sound_steps(t, (n - 1) as nat, seeds);
            },
            _ => {},
        }
    }
}

/// At the end of a crawl the reachable files are the entry files and all that links lead
/// to from them, and no others: they are the smallest set that holds the entry files and
/// that no link leads out of.
pub proof fn law_reachable(s: CrawlView, seeds: Set<Seq<char>>)
    requires
        sound(s, seeds),
        step(s) is Finished,
    ensures
        seeds.subset_of(s.reachable),
        closed_set(s.scene, s.reachable),
        forall|files: Set<Seq<char>>| #[trigger]
            closed_set(s.scene, files) && seeds.subset_of(files) ==> s.reachable.subset_of(files),
{
    assert(s.cursor == s.queue.len());
    assert(s.queued.subset_of(s.reachable)) by {
        assert forall|p: Seq<char>| s.queued.contains(p) implies s.reachable.contains(p) by {
            let i = choose|i: int| queued_at(s, i, p);
            assert(s.queue[i].entry);
        }
    }
    assert forall|f: Seq<char>, j: int, q: Seq<char>|
        s.reachable.contains(f) && #[trigger] leads(s.scene, f, j, q) implies s.reachable.contains(
        q,
    ) by {
        let i = choose|i: int| queued_at(s, i, f) && i < begun(s);
        assert(done_with(s, s.queue[i].path));
        let r = choose|r: ResolutionView| #[trigger]
            comes_to(s.scene, f, j, r) && r.next == Some((q, s.scene.entry_root));
        assert(checked(s, f, j));
        let r2 = choose|r2: ResolutionView| #[trigger]
            comes_to(s.scene, f, j, r2) && (forall|i: IssueView|
                r2.issues.contains(i) ==> #[trigger] s.issues.contains(i)) && (
            r2.next matches Some((q, owner)) ==> owner == s.scene.entry_root
                ==> s.queued.contains(q));
        assert(r2 == r);
    }
}

/// At the end of a crawl every link of every reachable file has been judged: the issues
/// are those of the links of the reachable files, and the files that could not be read,
/// and no others.
pub proof fn law_issues(s: CrawlView, seeds: Set<Seq<char>>, i: IssueView)
    requires
        sound(s, seeds),
        step(s) is Finished,
    ensures
        s.issues.contains(i) <==> grounded(s, i),
        forall|f: Seq<char>, j: int|
            s.reachable.contains(f) && s.scene.facts.files[f] is Some && 0 <= j
                < s.scene.facts.files[f]->0.links.len() ==> #[trigger] checked(s, f, j),
{
    assert forall|f: Seq<char>| s.reachable.contains(f) implies #[trigger] done_with(s, f) by {
        let k = choose|k: int| queued_at(s, k, f) && k < begun(s);
        assert(done_with(s, s.queue[k].path));
    }
    if grounded(s, i) {
        if exists|f: Seq<char>, j: int| #[trigger]
            says(s.scene, f, j, i) && s.reachable.contains(f) {
            let (f, j) = choose|f: Seq<char>, j: int| #[trigger]
                says(s.scene, f, j, i) && s.reachable.contains(f);
            let r = choose|r: ResolutionView| #[trigger]
                comes_to(s.scene, f, j, r) && r.issues.contains(i);
            assert(done_with(s, f));
            assert(checked(s, f, j));
            let r2 = choose|r2: ResolutionView| #[trigger]
                comes_to(s.scene, f, j, r2) && (forall|i: IssueView|
                    r2.issues.contains(i) ==> #[trigger] s.issues.contains(i)) && (
                r2.next matches Some((q, owner)) ==> owner == s.scene.entry_root
                    ==> s.queued.contains(q));
            assert(r2 == r);
            assert(s.issues.contains(i));
        } else {
            let f = choose|f: Seq<char>| #[trigger]
                s.scene.facts.files.contains_key(f) && s.scene.facts.files[f] is None && (
                s.reachable.contains(f) || s.cross_visited.contains(f)) && i == unreadable(f);
            if s.reachable.contains(f) {
                assert(done_with(s, f));
            }
        }
    }
    assert forall|f: Seq<char>, j: int|
        s.reachable.contains(f) && s.scene.facts.files[f] is Some && 0 <= j
            < s.scene.facts.files[f]->0.links.len() implies #[trigger] checked(s, f, j) by {
        assert(done_with(s, f));
    }
}

/// The crawl found what it found on facts among those of `w`, and in the same setting.
pub open spec fn set_in(s: CrawlView, w: SceneView) -> bool {
    grown(s.scene.facts, w.facts) && scene_with(s.scene, w.facts) == w
}

/// What is reached depends on the entry files and the links alone, whichever facts the
/// crawls came to ask for and in whichever order.
pub proof fn law_same_reach(w: SceneView, s: CrawlView, t: CrawlView, seeds: Set<Seq<char>>)
    requires
        sound(s, seeds) && step(s) is Finished && set_in(s, w),
        sound(t, seeds) && step(t) is Finished && set_in(t, w),
    ensures
        s.reachable == t.reachable,
{
    let s2 = informed(s, w.facts);
    let t2 = informed(t, w.facts);
    law_sound_with_more_facts(s, w.facts, seeds);
    law_sound_with_more_facts(t, w.facts, seeds);
    law_reachable(s2, seeds);
    law_reachable(t2, seeds);
    assert(closed_set(w, s.reachable) && closed_set(w, t.reachable));
    assert(s.reachable =~= t.reachable);
}

/// What several entry files reach together is what each of them reaches, whichever facts
/// the crawls came to ask for.
pub proof fn law_entry_files_together(
    w: SceneView,
    s: CrawlView,
    t: CrawlView,
    both: CrawlView,
    some: Set<Seq<char>>,
    others: Set<Seq<char>>,
)
    requires
        sound(s, some) && step(s) is Finished && set_in(s, w),
        sound(t, others) && step(t) is Finished && set_in(t, w),
        sound(both, some.union(others)) && step(both) is Finished && set_in(both, w),
    ensures
        both.reachable == s.reachable.union(t.reachable),
{
    let s2 = informed(s, w.facts);
    let t2 = informed(t, w.facts);
    let b2 = informed(both, w.facts);
    law_sound_with_more_facts(s, w.facts, some);
    law_sound_with_more_facts(t, w.facts, others);
    law_sound_with_more_facts(both, w.facts, some.union(others));
    law_reachable(s2, some);
    law_reachable(t2, others);
    law_reachable(b2, some.union(others));
    let all = s.reachable.union(t.reachable);
    assert(closed_set(w, s.reachable) && closed_set(w, t.reachable) && closed_set(
        w,
        both.reachable,
    ));
    assert(closed_set(w, all)) by {
        assert forall|f: Seq<char>, j: int, q: Seq<char>|
            all.contains(f) && #[trigger] leads(w, f, j, q) implies all.contains(q) by {}
    }
    assert(some.union(others).subset_of(all));
    assert(both.reachable.subset_of(all));
    assert(some.subset_of(both.reachable)) by {
        assert forall|p: Seq<char>| some.contains(p) implies both.reachable.contains(p) by {
            assert(some.union(others).contains(p));
        }
    }
    assert(others.subset_of(both.reachable)) by {
        assert forall|p: Seq<char>| others.contains(p) implies both.reachable.contains(p) by {
            assert(some.union(others).contains(p));
        }
    }
    assert(s.reachable.subset_of(both.reachable));
    assert(t.reachable.subset_of(both.reachable));
    assert(both.reachable =~= all);
}

/// An entry file that cannot be read is reached, and noted as such.
pub proof fn law_unreadable_entry(s: CrawlView, seeds: Set<Seq<char>>, p: Seq<char>)
    requires
        sound(s, seeds),
        step(s) is Finished,
        seeds.contains(p),
        s.scene.facts.files.contains_key(p) && s.scene.facts.files[p] is None,
    ensures
        s.reachable.contains(p),
        s.issues.contains(unreadable(p)),
{
    law_reachable(s, seeds);
    law_issues(s, seeds, unreadable(p));
    assert(s.scene.facts.files.contains_key(p));
    assert(grounded(s, unreadable(p)));
}

/// The canonical paths of the entry files.
pub open spec fn seed_paths(facts: FactsView, entries: Seq<Seq<char>>) -> Set<Seq<char>> {
    entries.map_values(|e: Seq<char>| canonical_or_raw(facts, e)).to_set()
}

/// A crawl that has not begun.
pub open spec fn blank(s: CrawlView) -> bool {
    s.queue.len() == 0 && s.cursor == 0 && s.link is None && s.queued == Set::<Seq<char>>::empty()
        && s.cross_visited == Set::<Seq<char>>::empty() && s.reachable == Set::<Seq<char>>::empty()
        && s.issues.len() == 0
}

/// A crawl is sound from the start.
pub proof fn law_sound_start(s: CrawlView, entries: Seq<Seq<char>>)
    requires
        blank(s),
    ensures
        sound(seeded(s, entries), seed_paths(s.scene.facts, entries)),
    decreases entries.len(),
{
    lemma_seeded(s, entries);
    let t = seeded(s, entries);
    assert forall|p: Seq<char>| #[trigger] t.queued.contains(p) implies exists|i: int|
        queued_at(t, i, p) by {
        let i = choose|i: int| 0 <= i < t.queue.len() && (#[trigger] t.queue[i]).path == p;
        assert(queued_at(t, i, p));
    }
}

proof fn lemma_seeded(s: CrawlView, entries: Seq<Seq<char>>)
    requires
        blank(s),
    ensures
        ({
            let t = seeded(s, entries);
            &&& t.scene == s.scene && t.cursor == 0 && t.link is None
            &&& t.reachable == s.reachable && t.cross_visited == s.cross_visited
            &&& t.issues == s.issues
            &&& t.queued == seed_paths(s.scene.facts, entries)
            &&& t.queue.len() == entries.len()
            &&& forall|i: int|
                0 <= i < t.queue.len() ==> (#[trigger] t.queue[i]).entry && t.queue[i].root
                    == s.scene.entry_root && t.queued.contains(t.queue[i].path)
            &&& forall|p: Seq<char>| #[trigger]
                t.queued.contains(p) ==> exists|i: int|
                    0 <= i < t.queue.len() && (#[trigger] t.queue[i]).path == p
        }),
    decreases entries.len(),
{
    let seeds = seed_paths(s.scene.facts, entries);
    let f = |e: Seq<char>| canonical_or_raw(s.scene.facts, e);
    if entries.len() == 0 {
        assert(seeds =~= Set::empty());
    } else {
        let before = entries.drop_last();
        lemma_seeded(s, before);
        let u = seeded(s, before);
        let t = seeded(s, entries);
        let p0 = f(entries.last());
        let a = before.map_values(f);
        let b = entries.map_values(f);
        assert(b =~= a.push(p0));
        lemma_members_push(a, p0);
        assert(seeds =~= seed_paths(s.scene.facts, before).insert(p0));
        assert forall|p: Seq<char>| #[trigger] t.queued.contains(p) implies exists|i: int|
            0 <= i < t.queue.len() && (#[trigger] t.queue[i]).path == p by {
            if u.queued.contains(p) {
                let i = choose|i: int| 0 <= i < u.queue.len() && (#[trigger] u.queue[i]).path == p;
                assert(t.queue[i] == u.queue[i]);
            } else {
                assert(t.queue[u.queue.len() as int].path == p);
            }
        }
        assert forall|i: int| 0 <= i < t.queue.len() implies (#[trigger] t.queue[i]).entry
            && t.queue[i].root == s.scene.entry_root && t.queued.contains(t.queue[i].path) by {
            if i < u.queue.len() {
                assert(t.queue[i] == u.queue[i]);
                assert(u.queued.contains(u.queue[i].path));
            }
        }
    }
}

/// The crawl of a repository is sound from the start.
pub proof fn law_sound_crawl(
    index: IndexView,
    options: CrawlOptions,
    facts: FactsView,
    entries: Seq<Seq<char>>,
)
    ensures
        sound(at_start(index, options, facts, entries), seed_paths(facts, entries)),
{
    let s = CrawlView {
        scene: SceneView {
            entry_root: index.root,
            repos: resolved_roots(facts, options.repos@),
            order: options.repos.order(),
            all_extensions: options.include_all_extensions,
            facts: FactsView { indices: facts.indices.insert(index.root, index), ..facts },
        },
        queue: Seq::empty(),
        cursor: 0,
        link: None,
        queued: Set::empty(),
        cross_visited: Set::empty(),
        reachable: Set::empty(),
        issues: Seq::empty(),
    };
    law_sound_start(s, entries);
    assert(entries.map_values(|e: Seq<char>| canonical_or_raw(facts, e)) =~= entries.map_values(
        |e: Seq<char>| canonical_or_raw(s.scene.facts, e),
    ));
}

proof fn lemma_same_scene(s: CrawlView, n: nat)
    ensures
        after_steps(s, n).scene == s.scene,
    decreases n,
{
    if n > 0 {
        match step(s) {
            StepView::Next(t) => {
                lemma_same_scene(t, (n - 1) as nat);
            },
            _ => {},
        }
    }
}

/// What comes of going on with a sound crawl: while it waits it stays sound; once it is
/// done, what it reached is the smallest set that holds the entry files and that no link
/// leads out of, and the issues are those of the links in it.
pub proof fn law_crawled(s: CrawlView, cache: CacheState, r: Crawl, seeds: Set<Seq<char>>)
    requires
        sound(s, seeds),
        crawled(s, cache, r),
    ensures
        match r {
            Crawl::Waiting(state, _) => sound(state@, seeds),
            Crawl::Done(reachable, issues, _) => {
                &&& seeds.subset_of(reachable@)
                &&& closed_set(s.scene, reachable@)
                &&& forall|files: Set<Seq<char>>| #[trigger]
                    closed_set(s.scene, files) && seeds.subset_of(files) ==> reachable@.subset_of(
                        files,
                    )
                &&& forall|i: IssueView, f: Seq<char>, j: int| #[trigger]
                    says(s.scene, f, j, i) && reachable@.contains(f) ==> issue_views(
                        issues@,
                    ).contains(i)
            },
        },
{
    let t = choose|t: CrawlView| #[trigger]
        reaches(s, t) && (match r {
            Crawl::Waiting(state, q) => state@ == t && state.cache_state() == cache && step(t)
                == StepView::Ask(q@),
            Crawl::Done(reachable, issues, pruned) => step(t) == StepView::Finished && reachable@
                == t.reachable && issue_views(issues@) == t.issues && pruned@ == pruned_by(
                cache,
                t.scene.facts.indices,
            ),
        });
    law_sound_reaches(s, t, seeds);
    let n = choose|n: nat| #[trigger] after_steps(s, n) == t;
    lemma_same_scene(s, n);
    if let Crawl::Done(reachable, issues, _) = r {
        law_reachable(t, seeds);
        assert forall|i: IssueView, f: Seq<char>, j: int| #[trigger]
            says(s.scene, f, j, i) && reachable@.contains(f) implies issue_views(issues@).contains(
            i,
        ) by {
            law_issues(t, seeds, i);
            assert(grounded(t, i));
        }
    }
}

} // verus!
