//! Naming an entry file again changes nothing: the crawl reaches the same files and notes the
//! same issues, each once.
use crate::collections::lemma_members_push;
use crate::crawl::{
    after_link, after_steps, at_start, canonical_or_raw, informed, moved_on, reaches, seeded, step,
    CrawlOptions, CrawlView, ItemView, StepView,
};
use crate::discovery::IndexView;
use crate::reachability::{
    grown, law_crawl_is_determined, law_more_facts, law_sound_crawl, law_sound_reaches,
    law_sound_step, law_sound_with_more_facts, seed_paths, sound,
};
use crate::scene::{outcome, FactsView};
use vstd::prelude::*;

verus! {

/// The crawl with items put in the queue behind the first `q`.
pub open spec fn with_repeats(s: CrawlView, q: int, items: Seq<ItemView>) -> CrawlView {
    CrawlView {
        queue: s.queue.take(q) + items + s.queue.skip(q),
        cursor: if s.cursor < q {
            s.cursor
        } else {
            s.cursor + items.len()
        },
        ..s
    }
}

/// The items are files of the crawled repository that stand among the first `q` too.
pub open spec fn repeats_of(s: CrawlView, q: int, items: Seq<ItemView>) -> bool {
    &&& 0 <= q <= s.queue.len()
    &&& forall|k: int| 0 <= k < items.len() ==> (#[trigger] items[k]).entry
    &&& forall|k: int|
        0 <= k < items.len() ==> exists|i: int|
            0 <= i < q && s.queue[i].entry && (#[trigger] s.queue[i]).path == (
            #[trigger] items[k]).path
}

proof fn lemma_more_steps(s: CrawlView, n: nat, m: nat)
    ensures
        after_steps(after_steps(s, n), m) == after_steps(s, n + m),
    decreases n,
{
    if n > 0 {
        match step(s) {
            StepView::Next(t) => {
                lemma_more_steps(t, (n - 1) as nat, m);
            },
            _ => {},
        }
    }
}

proof fn lemma_reaches_on(s: CrawlView, t: CrawlView, u: CrawlView)
    requires
        reaches(s, t),
        reaches(t, u),
    ensures
        reaches(s, u),
{
    let n = choose|n: nat| #[trigger] after_steps(s, n) == t;
    let m = choose|m: nat| #[trigger] after_steps(t, m) == u;
    lemma_more_steps(s, n, m);
    assert(after_steps(s, n + m) == u);
}

/// A step taken when less was known is the step when more is.
pub proof fn law_step_with_more_facts(s: CrawlView, t: CrawlView, g: FactsView)
    requires
        step(s) == StepView::Next(t),
        grown(s.scene.facts, g),
        s.link is Some ==> s.scene.facts.files.contains_key(s.queue[s.cursor].path),
    ensures
        step(informed(s, g)) == StepView::Next(informed(t, g)),
{
    let item = s.queue[s.cursor];
    let f = s.scene.facts;
    if f.files.contains_key(item.path) {
        assert(g.files.dom().contains(item.path));
        assert(g.files[item.path] == f.files[item.path]);
        match (s.link, f.files[item.path]) {
            (Some(j), Some(file)) => {
                if 0 <= j < file.links.len() {
                    law_more_facts(s.scene, g, file.links[j], item.path, item.root);
                }
            },
            _ => {},
        }
    }
}

/// Where a crawl got when less was known, it gets when more is. So it makes no difference
/// when a fact is given.
pub proof fn law_reaches_with_more_facts(
    s: CrawlView,
    t: CrawlView,
    g: FactsView,
    seeds: Set<Seq<char>>,
)
    requires
        sound(s, seeds),
        reaches(s, t),
        grown(s.scene.facts, g),
    ensures
        reaches(informed(s, g), informed(t, g)),
{
    let n = choose|n: nat| #[trigger] after_steps(s, n) == t;
    lemma_steps_with_more_facts(s, n, g, seeds);
}

proof fn lemma_steps_with_more_facts(
    s: CrawlView,
    n: nat,
    g: FactsView,
    seeds: Set<Seq<char>>,
)
    requires
        sound(s, seeds),
        grown(s.scene.facts, g),
    ensures
        reaches(informed(s, g), informed(after_steps(s, n), g)),
    decreases n,
{
    assert(after_steps(informed(s, g), 0) == informed(s, g));
    if n > 0 {
        match step(s) {
            StepView::Next(t) => {
                law_sound_step(s, t, seeds);
                law_step_with_more_facts(s, t, g);
                assert(t.scene == s.scene);
                lemma_steps_with_more_facts(t, (n - 1) as nat, g, seeds);
                let u = informed(after_steps(s, n), g);
                assert(after_steps(informed(t, g), 0) == informed(t, g));
                assert(after_steps(informed(s, g), 1) == informed(t, g));
                lemma_reaches_on(informed(s, g), informed(t, g), u);
            },
            _ => {},
        }
    }
}

/// Items that were visited are passed over.
proof fn lemma_pass_over(s: CrawlView, q: int, items: Seq<ItemView>, k: int)
    requires
        0 <= k <= items.len(),
        0 <= q,
        q + items.len() <= s.queue.len(),
        s.cursor == q + k,
        s.link is None,
        forall|i: int|
            0 <= i < items.len() ==> s.queue[q + i] == #[trigger] items[i] && items[i].entry
                && s.reachable.contains(items[i].path),
    ensures
        reaches(s, (CrawlView { cursor: q + items.len(), ..s })),
    decreases items.len() - k,
{
    assert(after_steps(s, 0) == s);
    if k < items.len() {
        let t = moved_on(s);
        assert(s.queue[q + k] == items[k]);
        assert(step(s) == StepView::Next(t));
        assert(after_steps(t, 0) == t);
        assert(after_steps(s, 1) == t);
        lemma_pass_over(t, q, items, k + 1);
        assert((CrawlView { cursor: q + items.len(), ..t }) == (CrawlView {
            cursor: q + items.len(),
            ..s
        }));
        lemma_reaches_on(s, t, CrawlView { cursor: q + items.len(), ..s });
    } else {
        assert(s == (CrawlView { cursor: q + items.len(), ..s }));
    }
}

/// The crawl with the repeats does the same step.
proof fn lemma_same_step(s: CrawlView, t: CrawlView, q: int, items: Seq<ItemView>)
    requires
        0 <= s.cursor < s.queue.len(),
        0 <= q <= s.queue.len(),
        step(s) == StepView::Next(t),
    ensures
        0 <= t.cursor - s.cursor <= 1,
        t.cursor > s.cursor ==> t.link is None,
        q <= t.queue.len(),
        t.queue.take(q) == s.queue.take(q),
        step(with_repeats(s, q, items)) == StepView::Next(
            CrawlView {
                queue: with_repeats(t, q, items).queue,
                cursor: with_repeats(s, q, items).cursor + t.cursor - s.cursor,
                ..t
            },
        ),
{
    let a = with_repeats(s, q, items);
    let item = s.queue[s.cursor];
    assert(a.queue[a.cursor] == item);
    assert(a.cursor < a.queue.len());
    assert(t.queue == s.queue || t.queue == s.queue.push(t.queue.last()));
    assert(t.queue.take(q) =~= s.queue.take(q));
    if t.queue != s.queue {
        let last = t.queue.last();
        assert(s.queue.push(last).skip(q) =~= s.queue.skip(q).push(last));
        assert(a.queue.push(last) =~= with_repeats(t, q, items).queue);
    } else {
        assert(a.queue == with_repeats(t, q, items).queue);
    }
    match s.link {
        None => {},
        Some(j) => {
            if s.scene.facts.files.contains_key(item.path) && s.scene.facts.files[item.path] is Some
                && 0 <= j < s.scene.facts.files[item.path]->0.links.len() {
                let link = s.scene.facts.files[item.path]->0.links[j];
                let r = outcome(s.scene, link, item.path, item.root)->Ok_0;
                assert(t == after_link(s, j, r));
            }
        },
    }
}

proof fn lemma_repeats_step(
    s: CrawlView,
    t: CrawlView,
    q: int,
    items: Seq<ItemView>,
    seeds: Set<Seq<char>>,
)
    requires
        sound(s, seeds),
        repeats_of(s, q, items),
        step(s) == StepView::Next(t),
    ensures
        repeats_of(t, q, items),
        reaches(with_repeats(s, q, items), with_repeats(t, q, items)),
{
    let a = with_repeats(s, q, items);
    let b = with_repeats(t, q, items);
    lemma_same_step(s, t, q, items);
    law_sound_step(s, t, seeds);
    assert forall|i: int| 0 <= i < q implies t.queue[i] == s.queue[i] by {
        assert(t.queue.take(q)[i] == s.queue.take(q)[i]);
    }
    assert forall|k: int| 0 <= k < items.len() implies exists|i: int|
        0 <= i < q && t.queue[i].entry && (#[trigger] t.queue[i]).path == (#[trigger] items[k]).path
        by {
        let i = choose|i: int|
            0 <= i < q && s.queue[i].entry && (#[trigger] s.queue[i]).path == items[k].path;
        assert(t.queue[i] == s.queue[i]);
    }
    let u = CrawlView { queue: b.queue, cursor: a.cursor + t.cursor - s.cursor, ..t };
    assert(after_steps(u, 0) == u);
    assert(after_steps(a, 1) == u);
    if s.cursor < q && t.cursor == q {
        assert forall|i: int| 0 <= i < items.len() implies u.queue[q + i] == #[trigger] items[i]
            && items[i].entry && u.reachable.contains(items[i].path) by {
            let k = choose|k: int|
                0 <= k < q && t.queue[k].entry && (#[trigger] t.queue[k]).path == items[i].path;
            assert(t.reachable.contains(t.queue[k].path));
        }
        lemma_pass_over(u, q, items, 0);
        lemma_reaches_on(a, u, b);
    } else {
        assert(u == b);
    }
}

proof fn lemma_repeats_steps(
    s: CrawlView,
    n: nat,
    q: int,
    items: Seq<ItemView>,
    seeds: Set<Seq<char>>,
)
    requires
        sound(s, seeds),
        repeats_of(s, q, items),
    ensures
        repeats_of(after_steps(s, n), q, items),
        reaches(with_repeats(s, q, items), with_repeats(after_steps(s, n), q, items)),
    decreases n,
{
    let a = with_repeats(s, q, items);
    assert(after_steps(a, 0) == a);
    if n > 0 {
        match step(s) {
            StepView::Next(t) => {
                law_sound_step(s, t, seeds);
                lemma_repeats_step(s, t, q, items, seeds);
                lemma_repeats_steps(t, (n - 1) as nat, q, items, seeds);
                lemma_reaches_on(
                    a,
                    with_repeats(t, q, items),
                    with_repeats(after_steps(s, n), q, items),
                );
            },
            _ => {},
        }
    }
}

/// The items of the entry files.
pub open spec fn entry_items(s: CrawlView, entries: Seq<Seq<char>>) -> Seq<ItemView> {
    entries.map_values(
        |e: Seq<char>|
            ItemView {
                path: canonical_or_raw(s.scene.facts, e),
                root: s.scene.entry_root,
                entry: true,
            },
    )
}

proof fn lemma_seeded_items(s: CrawlView, entries: Seq<Seq<char>>)
    requires
        s.queue.len() == 0,
    ensures
        seeded(s, entries).queue == entry_items(s, entries),
        seeded(s, entries).queued == s.queued.union(seed_paths(s.scene.facts, entries)),
        seeded(s, entries) == (CrawlView {
            queue: seeded(s, entries).queue,
            queued: seeded(s, entries).queued,
            ..s
        }),
    decreases entries.len(),
{
    let f = |e: Seq<char>| canonical_or_raw(s.scene.facts, e);
    if entries.len() == 0 {
        assert(seeded(s, entries).queue =~= entry_items(s, entries));
        assert(seeded(s, entries).queued =~= s.queued.union(seed_paths(s.scene.facts, entries)));
    } else {
        let before = entries.drop_last();
        lemma_seeded_items(s, before);
        assert(seeded(s, entries).queue =~= entry_items(s, entries));
        let a = before.map_values(f);
        assert(entries.map_values(f) =~= a.push(f(entries.last())));
        lemma_members_push(a, f(entries.last()));
        assert(seed_paths(s.scene.facts, entries) =~= seed_paths(s.scene.facts, before).insert(
            f(entries.last()),
        ));
        assert(seeded(s, entries).queued =~= s.queued.union(seed_paths(s.scene.facts, entries)));
    }
}

/// A crawl from a list of entry files and one from the same list with some of them named
/// again, on the same facts `g`, reach the same files and note the same issues, in the same
/// order.
pub proof fn law_repeated_entries(
    index: IndexView,
    options: CrawlOptions,
    facts: FactsView,
    entries: Seq<Seq<char>>,
    again: Seq<Seq<char>>,
    g: FactsView,
    s: CrawlView,
    t: CrawlView,
)
    requires
        forall|k: int|
            0 <= k < again.len() ==> seed_paths(facts, entries).contains(
                canonical_or_raw(facts, #[trigger] again[k]),
            ),
        grown(at_start(index, options, facts, entries).scene.facts, g),
        reaches(informed(at_start(index, options, facts, entries), g), s),
        step(s) is Finished,
        reaches(informed(at_start(index, options, facts, entries + again), g), t),
        step(t) is Finished,
    ensures
        t.reachable == s.reachable,
        t.issues == s.issues,
{
    let blank = at_start(index, options, facts, Seq::empty());
    let all = entries + again;
    let s0 = at_start(index, options, facts, entries);
    let t0 = at_start(index, options, facts, all);
    let seeds = seed_paths(facts, entries);
    let q = entries.len() as int;
    let items = entry_items(blank, again);
    lemma_seeded_items(blank, entries);
    lemma_seeded_items(blank, all);
    let f = |e: Seq<char>| canonical_or_raw(facts, e);
    let f2 = |e: Seq<char>| canonical_or_raw(blank.scene.facts, e);
    assert(entries.map_values(f) =~= entries.map_values(f2));
    assert(all.map_values(f2) =~= entries.map_values(f2) + again.map_values(f2));
    assert forall|p: Seq<char>| all.map_values(f2).contains(p) implies seeds.contains(p) by {
        let k = choose|k: int| 0 <= k < all.len() && all.map_values(f2)[k] == p;
        if k < entries.len() {
            assert(entries.map_values(f)[k] == p);
        } else {
            assert(again[k - entries.len()] == all[k]);
        }
    }
    assert forall|p: Seq<char>| seeds.contains(p) implies all.map_values(f2).contains(p) by {
        let k = choose|k: int| 0 <= k < entries.len() && entries.map_values(f)[k] == p;
        assert(all.map_values(f2)[k] == p);
    }
    assert(t0.queued =~= s0.queued);
    assert(t0.queue =~= s0.queue + items);
    assert(s0.queue.take(q) =~= s0.queue);
    assert(s0.queue.take(q) + items + s0.queue.skip(q) =~= t0.queue);
    assert forall|k: int| 0 <= k < items.len() implies exists|i: int|
        0 <= i < q && s0.queue[i].entry && (#[trigger] s0.queue[i]).path == (
        #[trigger] items[k]).path by {
        assert(seeds.contains(canonical_or_raw(facts, again[k])));
        let i = choose|i: int|
            0 <= i < entries.len() && entries.map_values(f)[i] == items[k].path;
        assert(s0.queue[i].path == items[k].path);
    }
    if items.len() > 0 {
        assert(items[0].entry);
    }
    assert(t0 =~= with_repeats(s0, q, items));
    law_sound_crawl(index, options, facts, entries);
    law_sound_with_more_facts(s0, g, seeds);
    let s1 = informed(s0, g);
    let t1 = informed(t0, g);
    assert(t1 =~= with_repeats(s1, q, items));
    assert(repeats_of(s1, q, items));
    let n = choose|n: nat| #[trigger] after_steps(s1, n) == s;
    lemma_repeats_steps(s1, n, q, items, seeds);
    law_sound_reaches(s1, s, seeds);
    let end = with_repeats(s, q, items);
    assert(step(end) is Finished);
    law_crawl_is_determined(t1, t, end);
}

} // verus!
