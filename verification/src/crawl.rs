//! The crawl: from the entry files along the links, breadth first, with a note of every
//! link that does not lead where it should.
//!
//! The crawl does no input or output. Where it needs a fact it says which one, and goes on
//! once it has it.
use crate::cache::{
    opt_cache, CacheState, CacheView, ExtractedView, ExtractionCache, LinkCache, Stamp,
};
use crate::collections::{lemma_take_next, StringMap, StringSet};
use crate::discovery::{
    effective, entry_pairs, index_of, index_repo, IndexView, RepoIndex, WalkEntry,
};
use crate::extract::{KindView, LinkKind, LinkView};
use crate::path::CanonicalPath;
use crate::scene::{
    issue_views, outcome, root_or, Facts, FactsView, IssueKind, IssueKindView, IssueView,
    LinkIssue, Query, QueryView, Resolution, ResolutionView, Scene, SceneView, Target,
};
use crate::text::{clone_texts, str_eq, texts};
use vstd::prelude::*;

verus! {

/// What a crawl is asked for.
pub struct CrawlOptions {
    /// The root of each known repository, by name.
    pub repos: StringMap<String>,
    pub use_default_excludes: bool,
    /// Patterns on top of those of the repository and the built-in ones.
    pub extra_excludes: Vec<String>,
    /// Whether stored indices may be used.
    pub use_walk_cache: bool,
    /// Whether files of every extension are indexed, not only markdown.
    pub include_all_extensions: bool,
}

impl CrawlOptions {
    /// No other repositories, the built-in excludes, stored indices, and markdown only.
    pub fn new() -> (r: Self)
        ensures
            r.repos@ == Map::<Seq<char>, String>::empty(),
            r.use_default_excludes,
            texts(r.extra_excludes@) == Seq::<Seq<char>>::empty(),
            r.use_walk_cache,
            !r.include_all_extensions,
    {
        let r = CrawlOptions {
            repos: StringMap::new(),
            use_default_excludes: true,
            extra_excludes: Vec::new(),
            use_walk_cache: true,
            include_all_extensions: false,
        };
        assert(texts(r.extra_excludes@) =~= Seq::<Seq<char>>::empty());
        r
    }
}

/// A file to visit.
pub struct BfsQueueItem {
    pub path: CanonicalPath,
    pub repo_root: CanonicalPath,
    /// Whether it belongs to the repository that is crawled. The links of other files are
    /// not followed: they are their own repository's business.
    pub is_entry_repo: bool,
}

/// What a [`BfsQueueItem`] stands for.
pub struct ItemView {
    pub path: Seq<char>,
    pub root: Seq<char>,
    pub entry: bool,
}

impl View for BfsQueueItem {
    type V = ItemView;

    open spec fn view(&self) -> ItemView {
        ItemView { path: self.path@, root: self.repo_root@, entry: self.is_entry_repo }
    }
}

/// What a queue stands for.
pub open spec fn item_views(v: Seq<BfsQueueItem>) -> Seq<ItemView> {
    Seq::new(v.len(), |i: int| v[i]@)
}

/// A crawl under way.
pub struct CrawlState {
    scene: Scene,
    cache: ExtractionCache,
    queue: Vec<BfsQueueItem>,
    cursor: usize,
    link: Option<usize>,
    queued_entry_paths: StringSet,
    cross_repo_visited: StringSet,
    reachable: StringSet,
    issues: Vec<LinkIssue>,
}

/// What a [`CrawlState`] stands for.
#[verifier::ext_equal]
pub struct CrawlView {
    pub scene: SceneView,
    /// The files to visit, those that were visited included.
    pub queue: Seq<ItemView>,
    /// How many files of the queue are done with.
    pub cursor: int,
    /// The next link of the file at the cursor, once that file has been read.
    pub link: Option<int>,
    /// The files of the crawled repository that were put in the queue.
    pub queued: Set<Seq<char>>,
    /// The files of other repositories that were visited.
    pub cross_visited: Set<Seq<char>>,
    /// The files of the crawled repository that were visited.
    pub reachable: Set<Seq<char>>,
    pub issues: Seq<IssueView>,
}

impl CrawlState {
    /// The cache that the crawl reads through.
    pub closed spec fn cache_state(&self) -> CacheState {
        self.cache@
    }
}

impl View for CrawlState {
    type V = CrawlView;

    closed spec fn view(&self) -> CrawlView {
        CrawlView {
            scene: self.scene@,
            queue: item_views(self.queue@),
            cursor: self.cursor as int,
            link: match self.link {
                Some(j) => Some(j as int),
                None => None,
            },
            queued: self.queued_entry_paths@,
            cross_visited: self.cross_repo_visited@,
            reachable: self.reachable@,
            issues: issue_views(self.issues@),
        }
    }
}

/// The path as the facts resolve it, or as it stands when they do not.
pub open spec fn canonical_or_raw(facts: FactsView, path: Seq<char>) -> Seq<char> {
    if facts.canonical.contains_key(path) {
        root_or(facts.canonical[path], path)
    } else {
        path
    }
}

/// The roots of the repositories as the facts resolve them.
pub open spec fn resolved_roots(facts: FactsView, repos: Map<Seq<char>, String>) -> Map<
    Seq<char>,
    Seq<char>,
> {
    repos.map_values(|raw: String| canonical_or_raw(facts, raw@))
}

/// The crawl with the entry files put in the queue, each under its canonical path. One
/// that does not exist goes in as it stands, and is found unreadable.
pub open spec fn seeded(s: CrawlView, entries: Seq<Seq<char>>) -> CrawlView
    decreases entries.len(),
{
    if entries.len() == 0 {
        s
    } else {
        let before = seeded(s, entries.drop_last());
        let path = canonical_or_raw(s.scene.facts, entries.last());
        CrawlView {
            queued: before.queued.insert(path),
            queue: before.queue.push(ItemView { path, root: s.scene.entry_root, entry: true }),
            ..before
        }
    }
}

/// The crawl with a file put in the queue, unless it was there before. A file of another
/// repository goes in unless it was visited.
pub open spec fn enqueued(s: CrawlView, path: Seq<char>, owner: Seq<char>) -> CrawlView {
    if owner == s.scene.entry_root {
        if s.queued.contains(path) {
            s
        } else {
            CrawlView {
                queued: s.queued.insert(path),
                queue: s.queue.push(ItemView { path, root: owner, entry: true }),
                ..s
            }
        }
    } else if s.cross_visited.contains(path) {
        s
    } else {
        CrawlView { queue: s.queue.push(ItemView { path, root: owner, entry: false }), ..s }
    }
}

/// The note that the file could not be read.
pub open spec fn unreadable(path: Seq<char>) -> IssueView {
    IssueView { link: path, source: path, kind: IssueKindView::Unreadable }
}

/// What the crawl does next.
pub enum StepView {
    /// It needs a fact.
    Ask(QueryView),
    /// It goes on to this state.
    Next(CrawlView),
    /// It is done.
    Finished,
}

/// The crawl, done with the file at the cursor.
pub open spec fn moved_on(s: CrawlView) -> CrawlView {
    CrawlView { cursor: s.cursor + 1, link: None, ..s }
}

/// The crawl with the file at the cursor marked as visited. It is marked before it is
/// read: a file that cannot be read is still reachable.
pub open spec fn marked(s: CrawlView, item: ItemView) -> CrawlView {
    if item.entry {
        CrawlView { reachable: s.reachable.insert(item.path), ..s }
    } else {
        CrawlView { cross_visited: s.cross_visited.insert(item.path), ..s }
    }
}

/// The next step at a file that has not been read yet.
pub open spec fn visit_step(s: CrawlView, item: ItemView) -> StepView {
    let visited = if item.entry {
        s.reachable.contains(item.path)
    } else {
        s.cross_visited.contains(item.path)
    };
    if visited {
        StepView::Next(moved_on(s))
    } else if !s.scene.facts.files.contains_key(item.path) {
        StepView::Ask(QueryView::File(item.path, item.root))
    } else {
        let t = marked(s, item);
        match s.scene.facts.files[item.path] {
            None => StepView::Next(
                moved_on(CrawlView { issues: t.issues.push(unreadable(item.path)), ..t }),
            ),
            Some(_) => if item.entry {
                StepView::Next(CrawlView { link: Some(0), ..t })
            } else {
                StepView::Next(moved_on(t))
            },
        }
    }
}

/// The crawl after a link of the file at the cursor came to `r`.
pub open spec fn after_link(s: CrawlView, j: int, r: ResolutionView) -> CrawlView {
    let t = CrawlView { issues: s.issues + r.issues, link: Some(j + 1), ..s };
    match r.next {
        Some((path, owner)) => enqueued(t, path, owner),
        None => t,
    }
}

/// The next step at the link `j` of a file that has been read.
pub open spec fn link_step(s: CrawlView, item: ItemView, j: int) -> StepView {
    let facts = s.scene.facts;
    if facts.files.contains_key(item.path) {
        match facts.files[item.path] {
            Some(file) => if 0 <= j < file.links.len() {
                match outcome(s.scene, file.links[j], item.path, item.root) {
                    Ok(r) => StepView::Next(after_link(s, j, r)),
                    Err(q) => StepView::Ask(q),
                }
            } else {
                StepView::Next(moved_on(s))
            },
            None => StepView::Next(moved_on(s)),
        }
    } else {
        StepView::Next(moved_on(s))
    }
}

/// What the crawl does next.
pub open spec fn step(s: CrawlView) -> StepView {
    if s.cursor >= s.queue.len() {
        StepView::Finished
    } else {
        let item = s.queue[s.cursor];
        match s.link {
            None => visit_step(s, item),
            Some(j) => link_step(s, item, j),
        }
    }
}

/// The crawl after up to `n` steps, as far as the facts go.
pub open spec fn after_steps(s: CrawlView, n: nat) -> CrawlView
    decreases n,
{
    if n == 0 {
        s
    } else {
        match step(s) {
            StepView::Next(t) => after_steps(t, (n - 1) as nat),
            _ => s,
        }
    }
}

/// The crawl goes from `s` to `t`.
pub open spec fn reaches(s: CrawlView, t: CrawlView) -> bool {
    exists|n: nat| #[trigger] after_steps(s, n) == t
}

/// How far a crawl got.
pub enum Progress {
    /// It needs a fact.
    Ask(Query),
    /// It went one step on.
    More,
    /// It is done.
    Finished,
}

fn canonical_or(facts: &Facts, path: &str) -> (r: CanonicalPath)
    ensures
        r@ == canonical_or_raw(facts@, path@),
{
    match facts.canonical.get(path) {
        Some(Some(c)) => c.clone(),
        _ => CanonicalPath::assume_canonical(path.to_owned()),
    }
}

fn resolve_roots(facts: &Facts, repos: &StringMap<String>) -> (r: StringMap<CanonicalPath>)
    ensures
        r@.map_values(|p: CanonicalPath| p@) == resolved_roots(facts@, repos@),
        r.order() == repos.order(),
{
    let n: usize = repos.len();
    let ghost order = repos.order();
    let mut r: StringMap<CanonicalPath> = StringMap::new();
    let mut i: usize = 0;
    while i < n
        invariant
            i <= n == order.len(),
            order == repos.order(),
            order.no_duplicates(),
            forall|k: Seq<char>| #[trigger] repos@.contains_key(k) <==> order.contains(k),
            r.order() == order.take(i as int),
            forall|k: Seq<char>| #[trigger]
                r@.contains_key(k) <==> order.take(i as int).contains(k),
            forall|k: Seq<char>| #[trigger]
                r@.contains_key(k) ==> repos@.contains_key(k) && r@[k]@ == canonical_or_raw(
                    facts@,
                    repos@[k]@,
                ),
        decreases n - i,
    {
        let ghost k = order[i as int];
        proof {
            lemma_take_next(order, i as int);
        }
        let root = canonical_or(facts, repos.value_at(i).as_str());
        r.insert(repos.key_at(i).to_owned(), root);
        i += 1;
    }
    assert(order.take(n as int) =~= order);
    assert(r@.map_values(|p: CanonicalPath| p@) =~= resolved_roots(facts@, repos@));
    r
}

impl CrawlState {
    /// A crawl of the repository with this index. `facts` resolve the roots of the known
    /// repositories.
    pub fn new(
        entry_index: RepoIndex,
        options: &CrawlOptions,
        cache: ExtractionCache,
        facts: Facts,
    ) -> (r: Self)
        ensures
            r@ == (CrawlView {
                scene: SceneView {
                    entry_root: entry_index@.root,
                    repos: resolved_roots(facts@, options.repos@),
                    order: options.repos.order(),
                    all_extensions: options.include_all_extensions,
                    facts: FactsView {
                        indices: facts@.indices.insert(entry_index@.root, entry_index@),
                        ..facts@
                    },
                },
                queue: Seq::empty(),
                cursor: 0,
                link: None,
                queued: Set::empty(),
                cross_visited: Set::empty(),
                reachable: Set::empty(),
                issues: Seq::empty(),
            }),
            r.cache_state() == cache@,
    {
        let entry_root = entry_index.root.clone();
        let repos = resolve_roots(&facts, &options.repos);
        let mut facts = facts;
        facts.set_index(entry_root.as_str().to_owned(), entry_index);
        let r = CrawlState {
            scene: Scene {
                entry_root,
                repos,
                all_extensions: options.include_all_extensions,
                facts,
            },
            cache,
            queue: Vec::new(),
            cursor: 0,
            link: None,
            queued_entry_paths: StringSet::new(),
            cross_repo_visited: StringSet::new(),
            reachable: StringSet::new(),
            issues: Vec::new(),
        };
        assert(r@.queue =~= Seq::empty());
        assert(r@.issues =~= Seq::empty());
        r
    }

    /// Puts the entry files in the queue.
    pub fn seed(&mut self, entry_paths: &Vec<String>)
        ensures
            final(self)@ == seeded(old(self)@, texts(entry_paths@)),
            final(self).cache_state() == old(self).cache_state(),
    {
        let ghost start = self@;
        let ghost all = texts(entry_paths@);
        let mut i: usize = 0;
        assert(all.take(0) =~= Seq::empty());
        while i < entry_paths.len()
            invariant
                i <= entry_paths.len(),
                all == texts(entry_paths@),
                self@ == seeded(start, all.take(i as int)),
                self@.scene == start.scene,
                self.cache_state() == old(self).cache_state(),
            decreases entry_paths.len() - i,
        {
            assert(all.take(i + 1).drop_last() =~= all.take(i as int));
            assert(all.take(i + 1).last() == entry_paths@[i as int]@);
            let ghost before = self@;
            let path = canonical_or(&self.scene.facts, entry_paths[i].as_str());
            let ghost pv = path@;
            let _ = self.queued_entry_paths.insert(path.as_str().to_owned());
            self.queue.push(
                BfsQueueItem { path, repo_root: self.scene.entry_root.clone(), is_entry_repo: true },
            );
            assert(self@.queue =~= before.queue.push(
                ItemView { path: pv, root: start.scene.entry_root, entry: true },
            ));
            i += 1;
        }
        assert(all.take(i as int) =~= all);
    }

    fn enqueue_resolved(&mut self, target: Target)
        ensures
            final(self)@ == enqueued(old(self)@, target.path@, target.root@),
            final(self).cache_state() == old(self).cache_state(),
    {
        let ghost before = self@;
        let ghost pv = target.path@;
        let ghost rv = target.root@;
        if str_eq(target.root.as_str(), self.scene.entry_root.as_str()) {
            if self.queued_entry_paths.insert(target.path.as_str().to_owned()) {
                self.queue.push(
                    BfsQueueItem {
                        path: target.path,
                        repo_root: target.root,
                        is_entry_repo: true,
                    },
                );
                assert(self@.queue =~= before.queue.push(
                    ItemView { path: pv, root: rv, entry: true },
                ));
            } else {
                assert(before.queued.insert(pv) =~= before.queued);
            }
        } else if !self.cross_repo_visited.contains(target.path.as_str()) {
            self.queue.push(
                BfsQueueItem { path: target.path, repo_root: target.root, is_entry_repo: false },
            );
            assert(self@.queue =~= before.queue.push(
                ItemView { path: pv, root: rv, entry: false },
            ));
        }
    }

    fn visit(&mut self) -> (r: Progress)
        requires
            old(self)@.cursor < old(self)@.queue.len(),
            old(self)@.link is None,
        ensures
            final(self).cache_state() == old(self).cache_state(),
            match r {
                Progress::Ask(q) => step(old(self)@) == StepView::Ask(q@) && final(self)@ == old(
                    self,
                )@,
                Progress::More => step(old(self)@) == StepView::Next(final(self)@),
                Progress::Finished => false,
            },
    {
        let ghost before = self@;
        let ghost iv = before.queue[before.cursor];
        let at: usize = self.cursor;
        assert(at < self.queue.len());
        let path = self.queue[at].path.as_str().to_owned();
        let entry: bool = self.queue[at].is_entry_repo;
        let visited: bool = if entry {
            self.reachable.contains(path.as_str())
        } else {
            self.cross_repo_visited.contains(path.as_str())
        };
        if visited {
            self.cursor = at + 1;
            assert(self@ =~= moved_on(before));
            return Progress::More;
        }
        let readable: bool = match self.scene.facts.files.get(path.as_str()) {
            None => {
                let root = self.queue[at].repo_root.as_str().to_owned();
                return Progress::Ask(Query::File { path, root });
            },
            Some(Some(_)) => true,
            Some(None) => false,
        };
        if entry {
            let _ = self.reachable.insert(path.clone());
        } else {
            let _ = self.cross_repo_visited.insert(path.clone());
        }
        assert(self@ =~= marked(before, iv));
        if !readable {
            self.issues.push(
                LinkIssue { link: path.clone(), source: path, kind: IssueKind::Unreadable },
            );
            assert(self@.issues =~= before.issues.push(unreadable(iv.path)));
            self.cursor = at + 1;
        } else if entry {
            self.link = Some(0);
        } else {
            self.cursor = at + 1;
        }
        Progress::More
    }

    fn resolve_next(&mut self, j: usize) -> (r: Progress)
        requires
            old(self)@.cursor < old(self)@.queue.len(),
            old(self)@.link == Some(j as int),
        ensures
            final(self).cache_state() == old(self).cache_state(),
            match r {
                Progress::Ask(q) => step(old(self)@) == StepView::Ask(q@) && final(self)@ == old(
                    self,
                )@,
                Progress::More => step(old(self)@) == StepView::Next(final(self)@),
                Progress::Finished => false,
            },
    {
        let ghost before = self@;
        let ghost iv = before.queue[before.cursor];
        let at: usize = self.cursor;
        assert(at < self.queue.len());
        let item = &self.queue[at];
        let found: Option<Result<Resolution, Query>> = match self.scene.facts.files.get(
            item.path.as_str(),
        ) {
            Some(Some(file)) => {
                assert(before.scene.facts.files[iv.path] == Some(file@));
                if j < file.links.len() {
                    assert(file@.links[j as int] == file.links@[j as int]@);
                    Some(
                        self.scene.resolve_one(
                            &file.links[j],
                            item.path.as_str(),
                            item.repo_root.as_str(),
                        ),
                    )
                } else {
                    None
                }
            },
            _ => None,
        };
        match found {
            None => {
                self.cursor = at + 1;
                self.link = None;
                assert(self@ =~= moved_on(before));
                Progress::More
            },
            Some(Err(q)) => Progress::Ask(q),
            Some(Ok(resolution)) => {
                let ghost rv = resolution@;
                let mut more = resolution.issues;
                let ghost added = more@;
                let ghost had = self.issues@;
                self.issues.append(&mut more);
                assert(issue_views(self.issues@) =~= issue_views(had) + issue_views(added));
                self.link = Some(j + 1);
                let ghost mid = self@;
                assert(mid =~= (CrawlView {
                    issues: before.issues + rv.issues,
                    link: Some(j + 1),
                    ..before
                }));
                match resolution.next {
                    Some(target) => self.enqueue_resolved(target),
                    None => {},
                }
                Progress::More
            },
        }
    }

    /// One step of the crawl.
    pub fn step_once(&mut self) -> (r: Progress)
        ensures
            final(self).cache_state() == old(self).cache_state(),
            match r {
                Progress::Ask(q) => step(old(self)@) == StepView::Ask(q@) && final(self)@ == old(
                    self,
                )@,
                Progress::More => step(old(self)@) == StepView::Next(final(self)@),
                Progress::Finished => step(old(self)@) == StepView::Finished && final(self)@
                    == old(self)@,
            },
    {
        if self.cursor >= self.queue.len() {
            return Progress::Finished;
        }
        match self.link {
            None => self.visit(),
            Some(j) => self.resolve_next(j),
        }
    }
}

/// The known canonical paths that were never put in the queue.
pub open spec fn unqueued(s: CrawlView) -> Set<Option<Seq<char>>> {
    s.scene.facts.canonical.values().filter(
        |p: Option<Seq<char>>| p is Some && !s.queued.contains(p->0),
    )
}

/// The number of files of the crawled repository in the queue, from `i` on.
pub open spec fn entry_count(queue: Seq<ItemView>, i: int) -> nat
    decreases queue.len() - i,
{
    if i >= queue.len() {
        0
    } else {
        entry_count(queue, i + 1) + if queue[i].entry {
            1nat
        } else {
            0nat
        }
    }
}

/// The number of files of the crawled repository that are still to be visited.
pub open spec fn unvisited(s: CrawlView) -> nat {
    entry_count(
        s.queue,
        if s.link is Some {
            s.cursor + 1
        } else {
            s.cursor
        },
    )
}

/// The number of links of the file at the cursor that are left, and one for the file.
pub open spec fn links_left(s: CrawlView) -> nat {
    match s.link {
        None => 0,
        Some(j) => {
            let facts = s.scene.facts;
            let path = s.queue[s.cursor].path;
            if facts.files.contains_key(path) && facts.files[path] is Some && 0 <= j
                < facts.files[path]->0.links.len() {
                (facts.files[path]->0.links.len() - j + 1) as nat
            } else {
                1
            }
        },
    }
}

/// A step towards the end: fewer paths that were never queued, or else fewer files to
/// visit, or else fewer links, or else fewer items in the queue.
pub open spec fn nearer(s: CrawlView, t: CrawlView) -> bool {
    let a = (unqueued(s).len(), unvisited(s), links_left(s), s.queue.len() - s.cursor);
    let b = (unqueued(t).len(), unvisited(t), links_left(t), t.queue.len() - t.cursor);
    ||| b.0 < a.0
    ||| b.0 == a.0 && b.1 < a.1
    ||| b.0 == a.0 && b.1 == a.1 && b.2 < a.2
    ||| b.0 == a.0 && b.1 == a.1 && b.2 == a.2 && b.3 < a.3
}

proof fn lemma_entry_count_push(queue: Seq<ItemView>, item: ItemView, i: int)
    requires
        0 <= i <= queue.len(),
    ensures
        entry_count(queue.push(item), i) == entry_count(queue, i) + if item.entry {
            1nat
        } else {
            0nat
        },
    decreases queue.len() - i,
{
    if i < queue.len() {
        lemma_entry_count_push(queue, item, i + 1);
        assert(queue.push(item)[i] == queue[i]);
    } else {
        assert(entry_count(queue.push(item), i + 1) == 0);
        assert(queue.push(item)[i] == item);
    }
}

/// A link leads on only to a path that is known to exist.
proof fn lemma_next_is_known(w: SceneView, link: LinkView, source: Seq<char>, root: Seq<char>)
    ensures
        outcome(w, link, source, root) matches Ok(r) ==> r.next matches Some((path, _))
            ==> w.facts.canonical.contains_value(Some(path)),
{
    match outcome(w, link, source, root) {
        Ok(r) => {
            if let Some((path, _)) = r.next {
                assert(exists|p: Seq<char>| #[trigger]
                    w.facts.canonical.contains_key(p) && w.facts.canonical[p] == Some(path));
            }
        },
        Err(_) => {},
    }
}

/// Every step of a crawl brings it nearer to its end.
pub proof fn law_step_nearer(s: CrawlView)
    requires
        s.scene.facts.canonical.dom().finite(),
        0 <= s.cursor,
    ensures
        step(s) matches StepView::Next(t) ==> nearer(s, t) && t.scene == s.scene && 0 <= t.cursor
            <= t.queue.len(),
{
    if let StepView::Next(t) = step(s) {
        let item = s.queue[s.cursor];
        vstd::map_lib::lemma_values_finite(s.scene.facts.canonical);
        s.scene.facts.canonical.values().lemma_len_filter(
            |p: Option<Seq<char>>| p is Some && !s.queued.contains(p->0),
        );
        assert(unqueued(s).finite());
        match s.link {
            None => {
                assert(t.queued == s.queued);
                assert(unqueued(t) == unqueued(s));
                assert(entry_count(s.queue, s.cursor) == entry_count(s.queue, s.cursor + 1)
                    + if item.entry {
                    1nat
                } else {
                    0nat
                });
            },
            Some(j) => {
                if t == moved_on(s) {
                    assert(unqueued(t) == unqueued(s));
                } else {
                    let file = s.scene.facts.files[item.path]->0;
                    let r = outcome(s.scene, file.links[j], item.path, item.root)->Ok_0;
                    lemma_next_is_known(s.scene, file.links[j], item.path, item.root);
                    match r.next {
                        Some((path, owner)) => {
                            lemma_entry_count_push(
                                s.queue,
                                ItemView { path, root: owner, entry: true },
                                s.cursor + 1,
                            );
                            lemma_entry_count_push(
                                s.queue,
                                ItemView { path, root: owner, entry: false },
                                s.cursor + 1,
                            );
                            if owner == s.scene.entry_root && !s.queued.contains(path) {
                                assert(s.scene.facts.canonical.values().contains(Some(path)));
                                assert(unqueued(s).contains(Some(path)));
                                assert(unqueued(t) =~= unqueued(s).remove(Some(path)));
                            } else {
                                assert(unqueued(t) == unqueued(s));
                                assert(t.queue[s.cursor] == item);
                            }
                        },
                        None => {
                            assert(unqueued(t) == unqueued(s));
                        },
                    }
                }
            },
        }
    }
}

proof fn lemma_one_more_step(s: CrawlView, n: nat, t: CrawlView)
    requires
        step(after_steps(s, n)) == StepView::Next(t),
    ensures
        after_steps(s, n + 1) == t,
    decreases n,
{
    if n == 0 {
        assert(after_steps(t, 0) == t);
    } else {
        match step(s) {
            StepView::Next(u) => {
                lemma_one_more_step(u, (n - 1) as nat, t);
            },
            _ => {},
        }
    }
}

/// The facts with the canonical path of `path` noted, unless it was known.
pub open spec fn with_canonical(
    f: FactsView,
    path: Seq<char>,
    canonical: Option<Seq<char>>,
) -> FactsView {
    if f.canonical.contains_key(path) {
        f
    } else {
        FactsView { canonical: f.canonical.insert(path, canonical), ..f }
    }
}

/// The facts with what was read out of `path` noted, unless it was known.
pub open spec fn with_file(f: FactsView, path: Seq<char>, file: Option<ExtractedView>) -> FactsView {
    if f.files.contains_key(path) {
        f
    } else {
        FactsView { files: f.files.insert(path, file), ..f }
    }
}

/// The facts with the index of `root` noted, unless it was known.
pub open spec fn with_index(f: FactsView, root: Seq<char>, index: IndexView) -> FactsView {
    if f.indices.contains_key(root) {
        f
    } else {
        FactsView { indices: f.indices.insert(root, index), ..f }
    }
}

/// The crawl with these facts.
pub open spec fn informed(s: CrawlView, facts: FactsView) -> CrawlView {
    CrawlView { scene: SceneView { facts, ..s.scene }, ..s }
}

/// What reading a file through the cache gives: nothing when it cannot be read.
pub open spec fn read_through(
    cache: CacheState,
    path: Seq<char>,
    root: Seq<char>,
    source: Option<Seq<u8>>,
    stamp: Option<Stamp>,
    stored: Option<CacheView>,
) -> (Option<ExtractedView>, CacheState) {
    match source {
        Some(bytes) => {
            let (file, next) = cache.after_read(path, root, bytes, stamp, stored);
            (Some(file), next)
        },
        None => (None, cache),
    }
}

/// The root is that of a repository that a file in the queue refers to, as far as the
/// files are known.
pub open spec fn referenced(s: CrawlView, root: Seq<char>) -> bool {
    exists|i: int, j: int| #[trigger] refers(s, i, j, root)
}

/// The link `j` of the file at `i` in the queue leads into the repository at `root`.
pub open spec fn refers(s: CrawlView, i: int, j: int, root: Seq<char>) -> bool {
    &&& 0 <= i < s.queue.len() && s.queue[i].entry
    &&& s.scene.facts.files.contains_key(s.queue[i].path)
    &&& s.scene.facts.files[s.queue[i].path] matches Some(file)
    &&& 0 <= j < file.links.len()
    &&& file.links[j].kind matches KindView::CrossRepo(name)
    &&& s.scene.repos.contains_key(name) && s.scene.repos[name] == root
}

/// The cache of a repository holds an entry for a file that is not in its index.
pub open spec fn has_stale(
    cache: CacheState,
    indices: Map<Seq<char>, IndexView>,
    root: Seq<char>,
) -> bool {
    cache.caches.contains_key(root) && indices.contains_key(root)
        && !cache.caches[root].entries.dom().subset_of(indices[root].md_files)
}

/// The cache without the entries of files that are not in the index of their repository.
pub open spec fn pruned_by(cache: CacheState, indices: Map<Seq<char>, IndexView>) -> CacheState {
    CacheState {
        caches: Map::new(
            |root: Seq<char>| cache.caches.contains_key(root),
            |root: Seq<char>|
                if has_stale(cache, indices, root) {
                    CacheView {
                        entries: cache.caches[root].entries.restrict(indices[root].md_files),
                        ..cache.caches[root]
                    }
                } else {
                    cache.caches[root]
                },
        ),
        dirty: Set::new(
            |root: Seq<char>| cache.dirty.contains(root) || has_stale(cache, indices, root),
        ),
        ..cache
    }
}

proof fn lemma_pruned_more(
    cache: CacheState,
    indices: Map<Seq<char>, IndexView>,
    root: Seq<char>,
    index: IndexView,
)
    requires
        !indices.contains_key(root),
    ensures
        pruned_by(cache, indices).pruned(root, index.md_files) == pruned_by(
            cache,
            indices.insert(root, index),
        ),
{
    let more = indices.insert(root, index);
    let a = pruned_by(cache, indices).pruned(root, index.md_files);
    let b = pruned_by(cache, more);
    assert forall|r: Seq<char>| r != root implies #[trigger] has_stale(cache, more, r)
        == has_stale(cache, indices, r) by {}
    assert(!has_stale(cache, indices, root));
    assert(a.caches.dom() =~= b.caches.dom());
    assert forall|r: Seq<char>| a.caches.contains_key(r) implies #[trigger] a.caches[r]
        == b.caches[r] by {
        if r != root {
            assert(has_stale(cache, more, r) == has_stale(cache, indices, r));
        }
    }
    assert(a.caches =~= b.caches);
    assert(a.dirty =~= b.dirty);
    assert(a =~= b);
}

/// After pruning, the cache of a repository with an index has entries for its files alone,
/// and pruning once more changes nothing.
pub proof fn law_pruned(cache: CacheState, indices: Map<Seq<char>, IndexView>, root: Seq<char>)
    requires
        cache.caches.contains_key(root),
        indices.contains_key(root),
    ensures
        pruned_by(cache, indices).caches[root].entries.dom() == cache.caches[root].entries.dom()
            .intersect(indices[root].md_files),
        pruned_by(pruned_by(cache, indices), indices) == pruned_by(cache, indices),
{
    let once = pruned_by(cache, indices);
    let twice = pruned_by(once, indices);
    assert forall|r: Seq<char>| !#[trigger] has_stale(once, indices, r) by {}
    assert(once.caches[root].entries.dom() =~= cache.caches[root].entries.dom().intersect(
        indices[root].md_files,
    ));
    assert forall|r: Seq<char>| once.caches.contains_key(r) implies #[trigger] twice.caches[r]
        == once.caches[r] by {
        assert(!has_stale(once, indices, r));
    }
    assert(twice.caches =~= once.caches);
    assert(twice.dirty =~= once.dirty);
}

impl CrawlState {
    /// Goes on until the crawl is done, or needs a fact.
    pub fn advance(&mut self) -> (r: Option<Query>)
        ensures
            reaches(old(self)@, final(self)@),
            match r {
                Some(q) => step(final(self)@) == StepView::Ask(q@),
                None => step(final(self)@) == StepView::Finished,
            },
            final(self).cache_state() == old(self).cache_state(),
    {
        let ghost start = self@;
        let ghost mut n: nat = 0;
        let _ = self.scene.facts.canonical.len();
        assert(start.scene.facts.canonical.dom() =~= self.scene.facts.canonical@.dom());
        assert(after_steps(start, 0) == start);
        loop
            invariant
                start == old(self)@,
                self@ == after_steps(start, n),
                self@.scene == start.scene,
                start.scene.facts.canonical.dom().finite(),
                0 <= self@.cursor,
                self.cache_state() == old(self).cache_state(),
            decreases
                    unqueued(self@).len(),
                    unvisited(self@),
                    links_left(self@),
                    self@.queue.len() - self@.cursor,
        {
            proof {
                law_step_nearer(self@);
            }
            let ghost before = self@;
            match self.step_once() {
                Progress::Ask(q) => {
                    return Some(q);
                },
                Progress::Finished => {
                    return None;
                },
                Progress::More => {
                    proof {
                        lemma_one_more_step(start, n, self@);
                        n = n + 1;
                    }
                },
            }
        }
    }

    /// Notes the canonical path of `path`; none when it does not exist. What was known
    /// before stays.
    pub fn provide_canonical(&mut self, path: String, canonical: Option<CanonicalPath>)
        ensures
            final(self)@ == informed(
                old(self)@,
                with_canonical(old(self)@.scene.facts, path@, crate::scene::opt_path(canonical)),
            ),
            final(self).cache_state() == old(self).cache_state(),
    {
        if !self.scene.facts.canonical.contains_key(path.as_str()) {
            self.scene.facts.set_canonical(path, canonical);
        }
    }

    /// Reads the file `path` of the repository at `root` through the cache: `source` are
    /// its bytes, where it could be read, `stamp` its stamp, and `stored` what the cache
    /// file of the repository held. What was known before stays.
    pub fn provide_file(
        &mut self,
        path: &str,
        root: &str,
        source: Option<&[u8]>,
        stamp: Option<Stamp>,
        stored: Option<LinkCache>,
    )
        ensures
            ({
                let known = old(self)@.scene.facts.files.contains_key(path@);
                let bytes = match source {
                    Some(b) => Some(b@),
                    None => None,
                };
                let (file, next) = read_through(
                    old(self).cache_state(),
                    path@,
                    root@,
                    bytes,
                    stamp,
                    opt_cache(stored),
                );
                &&& final(self)@ == informed(
                    old(self)@,
                    with_file(old(self)@.scene.facts, path@, file),
                )
                &&& final(self).cache_state() == if known {
                    old(self).cache_state()
                } else {
                    next
                }
            }),
    {
        if !self.scene.facts.files.contains_key(path) {
            let file = self.cache.read(path, root, source, stamp, stored);
            self.scene.facts.set_file(path.to_owned(), file);
        }
    }

    /// Notes the index of the repository at `root`. What was known before stays.
    pub fn provide_index(&mut self, root: &str, index: RepoIndex)
        ensures
            final(self)@ == informed(
                old(self)@,
                with_index(old(self)@.scene.facts, root@, index@),
            ),
            final(self).cache_state() == old(self).cache_state(),
    {
        if !self.scene.facts.indices.contains_key(root) {
            self.scene.facts.set_index(root.to_owned(), index);
        }
    }

    /// Whether the next read of a file of the repository at `root` has a use for its cache
    /// file.
    pub fn wants_stored_cache(&self, root: &str) -> (r: bool)
        ensures
            r == (self.cache_state().enabled && !self.cache_state().caches.contains_key(root@)),
    {
        self.cache.wants_stored(root)
    }

    /// The files to visit, those that were visited included.
    pub fn queue(&self) -> (r: &Vec<BfsQueueItem>)
        ensures
            item_views(r@) == self@.queue,
    {
        &self.queue
    }

    /// The roots of the other repositories that the files in the queue refer to, each
    /// once. Their indices will be needed, and can be made beforehand.
    pub fn prefetch_referenced_repos(&self) -> (r: StringSet)
        ensures
            forall|root: Seq<char>| #[trigger]
                r@.contains(root) <==> referenced(self@, root) && root != self@.scene.entry_root,
    {
        let mut r = StringSet::new();
        let mut i: usize = 0;
        while i < self.queue.len()
            invariant
                i <= self.queue.len(),
                forall|root: Seq<char>| #[trigger]
                    r@.contains(root) ==> referenced(self@, root) && root
                        != self@.scene.entry_root,
                forall|a: int, b: int, root: Seq<char>| #[trigger]
                    refers(self@, a, b, root) && a < i && root != self@.scene.entry_root
                        ==> r@.contains(root),
            decreases self.queue.len() - i,
        {
            let item = &self.queue[i];
            assert(self@.queue[i as int] == item@);
            if item.is_entry_repo {
                match self.scene.facts.files.get(item.path.as_str()) {
                    Some(Some(file)) => {
                        assert(self@.scene.facts.files[item@.path] == Some(file@));
                        let mut j: usize = 0;
                        while j < file.links.len()
                            invariant
                                i < self.queue.len(),
                                j <= file.links.len(),
                                self@.queue[i as int] == item@,
                                item@.entry,
                                self@.scene.facts.files.contains_key(item@.path),
                                self@.scene.facts.files[item@.path] == Some(file@),
                                forall|root: Seq<char>| #[trigger]
                                    r@.contains(root) ==> referenced(self@, root) && root
                                        != self@.scene.entry_root,
                                forall|a: int, b: int, root: Seq<char>| #[trigger]
                                    refers(self@, a, b, root) && (a < i || (a == i && b < j))
                                        && root != self@.scene.entry_root ==> r@.contains(root),
                            decreases file.links.len() - j,
                        {
                            assert(file@.links[j as int] == file.links@[j as int]@);
                            match &file.links[j].kind {
                                LinkKind::CrossRepo { repo } => match self.scene.repos.get(
                                    repo.as_str(),
                                ) {
                                    Some(root) => {
                                        assert(self@.scene.repos[repo@] == root@);
                                        assert(refers(self@, i as int, j as int, root@));
                                        if !str_eq(
                                            root.as_str(),
                                            self.scene.entry_root.as_str(),
                                        ) {
                                            let _ = r.insert(root.as_str().to_owned());
                                        }
                                    },
                                    None => {},
                                },
                                _ => {},
                            }
                            j += 1;
                        }
                    },
                    _ => {},
                }
            }
            i += 1;
        }
        proof {
            assert forall|root: Seq<char>| referenced(self@, root) && root
                != self@.scene.entry_root implies #[trigger] r@.contains(root) by {
                let (a, b) = choose|a: int, b: int| #[trigger] refers(self@, a, b, root);
                assert(refers(self@, a, b, root));
            }
        }
        r
    }

    /// Drops from the cache the entries of files that are no longer there.
    pub fn prune_cache(&mut self)
        ensures
            final(self)@ == old(self)@,
            final(self).cache_state() == pruned_by(
                old(self).cache_state(),
                old(self)@.scene.facts.indices,
            ),
    {
        let n: usize = self.scene.facts.indices.len();
        let ghost order = self.scene.facts.indices.order();
        let ghost indices = self@.scene.facts.indices;
        let ghost start = self.cache@;
        let ghost mut done: Map<Seq<char>, IndexView> = Map::empty();
        let mut i: usize = 0;
        proof {
            assert(pruned_by(start, done).caches =~= start.caches);
            assert(pruned_by(start, done).dirty =~= start.dirty);
            assert(pruned_by(start, done) =~= start);
            assert(indices.dom() =~= self.scene.facts.indices@.dom());
            assert(indices.dom() =~= order.to_set());
        }
        while i < n
            invariant
                i <= n == order.len(),
                order == self.scene.facts.indices.order(),
                order.no_duplicates(),
                indices == self@.scene.facts.indices,
                indices.dom() == order.to_set(),
                self@ == old(self)@,
                start == old(self).cache_state(),
                self.cache@ == pruned_by(start, done),
                forall|k: Seq<char>| #[trigger]
                    done.contains_key(k) <==> order.take(i as int).contains(k),
                forall|k: Seq<char>| #[trigger] done.contains_key(k) ==> done[k] == indices[k],
            decreases n - i,
        {
            let ghost k = order[i as int];
            let root = self.scene.facts.indices.key_at(i);
            let index = self.scene.facts.indices.value_at(i);
            assert(indices[k] == index@);
            proof {
                lemma_take_next(order, i as int);
                assert(!done.contains_key(k));
                lemma_pruned_more(start, done, k, indices[k]);
                done = done.insert(k, indices[k]);
            }
            self.cache.prune(root, &index.md_files);
            i += 1;
        }
        proof {
            assert(order.take(n as int) =~= order);
            assert forall|k: Seq<char>| done.contains_key(k) <==> indices.contains_key(k) by {
                assert(order.contains(k) <==> order.to_set().contains(k));
            }
            assert(done =~= indices);
        }
    }

    /// The files that were reached, the issues, and the cache.
    pub fn finish(self) -> (r: (StringSet, Vec<LinkIssue>, ExtractionCache))
        ensures
            r.0@ == self@.reachable,
            issue_views(r.1@) == self@.issues,
            r.2@ == self.cache_state(),
    {
        (self.reachable, self.issues, self.cache)
    }

    /// The index of the repository at `root`, where it is known.
    pub fn index(&self, root: &str) -> (r: Option<&RepoIndex>)
        ensures
            match r {
                Some(ix) => self@.scene.facts.indices.contains_key(root@) && ix@
                    == self@.scene.facts.indices[root@],
                None => !self@.scene.facts.indices.contains_key(root@),
            },
    {
        self.scene.facts.indices.get(root)
    }
}

/// A crawl that waits for a fact, or its result.
pub enum Crawl {
    /// The crawl, and the fact that it needs.
    Waiting(CrawlState, Query),
    /// The files that were reached, the issues, and the cache.
    Done(StringSet, Vec<LinkIssue>, ExtractionCache),
}

/// What came of a crawl that was at `s`, with its cache, as far as the facts went: it went
/// on until it needed a fact, or to its end.
pub open spec fn crawled(s: CrawlView, cache: CacheState, r: Crawl) -> bool {
    exists|t: CrawlView| #[trigger]
        reaches(s, t) && (match r {
            Crawl::Waiting(state, q) => state@ == t && state.cache_state() == cache && step(t)
                == StepView::Ask(q@),
            Crawl::Done(reachable, issues, pruned) => step(t) == StepView::Finished && reachable@
                == t.reachable && issue_views(issues@) == t.issues && pruned@ == pruned_by(
                cache,
                t.scene.facts.indices,
            ),
        })
}

/// A crawl of the repository with this index that has not begun.
pub open spec fn at_start(
    index: IndexView,
    options: CrawlOptions,
    facts: FactsView,
    entries: Seq<Seq<char>>,
) -> CrawlView {
    seeded(
        CrawlView {
            scene: SceneView {
                entry_root: index.root,
                repos: resolved_roots(facts, options.repos@),
                order: options.repos.order(),
                all_extensions: options.include_all_extensions,
                facts: FactsView { indices: facts.indices.insert(index.root, index), ..facts },
            },
            queue: Seq::empty(),
            cursor: 0,
            link: None,
            queued: Set::empty(),
            cross_visited: Set::empty(),
            reachable: Set::empty(),
            issues: Seq::empty(),
        },
        entries,
    )
}

/// Goes on with a crawl.
pub fn resume(state: CrawlState) -> (r: Crawl)
    ensures
        crawled(state@, state.cache_state(), r),
{
    let ghost start = state@;
    let mut state = state;
    match state.advance() {
        Some(q) => {
            assert(reaches(start, state@));
            Crawl::Waiting(state, q)
        },
        None => {
            assert(reaches(start, state@));
            state.prune_cache();
            let (reachable, issues, cache) = state.finish();
            Crawl::Done(reachable, issues, cache)
        },
    }
}

/// A crawl, from the entry files, of the repository with this index. `facts` resolve the
/// entry files and the roots of the known repositories, and may hold more.
pub fn bfs_crawl(
    entry_paths: &Vec<String>,
    index: RepoIndex,
    options: &CrawlOptions,
    cache: ExtractionCache,
    facts: Facts,
) -> (r: Crawl)
    ensures
        crawled(at_start(index@, *options, facts@, texts(entry_paths@)), cache@, r),
{
    let mut state = CrawlState::new(index, options, cache, facts);
    state.seed(entry_paths);
    resume(state)
}

/// The index of the repository at `root`, whose walk gave `entries` and whose own patterns
/// are `project_ignore`, and a crawl of it.
pub fn bfs_crawl_at_root(
    entry_paths: &Vec<String>,
    root: CanonicalPath,
    project_ignore: &Vec<String>,
    entries: &Vec<WalkEntry>,
    options: &CrawlOptions,
    cache: ExtractionCache,
    facts: Facts,
) -> (r: (RepoIndex, Crawl))
    ensures
        r.0@ == index_of(
            root@,
            effective(
                texts(options.extra_excludes@) + texts(project_ignore@),
                options.use_default_excludes,
            ),
            options.include_all_extensions,
            entry_pairs(entries@),
        ),
        crawled(at_start(r.0@, *options, facts@, texts(entry_paths@)), cache@, r.1),
{
    let exclude = all_excludes(options, project_ignore);
    let index = index_repo(
        root,
        &exclude,
        options.use_default_excludes,
        options.include_all_extensions,
        entries,
    );
    let copy = index.clone();
    (index, bfs_crawl(entry_paths, copy, options, cache, facts))
}

/// The patterns for a repository: those asked for, then its own.
pub fn all_excludes(options: &CrawlOptions, project_ignore: &Vec<String>) -> (r: Vec<String>)
    ensures
        texts(r@) == texts(options.extra_excludes@) + texts(project_ignore@),
{
    let mut r = clone_texts(&options.extra_excludes);
    let mut own = clone_texts(project_ignore);
    let ghost a = r@;
    let ghost b = own@;
    r.append(&mut own);
    assert(texts(r@) =~= texts(a) + texts(b));
    r
}

} // verus!
