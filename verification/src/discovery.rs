//! Repository discovery: which files of a directory tree make up the index.
use crate::exclude::{default_excludes, default_patterns, ExcludeMatcher, Plan};
use crate::collections::{lemma_members_push, lemma_take_next, StringMap, StringSet};
use crate::path::{base_name, base_of, CanonicalPath};
use crate::text::{
    begins_with, chars_of, clone_texts, concat2, ends_with, finishes_with, starts_with, text_of,
    texts,
};
use vstd::prelude::*;
use vstd::string::StrSliceExecFns;

verus! {

/// The markdown files of a repository, and its files by name.
pub struct RepoIndex {
    /// The canonical root.
    pub root: CanonicalPath,
    /// The paths of the markdown files, relative to the root.
    pub md_files: StringSet,
    /// The full paths of the files of each name. Markdown only, unless all extensions were
    /// asked for.
    pub by_name: StringMap<Vec<String>>,
    /// The exclude patterns in force.
    pub exclude: Vec<String>,
}

/// What a [`RepoIndex`] stands for.
#[verifier::ext_equal]
pub struct IndexView {
    pub root: Seq<char>,
    pub md_files: Set<Seq<char>>,
    pub by_name: Map<Seq<char>, Seq<Seq<char>>>,
    pub exclude: Seq<Seq<char>>,
}

/// What a map to lists of texts stands for.
pub open spec fn name_views(m: Map<Seq<char>, Vec<String>>) -> Map<Seq<char>, Seq<Seq<char>>> {
    m.map_values(|v: Vec<String>| texts(v@))
}

impl View for RepoIndex {
    type V = IndexView;

    open spec fn view(&self) -> IndexView {
        IndexView {
            root: self.root@,
            md_files: self.md_files@,
            by_name: name_views(self.by_name@),
            exclude: texts(self.exclude@),
        }
    }
}

/// The lists of texts, each cloned.
pub fn clone_names(m: &StringMap<Vec<String>>) -> (r: StringMap<Vec<String>>)
    ensures
        name_views(r@) == name_views(m@),
{
    let n: usize = m.len();
    let mut r: StringMap<Vec<String>> = StringMap::new();
    let mut i: usize = 0;
    while i < n
        invariant
            i <= n == m.order().len(),
            m.order().no_duplicates(),
            forall|k: Seq<char>| #[trigger] m@.contains_key(k) <==> m.order().contains(k),
            forall|k: Seq<char>| #[trigger]
                r@.contains_key(k) <==> m.order().take(i as int).contains(k),
            forall|k: Seq<char>| #[trigger]
                r@.contains_key(k) ==> m@.contains_key(k) && texts(r@[k]@) == texts(m@[k]@),
        decreases n - i,
    {
        let ghost k = m.order()[i as int];
        proof {
            lemma_take_next(m.order(), i as int);
        }
        r.insert(m.key_at(i).to_owned(), clone_texts(m.value_at(i)));
        i += 1;
    }
    assert(m.order().take(n as int) =~= m.order());
    assert(name_views(r@) =~= name_views(m@));
    r
}

impl Clone for RepoIndex {
    fn clone(&self) -> (r: Self)
        ensures
            r@ == self@,
    {
        RepoIndex {
            root: self.root.clone(),
            md_files: self.md_files.clone(),
            by_name: clone_names(&self.by_name),
            exclude: clone_texts(&self.exclude),
        }
    }
}

/// What a directory walk found at a path.
#[derive(Debug, Clone, Copy, PartialEq, Eq, Structural)]
pub enum EntryKind {
    Directory,
    File,
    Symlink,
    Other,
}

/// One step of a directory walk.
pub struct WalkEntry {
    /// The full path, which begins with the root that was walked.
    pub path: String,
    pub kind: EntryKind,
}

/// What walk entries stand for.
pub open spec fn entry_pairs(v: Seq<WalkEntry>) -> Seq<(Seq<char>, EntryKind)> {
    Seq::new(v.len(), |i: int| (v[i].path@, v[i].kind))
}

/// What follows `root/`, where the path begins so.
pub open spec fn inside(path: Seq<char>, root: Seq<char>) -> Option<Seq<char>> {
    if begins_with(path, root + "/"@) {
        Some(path.skip((root + "/"@).len() as int))
    } else {
        None
    }
}

/// The patterns in force.
pub open spec fn effective(exclude: Seq<Seq<char>>, use_defaults: bool) -> Seq<Seq<char>> {
    if use_defaults {
        default_patterns() + exclude
    } else {
        exclude
    }
}

/// Only bare names are in the plan.
pub open spec fn bare_only(plan: Plan) -> bool {
    plan.anchored.len() == 0 && plan.globs.len() == 0 && plan.plain.len() == 0
        && plan.trailing.len() == 0
}

/// The walk goes into the directory: it is no dot directory, and no pattern excludes it.
pub open spec fn enters(plan: Plan, root: Seq<char>, dir: Seq<char>) -> bool {
    let name = base_of(dir);
    &&& !(name.len() > 1 && name[0] == '.')
    &&& !plan.bare.contains(name)
    &&& bare_only(plan) || match inside(dir, root) {
        Some(rel) => !plan.excludes(rel, Some(name)),
        None => true,
    }
}

/// The walk goes into each directory between the root and the path.
pub open spec fn reached(plan: Plan, root: Seq<char>, path: Seq<char>) -> bool {
    forall|k: int|
        root.len() < k < path.len() && #[trigger] path[k] == '/' ==> enters(
            plan,
            root,
            path.take(k),
        )
}

/// The name of a markdown file.
pub open spec fn markdown_name(name: Seq<char>) -> bool {
    finishes_with(name, ".md"@)
}

/// How the index calls the path: relative to the root, where it lies inside.
pub open spec fn rel_name(path: Seq<char>, root: Seq<char>) -> Seq<char> {
    match inside(path, root) {
        Some(rel) => rel,
        None => path,
    }
}

/// The entry goes into the index.
pub open spec fn indexed(plan: Plan, root: Seq<char>, all: bool, e: (Seq<char>, EntryKind)) -> bool {
    let name = base_of(e.0);
    &&& e.1 is File || e.1 is Symlink
    &&& reached(plan, root, e.0)
    &&& markdown_name(name) || all
    &&& !plan.excludes(rel_name(e.0, root), Some(name))
}

/// The index with one more entry.
pub open spec fn with_entry(
    ix: IndexView,
    plan: Plan,
    all: bool,
    e: (Seq<char>, EntryKind),
) -> IndexView {
    if indexed(plan, ix.root, all, e) {
        let name = base_of(e.0);
        let had = if ix.by_name.contains_key(name) {
            ix.by_name[name]
        } else {
            Seq::empty()
        };
        IndexView {
            by_name: ix.by_name.insert(name, had.push(e.0)),
            md_files: if markdown_name(name) {
                ix.md_files.insert(rel_name(e.0, ix.root))
            } else {
                ix.md_files
            },
            ..ix
        }
    } else {
        ix
    }
}

/// The index of the entries of a walk.
pub open spec fn index_of(
    root: Seq<char>,
    patterns: Seq<Seq<char>>,
    all: bool,
    entries: Seq<(Seq<char>, EntryKind)>,
) -> IndexView
    decreases entries.len(),
{
    if entries.len() == 0 {
        IndexView {
            root,
            md_files: Set::empty(),
            by_name: Map::empty(),
            exclude: patterns,
        }
    } else {
        with_entry(
            index_of(root, patterns, all, entries.drop_last()),
            Plan::of(patterns),
            all,
            entries.last(),
        )
    }
}

/// The paths that the index has under a name go by that name.
pub open spec fn named_right(ix: IndexView) -> bool {
    forall|name: Seq<char>, k: int|
        #![trigger ix.by_name[name][k]]
        ix.by_name.contains_key(name) && 0 <= k < ix.by_name[name].len() ==> base_of(
            ix.by_name[name][k],
        ) == name
}

/// The index has the path under its base name.
pub open spec fn has_path(ix: IndexView, path: Seq<char>) -> bool {
    ix.by_name.contains_key(base_of(path)) && ix.by_name[base_of(path)].contains(path)
}

/// The paths of an index are those of the entries that go into it, each under its own name,
/// and its markdown files are the markdown files among them.
pub proof fn law_index_names(
    root: Seq<char>,
    patterns: Seq<Seq<char>>,
    all: bool,
    entries: Seq<(Seq<char>, EntryKind)>,
)
    ensures
        ({
            let ix = index_of(root, patterns, all, entries);
            let plan = Plan::of(patterns);
            &&& ix.root == root
            &&& named_right(ix)
            &&& forall|name: Seq<char>| #[trigger]
                ix.by_name.contains_key(name) ==> ix.by_name[name].len() > 0
            &&& forall|path: Seq<char>| #[trigger]
                has_path(ix, path) <==> exists|i: int|
                    0 <= i < entries.len() && (#[trigger] entries[i]).0 == path && indexed(
                        plan,
                        root,
                        all,
                        entries[i],
                    )
            &&& forall|rel: Seq<char>| #[trigger]
                ix.md_files.contains(rel) <==> exists|path: Seq<char>| #[trigger]
                    has_path(ix, path) && markdown_name(base_of(path)) && rel_name(path, root)
                        == rel
        }),
    decreases entries.len(),
{
    let ix = index_of(root, patterns, all, entries);
    let plan = Plan::of(patterns);
    if entries.len() > 0 {
        let before = entries.drop_last();
        let e = entries.last();
        let was = index_of(root, patterns, all, before);
        law_index_names(root, patterns, all, before);
        assert(entries =~= before.push(e));
        lemma_has_path(was, plan, all, e);
        assert forall|path: Seq<char>| #[trigger] has_path(ix, path) <==> exists|i: int|
            0 <= i < entries.len() && (#[trigger] entries[i]).0 == path && indexed(
                plan,
                root,
                all,
                entries[i],
            ) by {
            if has_path(was, path) {
                let i = choose|i: int|
                    0 <= i < before.len() && (#[trigger] before[i]).0 == path && indexed(
                        plan,
                        root,
                        all,
                        before[i],
                    );
                assert(entries[i] == before[i]);
            }
            if indexed(plan, root, all, e) && e.0 == path {
                assert(entries[before.len() as int] == e);
            }
            if exists|i: int|
                0 <= i < entries.len() && (#[trigger] entries[i]).0 == path && indexed(
                    plan,
                    root,
                    all,
                    entries[i],
                ) {
                let i = choose|i: int|
                    0 <= i < entries.len() && (#[trigger] entries[i]).0 == path && indexed(
                        plan,
                        root,
                        all,
                        entries[i],
                    );
                if i < before.len() {
                    assert(before[i] == entries[i]);
                }
            }
        }
        assert forall|rel: Seq<char>| #[trigger] ix.md_files.contains(rel) <==> exists|
            path: Seq<char>,
        | #[trigger]
            has_path(ix, path) && markdown_name(base_of(path)) && rel_name(path, root) == rel by {
            if was.md_files.contains(rel) {
                let path = choose|path: Seq<char>| #[trigger]
                    has_path(was, path) && markdown_name(base_of(path)) && rel_name(path, root)
                        == rel;
                assert(has_path(ix, path));
            }
            if indexed(plan, root, all, e) {
                assert(has_path(ix, e.0));
            }
            if exists|path: Seq<char>| #[trigger]
                has_path(ix, path) && markdown_name(base_of(path)) && rel_name(path, root) == rel {
                let path = choose|path: Seq<char>| #[trigger]
                    has_path(ix, path) && markdown_name(base_of(path)) && rel_name(path, root)
                        == rel;
                assert(has_path(was, path) || (indexed(plan, root, all, e) && path == e.0));
            }
        }
    } else {
        assert forall|path: Seq<char>| !#[trigger] has_path(ix, path) by {}
    }
}

/// What one more entry does to the paths of an index.
proof fn lemma_has_path(was: IndexView, plan: Plan, all: bool, e: (Seq<char>, EntryKind))
    requires
        named_right(was),
    ensures
        named_right(with_entry(was, plan, all, e)),
        forall|path: Seq<char>| #[trigger]
            has_path(with_entry(was, plan, all, e), path) <==> has_path(was, path) || (indexed(
                plan,
                was.root,
                all,
                e,
            ) && path == e.0),
{
    let ix = with_entry(was, plan, all, e);
    if indexed(plan, was.root, all, e) {
        let name = base_of(e.0);
        let had = if was.by_name.contains_key(name) {
            was.by_name[name]
        } else {
            Seq::empty()
        };
        lemma_members_push(had, e.0);
        assert(ix.by_name[name] == had.push(e.0));
        assert forall|n: Seq<char>, k: int|
            #![trigger ix.by_name[n][k]]
            ix.by_name.contains_key(n) && 0 <= k < ix.by_name[n].len() implies base_of(
            ix.by_name[n][k],
        ) == n by {
            if n == name {
                if k < had.len() {
                    assert(was.by_name[n][k] == ix.by_name[n][k]);
                }
            } else {
                assert(was.by_name[n][k] == ix.by_name[n][k]);
            }
        }
    }
}

fn strip_root<'a>(path: &'a str, root: &str) -> (r: Option<&'a str>)
    ensures
        (match r {
            Some(s) => Some(s@),
            None => None,
        }) == inside(path@, root@),
{
    let prefix = concat2(root, "/");
    if starts_with(path, prefix.as_str()) {
        let from: usize = prefix.as_str().unicode_len();
        let to: usize = path.unicode_len();
        let rest = path.substring_char(from, to);
        assert(rest@ =~= path@.skip(from as int));
        Some(rest)
    } else {
        None
    }
}

/// Whether a walk of `root` goes into the directory `dir`, which lies below it.
pub fn enters_dir(matcher: &ExcludeMatcher, root: &str, dir: &str) -> (r: bool)
    ensures
        r == enters(matcher@, root@, dir@),
{
    let name = base_name(dir);
    if name.unicode_len() > 1 && name.get_char(0) == '.' {
        return false;
    }
    if matcher.matches_bare(name) {
        return false;
    }
    if matcher.is_bare_only() {
        return true;
    }
    match strip_root(dir, root) {
        Some(rel) => !matcher.matches(rel, Some(name)),
        None => true,
    }
}

fn is_reached(matcher: &ExcludeMatcher, root: &str, path: &str) -> (r: bool)
    ensures
        r == reached(matcher@, root@, path@),
{
    let cs = chars_of(path);
    let mut k: usize = root.unicode_len();
    if k >= cs.len() {
        return true;
    }
    k += 1;
    while k < cs.len()
        invariant
            root@.len() < k <= cs.len(),
            cs@ == path@,
            forall|j: int|
                root@.len() < j < k && #[trigger] path@[j] == '/' ==> enters(
                    matcher@,
                    root@,
                    path@.take(j),
                ),
        decreases cs.len() - k,
    {
        if cs[k] == '/' {
            let dir = text_of(&cs, 0, k);
            assert(dir@ =~= path@.take(k as int));
            if !enters_dir(matcher, root, dir.as_str()) {
                assert(path@[k as int] == '/');
                return false;
            }
        }
        k += 1;
    }
    true
}

/// The index of the repository at `root`, whose walk gave `entries`. Entries in
/// directories that the walk does not go into, or that a pattern excludes, are left out.
pub fn index_repo(
    root: CanonicalPath,
    exclude: &Vec<String>,
    use_default_excludes: bool,
    include_all_extensions: bool,
    entries: &Vec<WalkEntry>,
) -> (r: RepoIndex)
    ensures
        r@ == index_of(
            root@,
            effective(texts(exclude@), use_default_excludes),
            include_all_extensions,
            entry_pairs(entries@),
        ),
{
    let patterns = effective_excludes(exclude, use_default_excludes);
    let ghost ps = texts(patterns@);
    let matcher = ExcludeMatcher::new(&patterns);
    let ghost all = entry_pairs(entries@);
    let mut r = RepoIndex {
        root,
        md_files: StringSet::new(),
        by_name: StringMap::new(),
        exclude: patterns,
    };
    let mut i: usize = 0;
    assert(all.take(0) =~= Seq::empty());
    assert(r@ =~= index_of(root@, ps, include_all_extensions, all.take(0)));
    while i < entries.len()
        invariant
            i <= entries.len(),
            all == entry_pairs(entries@),
            matcher@ == Plan::of(ps),
            r@ == index_of(root@, ps, include_all_extensions, all.take(i as int)),
            r@.root == root@,
        decreases entries.len() - i,
    {
        assert(all.take(i + 1).drop_last() =~= all.take(i as int));
        assert(all.take(i + 1).last() == (entries@[i as int].path@, entries@[i as int].kind));
        add_entry(&mut r, &matcher, include_all_extensions, &entries[i]);
        i += 1;
    }
    assert(all.take(i as int) =~= all);
    r
}

/// The patterns in force: the built-in ones, unless switched off, and the given ones.
pub fn effective_excludes(exclude: &Vec<String>, use_default_excludes: bool) -> (r: Vec<String>)
    ensures
        texts(r@) == effective(texts(exclude@), use_default_excludes),
{
    let mut r: Vec<String> = if use_default_excludes {
        default_excludes()
    } else {
        Vec::new()
    };
    let ghost start = texts(r@);
    assert(start + texts(exclude@).take(0) =~= start);
    let mut i: usize = 0;
    while i < exclude.len()
        invariant
            i <= exclude.len(),
            texts(r@) == start + texts(exclude@).take(i as int),
        decreases exclude.len() - i,
    {
        let ghost before = r@;
        r.push(exclude[i].clone());
        assert(texts(r@) =~= texts(before).push(exclude@[i as int]@));
        assert(start + texts(exclude@).take(i + 1) =~= texts(before).push(exclude@[i as int]@));
        i += 1;
    }
    assert(texts(exclude@).take(i as int) =~= texts(exclude@));
    assert(Seq::<Seq<char>>::empty() + texts(exclude@) =~= texts(exclude@));
    assert(texts(r@) =~= effective(texts(exclude@), use_default_excludes));
    r
}

fn add_entry(ix: &mut RepoIndex, matcher: &ExcludeMatcher, all: bool, e: &WalkEntry)
    ensures
        final(ix)@ == with_entry(old(ix)@, matcher@, all, (e.path@, e.kind)),
        final(ix)@.root == old(ix)@.root,
{
    let file: bool = match e.kind {
        EntryKind::File => true,
        EntryKind::Symlink => true,
        EntryKind::Directory => false,
        EntryKind::Other => false,
    };
    if !file {
        return;
    }
    let path = e.path.as_str();
    let name = base_name(path);
    let is_md: bool = ends_with(name, ".md");
    if !is_md && !all {
        return;
    }
    if !is_reached(matcher, ix.root.as_str(), path) {
        return;
    }
    let rel = match strip_root(path, ix.root.as_str()) {
        Some(rel) => rel,
        None => path,
    };
    if matcher.matches(rel, Some(name)) {
        return;
    }
    let ghost ix0 = ix@;
    let ghost names0 = ix.by_name@;
    let mut list: Vec<String> = if ix.by_name.contains_key(name) {
        ix.by_name.replace(name, Vec::new())
    } else {
        Vec::new()
    };
    let ghost had = texts(list@);
    assert(had =~= (if ix0.by_name.contains_key(name@) {
        ix0.by_name[name@]
    } else {
        Seq::empty()
    }));
    list.push(e.path.clone());
    let ghost lv = texts(list@);
    assert(lv =~= had.push(path@));
    ix.by_name.insert(name.to_owned(), list);
    assert(name_views(ix.by_name@) =~= name_views(names0).insert(name@, lv));
    if is_md {
        let _ = ix.md_files.insert(rel.to_owned());
    }
    assert(ix@ =~= with_entry(ix0, matcher@, all, (e.path@, e.kind)));
}

proof fn lemma_index_root(
    root: Seq<char>,
    patterns: Seq<Seq<char>>,
    all: bool,
    entries: Seq<(Seq<char>, EntryKind)>,
)
    ensures
        index_of(root, patterns, all, entries).root == root,
        index_of(root, patterns, all, entries).exclude == patterns,
    decreases entries.len(),
{
    if entries.len() > 0 {
        lemma_index_root(root, patterns, all, entries.drop_last());
    }
}

/// A walk that stays out of excluded directories and one that goes through all of the tree
/// give the same index.
pub proof fn law_pruned_walk(
    root: Seq<char>,
    patterns: Seq<Seq<char>>,
    all: bool,
    entries: Seq<(Seq<char>, EntryKind)>,
)
    ensures
        index_of(
            root,
            patterns,
            all,
            entries.filter(|e: (Seq<char>, EntryKind)| reached(Plan::of(patterns), root, e.0)),
        ) == index_of(root, patterns, all, entries),
    decreases entries.len(),
{
    let keep = |e: (Seq<char>, EntryKind)| reached(Plan::of(patterns), root, e.0);
    reveal(Seq::filter);
    if entries.len() > 0 {
        let before = entries.drop_last();
        law_pruned_walk(root, patterns, all, before);
        lemma_index_root(root, patterns, all, before);
        let kept = before.filter(keep);
        if keep(entries.last()) {
            assert(entries.filter(keep) == kept.push(entries.last()));
            assert(kept.push(entries.last()).drop_last() =~= kept);
        }
    }
}

/// The markdown files of the index are those of the entries that are indexed, and no
/// others.
pub proof fn law_md_files(
    root: Seq<char>,
    patterns: Seq<Seq<char>>,
    all: bool,
    entries: Seq<(Seq<char>, EntryKind)>,
    rel: Seq<char>,
)
    ensures
        index_of(root, patterns, all, entries).md_files.contains(rel) <==> exists|i: int|
            0 <= i < entries.len() && indexed(Plan::of(patterns), root, all, #[trigger] entries[i])
                && markdown_name(base_of(entries[i].0)) && rel_name(entries[i].0, root) == rel,
    decreases entries.len(),
{
    if entries.len() > 0 {
        let before = entries.drop_last();
        law_md_files(root, patterns, all, before, rel);
        lemma_index_root(root, patterns, all, before);
        let plan = Plan::of(patterns);
        if index_of(root, patterns, all, before).md_files.contains(rel) {
            let i = choose|i: int|
                0 <= i < before.len() && indexed(plan, root, all, #[trigger] before[i])
                    && markdown_name(base_of(before[i].0)) && rel_name(before[i].0, root) == rel;
            assert(entries[i] == before[i]);
        }
        if exists|i: int|
            0 <= i < entries.len() && indexed(plan, root, all, #[trigger] entries[i])
                && markdown_name(base_of(entries[i].0)) && rel_name(entries[i].0, root) == rel {
            let i = choose|i: int|
                0 <= i < entries.len() && indexed(plan, root, all, #[trigger] entries[i])
                    && markdown_name(base_of(entries[i].0)) && rel_name(entries[i].0, root) == rel;
            if i < before.len() {
                assert(before[i] == entries[i]);
            }
        }
        let last = entries.last();
        assert(last == entries[entries.len() - 1]);
    }
}

} // verus!
