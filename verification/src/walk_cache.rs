//! The walk cache: the index of a repository, kept as long as no directory that was walked
//! has changed. The modification time of a directory changes when an entry is added,
//! removed or renamed in it.
use crate::cache::{
    cache_dir, cache_directory, fnv, fnv1a64, fnv1a64_hex, fnv1a64_of_sorted, hash_of_sorted, hex,
};
use crate::collections::{StringMap, StringSet};
use crate::discovery::{clone_names, name_views, IndexView, RepoIndex};
use crate::config::{components, components_of, path_of, text_values};
use crate::path::{dir_name, dir_of, is_under, under, CanonicalPath};
use crate::text::{
    begins_with, clone_texts, concat2, concat3, ends_with, finishes_with, join_first, starts_with,
    str_eq, texts,
};
use vstd::prelude::*;
use vstd::utf8::encode_utf8;

verus! {

/// Goes up with any change after which an index stored before would be wrong: of its form,
/// of the built-in excludes, of how patterns match, or of which files are indexed.
pub const WALK_CACHE_SCHEMA_VERSION: u32 = 1;

/// The stored index of a repository.
pub struct WalkCache {
    pub schema_version: u32,
    /// The root. Two roots whose hashes collide share a file.
    pub canonical_root: String,
    /// What the index was asked for.
    pub flags_key: u64,
    /// The modification time of each directory that was walked, relative to the root.
    pub dir_mtimes: StringMap<i64>,
    pub md_files: StringSet,
    pub by_name: StringMap<Vec<String>>,
    pub effective_exclude: Vec<String>,
}

/// What a [`WalkCache`] stands for.
#[verifier::ext_equal]
pub struct WalkView {
    pub schema_version: u32,
    pub flags_key: u64,
    pub dir_mtimes: Map<Seq<char>, i64>,
    pub index: IndexView,
}

impl View for WalkCache {
    type V = WalkView;

    open spec fn view(&self) -> WalkView {
        WalkView {
            schema_version: self.schema_version,
            flags_key: self.flags_key,
            dir_mtimes: self.dir_mtimes@,
            index: IndexView {
                root: self.canonical_root@,
                md_files: self.md_files@,
                by_name: name_views(self.by_name@),
                exclude: texts(self.effective_exclude@),
            },
        }
    }
}

/// Where the walk caches lie, below the configuration directory.
pub open spec fn walk_dir(config_home: Seq<char>) -> Seq<char> {
    dir_of(cache_dir(config_home)) + "/walk-cache"@
}

/// Where the walk caches lie: beside the directory of the extraction caches.
pub fn walk_cache_directory(config_home: &str) -> (r: String)
    ensures
        r@ == walk_dir(config_home@),
{
    concat2(dir_name(cache_directory(config_home).as_str()), "/walk-cache")
}

/// The walk cache file of the repository at `canonical_root`.
pub fn walk_cache_file_path(config_home: &str, canonical_root: &str) -> (r: String)
    ensures
        r@ == walk_dir(config_home@) + "/"@ + (hex(fnv(encode_utf8(canonical_root@)) as nat)
            + ".json"@),
{
    let name = concat2(fnv1a64_hex(canonical_root).as_str(), ".json");
    concat3(walk_cache_directory(config_home).as_str(), "/", name.as_str())
}

/// The `n` lowest bytes of a number, the lowest first.
pub open spec fn low_bytes(x: nat, n: nat) -> Seq<u8>
    decreases n,
{
    if n == 0 {
        Seq::empty()
    } else {
        seq![(x % 256) as u8] + low_bytes(x / 256, (n - 1) as nat)
    }
}

/// `1` or `0`.
pub open spec fn flag_byte(b: bool) -> u8 {
    if b {
        0x31
    } else {
        0x30
    }
}

/// What the flags key is the hash of: the flags, each with a bar behind it, and the hash of
/// the sorted patterns.
pub open spec fn flags_bytes(defaults: bool, all: bool, exclude: Seq<Seq<char>>) -> Seq<u8> {
    seq![flag_byte(defaults), 0x7c, flag_byte(all), 0x7c] + low_bytes(
        hash_of_sorted(exclude) as nat,
        8,
    )
}

fn byte_of_flag(b: bool) -> (r: u8)
    ensures
        r == flag_byte(b),
{
    if b {
        0x31
    } else {
        0x30
    }
}

/// A key for what an index is asked for. The order of the patterns does not matter.
pub fn compute_flags_key(
    use_default_excludes: bool,
    include_all_extensions: bool,
    exclude: &Vec<String>,
) -> (key: u64)
    ensures
        key == fnv(flags_bytes(use_default_excludes, include_all_extensions, texts(exclude@))),
{
    let hash: u64 = fnv1a64_of_sorted(clone_texts(exclude));
    let mut buf: Vec<u8> = vec![
        byte_of_flag(use_default_excludes),
        0x7c,
        byte_of_flag(include_all_extensions),
        0x7c,
    ];
    let ghost head = buf@;
    let ghost want = flags_bytes(use_default_excludes, include_all_extensions, texts(exclude@));
    assert(head =~= seq![
        flag_byte(use_default_excludes),
        0x7cu8,
        flag_byte(include_all_extensions),
        0x7cu8,
    ]);
    let mut x: u64 = hash;
    let mut n: usize = 8;
    while n > 0
        invariant
            buf@ + low_bytes(x as nat, n as nat) == want,
        decreases n,
    {
        let ghost before = buf@;
        let ghost x0 = x as nat;
        buf.push((x % 256) as u8);
        x = x / 256;
        n -= 1;
        assert(before + (seq![(x0 % 256) as u8] + low_bytes(x as nat, n as nat)) =~= buf@
            + low_bytes(x as nat, n as nat));
    }
    assert(buf@ + low_bytes(x as nat, 0) =~= buf@);
    fnv1a64(buf.as_slice())
}

/// The full path of a directory given relative to the root.
pub open spec fn dir_path(root: Seq<char>, rel: Seq<char>) -> Seq<char> {
    if rel.len() == 0 {
        root
    } else {
        root + "/"@ + rel
    }
}

/// The full path of a directory given relative to the root.
pub fn walked_dir(root: &str, rel: &str) -> (r: String)
    ensures
        r@ == dir_path(root@, rel@),
{
    if rel.is_empty() {
        root.to_owned()
    } else {
        concat3(root, "/", rel)
    }
}

/// No directory has changed: `now` has the time of each, as stored.
pub open spec fn unchanged(
    root: Seq<char>,
    stored: Map<Seq<char>, i64>,
    now: Map<Seq<char>, i64>,
) -> bool {
    forall|rel: Seq<char>| #[trigger]
        stored.contains_key(rel) ==> now.contains_key(dir_path(root, rel))
            && now[dir_path(root, rel)] == stored[rel]
}

/// The stored index can be used in place of a walk.
pub open spec fn usable(
    w: WalkView,
    root: Seq<char>,
    flags_key: u64,
    now: Map<Seq<char>, i64>,
) -> bool {
    &&& w.schema_version == WALK_CACHE_SCHEMA_VERSION
    &&& w.index.root == root
    &&& w.flags_key == flags_key
    &&& unchanged(root, w.dir_mtimes, now)
}

/// The stored index, where it can be used. `now` holds the modification times, by full
/// path, of the stored directories that could be looked up.
pub fn try_load_walk_cache(
    stored: Option<WalkCache>,
    canonical_root: &CanonicalPath,
    flags_key: u64,
    now: &StringMap<i64>,
) -> (r: Option<RepoIndex>)
    ensures
        match (stored, r) {
            (Some(w), Some(ix)) => usable(w@, canonical_root@, flags_key, now@) && ix@
                == w@.index,
            (Some(w), None) => !usable(w@, canonical_root@, flags_key, now@),
            (None, ix) => ix is None,
        },
{
    let cache = match stored {
        Some(c) => c,
        None => return None,
    };
    if cache.schema_version != WALK_CACHE_SCHEMA_VERSION {
        return None;
    }
    if !str_eq(cache.canonical_root.as_str(), canonical_root.as_str()) {
        return None;
    }
    if cache.flags_key != flags_key {
        return None;
    }
    let n: usize = cache.dir_mtimes.len();
    let mut i: usize = 0;
    while i < n
        invariant
            i <= n == cache.dir_mtimes.order().len(),
            forall|k: Seq<char>| #[trigger]
                cache.dir_mtimes@.contains_key(k) <==> cache.dir_mtimes.order().contains(k),
            stored == Some(cache),
            forall|j: int|
                0 <= j < i ==> {
                    let rel = #[trigger] cache.dir_mtimes.order()[j];
                    let abs = dir_path(canonical_root@, rel);
                    now@.contains_key(abs) && now@[abs] == cache.dir_mtimes@[rel]
                },
        decreases n - i,
    {
        let rel = cache.dir_mtimes.key_at(i);
        let expected: i64 = *cache.dir_mtimes.value_at(i);
        let dir = walked_dir(canonical_root.as_str(), rel);
        match now.get(dir.as_str()) {
            Some(t) => {
                if *t != expected {
                    assert(cache@.dir_mtimes.contains_key(rel@));
                    return None;
                }
            },
            None => {
                assert(cache@.dir_mtimes.contains_key(rel@));
                return None;
            },
        }
        i += 1;
    }
    proof {
        assert forall|rel: Seq<char>| #[trigger] cache@.dir_mtimes.contains_key(rel) implies ({
            let abs = dir_path(canonical_root@, rel);
            now@.contains_key(abs) && now@[abs] == cache@.dir_mtimes[rel]
        }) by {
            let j = choose|j: int|
                0 <= j < cache.dir_mtimes.order().len() && cache.dir_mtimes.order()[j] == rel;
            assert(cache.dir_mtimes.order()[j] == rel);
        }
    }
    Some(
        RepoIndex {
            root: canonical_root.clone(),
            md_files: cache.md_files,
            by_name: cache.by_name,
            exclude: cache.effective_exclude,
        },
    )
}

/// What to store of the index. Nothing when the walk caches lie under the root: storing
/// would change a directory of the very tree, and the index would be stale at once.
pub open spec fn to_store(
    walk_caches: Seq<char>,
    flags_key: u64,
    index: IndexView,
    dir_mtimes: Map<Seq<char>, i64>,
) -> Option<WalkView> {
    if under(walk_caches, index.root) {
        None
    } else {
        Some(
            WalkView {
                schema_version: WALK_CACHE_SCHEMA_VERSION,
                flags_key,
                dir_mtimes,
                index,
            },
        )
    }
}

/// What to store of the index of `canonical_root`, where `walk_caches` is the canonical
/// directory of the walk caches.
pub fn save_walk_cache(
    walk_caches: &str,
    canonical_root: &CanonicalPath,
    flags_key: u64,
    index: &RepoIndex,
    dir_mtimes: StringMap<i64>,
) -> (r: Option<WalkCache>)
    ensures
        (match r {
            Some(w) => Some(w@),
            None => None,
        }) == to_store(
            walk_caches@,
            flags_key,
            (IndexView { root: canonical_root@, ..index@ }),
            dir_mtimes@,
        ),
{
    if is_under(walk_caches, canonical_root.as_str()) {
        return None;
    }
    let w = WalkCache {
        schema_version: WALK_CACHE_SCHEMA_VERSION,
        canonical_root: canonical_root.as_str().to_owned(),
        flags_key,
        dir_mtimes,
        md_files: index.md_files.clone(),
        by_name: clone_names(&index.by_name),
        effective_exclude: clone_texts(&index.exclude),
    };
    Some(w)
}

/// A stored index is given back as it was, until a directory changes or something else is
/// asked for.
pub proof fn law_stored_index_comes_back(
    walk_caches: Seq<char>,
    flags_key: u64,
    index: IndexView,
    dir_mtimes: Map<Seq<char>, i64>,
    asked: u64,
    now: Map<Seq<char>, i64>,
)
    requires
        !under(walk_caches, index.root),
    ensures
        ({
            let w = to_store(walk_caches, flags_key, index, dir_mtimes)->0;
            &&& w.index == index
            &&& usable(w, index.root, asked, now) <==> asked == flags_key && unchanged(
                index.root,
                dir_mtimes,
                now,
            )
        }),
{
}

/// The flags key does not depend on the order of the patterns.
pub proof fn law_flags_key_order(
    defaults: bool,
    all: bool,
    a: Seq<Seq<char>>,
    b: Seq<Seq<char>>,
)
    requires
        a.to_multiset() == b.to_multiset(),
    ensures
        flags_bytes(defaults, all, a) == flags_bytes(defaults, all, b),
{
    crate::cache::law_hash_order(a, b);
}

/// The path `dir` with `name` behind it.
pub open spec fn joined(dir: Seq<char>, name: Seq<char>) -> Seq<char> {
    if dir.len() == 0 || finishes_with(dir, "/"@) {
        dir + name
    } else {
        dir + "/"@ + name
    }
}

/// The name of a file or a directory, not a step in the tree.
pub open spec fn is_name(seg: Seq<char>) -> bool {
    seg != "."@ && seg != ".."@
}

/// The canonical path of the nearest directory that has one, with the rest of the path
/// behind it. Beyond a step up, nothing is looked for.
pub open spec fn best_effort(
    rooted: bool,
    segs: Seq<Seq<char>>,
    known: Map<Seq<char>, Seq<char>>,
) -> Seq<char>
    decreases segs.len(),
{
    let path = path_of(rooted, segs);
    if known.contains_key(path) {
        known[path]
    } else if segs.len() == 0 || !is_name(segs.last()) {
        path
    } else {
        joined(best_effort(rooted, segs.drop_last(), known), segs.last())
    }
}

fn join_name(dir: &str, name: &str) -> (r: String)
    ensures
        r@ == joined(dir@, name@),
{
    if dir.is_empty() || ends_with(dir, "/") {
        concat2(dir, name)
    } else {
        concat3(dir, "/", name)
    }
}

/// The canonical form of a path that may not exist yet: that of the nearest directory
/// above it that `known` has a canonical path for, with the rest behind it.
pub fn canonicalize_best_effort(path: &str, known: &StringMap<String>) -> (r: String)
    ensures
        r@ == best_effort(begins_with(path@, "/"@), components(path@), text_values(known@)),
{
    let rooted: bool = starts_with(path, "/");
    let segs = components_of(path);
    let ghost all = texts(segs@);
    let ghost m = text_values(known@);
    let mut n: usize = segs.len();
    let mut found: Option<String> = None;
    assert(all.take(n as int) =~= all);
    loop
        invariant
            n <= segs.len(),
            all == texts(segs@),
            m == text_values(known@),
            forall|k: int|
                n < k <= all.len() ==> !m.contains_key(path_of(rooted, #[trigger] all.take(k))),
            forall|k: int| n <= k < all.len() ==> is_name(#[trigger] all[k]),
        ensures
            n <= segs.len(),
            forall|k: int|
                n < k <= all.len() ==> !m.contains_key(path_of(rooted, #[trigger] all.take(k))),
            forall|k: int| n <= k < all.len() ==> is_name(#[trigger] all[k]),
            found matches Some(f) && f@ == best_effort(rooted, all.take(n as int), m),
        decreases n,
    {
        let tail = join_first(&segs, n, "/");
        let dir = if rooted {
            concat2("/", tail.as_str())
        } else {
            tail
        };
        assert(dir@ == path_of(rooted, all.take(n as int)));
        match known.get(dir.as_str()) {
            Some(c) => {
                assert(m[dir@] == c@);
                found = Some(c.clone());
                break;
            },
            None => {},
        }
        if n == 0 {
            found = Some(dir);
            break;
        }
        let name = segs[n - 1].as_str();
        assert(all.take(n as int).last() == name@);
        if str_eq(name, ".") || str_eq(name, "..") {
            found = Some(dir);
            break;
        }
        assert(all[n - 1] == name@);
        n -= 1;
    }
    let mut r = found.unwrap();
    while n < segs.len()
        invariant
            n <= segs.len(),
            all == texts(segs@),
            r@ == best_effort(rooted, all.take(n as int), m),
            forall|k: int|
                n < k <= all.len() ==> !m.contains_key(path_of(rooted, #[trigger] all.take(k))),
            forall|k: int| n <= k < all.len() ==> is_name(#[trigger] all[k]),
        decreases segs.len() - n,
    {
        assert(all.take(n + 1).drop_last() =~= all.take(n as int));
        assert(all.take(n + 1).last() == segs@[n as int]@);
        assert(is_name(all[n as int]));
        r = join_name(r.as_str(), segs[n].as_str());
        n += 1;
    }
    assert(all.take(n as int) =~= all);
    r
}

} // verus!
