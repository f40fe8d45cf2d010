//! The extraction cache: what was read out of each file, kept as long as the file's
//! modification time, size and content hash stay the same.
use crate::collections::{lemma_members_push, lemma_take_next, StringMap, StringSet};
use crate::extract::{
    extract_headings, extract_links, headings_of, link_views, links_of, Link, LinkView,
};
use crate::path::{rel_of, rel_path};
use crate::sort::{law_sorted_members, sort_texts, sorted_members, sorted_texts};
use crate::text::{concat2, concat3, join, join_first, texts};
use vstd::prelude::*;
use vstd::utf8::encode_utf8;

verus! {

/// Goes up with any change of the stored form or of what the scanners give. A cache of
/// another version counts as missing.
pub const CACHE_SCHEMA_VERSION: u32 = 8;

/// Where the hash starts.
pub const FNV_OFFSET: u64 = 0xcbf29ce484222325;

/// What the hash is multiplied by.
pub const FNV_PRIME: u64 = 0x100000001b3;

/// The FNV-1a hash of the bytes: each byte is mixed in by exclusive or, then the hash is
/// multiplied by the prime.
pub open spec fn fnv(bytes: Seq<u8>) -> u64
    decreases bytes.len(),
{
    if bytes.len() == 0 {
        FNV_OFFSET
    } else {
        (fnv(bytes.drop_last()) ^ (bytes.last() as u64)).wrapping_mul(FNV_PRIME)
    }
}

/// The FNV-1a hash of the bytes.
pub fn fnv1a64(buf: &[u8]) -> (h: u64)
    ensures
        h == fnv(buf@),
{
    let mut h: u64 = FNV_OFFSET;
    let mut i: usize = 0;
    assert(buf@.take(0) =~= Seq::empty());
    while i < buf.len()
        invariant
            i <= buf.len(),
            h == fnv(buf@.take(i as int)),
        decreases buf.len() - i,
    {
        assert(buf@.take(i + 1).drop_last() =~= buf@.take(i as int));
        h = (h ^ (buf[i] as u64)).wrapping_mul(FNV_PRIME);
        i += 1;
    }
    assert(buf@.take(i as int) =~= buf@);
    h
}

/// The hexadecimal digit of a number below sixteen.
pub open spec fn hex_digit(d: int) -> char {
    if d < 10 {
        ('0' as int + d) as char
    } else {
        ('a' as int + d - 10) as char
    }
}

/// The number in hexadecimal digits, without leading zeros.
pub open spec fn hex(n: nat) -> Seq<char>
    decreases n,
{
    if n < 16 {
        seq![hex_digit(n as int)]
    } else {
        hex(n / 16).push(hex_digit((n % 16) as int))
    }
}

fn digit(d: u64) -> (c: char)
    requires
        d < 16,
    ensures
        c == hex_digit(d as int),
{
    if d < 10 {
        (0x30u8 + d as u8) as char
    } else {
        (0x57u8 + d as u8) as char
    }
}

fn hex_text(n: u64) -> (r: String)
    ensures
        r@ == hex(n as nat),
    decreases n,
{
    if n < 16 {
        let mut r = String::new();
        r.push(digit(n));
        assert(r@ =~= seq![hex_digit(n as int)]);
        r
    } else {
        let mut r = hex_text(n / 16);
        r.push(digit(n % 16));
        r
    }
}

/// The FNV-1a hash of the text, in lower-case hexadecimal without leading zeros.
pub fn fnv1a64_hex(s: &str) -> (r: String)
    ensures
        r@ == hex(fnv(encode_utf8(s@)) as nat),
{
    hex_text(fnv1a64(s.as_bytes()))
}

/// The hash of the texts, sorted and joined with zero characters.
pub open spec fn hash_of_sorted(items: Seq<Seq<char>>) -> u64 {
    fnv(encode_utf8(join(sorted_texts(items), "\0"@)))
}

/// The hash of the texts, sorted and joined with zero characters. The order of the texts
/// does not matter.
pub fn fnv1a64_of_sorted(items: Vec<String>) -> (h: u64)
    ensures
        h == hash_of_sorted(texts(items@)),
{
    let sorted = sort_texts(items);
    let n: usize = sorted.len();
    let joined = join_first(&sorted, n, "\0");
    assert(texts(sorted@).take(n as int) =~= texts(sorted@));
    fnv1a64(joined.as_str().as_bytes())
}

/// The hash of the names of the known repositories. Its own type, so that it is not mixed
/// up with other hashes.
#[derive(Debug, Clone, Copy, PartialEq, Eq, Structural)]
pub struct RepoSetHash(pub u64);

/// The hash of a file's bytes.
#[derive(Debug, Clone, Copy, PartialEq, Eq, Structural)]
pub struct ContentHash(pub u64);

/// The hash of a set of repository names; zero for no repositories.
pub open spec fn repos_hash(repos: Set<Seq<char>>) -> RepoSetHash {
    if repos == Set::<Seq<char>>::empty() {
        RepoSetHash(0)
    } else {
        RepoSetHash(fnv(encode_utf8(join(sorted_members(repos), "\0"@))))
    }
}

/// The members of a set as a list.
pub fn members(s: &StringSet) -> (r: Vec<String>)
    ensures
        texts(r@) == s.order(),
{
    let n: usize = s.len();
    let mut r: Vec<String> = Vec::new();
    let mut i: usize = 0;
    while i < n
        invariant
            i <= n == s.order().len(),
            texts(r@) == s.order().take(i as int),
        decreases n - i,
    {
        let ghost before = r@;
        r.push(s.get(i).to_owned());
        assert(texts(r@) =~= texts(before).push(s.order()[i as int]));
        i += 1;
    }
    assert(s.order().take(n as int) =~= s.order());
    r
}

/// The members of a set in order.
pub fn sorted_list(s: &StringSet) -> (r: Vec<String>)
    ensures
        texts(r@) == sorted_members(s@),
{
    let _ = s.len();
    proof {
        law_sorted_members(s@, s.order());
    }
    sort_texts(members(s))
}

/// The hash of the set of repository names.
pub fn compute_repo_set_hash(repos: &StringSet) -> (h: RepoSetHash)
    ensures
        h == repos_hash(repos@),
{
    if repos.is_empty() {
        return RepoSetHash(0);
    }
    let _ = repos.len();
    proof {
        law_sorted_members(repos@, repos.order());
    }
    RepoSetHash(fnv1a64_of_sorted(members(repos)))
}

/// The hash of a list of texts does not depend on their order.
pub proof fn law_hash_order(a: Seq<Seq<char>>, b: Seq<Seq<char>>)
    requires
        a.to_multiset() == b.to_multiset(),
    ensures
        hash_of_sorted(a) == hash_of_sorted(b),
{
    crate::sort::law_sorted_order(a, b);
}

/// Where the caches lie, below the configuration directory.
pub open spec fn cache_dir(config_home: Seq<char>) -> Seq<char> {
    config_home + "/md-orphan/cache"@
}

/// The cache file of a repository.
pub open spec fn cache_file(config_home: Seq<char>, root: Seq<char>) -> Seq<char> {
    cache_dir(config_home) + "/"@ + (hex(fnv(encode_utf8(root)) as nat) + ".json"@)
}

/// Where the caches lie, below the configuration directory.
pub fn cache_directory(config_home: &str) -> (r: String)
    ensures
        r@ == cache_dir(config_home@),
{
    concat2(config_home, "/md-orphan/cache")
}

/// The cache file of the repository at `canonical_root`, named by the hash of that path.
pub fn cache_file_path(config_home: &str, canonical_root: &str) -> (r: String)
    ensures
        r@ == cache_file(config_home@, canonical_root@),
{
    let name = concat2(fnv1a64_hex(canonical_root).as_str(), ".json");
    concat3(cache_directory(config_home).as_str(), "/", name.as_str())
}

/// What is read out of a file: its links and the anchors of its headings.
pub struct ExtractedFile {
    pub links: Vec<Link>,
    pub headings: StringSet,
}

/// What an [`ExtractedFile`] stands for.
#[verifier::ext_equal]
pub struct ExtractedView {
    pub links: Seq<LinkView>,
    pub headings: Set<Seq<char>>,
}

impl View for ExtractedFile {
    type V = ExtractedView;

    open spec fn view(&self) -> ExtractedView {
        ExtractedView { links: link_views(self.links@), headings: self.headings@ }
    }
}

/// The links, each cloned.
pub fn clone_links(links: &Vec<Link>) -> (r: Vec<Link>)
    ensures
        link_views(r@) == link_views(links@),
{
    let mut r: Vec<Link> = Vec::new();
    let mut i: usize = 0;
    while i < links.len()
        invariant
            i <= links.len(),
            r.len() == i,
            forall|j: int| 0 <= j < i ==> (#[trigger] r@[j])@ == links@[j]@,
        decreases links.len() - i,
    {
        r.push(links[i].clone());
        i += 1;
    }
    assert(link_views(r@) =~= link_views(links@));
    r
}

impl Clone for ExtractedFile {
    fn clone(&self) -> (r: Self)
        ensures
            r@ == self@,
    {
        ExtractedFile { links: clone_links(&self.links), headings: self.headings.clone() }
    }
}

/// What is read out of the bytes of a file.
pub open spec fn fresh(bytes: Seq<u8>, repos: Set<Seq<char>>) -> ExtractedView {
    ExtractedView { links: links_of(bytes, repos), headings: headings_of(bytes) }
}

/// Reads the links and headings out of the bytes of a file.
pub fn extract_fresh(buf: &[u8], repos: &StringSet) -> (r: ExtractedFile)
    ensures
        r@ == fresh(buf@, repos@),
{
    ExtractedFile { links: extract_links(buf, repos), headings: extract_headings(buf) }
}

/// What the cache keeps of one file.
pub struct CacheEntry {
    pub mtime_ns: i64,
    pub size: i64,
    pub content_hash: ContentHash,
    pub links: Vec<Link>,
    pub headings: Vec<String>,
}

/// What a [`CacheEntry`] stands for.
#[verifier::ext_equal]
pub struct EntryView {
    pub mtime_ns: i64,
    pub size: i64,
    pub content_hash: ContentHash,
    pub links: Seq<LinkView>,
    pub headings: Seq<Seq<char>>,
}

impl View for CacheEntry {
    type V = EntryView;

    open spec fn view(&self) -> EntryView {
        EntryView {
            mtime_ns: self.mtime_ns,
            size: self.size,
            content_hash: self.content_hash,
            links: link_views(self.links@),
            headings: texts(self.headings@),
        }
    }
}

/// The cache of one repository.
pub struct LinkCache {
    pub schema_version: u32,
    /// The set of repositories that the entries were made under. What counts as a
    /// cross-repository link depends on it.
    pub repo_set_hash: RepoSetHash,
    /// The entries by path relative to the repository root.
    pub entries: StringMap<CacheEntry>,
}

/// What a [`LinkCache`] stands for.
#[verifier::ext_equal]
pub struct CacheView {
    pub schema_version: u32,
    pub repo_set_hash: RepoSetHash,
    pub entries: Map<Seq<char>, EntryView>,
}

/// What a map of entries stands for.
pub open spec fn entry_views(m: Map<Seq<char>, CacheEntry>) -> Map<Seq<char>, EntryView> {
    m.map_values(|e: CacheEntry| e@)
}

impl View for LinkCache {
    type V = CacheView;

    open spec fn view(&self) -> CacheView {
        CacheView {
            schema_version: self.schema_version,
            repo_set_hash: self.repo_set_hash,
            entries: entry_views(self.entries@),
        }
    }
}

/// A cache without entries.
pub open spec fn empty_cache(hash: RepoSetHash) -> CacheView {
    CacheView {
        schema_version: CACHE_SCHEMA_VERSION,
        repo_set_hash: hash,
        entries: Map::empty(),
    }
}

impl LinkCache {
    /// A cache without entries.
    pub fn new(repo_set_hash: RepoSetHash) -> (r: Self)
        ensures
            r@ == empty_cache(repo_set_hash),
    {
        let r = LinkCache {
            schema_version: CACHE_SCHEMA_VERSION,
            repo_set_hash,
            entries: StringMap::new(),
        };
        assert(r@ =~= empty_cache(repo_set_hash));
        r
    }
}

/// What the stored cache of a repository is worth: all of it when it has this version and
/// was made under the same repositories, nothing otherwise.
pub open spec fn accepted(stored: Option<CacheView>, hash: RepoSetHash) -> CacheView {
    match stored {
        Some(c) => if c.schema_version == CACHE_SCHEMA_VERSION && c.repo_set_hash == hash {
            c
        } else {
            empty_cache(hash)
        },
        None => empty_cache(hash),
    }
}

/// What an optional cache stands for.
pub open spec fn opt_cache(c: Option<LinkCache>) -> Option<CacheView> {
    match c {
        Some(c) => Some(c@),
        None => None,
    }
}

/// The cache to start with, given what its file held: nothing when there was no file, or
/// one that could not be decoded.
pub fn load_link_cache(stored: Option<LinkCache>, repo_set_hash: RepoSetHash) -> (r: LinkCache)
    ensures
        r@ == accepted(opt_cache(stored), repo_set_hash),
{
    match stored {
        Some(decoded) => {
            if decoded.schema_version != CACHE_SCHEMA_VERSION || decoded.repo_set_hash
                != repo_set_hash {
                LinkCache::new(repo_set_hash)
            } else {
                decoded
            }
        },
        None => LinkCache::new(repo_set_hash),
    }
}

/// When a file was last changed, in nanoseconds, and how long it is.
#[derive(Debug, Clone, Copy, PartialEq, Eq, Structural)]
pub struct Stamp {
    pub mtime_ns: i64,
    pub size: i64,
}

/// The caches of the repositories, loaded as they are needed.
pub struct ExtractionCache {
    caches: StringMap<LinkCache>,
    dirty: StringSet,
    pub enabled: bool,
    repos: StringSet,
    repo_set_hash: RepoSetHash,
}

/// What an [`ExtractionCache`] stands for.
#[verifier::ext_equal]
pub struct CacheState {
    /// The loaded caches, by repository root.
    pub caches: Map<Seq<char>, CacheView>,
    /// The roots whose cache differs from the stored one.
    pub dirty: Set<Seq<char>>,
    pub enabled: bool,
    /// The known repositories.
    pub repos: Set<Seq<char>>,
    pub repo_set_hash: RepoSetHash,
}

/// What a map of caches stands for.
pub open spec fn cache_views(m: Map<Seq<char>, LinkCache>) -> Map<Seq<char>, CacheView> {
    m.map_values(|c: LinkCache| c@)
}

impl View for ExtractionCache {
    type V = CacheState;

    closed spec fn view(&self) -> CacheState {
        CacheState {
            caches: cache_views(self.caches@),
            dirty: self.dirty@,
            enabled: self.enabled,
            repos: self.repos@,
            repo_set_hash: self.repo_set_hash,
        }
    }
}

/// The entry made of the bytes of a file.
pub open spec fn new_entry(bytes: Seq<u8>, stamp: Stamp, repos: Set<Seq<char>>) -> EntryView {
    EntryView {
        mtime_ns: stamp.mtime_ns,
        size: stamp.size,
        content_hash: ContentHash(fnv(bytes)),
        links: links_of(bytes, repos),
        headings: sorted_members(headings_of(bytes)),
    }
}

/// The entry is for a file with this stamp and content hash.
pub open spec fn entry_fits(e: EntryView, bytes: Seq<u8>, stamp: Stamp) -> bool {
    e.mtime_ns == stamp.mtime_ns && e.size == stamp.size && e.content_hash == ContentHash(
        fnv(bytes),
    )
}

/// What an entry gives back.
pub open spec fn entry_file(e: EntryView) -> ExtractedView {
    ExtractedView { links: e.links, headings: e.headings.to_set() }
}

impl CacheState {
    /// The state with the cache of `root` loaded, of which the file held `stored`.
    pub open spec fn loaded(self, root: Seq<char>, stored: Option<CacheView>) -> CacheState {
        if self.caches.contains_key(root) {
            self
        } else {
            CacheState {
                caches: self.caches.insert(root, accepted(stored, self.repo_set_hash)),
                ..self
            }
        }
    }

    /// The state with the entry `key` in the cache of `root`.
    pub open spec fn with_entry(self, root: Seq<char>, key: Seq<char>, e: EntryView) -> CacheState {
        let c = self.caches[root];
        CacheState {
            caches: self.caches.insert(
                root,
                CacheView { entries: c.entries.insert(key, e), ..c },
            ),
            dirty: self.dirty.insert(root),
            ..self
        }
    }

    /// What reading a file gives, and the state after it. Caching is for a file with a
    /// stamp inside the repository.
    pub open spec fn after_read(
        self,
        file: Seq<char>,
        root: Seq<char>,
        bytes: Seq<u8>,
        stamp: Option<Stamp>,
        stored: Option<CacheView>,
    ) -> (ExtractedView, CacheState) {
        match (self.enabled, rel_of(file, root), stamp) {
            (true, Some(key), Some(stamp)) => {
                let next = self.loaded(root, stored);
                let entries = next.caches[root].entries;
                if entries.contains_key(key) && entry_fits(entries[key], bytes, stamp) {
                    (entry_file(entries[key]), next)
                } else {
                    (
                        fresh(bytes, self.repos),
                        next.with_entry(root, key, new_entry(bytes, stamp, self.repos)),
                    )
                }
            },
            _ => (fresh(bytes, self.repos), self),
        }
    }

    /// The state without the entries of `root` that are not in `keep`.
    pub open spec fn pruned(self, root: Seq<char>, keep: Set<Seq<char>>) -> CacheState {
        let c = self.caches[root];
        if self.caches.contains_key(root) && !c.entries.dom().subset_of(keep) {
            CacheState {
                caches: self.caches.insert(
                    root,
                    CacheView { entries: c.entries.restrict(keep), ..c },
                ),
                dirty: self.dirty.insert(root),
                ..self
            }
        } else {
            self
        }
    }
}

/// The set of the texts.
fn set_of(v: &Vec<String>) -> (r: StringSet)
    ensures
        r@ == texts(v@).to_set(),
{
    let mut r = StringSet::new();
    let mut i: usize = 0;
    assert(texts(v@).take(0).to_set() =~= Set::empty());
    while i < v.len()
        invariant
            i <= v.len(),
            r@ == texts(v@).take(i as int).to_set(),
        decreases v.len() - i,
    {
        let ghost before = texts(v@).take(i as int);
        let ghost next = texts(v@).take(i + 1);
        let ghost k = v@[i as int]@;
        proof {
            lemma_take_next(texts(v@), i as int);
        }
        assert(next.to_set() =~= before.to_set().insert(k));
        let _ = r.insert(v[i].clone());
        i += 1;
    }
    assert(texts(v@).take(i as int) =~= texts(v@));
    r
}

impl ExtractionCache {
    /// No cache loaded yet; `repos` are the known repositories.
    pub fn new(enabled: bool, repos: StringSet) -> (r: Self)
        ensures
            r@ == (CacheState {
                caches: Map::empty(),
                dirty: Set::empty(),
                enabled,
                repos: repos@,
                repo_set_hash: repos_hash(repos@),
            }),
    {
        let repo_set_hash = compute_repo_set_hash(&repos);
        let r = ExtractionCache {
            caches: StringMap::new(),
            dirty: StringSet::new(),
            enabled,
            repos,
            repo_set_hash,
        };
        assert(r@.caches =~= Map::empty());
        r
    }

    /// Whether the next read of a file of `root` has a use for its cache file.
    pub fn wants_stored(&self, root: &str) -> (r: bool)
        ensures
            r == (self@.enabled && !self@.caches.contains_key(root@)),
    {
        self.enabled && !self.is_loaded(root)
    }

    /// Whether the cache of `root` has been loaded.
    pub fn is_loaded(&self, root: &str) -> (r: bool)
        ensures
            r == self@.caches.contains_key(root@),
    {
        self.caches.contains_key(root)
    }

    /// The loaded cache of `root`.
    pub fn cache(&self, root: &str) -> (r: Option<&LinkCache>)
        ensures
            match r {
                Some(c) => self@.caches.contains_key(root@) && c@ == self@.caches[root@],
                None => !self@.caches.contains_key(root@),
            },
    {
        self.caches.get(root)
    }

    /// The known repositories.
    pub fn repos(&self) -> (r: &StringSet)
        ensures
            r@ == self@.repos,
    {
        &self.repos
    }

    fn ensure_loaded(&mut self, root: &str, stored: Option<LinkCache>)
        ensures
            final(self)@ == old(self)@.loaded(root@, opt_cache(stored)),
            final(self)@.caches.contains_key(root@),
    {
        if !self.caches.contains_key(root) {
            let cache = load_link_cache(stored, self.repo_set_hash);
            self.caches.insert(root.to_owned(), cache);
        }
        assert(self@ =~= old(self)@.loaded(root@, opt_cache(stored)));
    }

    /// The links and headings of a file: `source` are its bytes, where it could be read,
    /// `stamp` its stamp, where it could be had, and `stored` what the cache file of the
    /// repository held, in case that cache is not loaded yet. A file outside the
    /// repository is not cached.
    pub fn read(
        &mut self,
        file_path: &str,
        repo_root: &str,
        source: Option<&[u8]>,
        stamp: Option<Stamp>,
        stored: Option<LinkCache>,
    ) -> (r: Option<ExtractedFile>)
        ensures
            match (source, r) {
                (Some(buf), Some(f)) => (f@, final(self)@) == old(self)@.after_read(
                    file_path@,
                    repo_root@,
                    buf@,
                    stamp,
                    opt_cache(stored),
                ),
                (None, None) => final(self)@ == old(self)@,
                _ => false,
            },
    {
        let buf = match source {
            Some(b) => b,
            None => return None,
        };
        if !self.enabled {
            return Some(extract_fresh(buf, &self.repos));
        }
        let key = match rel_path(file_path, repo_root) {
            Some(k) => k.to_owned(),
            None => return Some(extract_fresh(buf, &self.repos)),
        };
        let stamp = match stamp {
            Some(s) => s,
            None => return Some(extract_fresh(buf, &self.repos)),
        };
        let ghost before = self@;
        let ghost start = self@.loaded(repo_root@, opt_cache(stored));
        let hash = ContentHash(fnv1a64(buf));
        self.ensure_loaded(repo_root, stored);
        assert(self@ == start);
        let ghost entries = start.caches[repo_root@].entries;
        match self.caches.get(repo_root) {
            Some(cache) => {
                assert(cache@ == start.caches[repo_root@]);
                match cache.entries.get(key.as_str()) {
                    Some(entry) => {
                        if entry.mtime_ns == stamp.mtime_ns && entry.size == stamp.size
                            && entry.content_hash == hash {
                            return Some(
                                ExtractedFile {
                                    links: clone_links(&entry.links),
                                    headings: set_of(&entry.headings),
                                },
                            );
                        }
                    },
                    None => {},
                }
            },
            None => {},
        }
        let result = extract_fresh(buf, &self.repos);
        let entry = CacheEntry {
            mtime_ns: stamp.mtime_ns,
            size: stamp.size,
            content_hash: hash,
            links: clone_links(&result.links),
            headings: sorted_list(&result.headings),
        };
        let ghost ev = entry@;
        let ghost kt = key@;
        let mut cache = self.caches.replace(repo_root, LinkCache::new(self.repo_set_hash));
        let ghost old_entries = cache.entries@;
        cache.entries.insert(key, entry);
        assert(entry_views(cache.entries@) =~= entry_views(old_entries).insert(kt, ev));
        self.caches.insert(repo_root.to_owned(), cache);
        let _ = self.dirty.insert(repo_root.to_owned());
        proof {
            assert(ev =~= new_entry(buf@, stamp, before.repos));
            assert(self@ =~= start.with_entry(repo_root@, kt, ev));
        }
        Some(result)
    }

    /// Drops the entries of files that are no longer there.
    pub fn prune(&mut self, canonical_root: &str, keep_relative_paths: &StringSet)
        ensures
            final(self)@ == old(self)@.pruned(canonical_root@, keep_relative_paths@),
    {
        let ghost root = canonical_root@;
        let ghost keep = keep_relative_paths@;
        let stale: bool = match self.caches.get(canonical_root) {
            Some(cache) => {
                let n: usize = cache.entries.len();
                let mut i: usize = 0;
                let mut found: bool = false;
                while i < n && !found
                    invariant
                        i <= n == cache.entries.order().len(),
                        keep == keep_relative_paths@,
                        forall|k: Seq<char>| #[trigger]
                            cache.entries@.contains_key(k) <==> cache.entries.order().contains(k),
                        !found ==> forall|j: int|
                            0 <= j < i ==> keep.contains(#[trigger] cache.entries.order()[j]),
                        found ==> !cache.entries@.dom().subset_of(keep),
                    decreases n - i,
                {
                    let k = cache.entries.key_at(i);
                    if !keep_relative_paths.contains(k) {
                        assert(cache.entries@.dom().contains(k@));
                        found = true;
                    }
                    i += 1;
                }
                assert(found == !cache.entries@.dom().subset_of(keep));
                assert(entry_views(cache.entries@).dom() =~= cache.entries@.dom());
                found
            },
            None => false,
        };
        assert(stale == (self@.caches.contains_key(root)
            && !self@.caches[root].entries.dom().subset_of(keep)));
        if !stale {
            return;
        }
        let mut cache = self.caches.replace(canonical_root, LinkCache::new(self.repo_set_hash));
        let ghost old_entries = cache.entries@;
        cache.entries.retain(keep_relative_paths);
        assert(entry_views(cache.entries@) =~= entry_views(old_entries).restrict(keep));
        self.caches.insert(canonical_root.to_owned(), cache);
        let _ = self.dirty.insert(canonical_root.to_owned());
        assert(self@ =~= old(self)@.pruned(root, keep));
    }

    /// The roots whose cache has to be written, each once; they count as written from then
    /// on. None when caching is off.
    pub fn save(&mut self) -> (roots: Vec<String>)
        ensures
            !old(self)@.enabled ==> roots@.len() == 0 && final(self)@ == old(self)@,
            old(self)@.enabled ==> {
                &&& final(self)@ == (CacheState { dirty: Set::empty(), ..old(self)@ })
                &&& texts(roots@).no_duplicates()
                &&& texts(roots@).to_set() == old(self)@.dirty.intersect(old(self)@.caches.dom())
            },
    {
        let mut roots: Vec<String> = Vec::new();
        if !self.enabled {
            return roots;
        }
        let n: usize = self.dirty.len();
        let mut i: usize = 0;
        let ghost order = self.dirty.order();
        while i < n
            invariant
                i <= n == order.len(),
                order == self.dirty.order(),
                order.no_duplicates(),
                self == old(self),
                texts(roots@).no_duplicates(),
                forall|k: Seq<char>| #[trigger]
                    texts(roots@).contains(k) <==> (order.take(i as int).contains(k)
                        && self.caches@.contains_key(k)),
            decreases n - i,
        {
            let ghost before = texts(roots@);
            let ghost k = order[i as int];
            proof {
                lemma_take_next(order, i as int);
            }
            let root = self.dirty.get(i);
            if self.caches.contains_key(root) {
                roots.push(root.to_owned());
                proof {
                    let after = texts(roots@);
                    assert(after =~= before.push(k));
                    lemma_members_push(before, k);
                    assert forall|a: int, b: int| 0 <= a < after.len() && 0 <= b < after.len() && a
                        != b implies after[a] != after[b] by {
                        if a < before.len() && b < before.len() {
                            assert(before[a] != before[b]);
                        } else if a < before.len() {
                            assert(before.contains(before[a]));
                        } else {
                            assert(before.contains(before[b]));
                        }
                    }
                }
            }
            i += 1;
        }
        proof {
            assert(order.take(n as int) =~= order);
            assert(texts(roots@).to_set() =~= self@.dirty.intersect(self@.caches.dom())) by {
                assert forall|x: Seq<char>| texts(roots@).contains(x) <==> (self.dirty@.contains(x)
                    && self.caches@.contains_key(x)) by {
                    assert(order.contains(x) <==> order.to_set().contains(x));
                }
            }
        }
        self.dirty = StringSet::new();
        assert(self@ =~= (CacheState { dirty: Set::empty(), ..old(self)@ }));
        roots
    }
}

/// Reading a file a second time, unchanged, gives the same and changes nothing more.
pub proof fn law_read_twice(
    s: CacheState,
    file: Seq<char>,
    root: Seq<char>,
    bytes: Seq<u8>,
    stamp: Option<Stamp>,
    stored: Option<CacheView>,
    stored_later: Option<CacheView>,
)
    ensures
        ({
            let (first, after) = s.after_read(file, root, bytes, stamp, stored);
            after.after_read(file, root, bytes, stamp, stored_later) == (first, after)
        }),
{
    crate::extract::law_headings_finite(bytes);
    crate::sort::law_sorted_keeps_members(headings_of(bytes));
}

/// A file whose content hash is not that of its entry is read afresh, whatever its stamp
/// says: no stale entry is served.
pub proof fn law_changed_content_is_read_afresh(
    s: CacheState,
    file: Seq<char>,
    root: Seq<char>,
    bytes: Seq<u8>,
    stamp: Option<Stamp>,
    stored: Option<CacheView>,
)
    requires
        ({
            let entries = s.loaded(root, stored).caches[root].entries;
            rel_of(file, root) matches Some(key) ==> entries.contains_key(key)
                ==> entries[key].content_hash != ContentHash(fnv(bytes))
        }),
    ensures
        s.after_read(file, root, bytes, stamp, stored).0 == fresh(bytes, s.repos),
{
}

/// The entry is what was read out of these bytes.
pub open spec fn made_from(e: EntryView, bytes: Seq<u8>, repos: Set<Seq<char>>) -> bool {
    e.content_hash == ContentHash(fnv(bytes)) && entry_file(e) == fresh(bytes, repos)
}

/// The entry of the file `key` in the cache of `root`, where there is one, is what was read
/// out of some content.
pub open spec fn genuine_at(s: CacheState, root: Seq<char>, key: Seq<char>) -> bool {
    s.caches.contains_key(root) && s.caches[root].entries.contains_key(key)
        ==> exists|bytes: Seq<u8>| #[trigger]
        made_from(s.caches[root].entries[key], bytes, s.repos)
}

/// Every entry is what was read out of some content.
pub open spec fn genuine(s: CacheState) -> bool {
    forall|root: Seq<char>, key: Seq<char>| #[trigger] genuine_at(s, root, key)
}

/// Caching is not noticed: reading gives what a content with the hash of the bytes gives,
/// be it from the cache, and the caches keep only what was read.
pub proof fn law_cache_is_transparent(
    s: CacheState,
    file: Seq<char>,
    root: Seq<char>,
    bytes: Seq<u8>,
    stamp: Option<Stamp>,
    stored: Option<CacheView>,
)
    requires
        genuine(s),
        genuine(s.loaded(root, stored)),
    ensures
        exists|b: Seq<u8>| #[trigger]
            fnv(b) == fnv(bytes) && s.after_read(file, root, bytes, stamp, stored).0 == fresh(
                b,
                s.repos,
            ),
        genuine(s.after_read(file, root, bytes, stamp, stored).1),
{
    let (got, after) = s.after_read(file, root, bytes, stamp, stored);
    crate::extract::law_headings_finite(bytes);
    crate::sort::law_sorted_keeps_members(headings_of(bytes));
    assert(fnv(bytes) == fnv(bytes));
    let next = s.loaded(root, stored);
    match (s.enabled, rel_of(file, root), stamp) {
        (true, Some(key), Some(stamp)) => {
            let entries = next.caches[root].entries;
            assert(genuine_at(next, root, key));
            if entries.contains_key(key) && entry_fits(entries[key], bytes, stamp) {
                let b = choose|b: Seq<u8>| #[trigger] made_from(entries[key], b, s.repos);
                assert(fnv(b) == fnv(bytes) && got == fresh(b, s.repos));
            } else {
                let e = new_entry(bytes, stamp, s.repos);
                assert(made_from(e, bytes, s.repos));
                assert forall|r: Seq<char>, k: Seq<char>| #[trigger] genuine_at(after, r, k) by {
                    assert(genuine_at(next, r, k));
                    if r == root && k == key {
                        assert(after.caches[r].entries[k] == e);
                        assert(made_from(after.caches[r].entries[k], bytes, after.repos));
                    } else if after.caches.contains_key(r) && after.caches[r].entries.contains_key(
                        k,
                    ) {
                        assert(after.caches[r].entries[k] == next.caches[r].entries[k]);
                        let b = choose|b: Seq<u8>| #[trigger]
                            made_from(next.caches[r].entries[k], b, next.repos);
                        assert(made_from(after.caches[r].entries[k], b, after.repos));
                    }
                }
            }
        },
        _ => {},
    }
}

/// Every loaded cache has the current version and belongs to the known repositories.
pub open spec fn all_current(s: CacheState) -> bool {
    forall|root: Seq<char>| #[trigger]
        s.caches.contains_key(root) ==> s.caches[root].schema_version == CACHE_SCHEMA_VERSION
            && s.caches[root].repo_set_hash == s.repo_set_hash
}

/// Reading and pruning leave only current caches.
pub proof fn law_caches_stay_current(
    s: CacheState,
    file: Seq<char>,
    root: Seq<char>,
    bytes: Seq<u8>,
    stamp: Option<Stamp>,
    stored: Option<CacheView>,
    keep: Set<Seq<char>>,
)
    requires
        all_current(s),
    ensures
        all_current(s.after_read(file, root, bytes, stamp, stored).1),
        all_current(s.pruned(root, keep)),
{
}

/// What was stored is what the next run starts with, as long as the set of known
/// repositories stays the same.
pub proof fn law_stored_is_loaded(s: CacheState, root: Seq<char>)
    requires
        all_current(s),
        s.caches.contains_key(root),
    ensures
        accepted(Some(s.caches[root]), s.repo_set_hash) == s.caches[root],
{
}

/// A cache that was made under another set of repositories, or under another version, is
/// worth nothing.
pub proof fn law_foreign_cache_is_dropped(c: CacheView, hash: RepoSetHash)
    requires
        c.repo_set_hash != hash || c.schema_version != CACHE_SCHEMA_VERSION,
    ensures
        accepted(Some(c), hash).entries == Map::<Seq<char>, EntryView>::empty(),
{
}

} // verus!
