//! What the caches promise: when an entry is served, what is kept of a file, and when a stored
//! index stands in for a walk.
use crate::cache::{
    cache_dir, cache_file, fnv, hash_of_sorted, hex, repos_hash, CACHE_SCHEMA_VERSION, CacheState,
    CacheView, RepoSetHash, Stamp,
};
use crate::config::path_of;
use crate::discovery::IndexView;
use crate::extract::{headings_of, law_headings_finite, links_of};
use crate::path::{law_rel_path, under};
use crate::sort::{
    law_sorted_keeps_members, law_sorted_members, law_sorted_order, law_text_order, sorted_members,
    sorted_texts, text_le, text_order,
};
use crate::telling::lemma_dir_of;
use crate::text::join;
use crate::walk_cache::{
    best_effort, dir_path, flags_bytes, low_bytes, to_store, usable, walk_dir,
    WALK_CACHE_SCHEMA_VERSION, WalkView,
};
use vstd::prelude::*;
use vstd::relations::sorted_by;
use vstd::utf8::encode_utf8;

verus! {

/// An entry is served exactly when the time, the size and the hash of the content are all
/// those of the file. Then it is served as it is, and nothing changes.
pub proof fn law_entry_served(
    s: CacheState,
    root: Seq<char>,
    key: Seq<char>,
    bytes: Seq<u8>,
    stamp: Stamp,
    stored: Option<CacheView>,
)
    requires
        s.enabled,
        s.caches.contains_key(root),
        s.caches[root].entries.contains_key(key),
    ensures
        ({
            let file = root + seq!['/'] + key;
            let e = s.caches[root].entries[key];
            let (got, after) = s.after_read(file, root, bytes, Some(stamp), stored);
            let same = e.mtime_ns == stamp.mtime_ns && e.size == stamp.size && e.content_hash.0
                == fnv(bytes);
            &&& same ==> got.links == e.links && got.headings == e.headings.to_set() && after == s
            &&& !same ==> got.links == links_of(bytes, s.repos) && got.headings == headings_of(
                bytes,
            )
        }),
{
    law_rel_path(root, key, root);
}

/// A file that is read afresh is kept, with its time, size and hash and what was read out of
/// it. All other entries stay, and the cache of the repository is to be stored.
pub proof fn law_entry_kept(
    s: CacheState,
    root: Seq<char>,
    key: Seq<char>,
    bytes: Seq<u8>,
    stamp: Stamp,
    stored: Option<CacheView>,
)
    requires
        s.enabled,
        s.caches.contains_key(root),
        s.caches[root].entries.contains_key(key) ==> {
            let e = s.caches[root].entries[key];
            e.mtime_ns != stamp.mtime_ns || e.size != stamp.size || e.content_hash.0 != fnv(bytes)
        },
    ensures
        ({
            let file = root + seq!['/'] + key;
            let (got, after) = s.after_read(file, root, bytes, Some(stamp), stored);
            let was = s.caches[root].entries;
            let now = after.caches[root].entries;
            &&& got.links == links_of(bytes, s.repos) && got.headings == headings_of(bytes)
            &&& now.contains_key(key) && now[key].mtime_ns == stamp.mtime_ns && now[key].size
                == stamp.size && now[key].content_hash.0 == fnv(bytes) && now[key].links
                == links_of(bytes, s.repos) && now[key].headings.to_set() == headings_of(bytes)
            &&& in_order(now[key].headings)
            &&& now.remove(key) == was.remove(key)
            &&& after.caches.remove(root) == s.caches.remove(root)
            &&& after.dirty == s.dirty.insert(root)
            &&& after.enabled == s.enabled && after.repos == s.repos && after.repo_set_hash
                == s.repo_set_hash
        }),
{
    law_rel_path(root, key, root);
    law_headings_finite(bytes);
    law_sorted_keeps_members(headings_of(bytes));
    let file = root + seq!['/'] + key;
    let after = s.after_read(file, root, bytes, Some(stamp), stored).1;
    let was = s.caches[root].entries;
    let now = after.caches[root].entries;
    lemma_sorted(headings_of(bytes));
    assert(now.remove(key) =~= was.remove(key));
    assert(after.caches.remove(root) =~= s.caches.remove(root));
}

/// Without caching, without a stamp, or outside the repository, a file is read afresh and
/// nothing is kept.
pub proof fn law_not_cached(
    s: CacheState,
    file: Seq<char>,
    root: Seq<char>,
    bytes: Seq<u8>,
    stamp: Option<Stamp>,
    stored: Option<CacheView>,
)
    requires
        !s.enabled || stamp is None || !under(file, root),
    ensures
        ({
            let (got, after) = s.after_read(file, root, bytes, stamp, stored);
            got.links == links_of(bytes, s.repos) && got.headings == headings_of(bytes) && after
                == s
        }),
{
}

/// The stored cache of a repository is taken up as it is the first time one of its files is
/// read, when it has this version and was made under the same repositories.
pub proof fn law_stored_cache_taken_up(
    s: CacheState,
    root: Seq<char>,
    key: Seq<char>,
    bytes: Seq<u8>,
    stamp: Stamp,
    stored: CacheView,
)
    requires
        s.enabled,
        !s.caches.contains_key(root),
        stored.schema_version == CACHE_SCHEMA_VERSION,
        stored.repo_set_hash == s.repo_set_hash,
        stored.entries.contains_key(key),
        stored.entries[key].mtime_ns == stamp.mtime_ns,
        stored.entries[key].size == stamp.size,
        stored.entries[key].content_hash.0 == fnv(bytes),
    ensures
        ({
            let file = root + seq!['/'] + key;
            let (got, after) = s.after_read(file, root, bytes, Some(stamp), Some(stored));
            got.links == stored.entries[key].links && got.headings
                == stored.entries[key].headings.to_set() && after.caches == s.caches.insert(
                root,
                stored,
            ) && after.dirty == s.dirty
        }),
{
    law_rel_path(root, key, root);
}

/// Pruning drops the entries of a repository that are not to be kept, and no others, and marks
/// the cache when it dropped any.
pub proof fn law_pruned_entries(s: CacheState, root: Seq<char>, keep: Set<Seq<char>>, k: Seq<char>)
    requires
        s.caches.contains_key(root),
    ensures
        ({
            let after = s.pruned(root, keep);
            let was = s.caches[root].entries;
            let now = after.caches[root].entries;
            &&& now.contains_key(k) <==> was.contains_key(k) && keep.contains(k)
            &&& now.contains_key(k) ==> now[k] == was[k]
            &&& was.contains_key(k) && !keep.contains(k) ==> after.dirty.contains(root)
            &&& after.caches.remove(root) == s.caches.remove(root)
            &&& was.dom().subset_of(keep) ==> after == s
        }),
{
    let after = s.pruned(root, keep);
    assert(after.caches.remove(root) =~= s.caches.remove(root));
}

/// The hash starts from its offset; each byte is mixed in, and the product with the prime is
/// cut to size.
pub proof fn law_fnv(bytes: Seq<u8>, b: u8)
    ensures
        fnv(Seq::empty()) == 0xcbf29ce484222325,
        fnv(bytes.push(b)) as int == ((fnv(bytes) ^ (b as u64)) as int * 0x100000001b3)
            % 0x1_0000_0000_0000_0000,
{
    assert(bytes.push(b).drop_last() =~= bytes);
    assert(bytes.push(b).last() == b);
}

/// The number that hexadecimal digits stand for.
pub open spec fn hex_number(digits: Seq<char>) -> int
    decreases digits.len(),
{
    if digits.len() == 0 {
        0
    } else {
        hex_number(digits.drop_last()) * 16 + hex_value(digits.last())
    }
}

/// The value of a hexadecimal digit.
pub open spec fn hex_value(c: char) -> int {
    if '0' <= c <= '9' {
        c as int - '0' as int
    } else {
        c as int - 'a' as int + 10
    }
}

/// The hexadecimal digits of a number, in lower case, stand for it, and only zero starts with
/// a zero.
pub proof fn law_hex(n: nat)
    ensures
        hex_number(hex(n)) == n,
        hex(n).len() > 0,
        forall|i: int|
            0 <= i < hex(n).len() ==> ('0' <= #[trigger] hex(n)[i] <= '9') || ('a' <= hex(n)[i]
                <= 'f'),
        hex(n)[0] == '0' ==> n == 0,
    decreases n,
{
    let s = hex(n);
    if n < 16 {
        assert(s.drop_last() =~= Seq::empty());
        assert(hex_number(s.drop_last()) == 0);
    } else {
        law_hex(n / 16);
        let up = hex(n / 16);
        assert(s.drop_last() =~= up);
        assert(hex_value(s.last()) == n % 16);
        assert(s[0] == up[0]);
        assert forall|i: int| 0 <= i < s.len() implies ('0' <= #[trigger] s[i] <= '9') || ('a'
            <= s[i] <= 'f') by {
            if i < up.len() {
                assert(s[i] == up[i]);
            }
        }
    }
}

/// The caches of two repositories lie beside each other, in files named by the hashes of their
/// roots: they differ when the hashes do.
pub proof fn law_cache_files(home: Seq<char>, a: Seq<char>, b: Seq<char>)
    ensures
        cache_file(home, a) == home + "/md-orphan/cache"@ + seq!['/'] + (hex(
            fnv(encode_utf8(a)) as nat,
        ) + ".json"@),
        fnv(encode_utf8(a)) != fnv(encode_utf8(b)) ==> cache_file(home, a) != cache_file(home, b),
{
    reveal_strlit("/");
    let x = hex(fnv(encode_utf8(a)) as nat);
    let y = hex(fnv(encode_utf8(b)) as nat);
    let head = home + "/md-orphan/cache"@ + seq!['/'];
    assert(cache_file(home, a) =~= head + (x + ".json"@));
    assert(cache_file(home, b) =~= head + (y + ".json"@));
    if fnv(encode_utf8(a)) != fnv(encode_utf8(b)) && cache_file(home, a) == cache_file(home, b) {
        law_hex(fnv(encode_utf8(a)) as nat);
        law_hex(fnv(encode_utf8(b)) as nat);
        let n = head.len() as int;
        let p = head + (x + ".json"@);
        let q = head + (y + ".json"@);
        assert(x.len() == y.len());
        assert(x =~= p.subrange(n, n + x.len()));
        assert(y =~= q.subrange(n, n + y.len()));
    }
}

/// The set of no repositories has the hash zero.
pub proof fn law_no_repos()
    ensures
        repos_hash(Set::empty()) == RepoSetHash(0),
{
}

/// A stored index is used exactly when it has this version, is of this root and for what is
/// asked, and every directory that was walked has the time it had then.
pub proof fn law_usable(w: WalkView, root: Seq<char>, key: u64, now: Map<Seq<char>, i64>)
    ensures
        usable(w, root, key, now) <==> {
            &&& w.schema_version == WALK_CACHE_SCHEMA_VERSION
            &&& w.index.root == root
            &&& w.flags_key == key
            &&& forall|rel: Seq<char>| #[trigger]
                w.dir_mtimes.contains_key(rel) ==> {
                    let dir = if rel == Seq::<char>::empty() {
                        root
                    } else {
                        root + seq!['/'] + rel
                    };
                    now.contains_key(dir) && now[dir] == w.dir_mtimes[rel]
                }
        },
{
    reveal_strlit("/");
    assert forall|rel: Seq<char>| #[trigger] w.dir_mtimes.contains_key(rel) implies dir_path(
        root,
        rel,
    ) == if rel == Seq::<char>::empty() {
        root
    } else {
        root + seq!['/'] + rel
    } by {
        if rel.len() == 0 {
            assert(rel =~= Seq::<char>::empty());
        }
        assert(root + "/"@ + rel =~= root + seq!['/'] + rel);
    }
}

/// An index is not stored when that would change the very tree that was walked. Otherwise all
/// of it is, with the times of the directories.
pub proof fn law_to_store(
    walk_caches: Seq<char>,
    key: u64,
    index: IndexView,
    times: Map<Seq<char>, i64>,
    rest: Seq<char>,
)
    ensures
        walk_caches == index.root + seq!['/'] + rest ==> to_store(walk_caches, key, index, times)
            is None,
        walk_caches == index.root ==> to_store(walk_caches, key, index, times) is None,
        !under(walk_caches, index.root) ==> (to_store(walk_caches, key, index, times) matches Some(
            w,
        ) && w.schema_version == WALK_CACHE_SCHEMA_VERSION && w.flags_key == key && w.dir_mtimes
            == times && w.index == index),
{
    law_rel_path(index.root, rest, walk_caches);
}

/// The number that bytes stand for, the lowest first.
pub open spec fn from_low(bytes: Seq<u8>) -> int
    decreases bytes.len(),
{
    if bytes.len() == 0 {
        0
    } else {
        bytes[0] + 256 * from_low(bytes.skip(1))
    }
}

/// How many numbers there are of `n` bytes.
pub open spec fn byte_numbers(n: nat) -> nat
    decreases n,
{
    if n == 0 {
        1
    } else {
        256 * byte_numbers((n - 1) as nat)
    }
}

/// The lowest bytes of a number that fits in them stand for it.
pub proof fn law_low_bytes(x: nat, n: nat)
    requires
        x < byte_numbers(n),
    ensures
        low_bytes(x, n).len() == n,
        from_low(low_bytes(x, n)) == x,
    decreases n,
{
    if n > 0 {
        law_low_bytes(x / 256, (n - 1) as nat);
        let s = low_bytes(x, n);
        assert(s.skip(1) =~= low_bytes(x / 256, (n - 1) as nat));
        assert(s[0] == x % 256);
    }
}

/// What the flags key is the hash of tells apart the two flags and the hash of the patterns.
pub proof fn law_flags_told_apart(
    d1: bool,
    a1: bool,
    e1: Seq<Seq<char>>,
    d2: bool,
    a2: bool,
    e2: Seq<Seq<char>>,
)
    requires
        flags_bytes(d1, a1, e1) == flags_bytes(d2, a2, e2),
    ensures
        d1 == d2,
        a1 == a2,
        hash_of_sorted(e1) == hash_of_sorted(e2),
{
    let x = flags_bytes(d1, a1, e1);
    let y = flags_bytes(d2, a2, e2);
    let h1 = hash_of_sorted(e1) as nat;
    let h2 = hash_of_sorted(e2) as nat;
    assert(x[0] == y[0] && x[2] == y[2]);
    assert(byte_numbers(8) == 0x1_0000_0000_0000_0000) by {
        reveal_with_fuel(byte_numbers, 9);
    }
    law_low_bytes(h1, 8);
    law_low_bytes(h2, 8);
    assert(x.skip(4) =~= low_bytes(h1, 8));
    assert(y.skip(4) =~= low_bytes(h2, 8));
}

/// The walk caches lie beside the other caches.
pub proof fn law_walk_dir(home: Seq<char>)
    ensures
        walk_dir(home) == home + "/md-orphan/walk-cache"@,
{
    reveal_strlit("/md-orphan/cache");
    reveal_strlit("/md-orphan/walk-cache");
    reveal_strlit("/walk-cache");
    let dir = home + "/md-orphan"@;
    reveal_strlit("/md-orphan");
    let name = "/md-orphan/cache"@.skip(11);
    assert(!name.contains('/')) by {
        assert forall|i: int| 0 <= i < name.len() implies name[i] != '/' by {
            assert(name[i] == "/md-orphan/cache"@[i + 11]);
        }
    }
    assert(cache_dir(home) =~= dir + seq!['/'] + name);
    lemma_dir_of(dir, name);
    assert(walk_dir(home) =~= home + "/md-orphan/walk-cache"@);
}

/// A path that has a canonical form is that. Any other is its last name behind what its
/// directory comes to; at the top, or behind a step up, it is left as it is.
pub proof fn law_best_effort(
    rooted: bool,
    segs: Seq<Seq<char>>,
    name: Seq<char>,
    known: Map<Seq<char>, Seq<char>>,
)
    ensures
        known.contains_key(path_of(rooted, segs)) ==> best_effort(rooted, segs, known)
            == known[path_of(rooted, segs)],
        !known.contains_key(path_of(rooted, segs.push(name))) && name != "."@ && name
            != ".."@ ==> ({
            let dir = best_effort(rooted, segs, known);
            best_effort(rooted, segs.push(name), known) == if dir.len() == 0 || dir.last() == '/' {
                dir + name
            } else {
                dir + seq!['/'] + name
            }
        }),
        !known.contains_key(path_of(rooted, segs.push(".."@))) ==> best_effort(
            rooted,
            segs.push(".."@),
            known,
        ) == path_of(rooted, segs.push(".."@)),
        !known.contains_key(path_of(rooted, Seq::empty())) ==> best_effort(
            rooted,
            Seq::empty(),
            known,
        ) == path_of(rooted, Seq::empty()),
{
    reveal_strlit("/");
    let all = segs.push(name);
    assert(all.drop_last() =~= segs);
    assert(all.last() == name);
    assert(segs.push(".."@).last() == ".."@);
    let dir = best_effort(rooted, segs, known);
    assert(dir + "/"@ + name =~= dir + seq!['/'] + name);
    if dir.len() > 0 {
        let end = dir.skip(dir.len() - 1);
        assert(end[0] == dir.last());
        if dir.last() == '/' {
            assert(end =~= "/"@);
        }
    }
}

/// A stored cache of another version or of other repositories counts for nothing, as none does:
/// the cache of the repository starts anew with the file that is read.
pub proof fn law_stored_cache_dropped(
    s: CacheState,
    root: Seq<char>,
    key: Seq<char>,
    bytes: Seq<u8>,
    stamp: Stamp,
    stored: Option<CacheView>,
)
    requires
        s.enabled,
        !s.caches.contains_key(root),
        stored matches Some(c) ==> c.schema_version != CACHE_SCHEMA_VERSION || c.repo_set_hash
            != s.repo_set_hash,
    ensures
        ({
            let file = root + seq!['/'] + key;
            let (got, after) = s.after_read(file, root, bytes, Some(stamp), stored);
            let c = after.caches[root];
            &&& got.links == links_of(bytes, s.repos) && got.headings == headings_of(bytes)
            &&& after.caches.contains_key(root)
            &&& c.schema_version == CACHE_SCHEMA_VERSION && c.repo_set_hash == s.repo_set_hash
            &&& forall|k: Seq<char>| #[trigger] c.entries.contains_key(k) <==> k == key
            &&& c.entries[key].mtime_ns == stamp.mtime_ns && c.entries[key].size == stamp.size
                && c.entries[key].content_hash.0 == fnv(bytes) && c.entries[key].links
                == links_of(bytes, s.repos) && c.entries[key].headings.to_set() == headings_of(
                bytes,
            )
            &&& after.dirty.contains(root)
        }),
{
    law_rel_path(root, key, root);
    law_headings_finite(bytes);
    law_sorted_keeps_members(headings_of(bytes));
}

/// The texts are in order.
pub open spec fn in_order(items: Seq<Seq<char>>) -> bool {
    forall|i: int, j: int|
        0 <= i < j < items.len() ==> text_le(#[trigger] items[i], #[trigger] items[j])
}

proof fn lemma_sorted(texts: Set<Seq<char>>)
    ensures
        in_order(sorted_members(texts)),
{
    law_text_order();
    let le = text_order();
    let listed = texts.to_seq();
    listed.lemma_sort_by_ensures(le);
    let sorted = sorted_members(texts);
    assert forall|i: int, j: int| 0 <= i < j < sorted.len() implies text_le(
        #[trigger] sorted[i],
        #[trigger] sorted[j],
    ) by {
        assert(le(sorted[i], sorted[j]));
    }
}

/// The hash of texts is that of the texts in order with zero characters between, however they
/// are given. The hash of a set of repositories is that of its names, each once.
pub proof fn law_hash_of_texts(
    items: Seq<Seq<char>>,
    ordered: Seq<Seq<char>>,
    repos: Set<Seq<char>>,
)
    requires
        in_order(ordered),
    ensures
        items.to_multiset() == ordered.to_multiset() ==> hash_of_sorted(items) == fnv(
            encode_utf8(join(ordered, seq!['\0'])),
        ),
        ordered.len() > 0 && ordered.no_duplicates() && ordered.to_set() == repos ==> repos_hash(
            repos,
        ).0 == fnv(encode_utf8(join(ordered, seq!['\0']))),
{
    reveal_strlit("\0");
    assert("\0"@ =~= seq!['\0']);
    law_text_order();
    let le = text_order();
    assert(sorted_by(ordered, le)) by {
        assert forall|i: int, j: int| 0 <= i < j < ordered.len() implies #[trigger] le(
            ordered[i],
            ordered[j],
        ) by {
            assert(text_le(ordered[i], ordered[j]));
        }
    }
    ordered.lemma_sort_by_ensures(le);
    vstd::seq_lib::lemma_sorted_unique(ordered, sorted_texts(ordered), le);
    if items.to_multiset() == ordered.to_multiset() {
        law_sorted_order(items, ordered);
    }
    if ordered.len() > 0 && ordered.no_duplicates() && ordered.to_set() == repos {
        law_sorted_members(repos, ordered);
        assert(ordered.to_set().contains(ordered[0]));
    }
}

} // verus!
