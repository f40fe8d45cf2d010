use md_orphan::cache::{
    cache_directory, cache_file_path, compute_repo_set_hash, extract_fresh, fnv1a64, fnv1a64_hex,
    fnv1a64_of_sorted, load_link_cache, CacheEntry, ContentHash, ExtractionCache, LinkCache,
    RepoSetHash, Stamp, CACHE_SCHEMA_VERSION,
};
use md_orphan::collections::StringSet;
use md_orphan::extract::{Link, LinkKind};

fn set(items: &[&str]) -> StringSet {
    let mut s = StringSet::new();
    for i in items {
        s.insert(i.to_string());
    }
    s
}

fn strings(items: &[&str]) -> Vec<String> {
    items.iter().map(|s| s.to_string()).collect()
}

#[test]
fn fnv1a64_stability() {
    assert_eq!(fnv1a64_hex("hello"), fnv1a64_hex("hello"));
    assert_ne!(fnv1a64_hex("hello"), fnv1a64_hex("hellp"));
}

#[test]
fn fnv1a64_known_value() {
    let h = format!("{:x}", fnv1a64(b"hello"));
    assert_eq!(h, "a430d84680aabd0b");
    assert_eq!(fnv1a64_hex("hello"), "a430d84680aabd0b");
    assert_eq!(fnv1a64(b""), 0xcbf29ce484222325);
}

#[test]
fn cache_file_path_hashes_canonical_root() {
    let p1 = cache_file_path("/home/jk/.config", "/Users/jk/proj-a");
    let p2 = cache_file_path("/home/jk/.config", "/Users/jk/proj-b");
    assert_ne!(p1, p2);
    assert!(p1.ends_with(".json"));
    assert!(p1.contains("/cache/"));
    assert_eq!(cache_directory("/x"), "/x/md-orphan/cache");
}

fn sample() -> LinkCache {
    let mut cache = LinkCache::new(RepoSetHash(0));
    cache.entries.insert(
        "index.md".into(),
        CacheEntry {
            mtime_ns: 1_700_000_000_000_000_000,
            size: 42,
            content_hash: ContentHash(0xdeadbeef),
            links: vec![
                Link {
                    kind: LinkKind::Wiki,
                    target: "foo.md".into(),
                    fragment: None,
                    path_start: 5,
                    path_end: 11,
                },
                Link {
                    kind: LinkKind::Standard,
                    target: "bar.md".into(),
                    fragment: Some("sec".into()),
                    path_start: 20,
                    path_end: 26,
                },
                Link {
                    kind: LinkKind::CrossRepo { repo: "r".into() },
                    target: "baz.md".into(),
                    fragment: None,
                    path_start: 30,
                    path_end: 36,
                },
            ],
            headings: vec!["intro".into(), "details".into()],
        },
    );
    cache
}

#[test]
fn cache_round_trips_via_disk() {
    let loaded = load_link_cache(Some(sample()), RepoSetHash(0));
    assert_eq!(loaded.schema_version, CACHE_SCHEMA_VERSION);
    assert_eq!(loaded.entries.len(), 1);
    let entry = loaded.entries.get("index.md").unwrap();
    assert_eq!(entry.content_hash, ContentHash(0xdeadbeef));
    assert_eq!(entry.links.len(), 3);
    assert_eq!(entry.links[0].kind, LinkKind::Wiki);
    assert_eq!(entry.links[1].kind, LinkKind::Standard);
    assert_eq!(entry.links[2].kind, LinkKind::CrossRepo { repo: "r".into() });
    assert_eq!(entry.links[1].fragment, Some("sec".into()));
}

#[test]
fn stored_cache_of_another_version_or_set_is_dropped() {
    assert_eq!(load_link_cache(Some(sample()), RepoSetHash(1)).entries.len(), 0);
    let mut old = sample();
    old.schema_version = CACHE_SCHEMA_VERSION - 1;
    assert_eq!(load_link_cache(Some(old), RepoSetHash(0)).entries.len(), 0);
    assert_eq!(load_link_cache(None, RepoSetHash(7)).repo_set_hash, RepoSetHash(7));
}

#[test]
fn extraction_cache_invalidates_on_content_change() {
    let mut cache = ExtractionCache::new(true, StringSet::new());
    let first = b"[[a.md]]";
    let stamp = Stamp { mtime_ns: 1, size: first.len() as i64 };
    cache.read("/r/index.md", "/r", Some(first), Some(stamp), None).unwrap();
    let second = b"[[b.md]] and [[c.md]]";
    let stamp = Stamp { mtime_ns: 2, size: second.len() as i64 };
    let result = cache.read("/r/index.md", "/r", Some(second), Some(stamp), None).unwrap();
    let targets: Vec<String> = result.links.iter().map(|l| l.target.clone()).collect();
    assert_eq!(targets, vec!["b.md", "c.md"]);
}

#[test]
fn content_alone_invalidates() {
    let mut cache = ExtractionCache::new(true, StringSet::new());
    let stamp = Some(Stamp { mtime_ns: 1, size: 8 });
    cache.read("/r/x.md", "/r", Some(b"[[a.md]]"), stamp, None);
    let again = cache.read("/r/x.md", "/r", Some(b"[[b.md]]"), stamp, None).unwrap();
    assert_eq!(again.links[0].target, "b.md");
}

#[test]
fn extraction_cache_invalidates_on_repo_set_change() {
    let text = b"see `foo.md` (some-repo)";
    let stamp = Some(Stamp { mtime_ns: 1, size: text.len() as i64 });
    let mut cache_a = ExtractionCache::new(true, set(&["some-repo"]));
    let first = cache_a.read("/r/index.md", "/r", Some(text), stamp, None).unwrap();
    assert_eq!(first.links.len(), 1);
    assert_eq!(cache_a.save(), vec!["/r".to_string()]);
    let hash = cache_a.cache("/r").unwrap().repo_set_hash;
    assert_eq!(hash, compute_repo_set_hash(&set(&["some-repo"])));

    let mut stored = LinkCache::new(hash);
    stored.entries.insert(
        "index.md".into(),
        CacheEntry {
            mtime_ns: 1,
            size: text.len() as i64,
            content_hash: ContentHash(fnv1a64(text)),
            links: first.links.clone(),
            headings: Vec::new(),
        },
    );
    let mut cache_b = ExtractionCache::new(true, StringSet::new());
    let second = cache_b.read("/r/index.md", "/r", Some(text), stamp, Some(stored)).unwrap();
    assert!(second.links.is_empty(), "expected re-extract with no links, got {:?}", second.links);
}

#[test]
fn unchanged_file_is_served_from_the_cache() {
    let text = b"# H\n[[a.md]]";
    let stamp = Some(Stamp { mtime_ns: 5, size: text.len() as i64 });
    let mut stored = LinkCache::new(RepoSetHash(0));
    stored.entries.insert(
        "x.md".into(),
        CacheEntry {
            mtime_ns: 5,
            size: text.len() as i64,
            content_hash: ContentHash(fnv1a64(text)),
            links: Vec::new(),
            headings: vec!["kept".into()],
        },
    );
    let mut cache = ExtractionCache::new(true, StringSet::new());
    let f = cache.read("/r/x.md", "/r", Some(text), stamp, Some(stored)).unwrap();
    assert!(f.links.is_empty());
    assert!(f.headings.contains("kept"));
    assert!(cache.save().is_empty());
}

#[test]
fn second_read_gives_the_same() {
    let text = b"# B\n# A\n[[a.md]]";
    let stamp = Some(Stamp { mtime_ns: 5, size: 3 });
    let mut cache = ExtractionCache::new(true, StringSet::new());
    let a = cache.read("/r/x.md", "/r", Some(text), stamp, None).unwrap();
    let b = cache.read("/r/x.md", "/r", Some(text), stamp, None).unwrap();
    assert_eq!(a.links, b.links);
    assert_eq!(a.headings.len(), 2);
    assert!(b.headings.contains("a") && b.headings.contains("b"));
    assert_eq!(cache.cache("/r").unwrap().entries.get("x.md").unwrap().headings, strings(&["a", "b"]));
}

#[test]
fn files_outside_and_without_stamp_are_not_cached() {
    let mut cache = ExtractionCache::new(true, StringSet::new());
    let stamp = Some(Stamp { mtime_ns: 5, size: 3 });
    assert!(cache.read("/elsewhere/x.md", "/r", Some(b"x"), stamp, None).is_some());
    assert!(cache.read("/r/x.md", "/r", Some(b"x"), None, None).is_some());
    assert!(!cache.is_loaded("/r"));
    assert!(cache.read("/r/x.md", "/r", None, stamp, None).is_none());
    assert!(!cache.is_loaded("/r"));
}

#[test]
fn disabled_cache_keeps_nothing() {
    let mut cache = ExtractionCache::new(false, StringSet::new());
    let stamp = Some(Stamp { mtime_ns: 5, size: 3 });
    assert!(cache.read("/r/x.md", "/r", Some(b"[[a.md]]"), stamp, None).is_some());
    assert!(!cache.is_loaded("/r"));
    assert!(cache.save().is_empty());
}

#[test]
fn prune_drops_what_is_not_kept() {
    let mut cache = ExtractionCache::new(true, StringSet::new());
    let stamp = Some(Stamp { mtime_ns: 5, size: 3 });
    cache.read("/r/a.md", "/r", Some(b"a"), stamp, None);
    cache.read("/r/b.md", "/r", Some(b"b"), stamp, None);
    assert_eq!(cache.save().len(), 1);
    cache.prune("/r", &set(&["a.md", "b.md"]));
    assert!(cache.save().is_empty());
    cache.prune("/r", &set(&["a.md"]));
    assert_eq!(cache.save(), strings(&["/r"]));
    let entries = &cache.cache("/r").unwrap().entries;
    assert!(entries.contains_key("a.md"));
    assert!(!entries.contains_key("b.md"));
    cache.prune("/unknown", &set(&[]));
    assert!(cache.save().is_empty());
}

#[test]
fn hash_of_a_list_does_not_depend_on_its_order() {
    let a = fnv1a64_of_sorted(strings(&["b", "a", "c"]));
    let b = fnv1a64_of_sorted(strings(&["c", "b", "a"]));
    assert_eq!(a, b);
    assert_eq!(a, fnv1a64(b"a\0b\0c"));
    assert_eq!(fnv1a64_of_sorted(Vec::new()), fnv1a64(b""));
}

#[test]
fn hash_of_the_repository_set() {
    assert_eq!(compute_repo_set_hash(&set(&[])), RepoSetHash(0));
    assert_eq!(compute_repo_set_hash(&set(&["x", "w"])), compute_repo_set_hash(&set(&["w", "x"])));
    assert_eq!(compute_repo_set_hash(&set(&["w", "x"])), RepoSetHash(fnv1a64(b"w\0x")));
}

#[test]
fn fresh_extraction_has_links_and_headings() {
    let f = extract_fresh(b"# Top\n[[a.md]]", &StringSet::new());
    assert_eq!(f.links.len(), 1);
    assert!(f.headings.contains("top"));
}
