use md_orphan::collections::{StringMap, StringSet};
use md_orphan::discovery::RepoIndex;
use md_orphan::path::CanonicalPath;
use md_orphan::walk_cache::{
    canonicalize_best_effort, compute_flags_key, save_walk_cache, try_load_walk_cache,
    walk_cache_directory, walk_cache_file_path, walked_dir,
};

fn strings(items: &[&str]) -> Vec<String> {
    items.iter().map(|s| s.to_string()).collect()
}

fn root() -> CanonicalPath {
    CanonicalPath::assume_canonical("/repo".to_string())
}

fn index(md: &[&str], exclude: &[&str]) -> RepoIndex {
    let mut md_files = StringSet::new();
    for m in md {
        md_files.insert(m.to_string());
    }
    RepoIndex { root: root(), md_files, by_name: StringMap::new(), exclude: strings(exclude) }
}

fn times(items: &[(&str, i64)]) -> StringMap<i64> {
    let mut m = StringMap::new();
    for (k, v) in items {
        m.insert(k.to_string(), *v);
    }
    m
}

#[test]
fn flags_key_stable_across_reordering() {
    let a = compute_flags_key(true, false, &strings(&["b", "a"]));
    let b = compute_flags_key(true, false, &strings(&["a", "b"]));
    assert_eq!(a, b);
}

#[test]
fn flags_key_changes_on_default_excludes_flip() {
    let a = compute_flags_key(true, false, &strings(&["a"]));
    let b = compute_flags_key(false, false, &strings(&["a"]));
    assert_ne!(a, b);
}

#[test]
fn flags_key_changes_on_pattern_change() {
    let a = compute_flags_key(true, false, &strings(&["a"]));
    let b = compute_flags_key(true, false, &strings(&["b"]));
    assert_ne!(a, b);
}

#[test]
fn cache_hit_returns_repo_index() {
    let index = index(&["a.md"], &["Library/"]);
    let key = compute_flags_key(true, false, &strings(&["Library/"]));
    let stored = save_walk_cache("/cfg/md-orphan/walk-cache", &root(), key, &index, times(&[("", 7)]));
    let now = times(&[("/repo", 7)]);
    let loaded = try_load_walk_cache(stored, &root(), key, &now).expect("hit");
    assert_eq!(loaded.md_files.len(), 1);
    assert!(loaded.md_files.contains("a.md"));
    assert_eq!(loaded.exclude, strings(&["Library/"]));
}

#[test]
fn cache_miss_on_flags_change() {
    let key_a = compute_flags_key(true, false, &Vec::new());
    let stored = save_walk_cache("/cfg/w", &root(), key_a, &index(&[], &[]), times(&[("", 7)]));
    let key_b = compute_flags_key(false, false, &Vec::new());
    assert!(try_load_walk_cache(stored, &root(), key_b, &times(&[("/repo", 7)])).is_none());
}

#[test]
fn save_refused_when_cache_dir_inside_root() {
    let stored =
        save_walk_cache("/repo/xdg/md-orphan/walk-cache", &root(), 1, &index(&[], &[]), times(&[]));
    assert!(stored.is_none(), "expected save to be refused for in-root cache dir");
}

#[test]
fn cache_miss_on_dir_mtime_change() {
    let key = compute_flags_key(true, false, &Vec::new());
    let old = times(&[("", 1_700_000_000_000_000_000)]);
    let stored = save_walk_cache("/cfg/w", &root(), key, &index(&[], &[]), old);
    assert!(try_load_walk_cache(stored, &root(), key, &times(&[("/repo", 7)])).is_none());
}

#[test]
fn a_directory_that_is_gone_is_a_miss() {
    let key = compute_flags_key(true, false, &Vec::new());
    let stored =
        save_walk_cache("/cfg/w", &root(), key, &index(&[], &[]), times(&[("", 7), ("docs", 8)]));
    assert!(try_load_walk_cache(stored, &root(), key, &times(&[("/repo", 7)])).is_none());
}

#[test]
fn another_root_or_version_is_a_miss() {
    let other = CanonicalPath::assume_canonical("/else".to_string());
    let stored = save_walk_cache("/cfg/w", &root(), 3, &index(&[], &[]), times(&[]));
    assert!(try_load_walk_cache(stored, &other, 3, &times(&[])).is_none());
    let mut stored = save_walk_cache("/cfg/w", &root(), 3, &index(&[], &[]), times(&[])).unwrap();
    stored.schema_version += 1;
    assert!(try_load_walk_cache(Some(stored), &root(), 3, &times(&[])).is_none());
    assert!(try_load_walk_cache(None, &root(), 3, &times(&[])).is_none());
}

#[test]
fn places_of_the_walk_caches() {
    assert_eq!(walk_cache_directory("/x"), "/x/md-orphan/walk-cache");
    let p = walk_cache_file_path("/x", "hello");
    assert_eq!(p, "/x/md-orphan/walk-cache/a430d84680aabd0b.json");
    assert_eq!(walked_dir("/r", ""), "/r");
    assert_eq!(walked_dir("/r", "a/b"), "/r/a/b");
}

#[test]
fn missing_tail_is_put_behind_the_nearest_directory() {
    let mut known = StringMap::new();
    known.insert("/var".to_string(), "/private/var".to_string());
    assert_eq!(canonicalize_best_effort("/var/a/b", &known), "/private/var/a/b");
    assert_eq!(canonicalize_best_effort("/var", &known), "/private/var");
    assert_eq!(canonicalize_best_effort("/opt/x", &known), "/opt/x");
    assert_eq!(canonicalize_best_effort("rel/x", &known), "rel/x");
    assert_eq!(canonicalize_best_effort("/var/./a", &known), "/private/var/a");
    assert_eq!(canonicalize_best_effort("/var/a/..", &known), "/var/a/..");
    assert_eq!(canonicalize_best_effort("/var/../b", &known), "/var/../b");
}
