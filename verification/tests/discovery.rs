use md_orphan::discovery::{enters_dir, index_repo, EntryKind, RepoIndex, WalkEntry};
use md_orphan::exclude::ExcludeMatcher;
use md_orphan::path::CanonicalPath;

fn index(files: &[&str], exclude: &[&str], defaults: bool, all: bool) -> RepoIndex {
    let entries: Vec<WalkEntry> = files
        .iter()
        .map(|f| WalkEntry { path: format!("/repo/{f}"), kind: EntryKind::File })
        .collect();
    let exclude: Vec<String> = exclude.iter().map(|s| s.to_string()).collect();
    let root = CanonicalPath::assume_canonical("/repo".to_string());
    index_repo(root, &exclude, defaults, all, &entries)
}

#[test]
fn discovers_md_files() {
    let idx = index(&["a.md", "docs/b.md", "notes.txt"], &[], true, false);
    assert!(idx.md_files.contains("a.md"));
    assert!(idx.md_files.contains("docs/b.md"));
    assert_eq!(idx.md_files.len(), 2);
}

#[test]
fn skips_dot_directories() {
    let idx = index(&["a.md", ".git/HEAD", ".git/foo.md"], &[], true, false);
    assert!(idx.md_files.contains("a.md"));
    assert_eq!(idx.md_files.len(), 1);
}

#[test]
fn applies_default_excludes_at_any_depth() {
    let idx = index(
        &["README.md", "proj-ios/Pods/Firebase/README.md", "Pods/Other/x.md"],
        &[],
        true,
        false,
    );
    assert!(idx.md_files.contains("README.md"));
    assert_eq!(idx.md_files.len(), 1);
}

#[test]
fn user_excludes_layer_on_top() {
    let idx = index(&["a.md", "Packages/inner.md"], &["Packages/"], true, false);
    assert!(idx.md_files.contains("a.md"));
    assert_eq!(idx.md_files.len(), 1);
    assert_eq!(idx.exclude.len(), 13);
    assert_eq!(idx.exclude[12], "Packages/");
}

#[test]
fn no_default_excludes_disables_them() {
    let idx = index(&["Pods/x.md"], &[], false, false);
    assert!(idx.md_files.contains("Pods/x.md"));
}

#[test]
fn by_name_md_only_by_default() {
    let idx = index(&["foo.md", "bar.cs"], &[], true, false);
    assert!(idx.by_name.contains_key("foo.md"));
    assert!(!idx.by_name.contains_key("bar.cs"));
}

#[test]
fn by_name_includes_all_extensions_when_enabled() {
    let idx = index(&["foo.md", "bar.cs"], &[], true, true);
    assert!(idx.by_name.contains_key("foo.md"));
    assert!(idx.by_name.contains_key("bar.cs"));
}

#[test]
fn same_name_in_two_places_is_listed_twice() {
    let idx = index(&["a/x.md", "b/x.md"], &[], true, false);
    let list = idx.by_name.get("x.md").unwrap();
    assert_eq!(list, &vec!["/repo/a/x.md".to_string(), "/repo/b/x.md".to_string()]);
    assert_eq!(idx.root.as_str(), "/repo");
}

#[test]
fn directories_are_not_files_and_links_are() {
    let entries = vec![
        WalkEntry { path: "/repo/dir.md".into(), kind: EntryKind::Directory },
        WalkEntry { path: "/repo/link.md".into(), kind: EntryKind::Symlink },
        WalkEntry { path: "/repo/pipe.md".into(), kind: EntryKind::Other },
    ];
    let root = CanonicalPath::assume_canonical("/repo".to_string());
    let idx = index_repo(root, &Vec::new(), true, false, &entries);
    assert_eq!(idx.md_files.len(), 1);
    assert!(idx.md_files.contains("link.md"));
}

#[test]
fn walk_enters_what_no_pattern_excludes() {
    let m = ExcludeMatcher::new(&vec!["Pods/".to_string(), "docs/draft".to_string()]);
    assert!(enters_dir(&m, "/repo", "/repo/docs"));
    assert!(!enters_dir(&m, "/repo", "/repo/docs/draft"));
    assert!(!enters_dir(&m, "/repo", "/repo/a/Pods"));
    assert!(!enters_dir(&m, "/repo", "/repo/.hidden"));
}

#[test]
fn pruned_and_full_walks_give_the_same_index() {
    let full = index(&["a.md", "Pods/deep/x.md", "docs/b.md", ".git/c.md"], &[], true, false);
    let pruned = index(&["a.md", "docs/b.md"], &[], true, false);
    assert_eq!(full.md_files.len(), pruned.md_files.len());
    for i in 0..full.md_files.len() {
        assert!(pruned.md_files.contains(full.md_files.get(i)));
    }
}

#[test]
fn patterns_exclude_single_files() {
    let idx = index(&["docs/draft-1.md", "docs/final.md"], &["docs/draft-*.md"], true, false);
    assert_eq!(idx.md_files.len(), 1);
    assert!(idx.md_files.contains("docs/final.md"));
}

#[test]
fn paths_stand_under_their_names() {
    let idx = index(&["a.md", "docs/a.md", "docs/b.md", "docs/c.txt"], &[], true, false);
    assert_eq!(
        idx.by_name.get("a.md"),
        Some(&vec!["/repo/a.md".to_string(), "/repo/docs/a.md".to_string()])
    );
    assert_eq!(idx.by_name.get("b.md"), Some(&vec!["/repo/docs/b.md".to_string()]));
    assert!(idx.by_name.get("c.txt").is_none());
    assert_eq!(idx.md_files.len(), 3);
}
