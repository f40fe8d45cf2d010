use md_orphan::resolve::{fold_segments, resolve_link, resolve_under_root};

#[test]
fn resolves_simple_link() {
    let r = resolve_link("guide.md", "/repo/docs/index.md", "/repo");
    assert_eq!(r.as_deref(), Some("/repo/docs/guide.md"));
}

#[test]
fn resolves_parent_traversal() {
    let r = resolve_link("../dev/guide.md", "/repo/docs/system/langpack.md", "/repo");
    assert_eq!(r.as_deref(), Some("/repo/docs/dev/guide.md"));
}

#[test]
fn resolves_dot_segment() {
    let r = resolve_link("./local.md", "/repo/docs/index.md", "/repo");
    assert_eq!(r.as_deref(), Some("/repo/docs/local.md"));
}

#[test]
fn rejects_root_escape() {
    let r = resolve_link("../../../etc/passwd.md", "/repo/docs/index.md", "/repo");
    assert!(r.is_none());
}

#[test]
fn resolves_absolute_link() {
    let r = resolve_link("/docs/file.md", "/repo/other/index.md", "/repo");
    assert_eq!(r.as_deref(), Some("/repo/docs/file.md"));
}

#[test]
fn crawl_resolves_simple_link() {
    let r = resolve_link("guide.md", "/repo/docs/index.md", "/repo");
    assert_eq!(r.as_deref(), Some("/repo/docs/guide.md"));
}

#[test]
fn crawl_resolves_parent_traversal() {
    let r = resolve_link("../dev/guide.md", "/repo/docs/system/langpack.md", "/repo");
    assert_eq!(r.as_deref(), Some("/repo/docs/dev/guide.md"));
}

#[test]
fn crawl_resolves_dot_segment() {
    let r = resolve_link("./local.md", "/repo/docs/index.md", "/repo");
    assert_eq!(r.as_deref(), Some("/repo/docs/local.md"));
}

#[test]
fn crawl_rejects_root_escape() {
    let r = resolve_link("../../../etc/passwd.md", "/repo/docs/index.md", "/repo");
    assert!(r.is_none());
}

#[test]
fn crawl_resolves_absolute_link() {
    let r = resolve_link("/docs/file.md", "/repo/other/index.md", "/repo");
    assert_eq!(r.as_deref(), Some("/repo/docs/file.md"));
}

#[test]
fn fold_segments_lenient_collapses_dot_dot() {
    assert_eq!(fold_segments("/a/b/../c", false), ("/a/c".into(), false));
    assert_eq!(fold_segments("/a/./b", false), ("/a/b".into(), false));
}

#[test]
fn fold_segments_lenient_absorbs_dot_dot_past_root() {
    assert_eq!(fold_segments("/a/b/../../../a/b/c.md", false), ("/a/b/c.md".into(), false));
}

#[test]
fn fold_segments_strict_escapes_on_dot_dot_past_root() {
    let (_, escaped) = fold_segments("/a/b/../../../a/b/c.md", true);
    assert!(escaped);
}

#[test]
fn fold_segments_strict_no_escape_within_root() {
    assert_eq!(fold_segments("/a/b/c/../d", true), ("/a/b/d".into(), false));
}

#[test]
fn strict_escape_leaves_the_top() {
    assert_eq!(fold_segments("/../a", true), ("/".into(), true));
    assert_eq!(fold_segments("//a//b/", false), ("/a/b".into(), false));
}

#[test]
fn targets_from_the_root_of_a_repository() {
    assert_eq!(resolve_under_root("docs/x.md", "/repo").as_deref(), Some("/repo/docs/x.md"));
    assert_eq!(resolve_under_root("/docs/x.md", "/repo").as_deref(), Some("/repo/docs/x.md"));
    assert_eq!(resolve_under_root("../repo/x.md", "/repo"), None);
    assert_eq!(resolve_under_root("../b/c.md", "/a/b"), None);
    assert_eq!(resolve_under_root("d/../../b/c.md", "/a/b"), None);
    assert_eq!(resolve_under_root("d/../c.md", "/a/b").as_deref(), Some("/a/b/c.md"));
    assert_eq!(resolve_under_root("../../repo/x.md", "/repo"), None);
    assert_eq!(resolve_under_root("../other/x.md", "/repo"), None);
}

#[test]
fn folded_paths_stay_as_they_are() {
    for p in ["/a/b/c.md", "/", "/x"] {
        assert_eq!(fold_segments(p, false).0, p);
        assert_eq!(fold_segments(p, true).0, p);
    }
}
