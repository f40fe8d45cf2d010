use md_orphan::exclude::{default_excludes, ExcludeMatcher};

fn matcher(patterns: &[&str]) -> ExcludeMatcher {
    let v: Vec<String> = patterns.iter().map(|s| s.to_string()).collect();
    ExcludeMatcher::new(&v)
}

fn matches(patterns: &[&str], rel_path: &str) -> bool {
    let m = matcher(patterns);
    let basename = rel_path.rsplit('/').next();
    m.matches(rel_path, basename)
}

// Bare-basename trailing-slash patterns match at any depth.
#[test]
fn bare_basename_at_any_depth() {
    assert!(matches(&["Pods/"], "Pods/Firebase/README.md"));
    assert!(matches(&["Pods/"], "proj-ios/Pods/Firebase/README.md"));
    assert!(matches(&["Pods/"], "a/b/c/Pods/x.md"));
    assert!(matches(&["Pods/"], "a/b/Pods"));
    assert!(!matches(&["Pods/"], "PodsExtra/x.md"));
    assert!(!matches(&["Pods/"], "a/PodsExtra/x.md"));
}

// Path-anchored trailing-slash patterns stay root-only.
#[test]
fn path_anchored_trailing_slash_stays_root_only() {
    assert!(matches(&["docs/draft/"], "docs/draft/x.md"));
    assert!(!matches(&["docs/draft/"], "a/docs/draft/x.md"));
}

#[test]
fn excludes_exact_prefix() {
    assert!(matches(&["Library"], "Library/foo/bar.md"));
}

#[test]
fn excludes_nested_prefix() {
    // "proj-ios" plain prefix matches all under it
    assert!(matches(&["proj-ios"], "proj-ios/Pods/Firebase/README.md"));
}

#[test]
fn does_not_exclude_partial_match() {
    assert!(!matches(&["Library"], "LibraryExtra/file.md"));
}

#[test]
fn excludes_with_glob() {
    assert!(matches(&["docs/draft-*.md"], "docs/draft-intro.md"));
}

#[test]
fn glob_does_not_match_different_name() {
    assert!(!matches(&["docs/draft-*.md"], "docs/guide.md"));
}

#[test]
fn glob_does_not_match_deeper() {
    // FNM_PATHNAME — `*` doesn't cross `/`
    assert!(!matches(&["docs/draft-*.md"], "docs/sub/draft-intro.md"));
}

#[test]
fn glob_with_question_mark() {
    assert!(matches(&["docs/v?.md"], "docs/v1.md"));
    assert!(!matches(&["docs/v?.md"], "docs/v12.md"));
}

#[test]
fn trailing_slash_as_prefix_plain() {
    assert!(matches(&["assets/localizer/"], "assets/localizer/cat-profiles/00_Normal.md"));
    assert!(!matches(&["assets/localizer/"], "assets/other/file.md"));
}

#[test]
fn trailing_slash_as_prefix_glob() {
    assert!(matches(&["assets/localizer/*/"], "assets/localizer/cat-profiles/00_Normal.md"));
    assert!(matches(&["assets/localizer/*/"], "assets/localizer/prompts/deep/file.md"));
    assert!(!matches(&["assets/localizer/*/"], "assets/localizer/top.md"));
}

#[test]
fn mixes_prefix_and_glob() {
    assert!(matches(&["Library", "docs/draft-*.md"], "Library/foo.md"));
    assert!(matches(&["Library", "docs/draft-*.md"], "docs/draft-intro.md"));
    assert!(!matches(&["Library", "docs/draft-*.md"], "docs/guide.md"));
}

#[test]
fn excludes_file_directly() {
    assert!(matches(&["CHANGELOG.md"], "CHANGELOG.md"));
}

#[test]
fn matches_bare_fast_path() {
    let m = matcher(&["Library/", "Pods/"]);
    assert!(m.matches_bare("Library"));
    assert!(m.matches_bare("Pods"));
    assert!(!m.matches_bare("docs"));
    assert!(m.is_bare_only());
}

#[test]
fn is_bare_only_false_with_anchored() {
    let m = matcher(&["Library/", "docs/internal/"]);
    assert!(!m.is_bare_only());
}

#[test]
fn order_of_patterns_does_not_matter() {
    for path in ["Library/foo.md", "docs/draft-x.md", "a/Pods/x", "keep.md"] {
        let a = matches(&["Library", "docs/draft-*.md", "Pods/"], path);
        let b = matches(&["Pods/", "docs/draft-*.md", "Library"], path);
        assert_eq!(a, b);
    }
}

#[test]
fn more_patterns_exclude_more() {
    assert!(!matches(&["Pods/"], "docs/x.md"));
    assert!(matches(&["Pods/", "docs"], "docs/x.md"));
    assert!(matches(&["Pods/", "docs"], "Pods/x.md"));
}

#[test]
fn base_name_is_used_where_it_is_given() {
    let m = matcher(&["Pods/"]);
    assert!(m.matches("elsewhere", Some("Pods")));
    assert!(!m.matches("elsewhere", None));
    assert!(m.matches("a/Pods/b", None));
}

#[test]
fn built_in_excludes() {
    let d = default_excludes();
    assert_eq!(d.len(), 12);
    assert_eq!(d[0], ".git/");
    assert_eq!(d[11], "__pycache__/");
    let m = ExcludeMatcher::new(&d);
    assert!(m.is_bare_only());
    assert!(m.matches_bare("node_modules"));
}

#[test]
fn trailing_glob_keeps_its_depth() {
    let m = matcher(&["a/b*/"]);
    assert_eq!(m.trailing_globs.len(), 1);
    assert_eq!(m.trailing_globs[0].1, 2);
    assert!(!m.matches("a/bc", None));
    assert!(m.matches("a/bc/x.md", None));
}
