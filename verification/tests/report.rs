use md_orphan::collections::{StringMap, StringSet};
use md_orphan::report::{
    check_patterns, entry_names, exclude_patterns, missing_ignore_message, orphans, render_issues,
    render_style, repo_root, success_line, unreached_paths,
};
use md_orphan::scene::{IssueKind, LinkIssue, StyleScope};

fn strings(items: &[&str]) -> Vec<String> {
    items.iter().map(|s| s.to_string()).collect()
}

fn set(items: &[&str]) -> StringSet {
    let mut s = StringSet::new();
    for i in items {
        s.insert(i.to_string());
    }
    s
}

fn issue(link: &str, source: &str, kind: IssueKind) -> LinkIssue {
    LinkIssue { link: link.into(), source: source.into(), kind }
}

fn style(link: &str, source: &str, suggested: &str, start: usize) -> LinkIssue {
    issue(
        link,
        source,
        IssueKind::Style {
            scope: StyleScope::Wiki,
            suggested: suggested.into(),
            path_start: start,
            path_end: start + link.len(),
        },
    )
}

#[test]
fn arguments_are_split_at_commas() {
    assert_eq!(exclude_patterns(&strings(&["a,b", "c", ""])), strings(&["a", "b", "c", ""]));
}

#[test]
fn bad_patterns_are_refused() {
    assert_eq!(check_patterns(&strings(&["a*", "b[c]"])), None);
    assert_eq!(
        check_patterns(&strings(&["a", "b**"])).unwrap(),
        "--exclude: '**' globstar not supported; * matches within a single directory"
    );
    assert_eq!(
        check_patterns(&strings(&["a[b", "**"])).unwrap(),
        "--exclude: unclosed '[' in pattern 'a[b'"
    );
}

#[test]
fn root_is_the_directory_of_the_first_entry() {
    assert_eq!(repo_root(&strings(&["/r/a.md", "/r/docs/b.md"])).unwrap(), "/r");
    assert_eq!(repo_root(&Vec::new()).unwrap_err(), "missing entry point");
    assert_eq!(
        repo_root(&strings(&["/r/a.md", "/s/b.md"])).unwrap_err(),
        "/s/b.md: outside repo root `/r` (derived from the first entry point)\nAll entry points must live under one repo root; run md-orphan once per repo."
    );
}

#[test]
fn missing_ignore_file_is_explained() {
    let m = missing_ignore_message("/r/docs", &strings(&["README.md"]), &set(&[]));
    assert!(m.starts_with("/r/docs/.md-orphan: missing\nEvery md-orphan-checked repo needs"));
    assert!(m.ends_with("Create the file with `touch /r/docs/.md-orphan` if you have\nno extras."));
    let existing = set(&["/r/.md-orphan", "/r/README.md"]);
    let m = missing_ignore_message("/r/docs", &strings(&["X.md", "README.md"]), &existing);
    assert!(m.starts_with("/r/docs/.md-orphan: missing, but an ancestor has one:\n  /r/.md-orphan\n\n"));
    assert!(m.contains("inside `/r` instead (e.g. `md-orphan /r/README.md`).\n\nIf `/r/docs` really"));
    let m = missing_ignore_message("/r/docs", &Vec::new(), &existing);
    assert!(m.contains("inside `/r` instead.\n\nIf"));
}

#[test]
fn orphans_are_sorted_and_know_canonical_paths() {
    let md = set(&["z.md", "a.md", "link.md", "seen.md"]);
    let reachable = set(&["/r/seen.md", "/r/real.md"]);
    let mut canonical = StringMap::new();
    canonical.insert("/r/link.md".to_string(), "/r/real.md".to_string());
    canonical.insert("/r/z.md".to_string(), "/r/z.md".to_string());
    assert_eq!(orphans(&md, "/r", &reachable, &canonical), strings(&["a.md", "z.md"]));
    let left = unreached_paths(&md, "/r", &reachable);
    assert_eq!(left.len(), 3);
    assert!(left.contains("/r/link.md") && !left.contains("/r/seen.md"));
}

#[test]
fn names_of_the_entries() {
    assert_eq!(entry_names(&strings(&["docs/a.md", "b.md"])), "a.md, b.md");
    assert_eq!(entry_names(&strings(&["/x/y.md"])), "y.md");
}

#[test]
fn styles_are_shown_as_they_are_written() {
    let (a, b) = render_style("x/y.md", "y.md", &StyleScope::Wiki);
    assert_eq!((a.as_str(), b.as_str()), ("[[x/y.md]]", "[[y.md]]"));
    let (a, b) = render_style("x/y.md", "y.md", &StyleScope::CrossRepo { repo: "r".into() });
    assert_eq!((a.as_str(), b.as_str()), ("`x/y.md` (r)", "`y.md` (r)"));
}

#[test]
fn every_kind_of_issue_is_told() {
    let issues = vec![
        issue("gone.md", "/r/a.md", IssueKind::Broken),
        issue("two.md", "/r/a.md", IssueKind::Ambiguous(12)),
        issue("x.md", "/r/a.md", IssueKind::BrokenAnchor("sec".into())),
        issue("y.md", "/r/a.md", IssueKind::CrossRepoBroken("repo".into())),
        issue("/r/u.md", "/r/u.md", IssueKind::Unreadable),
        style("z/w.md", "/r/b.md", "w.md", 9),
        style("z/v.md", "/r/a.md", "v.md", 3),
        issue("more.md", "/elsewhere/c.md", IssueKind::Broken),
        style("z/q.md", "/r/b.md", "q.md", 2),
    ];
    let (lines, failed) =
        render_issues(&issues, &strings(&["o.md"]), "/r", "a.md, b.md", None);
    assert!(failed);
    assert_eq!(
        lines,
        strings(&[
            "\u{26D4} 1 unreadable files:",
            "  u.md",
            "\u{1F517} 2 broken links:",
            "  gone.md in a.md",
            "  more.md in /elsewhere/c.md",
            "\u{26A0}\u{FE0F} 1 ambiguous links:",
            "  two.md in a.md (12 files match)",
            "\u{2693} 1 broken anchors:",
            "  x.md#sec in a.md",
            "\u{1F517} 1 broken cross-repo links:",
            "  `y.md` (repo) in a.md",
            "\u{1F4DD} 3 link style issues:",
            "  a.md: [[z/v.md]] -> [[v.md]]",
            "  b.md: [[z/q.md]] -> [[q.md]]",
            "  b.md: [[z/w.md]] -> [[w.md]]",
            "  (run with --fix to apply)",
            "\u{274C} 1 orphan markdown files (not reachable from a.md, b.md):",
            "  o.md",
        ])
    );
}

#[test]
fn fixed_styles_do_not_fail_the_run() {
    let issues = vec![style("z/w.md", "/r/b.md", "w.md", 9)];
    let (lines, failed) = render_issues(&issues, &Vec::new(), "/r", "a.md", Some(0));
    assert!(!failed);
    assert_eq!(
        lines,
        strings(&["\u{1F4DD} 1 link style fixed:", "  b.md: [[z/w.md]] -> [[w.md]]"])
    );
    assert!(render_issues(&issues, &Vec::new(), "/r", "a.md", Some(1)).1);
    assert!(render_issues(&issues, &Vec::new(), "/r", "a.md", None).1);
}

#[test]
fn clean_runs_say_nothing() {
    let (lines, failed) = render_issues(&Vec::new(), &Vec::new(), "/r", "a.md", None);
    assert!(lines.is_empty() && !failed);
    assert!(render_issues(&Vec::new(), &strings(&["x"]), "/r", "a.md", Some(0)).1);
    assert_eq!(
        success_line(120, "a.md"),
        "\u{2705} All 120 markdown files are reachable from a.md"
    );
}
