use md_orphan::cache::{ExtractionCache, Stamp};
use md_orphan::collections::{StringMap, StringSet};
use md_orphan::config::GlobalConfig;
use md_orphan::crawl::{
    bfs_crawl_at_root, resume, Crawl, CrawlOptions, CrawlState, Progress,
};
use md_orphan::discovery::{index_repo, EntryKind, RepoIndex, WalkEntry};
use md_orphan::fix::apply_style_fixes;
use md_orphan::path::CanonicalPath;
use md_orphan::scene::{Facts, IssueKind, LinkIssue, Query, StyleScope};
use std::collections::BTreeMap;

/// A file system in memory: full path to content.
struct World {
    files: BTreeMap<String, String>,
}

impl World {
    fn new(files: &[(&str, &str)]) -> World {
        let mut w = World { files: BTreeMap::new() };
        for (path, content) in files {
            w.files.insert(path.to_string(), content.to_string());
        }
        w
    }

    fn canonical(&self, path: &str) -> Option<CanonicalPath> {
        let dir = format!("{path}/");
        if self.files.keys().any(|k| k == path || k.starts_with(&dir)) {
            Some(CanonicalPath::assume_canonical(path.to_string()))
        } else {
            None
        }
    }

    fn walk(&self, root: &str) -> Vec<WalkEntry> {
        let prefix = format!("{root}/");
        self.files
            .keys()
            .filter(|k| k.starts_with(&prefix))
            .map(|k| WalkEntry { path: k.clone(), kind: EntryKind::File })
            .collect()
    }

    fn crawl(
        &self,
        root: &str,
        entries: &[&str],
        options: &CrawlOptions,
    ) -> (RepoIndex, StringSet, Vec<LinkIssue>) {
        let mut names = StringSet::new();
        let mut facts = Facts::new();
        for i in 0..options.repos.len() {
            names.insert(options.repos.key_at(i).to_string());
            let raw = options.repos.value_at(i).clone();
            let canonical = self.canonical(&raw);
            facts.set_canonical(raw, canonical);
        }
        let cache = ExtractionCache::new(false, names);
        let entries: Vec<String> = entries.iter().map(|e| format!("{root}/{e}")).collect();
        for entry in &entries {
            facts.set_canonical(entry.clone(), self.canonical(entry));
        }
        let (index, mut crawl) = bfs_crawl_at_root(
            &entries,
            CanonicalPath::assume_canonical(root.to_string()),
            &Vec::new(),
            &self.walk(root),
            options,
            cache,
            facts,
        );
        loop {
            match crawl {
                Crawl::Done(reachable, issues, _) => return (index, reachable, issues),
                Crawl::Waiting(mut state, query) => {
                    self.answer(&mut state, query, options);
                    crawl = resume(state);
                }
            }
        }
    }

    fn answer(&self, state: &mut CrawlState, query: Query, options: &CrawlOptions) {
        match query {
            Query::Canonical(path) => {
                let canonical = self.canonical(&path);
                state.provide_canonical(path, canonical);
            }
            Query::File { path, root } => {
                let bytes = self.files.get(&path).map(|s| s.as_bytes());
                let stamp = bytes.map(|b| Stamp { mtime_ns: 1, size: b.len() as i64 });
                state.provide_file(&path, &root, bytes, stamp, None);
            }
            Query::Index(root) => {
                let index = index_repo(
                    CanonicalPath::assume_canonical(root.clone()),
                    &Vec::new(),
                    options.use_default_excludes,
                    options.include_all_extensions,
                    &self.walk(&root),
                );
                state.provide_index(&root, index);
            }
        }
    }
}

/// A crawl of `/r` from one entry file, with the default options.
fn crawl(files: &[(&str, &str)], entry: &str) -> (StringSet, Vec<LinkIssue>) {
    let (_, reachable, issues) = World::new(files).crawl("/r", &[entry], &CrawlOptions::new());
    (reachable, issues)
}

fn crawl_all_ext(files: &[(&str, &str)], entry: &str) -> (StringSet, Vec<LinkIssue>) {
    let options = CrawlOptions { include_all_extensions: true, ..CrawlOptions::new() };
    let (_, reachable, issues) = World::new(files).crawl("/r", &[entry], &options);
    (reachable, issues)
}

/// A crawl of `/r` with one file, and another repository at `/other`.
fn cross_repo_crawl(content: &str, repo: &str, files: &[(&str, &str)]) -> Vec<LinkIssue> {
    let mut all = vec![("/r/.md-orphan", ""), ("/r/index.md", content), ("/other/.md-orphan", "")];
    all.extend_from_slice(files);
    let mut repos = StringMap::new();
    repos.insert(repo.to_string(), "/other".to_string());
    let options = CrawlOptions { repos, ..CrawlOptions::new() };
    World::new(&all).crawl("/r", &["index.md"], &options).2
}

#[test]
fn crawl_finds_broken_links() {
    let (_, issues) = crawl(&[("/r/index.md", "[a](missing.md)")], "index.md");
    let broken: Vec<_> = issues.iter().filter(|i| matches!(i.kind, IssueKind::Broken)).collect();
    assert_eq!(broken.len(), 1);
    assert_eq!(broken[0].link, "missing.md");
}

#[test]
fn crawl_no_broken_on_valid_links() {
    let (reachable, issues) =
        crawl(&[("/r/index.md", "[a](other.md)"), ("/r/other.md", "hello")], "index.md");
    assert!(issues.is_empty());
    assert_eq!(reachable.len(), 2);
}

#[test]
fn crawl_basename_fallback() {
    let (reachable, issues) =
        crawl(&[("/r/index.md", "[a](guide.md)"), ("/r/docs/guide.md", "hello")], "index.md");
    assert!(issues.is_empty());
    assert_eq!(reachable.len(), 2);
}

#[test]
fn crawl_ambiguous_link() {
    let (_, issues) = crawl(
        &[("/r/index.md", "[a](guide.md)"), ("/r/a/guide.md", ""), ("/r/b/guide.md", "")],
        "index.md",
    );
    let ambig: Vec<_> =
        issues.iter().filter(|i| matches!(i.kind, IssueKind::Ambiguous(_))).collect();
    assert_eq!(ambig.len(), 1);
    assert_eq!(ambig[0].kind, IssueKind::Ambiguous(2));
}

#[test]
fn crawl_broken_anchor() {
    let (_, issues) = crawl(
        &[
            ("/r/index.md", "[ref](other.md#missing-section)"),
            ("/r/other.md", "# Existing Section\n\nSome content"),
        ],
        "index.md",
    );
    let anchors: Vec<_> =
        issues.iter().filter(|i| matches!(i.kind, IssueKind::BrokenAnchor(_))).collect();
    assert_eq!(anchors.len(), 1);
    assert_eq!(anchors[0].kind, IssueKind::BrokenAnchor("missing-section".into()));
}

#[test]
fn self_anchor_valid() {
    let (_, issues) =
        crawl(&[("/r/index.md", "# Intro\n\njump to [[#details]]\n\n## Details\n")], "index.md");
    assert!(issues.is_empty(), "expected no issues, got: {:?}", issues);
}

#[test]
fn self_anchor_broken() {
    let (_, issues) =
        crawl(&[("/r/index.md", "# Intro\n\njump to [[#nope]]\n\n## Details\n")], "index.md");
    let anchors: Vec<_> =
        issues.iter().filter(|i| matches!(i.kind, IssueKind::BrokenAnchor(_))).collect();
    assert_eq!(anchors.len(), 1, "expected 1 BrokenAnchor, got: {:?}", issues);
    assert_eq!(anchors[0].kind, IssueKind::BrokenAnchor("nope".into()));
}

#[test]
fn raw_text_anchor_in_wiki_link() {
    let (_, issues) = crawl(
        &[
            ("/r/index.md", "[[other.md#Existing Section]]"),
            ("/r/other.md", "# Existing Section\n\nSome content"),
        ],
        "index.md",
    );
    assert!(issues.is_empty(), "expected no issues, got: {:?}", issues);
}

#[test]
fn raw_text_self_anchor() {
    let (_, issues) = crawl(
        &[("/r/index.md", "# Intro\n\njump to [[#Details Section]]\n\n## Details Section\n")],
        "index.md",
    );
    assert!(issues.is_empty(), "expected no issues, got: {:?}", issues);
}

#[test]
fn raw_text_anchor_in_standard_link_still_broken() {
    let (_, issues) = crawl(
        &[
            ("/r/index.md", "[ref](other.md#Existing Section)"),
            ("/r/other.md", "# Existing Section\n\nSome content"),
        ],
        "index.md",
    );
    let anchors: Vec<_> =
        issues.iter().filter(|i| matches!(i.kind, IssueKind::BrokenAnchor(_))).collect();
    assert_eq!(anchors.len(), 1, "expected 1 BrokenAnchor, got: {:?}", issues);
    assert_eq!(anchors[0].kind, IssueKind::BrokenAnchor("Existing Section".into()));
}

#[test]
fn plain_backtick_span_is_silent_and_not_followed() {
    let (reachable, issues) = crawl(
        &[("/r/index.md", "see `other.md` and `nope.md`"), ("/r/other.md", "hello")],
        "index.md",
    );
    assert!(issues.is_empty(), "expected silence, got: {:?}", issues);
    assert_eq!(reachable.len(), 1, "backtick span must not mark other.md reachable");
}

#[test]
fn non_md_wiki_link_broken_without_all_extensions() {
    let (_, issues) =
        crawl(&[("/r/docs/index.md", "see [[foo.cs]]"), ("/r/src/foo.cs", "")], "docs/index.md");
    assert_eq!(issues.len(), 1, "expected Broken, got: {:?}", issues);
    assert!(matches!(issues[0].kind, IssueKind::Broken));
}

#[test]
fn non_md_wiki_link_resolves_with_all_extensions() {
    let (_, issues) = crawl_all_ext(
        &[("/r/docs/index.md", "see [[foo.cs]]"), ("/r/src/foo.cs", "")],
        "docs/index.md",
    );
    assert!(issues.is_empty(), "expected clean resolve, got: {:?}", issues);
}

#[test]
fn crawl_wiki_style_relative_path_flagged() {
    let (_, issues) = crawl(
        &[("/r/docs/dev/index.md", "see [[../system/foo.md]]"), ("/r/docs/system/foo.md", "")],
        "docs/dev/index.md",
    );
    let style: Vec<_> =
        issues.iter().filter(|i| matches!(i.kind, IssueKind::Style { .. })).collect();
    assert_eq!(style.len(), 1);
    assert_eq!(
        style[0].kind,
        IssueKind::Style {
            scope: StyleScope::Wiki,
            suggested: "foo.md".into(),
            path_start: 6,
            path_end: 22,
        }
    );
}

#[test]
fn cross_repo_annotation_with_unknown_name_is_silent() {
    let (_, issues) = crawl(&[("/r/index.md", "see `foo.md` (no-such-repo)")], "index.md");
    assert!(issues.is_empty());
}

#[test]
fn cross_repo_ref_to_known_repo_with_missing_target_flagged() {
    let issues = cross_repo_crawl("see `missing.md` (known-repo)", "known-repo", &[]);
    let broken: Vec<_> =
        issues.iter().filter(|i| matches!(i.kind, IssueKind::CrossRepoBroken(_))).collect();
    assert_eq!(broken.len(), 1, "expected 1 CrossRepoBroken, got: {:?}", issues);
}

#[test]
fn cross_repo_files_internal_broken_links_not_reported() {
    let issues = cross_repo_crawl(
        "see `outgoing.md` (target-repo)",
        "target-repo",
        &[("/other/outgoing.md", "[bad](nonexistent.md) intra-target broken link")],
    );
    assert!(issues.is_empty(), "expected silent, got: {:?}", issues);
}

#[test]
fn entry_repo_anchor_check_on_cross_repo_target_still_works() {
    let issues = cross_repo_crawl(
        "see `outgoing.md#nope` (target-repo)",
        "target-repo",
        &[("/other/outgoing.md", "# Real Section\n")],
    );
    let anchors: Vec<_> =
        issues.iter().filter(|i| matches!(i.kind, IssueKind::BrokenAnchor(_))).collect();
    assert_eq!(anchors.len(), 1, "expected 1 BrokenAnchor, got: {:?}", issues);
}

#[test]
fn cross_repo_ref_to_locally_missing_repo_is_silent() {
    let mut cfg = GlobalConfig { repos: StringMap::new() };
    cfg.repos.insert(
        "some-repo".to_string(),
        "/tmp/__md_orphan_definitely_not_a_dir__".to_string(),
    );
    cfg.retain_existing(&StringSet::new());
    assert!(cfg.repos.is_empty());
    let options = CrawlOptions { repos: cfg.repos, ..CrawlOptions::new() };
    let world = World::new(&[("/r/.md-orphan", ""), ("/r/index.md", "see `foo.md` (some-repo)")]);
    let (_, _, issues) = world.crawl("/r", &["index.md"], &options);
    assert!(issues.is_empty(), "expected silent, got: {:?}", issues);
}

#[test]
fn crawl_fix_rewrites_wiki_and_is_idempotent() {
    let (_, issues) = crawl(
        &[("/r/index.md", "x [[docs/guide.md]] y"), ("/r/docs/guide.md", "")],
        "index.md",
    );
    let style: Vec<LinkIssue> = issues
        .iter()
        .filter(|i| matches!(i.kind, IssueKind::Style { .. }))
        .cloned()
        .collect();
    assert_eq!(style.len(), 1);

    let mut files = StringMap::new();
    files.insert("/r/index.md".to_string(), b"x [[docs/guide.md]] y".to_vec());
    let (rewritten, failed) = apply_style_fixes(&style, &files);
    assert_eq!(failed.len(), 0);
    let bytes = rewritten.get("/r/index.md").unwrap();
    assert_eq!(bytes.as_slice(), b"x [[guide.md]] y");

    let text = String::from_utf8(bytes.clone()).unwrap();
    let (_, issues2) =
        crawl(&[("/r/index.md", text.as_str()), ("/r/docs/guide.md", "")], "index.md");
    assert!(!issues2.iter().any(|i| matches!(i.kind, IssueKind::Style { .. })));
}

/// The file after its links were rewritten as the notes about it ask.
fn fixed(issues: &Vec<LinkIssue>, path: &str, text: &str) -> String {
    let mut files = StringMap::new();
    files.insert(path.to_string(), text.as_bytes().to_vec());
    let (rewritten, _) = apply_style_fixes(issues, &files);
    String::from_utf8(rewritten.get(path).unwrap().clone()).unwrap()
}

fn styles(issues: &[LinkIssue]) -> usize {
    issues.iter().filter(|i| matches!(i.kind, IssueKind::Style { .. })).count()
}

#[test]
fn fixing_touches_paths_alone_and_is_done_once() {
    let text = "a ` b [[docs/guide.md#top|the guide]] [x](docs/guide.md)\n\
        ```\n[[docs/guide.md]]\n```\n\
        [[b/twin.md]] `docs/far.md#sec` (o), [[./docs/guide.md]]\n";
    let others = [
        ("/r/docs/guide.md", "# top"),
        ("/r/a/twin.md", ""),
        ("/r/b/twin.md", ""),
        ("/other/docs/far.md", "# sec"),
    ];
    let issues = cross_repo_crawl(text, "o", &others);
    assert_eq!(styles(&issues), 3, "got: {:?}", issues);
    let after = fixed(&issues, "/r/index.md", text);
    assert_eq!(
        after,
        "a ` b [[guide.md#top|the guide]] [x](docs/guide.md)\n\
        ```\n[[docs/guide.md]]\n```\n\
        [[b/twin.md]] `far.md#sec` (o), [[guide.md]]\n"
    );
    let again = cross_repo_crawl(&after, "o", &others);
    assert!(again.is_empty(), "got: {:?}", again);
}

#[test]
fn second_run_after_fixing_reaches_the_same_files() {
    let text = "a ` b [[docs/gu`ide.md]] and [[docs/no\u{fffd}te.md#x|y]]\n";
    let others = [
        ("/r/docs/gu`ide.md", "back to [[../index.md]]\n"),
        ("/r/docs/no\u{fffd}te.md", "# x\n"),
    ];
    let before = [("/r/index.md", text), others[0], others[1]];
    // The backtick before the first link is closed by the one in its path.
    let (reachable, issues) = crawl(&before, "index.md");
    assert!(!reachable.contains("/r/docs/gu`ide.md"));
    assert!(reachable.contains("/r/docs/no\u{fffd}te.md"));
    assert_eq!(styles(&issues), 1);
    let after = fixed(&issues, "/r/index.md", text);
    assert_eq!(after, "a ` b [[docs/gu`ide.md]] and [[no\u{fffd}te.md#x|y]]\n");
    // With no backtick open, both links are read, before and after.
    let text = "b [[docs/gu`ide.md]] and [[docs/no\u{fffd}te.md#x|y]]\n";
    let before = [("/r/index.md", text), others[0], others[1]];
    let (reachable, issues) = crawl(&before, "index.md");
    assert_eq!(reachable.len(), 3);
    assert_eq!(styles(&issues), 3);
    let after = fixed(&issues, "/r/index.md", text);
    assert_eq!(after, "b [[gu`ide.md]] and [[no\u{fffd}te.md#x|y]]\n");
    let back = fixed(&issues, "/r/docs/gu`ide.md", others[0].1);
    assert_eq!(back, "back to [[index.md]]\n");
    let again = [
        ("/r/index.md", after.as_str()),
        ("/r/docs/gu`ide.md", back.as_str()),
        others[1],
    ];
    let (reachable, issues) = crawl(&again, "index.md");
    assert_eq!(reachable.len(), 3);
    assert!(issues.is_empty());
}

#[test]
fn path_from_the_root_is_canonical_where_the_name_is_not_unique() {
    let files = [("/r/a/foo.md", ""), ("/r/b/foo.md", "")];
    let run = |text: &str| {
        let mut all = vec![("/r/docs/index.md", text)];
        all.extend_from_slice(&files);
        crawl(&all, "docs/index.md")
    };
    let text = "[[../a/foo.md]]";
    let (reachable, issues) = run(text);
    assert_eq!(styles(&issues), 1);
    assert!(reachable.contains("/r/a/foo.md"));
    let after = fixed(&issues, "/r/docs/index.md", text);
    assert_eq!(after, "[[a/foo.md]]");
    let (reachable, again) = run(&after);
    assert!(again.is_empty(), "got: {:?}", again);
    assert_eq!(reachable.len(), 2);
    assert!(reachable.contains("/r/a/foo.md"));
}

#[test]
fn standard_links_do_not_start_at_the_root() {
    let (_, issues) = crawl(
        &[("/r/docs/index.md", "[x](a/foo.md)"), ("/r/a/foo.md", ""), ("/r/b/foo.md", "")],
        "docs/index.md",
    );
    assert_eq!(issues.len(), 1);
    assert_eq!(issues[0].kind, IssueKind::Ambiguous(2));
}

#[test]
fn file_beside_the_link_comes_before_the_one_from_the_root() {
    let (reachable, issues) = crawl(
        &[("/r/docs/index.md", "[[a/foo.md]]"), ("/r/docs/a/foo.md", ""), ("/r/a/foo.md", "")],
        "docs/index.md",
    );
    assert!(reachable.contains("/r/docs/a/foo.md"));
    assert!(!reachable.contains("/r/a/foo.md"));
    assert_eq!(styles(&issues), 1);
}

#[test]
fn standard_links_are_left_as_they_are() {
    let (reachable, issues) = crawl(
        &[("/r/index.md", "[a](./docs/../docs/guide.md)"), ("/r/docs/guide.md", "")],
        "index.md",
    );
    assert!(issues.is_empty());
    assert!(reachable.contains("/r/docs/guide.md"));
}

#[test]
fn entry_files_reach_what_each_of_them_reaches() {
    let world = World::new(&[
        ("/r/a.md", "[[b.md]]"),
        ("/r/b.md", ""),
        ("/r/c.md", "[[d.md]] [[b.md]]"),
        ("/r/d.md", ""),
        ("/r/e.md", ""),
    ]);
    let from = |entries: &[&str]| {
        let reachable = world.crawl("/r", entries, &CrawlOptions::new()).1;
        let mut all: Vec<String> =
            (0..reachable.len()).map(|i| reachable.get(i).to_string()).collect();
        all.sort();
        all
    };
    assert_eq!(from(&["a.md"]), vec!["/r/a.md", "/r/b.md"]);
    assert_eq!(from(&["c.md"]), vec!["/r/b.md", "/r/c.md", "/r/d.md"]);
    let both = vec!["/r/a.md", "/r/b.md", "/r/c.md", "/r/d.md"];
    assert_eq!(from(&["a.md", "c.md"]), both);
    assert_eq!(from(&["c.md", "a.md"]), both);
}

#[test]
fn naming_an_entry_file_again_changes_nothing() {
    let world = World::new(&[
        ("/r/a.md", "[[gone.md]] [[docs/c.md]]"),
        ("/r/b.md", "[x](lost.md)"),
        ("/r/docs/c.md", "[[../b.md]]"),
    ]);
    let run = |entries: &[&str]| world.crawl("/r", entries, &CrawlOptions::new());
    let (_, once, issues) = run(&["a.md", "b.md"]);
    assert_eq!(issues.len(), 4);
    for entries in [&["a.md", "b.md", "a.md", "b.md"][..], &["a.md", "b.md", "b.md"][..]] {
        let (_, twice, again) = run(entries);
        assert_eq!(again, issues);
        assert_eq!(twice.len(), once.len());
    }
}

#[test]
fn unreadable_entry_reports_issue_not_orphan() {
    let (reachable, issues) = crawl(&[("/r/.md-orphan", "")], "gone.md");
    assert_eq!(issues.len(), 1, "expected 1 Unreadable, got: {:?}", issues);
    assert!(matches!(issues[0].kind, IssueKind::Unreadable));
    assert_eq!(issues[0].source, "/r/gone.md");
    assert!(reachable.contains("/r/gone.md"));
}

#[test]
fn links_are_followed_to_the_end_and_circles_end() {
    let (reachable, issues) = crawl(
        &[
            ("/r/a.md", "[[b.md]]"),
            ("/r/b.md", "[[c.md]] [[a.md]]"),
            ("/r/c.md", "[[a.md]]"),
            ("/r/lost.md", "[[a.md]]"),
        ],
        "a.md",
    );
    assert!(issues.is_empty());
    assert_eq!(reachable.len(), 3);
    assert!(reachable.contains("/r/c.md"));
    assert!(!reachable.contains("/r/lost.md"));
}

#[test]
fn each_broken_link_is_told_once() {
    let (_, issues) = crawl(
        &[("/r/a.md", "[[b.md]] [[b.md]]"), ("/r/b.md", "[x](gone.md)")],
        "a.md",
    );
    assert_eq!(issues.len(), 1);
    assert_eq!(issues[0].source, "/r/b.md");
    assert_eq!(issues[0].link, "gone.md");
}

#[test]
fn link_out_of_the_root_is_silent() {
    let (_, issues) = crawl(&[("/r/a.md", "[x](../../etc/gone.md)")], "a.md");
    assert!(issues.is_empty());
}

#[test]
fn cross_repo_style_names_the_repository() {
    let issues = cross_repo_crawl(
        "see `docs/guide.md` (target-repo)",
        "target-repo",
        &[("/other/docs/guide.md", "")],
    );
    assert_eq!(issues.len(), 1);
    assert_eq!(
        issues[0].kind,
        IssueKind::Style {
            scope: StyleScope::CrossRepo { repo: "target-repo".into() },
            suggested: "guide.md".into(),
            path_start: 5,
            path_end: 18,
        }
    );
}

#[test]
fn cross_repo_path_that_climbs_out_is_broken() {
    let issues = cross_repo_crawl(
        "see `a/../../../x.md` (target-repo)",
        "target-repo",
        &[("/other/y.md", "")],
    );
    assert_eq!(issues.len(), 1);
    assert_eq!(issues[0].kind, IssueKind::CrossRepoBroken("target-repo".into()));
}

#[test]
fn cross_repo_path_that_climbs_out_leads_to_the_file_of_its_name() {
    let issues = cross_repo_crawl(
        "see `a/../../../docs/guide.md` (target-repo)",
        "target-repo",
        &[("/other/docs/guide.md", "")],
    );
    assert_eq!(issues.len(), 1);
    assert_eq!(
        issues[0].kind,
        IssueKind::Style {
            scope: StyleScope::CrossRepo { repo: "target-repo".into() },
            suggested: "guide.md".into(),
            path_start: 5,
            path_end: 29,
        }
    );
}

#[test]
fn cache_file_is_wanted_until_the_cache_is_loaded() {
    let world = World::new(&[("/r/index.md", "")]);
    for enabled in [true, false] {
        let index = index_repo(
            CanonicalPath::assume_canonical("/r".to_string()),
            &Vec::new(),
            true,
            false,
            &world.walk("/r"),
        );
        let cache = ExtractionCache::new(enabled, StringSet::new());
        let mut state = CrawlState::new(index, &CrawlOptions::new(), cache, Facts::new());
        state.seed(&vec!["/r/index.md".to_string()]);
        assert_eq!(state.queue().len(), 1);
        assert_eq!(state.wants_stored_cache("/r"), enabled);
        let stamp = Some(Stamp { mtime_ns: 1, size: 0 });
        state.provide_file("/r/index.md", "/r", Some(b""), stamp, None);
        assert!(!state.wants_stored_cache("/r"));
    }
}

#[test]
fn referenced_repositories_are_known_once_the_files_are() {
    let world = World::new(&[("/r/index.md", "see `x.md` (o) and `y.md` (self)")]);
    let mut names = StringSet::new();
    names.insert("o".to_string());
    names.insert("self".to_string());
    let mut repos = StringMap::new();
    repos.insert("o".to_string(), "/other".to_string());
    repos.insert("self".to_string(), "/r".to_string());
    let options = CrawlOptions { repos, ..CrawlOptions::new() };
    let index = index_repo(
        CanonicalPath::assume_canonical("/r".to_string()),
        &Vec::new(),
        true,
        false,
        &world.walk("/r"),
    );
    let cache = ExtractionCache::new(false, names);
    let mut state = CrawlState::new(index, &options, cache, Facts::new());
    state.seed(&vec!["/r/index.md".to_string()]);
    assert_eq!(state.prefetch_referenced_repos().len(), 0);
    match state.step_once() {
        Progress::Ask(Query::File { path, root }) => {
            assert_eq!((path.as_str(), root.as_str()), ("/r/index.md", "/r"));
            let bytes = world.files.get(&path).map(|s| s.as_bytes());
            state.provide_file(&path, &root, bytes, None, None);
        }
        _ => panic!("expected a question about the entry file"),
    }
    let wanted = state.prefetch_referenced_repos();
    assert_eq!(wanted.len(), 1);
    assert!(wanted.contains("/other"));
}

#[test]
fn facts_once_given_stay() {
    let world = World::new(&[("/r/index.md", "")]);
    let index = index_repo(
        CanonicalPath::assume_canonical("/r".to_string()),
        &Vec::new(),
        true,
        false,
        &world.walk("/r"),
    );
    let cache = ExtractionCache::new(false, StringSet::new());
    let mut state = CrawlState::new(index, &CrawlOptions::new(), cache, Facts::new());
    state.seed(&vec!["/r/index.md".to_string()]);
    state.provide_file("/r/index.md", "/r", Some(b"[x](one.md)"), None, None);
    state.provide_file("/r/index.md", "/r", Some(b""), None, None);
    state.provide_canonical("/r/one.md".to_string(), None);
    match resume(state) {
        Crawl::Done(_, issues, _) => assert_eq!(issues.len(), 1),
        Crawl::Waiting(_, _) => panic!("expected the end"),
    }
}

#[test]
fn crawl_drops_entries_of_files_that_are_gone() {
    let world = World::new(&[("/r/index.md", "# A")]);
    let mut cache = ExtractionCache::new(true, StringSet::new());
    let stamp = Some(Stamp { mtime_ns: 1, size: 0 });
    cache.read("/r/gone.md", "/r", Some(b""), stamp, None);
    let index = index_repo(
        CanonicalPath::assume_canonical("/r".to_string()),
        &Vec::new(),
        true,
        false,
        &world.walk("/r"),
    );
    let mut state = CrawlState::new(index, &CrawlOptions::new(), cache, Facts::new());
    state.seed(&vec!["/r/index.md".to_string()]);
    state.provide_file("/r/index.md", "/r", Some(b"# A"), stamp, None);
    match resume(state) {
        Crawl::Done(_, _, cache) => {
            let c = cache.cache("/r").unwrap();
            assert!(c.entries.contains_key("index.md"));
            assert!(!c.entries.contains_key("gone.md"));
        }
        Crawl::Waiting(_, _) => panic!("expected the end"),
    }
}
