use md_orphan::collections::StringSet;
use md_orphan::extract::{
    anchor_from_graphemes, anchor_id, extract_headings, extract_links, scan_backtick_ref,
    scan_standard_link, scan_wiki_link, Link, LinkKind,
};

fn extract_links_str(s: &str) -> Vec<Link> {
    extract_links(s.as_bytes(), &StringSet::new())
}

fn extract_headings_str(s: &str) -> StringSet {
    extract_headings(s.as_bytes())
}

fn paths(s: &str) -> Vec<String> {
    extract_links_str(s).into_iter().map(|l| l.target).collect()
}

fn pairs(s: &str) -> Vec<(String, Option<String>)> {
    extract_links_str(s)
        .into_iter()
        .map(|l| (l.target, l.fragment))
        .collect()
}

fn cross_repo_links(s: &str, repos: &[&str]) -> Vec<Link> {
    let mut set = StringSet::new();
    for r in repos {
        set.insert(r.to_string());
    }
    extract_links(s.as_bytes(), &set)
}

// -- known-repo filter (cross-repo backtick refs) --

#[test]
fn cross_repo_emitted_when_name_is_known() {
    let links = cross_repo_links("see `foo.md` (meow-tower)", &["meow-tower"]);
    assert_eq!(links.len(), 1);
    assert_eq!(links[0].target, "foo.md");
    assert_eq!(links[0].kind, LinkKind::CrossRepo { repo: "meow-tower".into() });
}

#[test]
fn cross_repo_filtered_when_name_is_unknown() {
    // `view.name` (GridView) — annotation, not a cross-repo ref. Plain inline code; no link.
    assert!(cross_repo_links("`view.name` (GridView)", &["meow-tower"]).is_empty());
}

#[test]
fn cross_repo_filtered_for_numeric_annotation() {
    assert!(cross_repo_links("`UISortingOrder.Activity` (10)", &["meow-tower"]).is_empty());
}

#[test]
fn cross_repo_filtered_when_repo_set_is_empty() {
    assert!(cross_repo_links("`foo.md` (meow-tower)", &[]).is_empty());
}

#[test]
fn cross_repo_filter_does_not_consume_following_links() {
    // Annotation in front, real wiki link after — wiki link must still be picked up.
    let links = cross_repo_links(
        "`view.name` (GridView) and [[guide.md]]",
        &["meow-tower"],
    );
    let targets: Vec<_> = links.iter().map(|l| l.target.clone()).collect();
    assert_eq!(targets, vec!["guide.md"]);
    assert_eq!(links[0].kind, LinkKind::Wiki);
}

#[test]
fn plain_backtick_span_is_not_a_link() {
    // `path.ext` with no `(repo)` suffix is prose — never a link, even when path-shaped.
    assert!(cross_repo_links("see `foo.md` here", &[]).is_empty());
    assert!(cross_repo_links("see `docs/foo.md#sec`", &[]).is_empty());
}

// -- path-shape constraints (only enforced when name is a configured repo) --

#[test]
fn cross_repo_filtered_for_non_md_path() {
    // .ts files in cross-repo refs are unverifiable without all-extension indexing — skip.
    assert!(cross_repo_links("`tps-tag-applier.ts` (meow-toolbox)", &["meow-toolbox"]).is_empty());
}

#[test]
fn cross_repo_filtered_for_path_with_whitespace() {
    // `foo bar.md` (meow-tower) — prose with a trailing extension; still not a path.
    assert!(cross_repo_links("`foo bar.md` (meow-tower)", &["meow-tower"]).is_empty());
}

#[test]
fn cross_repo_filtered_for_placeholder_path() {
    // Docs convention: `<name>`, `${name}`, `{name}` mark substitution points.
    assert!(cross_repo_links("`services/<name>.md` (meow-game-server)", &["meow-game-server"]).is_empty());
    assert!(cross_repo_links("`docs/${section}.md` (meow-tower)", &["meow-tower"]).is_empty());
    assert!(cross_repo_links("`{anything}.md` (meow-tower)", &["meow-tower"]).is_empty());
}

#[test]
fn cross_repo_filtered_for_relative_path_prefix() {
    assert!(cross_repo_links("`./foo.md` (meow-tower)", &["meow-tower"]).is_empty());
    assert!(cross_repo_links("`../foo.md` (meow-tower)", &["meow-tower"]).is_empty());
}

#[test]
fn cross_repo_emitted_with_fragment_on_clean_path() {
    let links = cross_repo_links("`docs/foo.md#sec` (meow-tower)", &["meow-tower"]);
    assert_eq!(links.len(), 1);
    assert_eq!(links[0].target, "docs/foo.md");
    assert_eq!(links[0].fragment.as_deref(), Some("sec"));
}

// -- standard links --

#[test]
fn extracts_standard_link() {
    assert_eq!(paths("See [guide](docs/guide.md) for details"), vec!["docs/guide.md"]);
}

#[test]
fn extracts_multiple_links() {
    assert_eq!(paths("[a](one.md) text [b](two.md)"), vec!["one.md", "two.md"]);
}

#[test]
fn strips_fragment() {
    assert_eq!(paths("[ref](page.md#section)"), vec!["page.md"]);
}

#[test]
fn handles_relative_dot() {
    assert_eq!(paths("[x](./local.md)"), vec!["./local.md"]);
}

#[test]
fn handles_parent_traversal() {
    assert_eq!(paths("[x](../other/file.md)"), vec!["../other/file.md"]);
}

#[test]
fn skips_http_urls() {
    assert!(paths("[site](https://example.com/page.md)").is_empty());
    assert!(paths("[site](http://example.com/page.md)").is_empty());
}

#[test]
fn extracts_non_markdown_links() {
    assert_eq!(paths("[img](photo.png) [script](app.ts)"), vec!["photo.png", "app.ts"]);
}

#[test]
fn skips_html_tags() {
    assert!(paths("<a href=\"page.md\">link</a>").is_empty());
}

#[test]
fn handles_empty_input() {
    assert!(paths("").is_empty());
}

#[test]
fn handles_no_links() {
    assert!(paths("Just some plain text without any links.").is_empty());
}

#[test]
fn handles_multiple_fragments() {
    assert_eq!(paths("[x](page.md#one#two)"), vec!["page.md"]);
}

#[test]
fn skips_link_spanning_lines() {
    assert!(paths("[text](broken\nlink.md)").is_empty());
}

#[test]
fn handles_adjacent_links() {
    assert_eq!(paths("[a](a.md)[b](b.md)"), vec!["a.md", "b.md"]);
}

#[test]
fn skips_short_paths() {
    assert!(paths("[x](.md)").is_empty());
}

// -- wiki links --

#[test]
fn extracts_wiki_link() {
    assert_eq!(paths("See [[guide.md]] for details"), vec!["guide.md"]);
}

#[test]
fn extracts_wiki_link_with_alias() {
    assert_eq!(paths("See [[guide.md|the guide]] for details"), vec!["guide.md"]);
}

#[test]
fn extracts_wiki_link_with_fragment() {
    assert_eq!(paths("See [[guide.md#section]] here"), vec!["guide.md"]);
}

#[test]
fn extracts_wiki_link_with_fragment_and_alias() {
    assert_eq!(paths("See [[guide.md#section|display]] here"), vec!["guide.md"]);
}

#[test]
fn extracts_wiki_link_with_path() {
    assert_eq!(paths("See [[docs/guide.md]] for details"), vec!["docs/guide.md"]);
}

#[test]
fn skips_wiki_link_without_extension() {
    assert!(paths("See [[guide]] here").is_empty());
}

#[test]
fn extracts_wiki_link_to_non_md() {
    assert_eq!(paths("See [[image.png]] here"), vec!["image.png"]);
}

#[test]
fn extracts_mixed_links() {
    assert_eq!(paths("[[wiki.md]] and [standard](standard.md)"), vec!["wiki.md", "standard.md"]);
}

#[test]
fn skips_empty_wiki_link() {
    assert!(paths("See [[]] here").is_empty());
}

#[test]
fn skips_wiki_link_spanning_lines() {
    assert!(paths("See [[broken\nlink]] here").is_empty());
}

#[test]
fn extracts_self_anchor_wiki_link() {
    // `[[#section]]` — empty path, fragment present: emitted with empty target.
    let p = pairs("jump to [[#some-section]] above");
    assert_eq!(p, vec![(String::new(), Some("some-section".into()))]);
}

#[test]
fn extracts_self_anchor_wiki_link_with_alias() {
    let p = pairs("jump to [[#some-section|go up]] above");
    assert_eq!(p, vec![(String::new(), Some("some-section".into()))]);
}

#[test]
fn skips_empty_self_anchor_wiki_link() {
    // `[[#]]` — fragment is empty too; nothing to validate.
    assert!(paths("See [[#]] here").is_empty());
}

#[test]
fn extracts_adjacent_wiki_links() {
    assert_eq!(paths("[[one.md]][[two.md]]"), vec!["one.md", "two.md"]);
}

// -- fragments --

#[test]
fn fragment_from_standard_link() {
    let p = pairs("[ref](page.md#section)");
    assert_eq!(p, vec![("page.md".into(), Some("section".into()))]);
}

#[test]
fn fragment_from_wiki_link() {
    let p = pairs("[[guide.md#core-classes]]");
    assert_eq!(p, vec![("guide.md".into(), Some("core-classes".into()))]);
}

#[test]
fn wiki_link_fragment_with_alias() {
    let p = pairs("[[guide.md#section|display]]");
    assert_eq!(p, vec![("guide.md".into(), Some("section".into()))]);
}

#[test]
fn no_fragment_when_absent() {
    let p = pairs("[ref](page.md)");
    assert_eq!(p, vec![("page.md".into(), None)]);
}

#[test]
fn empty_fragment_treated_as_none() {
    let p = pairs("[ref](page.md#)");
    assert_eq!(p, vec![("page.md".into(), None)]);
}

// -- fences + backtick edge cases --

#[test]
fn fenced_code_block_skipped() {
    let src = "See [[real.md]]\n\n```\nInside fence: [[fake.md]] and `path.md` (some-repo)\n```\n\nOutside again: [[other.md]]";
    assert_eq!(paths(src), vec!["real.md", "other.md"]);
}

#[test]
fn wiki_link_after_double_backtick_inline_code() {
    let src = "| Inline code | `` `path.ext` `` (no repo) | see [[TODO.md]] |";
    assert_eq!(paths(src), vec!["TODO.md"]);
}

// -- headings --

#[test]
fn extracts_simple_heading() {
    let h = extract_headings_str("# Hello World");
    assert_eq!(h.len(), 1);
    assert_eq!(h.get(0), "hello-world");
}

#[test]
fn extracts_multiple_level_headings() {
    let h = extract_headings_str("# First\n## Second\n### Third");
    assert!(h.contains("first"));
    assert!(h.contains("second"));
    assert!(h.contains("third"));
    assert_eq!(h.len(), 3);
}

#[test]
fn heading_with_special_chars() {
    let h = extract_headings_str("## Core (Classes)");
    assert!(h.contains("core-classes"));
    assert_eq!(h.len(), 1);
}

#[test]
fn heading_with_formatting() {
    let h = extract_headings_str("## **Bold** heading");
    assert!(h.contains("bold-heading"));
}

#[test]
fn heading_with_underscore() {
    let h = extract_headings_str("## hello_world");
    assert!(h.contains("hello_world"));
}

#[test]
fn heading_with_backticks() {
    let h = extract_headings_str("## `code` stuff");
    assert!(h.contains("code-stuff"));
}

#[test]
fn no_headings_in_plain_text() {
    assert!(extract_headings_str("Just text\nMore text").is_empty());
}

#[test]
fn heading_must_have_space_after_hash() {
    assert!(extract_headings_str("#NoSpace").is_empty());
}

#[test]
fn heading_not_mid_line() {
    assert!(extract_headings_str("text ## not a heading").is_empty());
}

// -- anchors --

#[test]
fn anchor_id_parity_with_swift() {
    let cases = [
        ("Hello World", "hello-world"),
        ("caf\u{e9}", "caf\u{e9}"),
        ("cafe\u{301}", "cafe\u{301}"),
        ("Caf\u{c9} Bar", "caf\u{e9}-bar"),
        ("C++ & Rust", "c--rust"),
        ("v1.2.3", "v123"),
        ("snake_case-kebab", "snake_case-kebab"),
        ("\u{65e5}\u{672c}\u{8a9e} \u{898b}\u{51fa}\u{3057}", "\u{65e5}\u{672c}\u{8a9e}-\u{898b}\u{51fa}\u{3057}"),
        ("\u{1f44d} ok", "-ok"),
        ("\u{bd} cup", "\u{bd}-cup"),
        ("Stra\u{df}e", "stra\u{df}e"),
        ("", ""),
    ];
    for (input, expected) in cases {
        assert_eq!(anchor_id(input), expected, "anchor of {input:?}");
    }
}

#[test]
fn anchor_goes_by_cluster() {
    // The combining mark alone is no letter: it stays because its cluster starts with one.
    assert_eq!(anchor_id("\u{301}x"), "x");
    let parts = vec!["e\u{301}".to_string(), " ".to_string(), "!".to_string(), String::new()];
    assert_eq!(anchor_from_graphemes(&parts), "e\u{301}-");
}

// -- byte ranges --

#[test]
fn ranges_are_in_order_and_spell_the_target() {
    let src = "a [[one.md#x]] b [t](two/three.md) c `four.md` (repo) [[#own]]";
    let links = cross_repo_links(src, &["repo"]);
    assert_eq!(links.len(), 4);
    let mut last = 0;
    for l in &links {
        assert!(l.path_start >= last && l.path_start <= l.path_end);
        assert_eq!(&src[l.path_start..l.path_end], l.target);
        last = l.path_end;
    }
    assert_eq!((links[0].path_start, links[0].path_end), (4, 10));
}

#[test]
fn fence_lines_and_what_they_enclose_hold_no_link() {
    assert!(paths("```[[on-fence.md]]\n[[in.md]]\n```[[on-close.md]]\n").is_empty());
    assert_eq!(paths("```\n[[in.md]]\n```\n[[out.md]]"), vec!["out.md"]);
    // An indented fence is no fence.
    assert_eq!(paths(" ```\n[[in.md]]\n ```\n"), vec!["in.md"]);
    // A fence that is never closed runs to the end.
    assert!(paths("```\n[[in.md]]\n").is_empty());
}

#[test]
fn malformed_utf8_is_replaced() {
    let links = extract_links(b"[[a\xff.md]]", &StringSet::new());
    assert_eq!(links[0].target, "a\u{fffd}.md");
}

#[test]
fn short_texts_hold_no_link() {
    assert!(paths("[[a]").is_empty());
    assert!(paths("](.b").is_empty());
    assert!(paths("text [[").is_empty());
    assert!(paths("text ](").is_empty());
    assert!(paths("text `").is_empty());
}

#[test]
fn cross_repo_annotation_must_follow_at_once() {
    assert!(cross_repo_links("`foo.md`(repo)", &["repo"]).is_empty());
    assert!(cross_repo_links("`foo.md` (repo", &["repo"]).is_empty());
    assert!(cross_repo_links("`foo.md` ()", &["repo"]).is_empty());
    assert!(cross_repo_links("`.md` (repo)", &["repo"]).is_empty());
}

#[test]
fn heading_text_is_trimmed_at_its_end() {
    let h = extract_headings_str("# One \t\n#\n# \n## Two\r\nx");
    assert!(h.contains("one"));
    assert!(h.contains("two"));
    assert_eq!(h.len(), 2);
}

#[test]
fn same_heading_twice_counts_once() {
    assert_eq!(extract_headings_str("# A\n# A\n").len(), 1);
}

#[test]
fn lone_backtick_hides_no_link() {
    assert_eq!(paths("a ` b [[c.md]] d"), vec!["c.md"]);
    assert_eq!(paths("a ` b [[c.md]] ` d"), Vec::<String>::new());
}

#[test]
fn anchor_of_an_ascii_heading() {
    assert_eq!(anchor_id("A_b-C 1.2 (x)?"), "a_b-c-12-x");
    assert_eq!(anchor_id(""), "");
}

#[test]
fn anchor_drops_carriage_returns() {
    assert_eq!(anchor_id("A\r\nb c"), "ab-c");
    assert_eq!(anchor_id("a\r b"), "a-b");
    assert_eq!(anchor_id("\r\r\n\n"), "");
}

#[test]
fn dot_at_an_edge_makes_no_link() {
    assert_eq!(paths("see [[foo.]] and [x](a/.md)"), Vec::<String>::new());
    assert_eq!(paths("see [[foo.x]] and [x](a/b.md)"), vec!["foo.x", "a/b.md"]);
}

#[test]
fn scans_say_where_to_go_on() {
    let mut links = Vec::new();
    assert_eq!(scan_standard_link(b"](a.md", 0, &mut links), 7);
    assert_eq!(scan_standard_link(b"](a.md)x", 0, &mut links), 7);
    assert_eq!(scan_standard_link(b"](a.md\nx", 0, &mut links), 7);
    assert_eq!(scan_wiki_link(b"[[", 0, &mut links), 3);
    assert_eq!(scan_wiki_link(b"[[a.md", 0, &mut links), 6);
    assert_eq!(scan_wiki_link(b"[[a.md]] x", 0, &mut links), 8);
    assert_eq!(scan_backtick_ref(b"`a.md", 0, &mut links, &StringSet::new()), 1);
    assert_eq!(scan_backtick_ref(b"`a.md` x", 0, &mut links, &StringSet::new()), 6);
    assert_eq!(links.len(), 2);
}

#[test]
fn fewer_known_repositories_leave_out_their_links_alone() {
    let text = "[[a.md]] `b.md` (one) `c.md` (two) [x](d.md) `e.md` (one)\n";
    let many = cross_repo_links(text, &["one", "two"]);
    let few = cross_repo_links(text, &["two"]);
    let targets: Vec<&str> = many.iter().map(|l| l.target.as_str()).collect();
    assert_eq!(targets, vec!["a.md", "b.md", "c.md", "d.md", "e.md"]);
    let targets: Vec<&str> = few.iter().map(|l| l.target.as_str()).collect();
    assert_eq!(targets, vec!["a.md", "c.md", "d.md"]);
}

#[test]
fn headings_of_joined_texts_are_those_of_both() {
    let both = extract_headings_str("# One\ntext\n## Two\n");
    assert!(both.contains("one") && both.contains("two"));
    assert_eq!(both.len(), 2);
    let all = extract_headings_str("# One\ntext\n## Two\n# Three\n# One");
    assert!(all.contains("one") && all.contains("two") && all.contains("three"));
    assert_eq!(all.len(), 3);
    // Without a line break between them, the second text is part of the last line.
    let glued = extract_headings_str("# One# Two");
    assert!(glued.contains("one-two"));
    assert_eq!(glued.len(), 1);
}
