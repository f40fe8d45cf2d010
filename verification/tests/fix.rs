use md_orphan::collections::StringMap;
use md_orphan::fix::{apply_style_fixes, fix_sources, rewrite, style_notes};
use md_orphan::scene::{IssueKind, LinkIssue, StyleScope};

fn style(source: &str, suggested: &str, start: usize, end: usize) -> LinkIssue {
    LinkIssue {
        link: "x".into(),
        source: source.into(),
        kind: IssueKind::Style {
            scope: StyleScope::Wiki,
            suggested: suggested.into(),
            path_start: start,
            path_end: end,
        },
    }
}

#[test]
fn fix_counts_unreadable_source_as_failure() {
    let issue = LinkIssue {
        link: "docs/guide.md".into(),
        source: "/nonexistent/__md_orphan_test__/index.md".into(),
        kind: IssueKind::Style {
            scope: StyleScope::Wiki,
            suggested: "guide.md".into(),
            path_start: 2,
            path_end: 15,
        },
    };
    let (rewritten, failed) = apply_style_fixes(&vec![issue], &StringMap::new());
    assert_eq!(failed.len(), 1);
    assert!(rewritten.is_empty());
}

#[test]
fn several_edits_in_one_file_come_out_as_if_done_at_once() {
    let src = b"[[docs/a.md]] and [[b/c.md]] and [[d.md]]".to_vec();
    let issues = vec![
        style("f", "a.md", 2, 11),
        style("f", "longer/c.md", 20, 26),
        style("f", "e.md", 35, 39),
    ];
    let r = rewrite(src, &issues, "f");
    assert_eq!(r, b"[[a.md]] and [[longer/c.md]] and [[e.md]]".to_vec());
}

#[test]
fn order_of_the_notes_does_not_matter() {
    let src = b"0123456789".to_vec();
    let a = vec![style("f", "X", 1, 3), style("f", "YYY", 5, 6)];
    let b = vec![style("f", "YYY", 5, 6), style("f", "X", 1, 3)];
    assert_eq!(rewrite(src.clone(), &a, "f"), b"0X34YYY6789".to_vec());
    assert_eq!(rewrite(src, &b, "f"), b"0X34YYY6789".to_vec());
}

#[test]
fn edits_that_do_not_fit_are_left_out() {
    let src = b"abc".to_vec();
    let issues = vec![style("f", "X", 2, 9), style("f", "Y", 3, 1), style("g", "Z", 0, 1)];
    assert_eq!(rewrite(src, &issues, "f"), b"abc".to_vec());
}

#[test]
fn every_file_is_treated_by_itself() {
    let issues = vec![
        style("f", "X", 0, 1),
        style("g", "Y", 1, 2),
        LinkIssue { link: "l".into(), source: "h".into(), kind: IssueKind::Broken },
    ];
    let sources = fix_sources(&issues);
    assert_eq!(sources.len(), 3);
    let mut files = StringMap::new();
    files.insert("f".to_string(), b"ab".to_vec());
    files.insert("g".to_string(), b"ab".to_vec());
    files.insert("other".to_string(), b"ab".to_vec());
    let (rewritten, failed) = apply_style_fixes(&issues, &files);
    assert_eq!(rewritten.get("f").unwrap(), &b"Xb".to_vec());
    assert_eq!(rewritten.get("g").unwrap(), &b"aY".to_vec());
    assert!(!rewritten.contains_key("other"));
    assert!(failed.contains("h"));
    assert_eq!(failed.len(), 1);
}

#[test]
fn style_notes_are_picked_in_order() {
    let broken = LinkIssue { link: "l".into(), source: "h".into(), kind: IssueKind::Broken };
    let issues = vec![style("f", "X", 0, 1), broken, style("g", "Y", 1, 2)];
    let picked = style_notes(issues);
    assert_eq!(picked, vec![style("f", "X", 0, 1), style("g", "Y", 1, 2)]);
    assert!(style_notes(Vec::new()).is_empty());
}

#[test]
fn edits_that_touch_come_out_as_if_done_at_once() {
    let issues = vec![style("f", "X", 1, 3), style("f", "YYY", 3, 4)];
    assert_eq!(rewrite(b"012345".to_vec(), &issues, "f"), b"0XYYY45".to_vec());
}
