use md_orphan::collections::{StringMap, StringSet};
use md_orphan::sort::{sort_texts, text_before};
use md_orphan::text::{
    concat2, concat3, contains_char, ends_with, join_first, segments_of, split_text, starts_with,
    str_eq,
};

fn strings(items: &[&str]) -> Vec<String> {
    items.iter().map(|s| s.to_string()).collect()
}

#[test]
fn splitting_and_joining() {
    assert_eq!(split_text("a,b,,c", ','), strings(&["a", "b", "", "c"]));
    assert_eq!(split_text("", ','), strings(&[""]));
    let pieces = split_text("x/\u{e9}/y", '/');
    assert_eq!(join_first(&pieces, 3, "/"), "x/\u{e9}/y");
    assert_eq!(join_first(&pieces, 2, ", "), "x, \u{e9}");
    assert_eq!(segments_of("//a//b/"), strings(&["a", "b"]));
}

#[test]
fn comparing_and_building() {
    assert!(str_eq("\u{e9}", "\u{e9}") && !str_eq("a", "b") && !str_eq("a", "aa"));
    assert!(starts_with("abc", "ab") && !starts_with("abc", "b") && starts_with("abc", ""));
    assert!(ends_with("abc", "bc") && !ends_with("abc", "b") && !ends_with("c", "bc"));
    assert!(contains_char("abc", 'b') && !contains_char("abc", 'd'));
    assert_eq!(concat2("a", "b"), "ab");
    assert_eq!(concat3("a", "b", "c"), "abc");
}

#[test]
fn texts_are_sorted_by_their_bytes() {
    assert_eq!(
        sort_texts(strings(&["b", "", "a", "\u{e9}", "Z", "b", "ab"])),
        strings(&["", "Z", "a", "ab", "b", "b", "\u{e9}"])
    );
    let mut v = strings(&["\u{ffff}", "\u{10000}", "z", "\u{7f}", "\u{80}"]);
    let sorted = sort_texts(v.clone());
    v.sort();
    assert_eq!(sorted, v);
    assert!(text_before("a", "a") && text_before("a", "b") && !text_before("b", "a"));
}

#[test]
fn sets_keep_their_order() {
    let mut s = StringSet::new();
    assert!(s.is_empty());
    assert!(s.insert("b".to_string()));
    assert!(s.insert("a".to_string()));
    assert!(!s.insert("b".to_string()));
    assert_eq!(s.len(), 2);
    assert_eq!((s.get(0), s.get(1)), ("b", "a"));
    let c = s.clone();
    assert!(c.contains("a") && !c.contains("c"));
}

#[test]
fn maps_replace_and_retain() {
    let mut m = StringMap::new();
    m.insert("a".to_string(), 1);
    m.insert("b".to_string(), 2);
    m.insert("a".to_string(), 3);
    assert_eq!(m.len(), 2);
    assert_eq!(m.get("a"), Some(&3));
    assert_eq!(m.replace("a", 4), 3);
    assert_eq!((m.key_at(0), *m.value_at(0)), ("a", 4));
    let mut keep = StringSet::new();
    keep.insert("b".to_string());
    keep.insert("z".to_string());
    m.retain(&keep);
    assert_eq!(m.len(), 1);
    assert!(m.contains_key("b") && !m.contains_key("a"));
}
