use md_orphan::glob::glob_match;

#[test]
fn star_stays_in_its_segment() {
    assert!(glob_match("*.md", "a.md"));
    assert!(glob_match("*.md", ".md"));
    assert!(!glob_match("*.md", "a/b.md"));
    assert!(glob_match("*/*.md", "a/b.md"));
    assert!(glob_match("a*b*c", "a--b--c"));
    assert!(!glob_match("a*b*c", "a--b--"));
    assert!(glob_match("**", "abc"));
    assert!(!glob_match("**", "a/b"));
}

#[test]
fn question_mark_takes_one_byte() {
    assert!(glob_match("v?", "v1"));
    assert!(!glob_match("v?", "v"));
    assert!(!glob_match("a?b", "a/b"));
    assert!(glob_match("??", "\u{e9}"));
}

#[test]
fn bracket_expressions() {
    assert!(glob_match("[abc].md", "b.md"));
    assert!(!glob_match("[abc].md", "d.md"));
    assert!(glob_match("[!abc].md", "d.md"));
    assert!(glob_match("[^abc].md", "d.md"));
    assert!(!glob_match("[!abc].md", "a.md"));
    assert!(glob_match("[a-c]x", "bx"));
    assert!(!glob_match("[a-c]x", "dx"));
    assert!(glob_match("[]]", "]"));
    assert!(glob_match("[a-]", "-"));
    assert!(glob_match("[\\]]", "]"));
    assert!(!glob_match("a[!b]c", "a/c"));
}

#[test]
fn named_classes() {
    assert!(glob_match("v[[:digit:]]", "v7"));
    assert!(!glob_match("v[[:digit:]]", "vx"));
    assert!(glob_match("[[:upper:][:digit:]]", "Q"));
    assert!(glob_match("[![:space:]]", "x"));
    assert!(!glob_match("[![:space:]]", " "));
    assert!(glob_match("[[:xdigit:]]", "f"));
    assert!(!glob_match("[[:nope:]]", "f"));
}

#[test]
fn unclosed_bracket_stands_for_itself() {
    assert!(glob_match("[ab", "[ab"));
    assert!(!glob_match("[ab", "a"));
    assert!(!glob_match("[a/b]", "a"));
}

#[test]
fn backslash_takes_the_next_byte_as_it_is() {
    assert!(glob_match("a\\*b", "a*b"));
    assert!(!glob_match("a\\*b", "axb"));
    assert!(glob_match("a\\", "a\\"));
}

#[test]
fn ordinary_patterns_match_themselves() {
    assert!(glob_match("docs/guide.md", "docs/guide.md"));
    assert!(!glob_match("docs/guide.md", "docs/guide.mdx"));
    assert!(glob_match("", ""));
    assert!(!glob_match("", "a"));
}

#[test]
fn zero_bytes_match_nothing() {
    assert!(!glob_match("a\0", "a\0"));
    assert!(!glob_match("*", "a\0"));
}

#[test]
fn many_stars_are_no_trouble() {
    let name = "a".repeat(200);
    assert!(!glob_match("*a*a*a*a*a*a*a*a*a*a*a*a*a*a*a*b", &name));
}
