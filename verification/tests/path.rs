use md_orphan::path::{
    base_name, decode_utf8, dir_name, has_extension, is_under, rel_path, CanonicalPath,
};

#[test]
fn dir_name_of_file_path() {
    assert_eq!(dir_name("/repo/docs/file.md"), "/repo/docs");
}

#[test]
fn dir_name_of_root_file() {
    assert_eq!(dir_name("/file.md"), "");
}

#[test]
fn dir_name_no_slash() {
    assert_eq!(dir_name("file.md"), ".");
}

#[test]
fn base_name_extracts_final_segment() {
    assert_eq!(base_name("/repo/docs/file.md"), "file.md");
}

#[test]
fn base_name_no_slash() {
    assert_eq!(base_name("file.md"), "file.md");
}

#[test]
fn rel_path_strips_root_prefix() {
    assert_eq!(rel_path("/repo/docs/file.md", "/repo"), Some("docs/file.md"));
}

#[test]
fn rel_path_equals_root_returns_empty() {
    assert_eq!(rel_path("/repo", "/repo"), Some(""));
}

#[test]
fn rel_path_outside_root_returns_none() {
    assert_eq!(rel_path("/other/file.md", "/repo"), None);
}

#[test]
fn has_extension_simple() {
    let s = b"foo.md";
    assert!(has_extension(s, 0, s.len()));
}

#[test]
fn has_extension_no_dot() {
    let s = b"foo";
    assert!(!has_extension(s, 0, s.len()));
}

#[test]
fn has_extension_leading_dot_not_an_extension() {
    // A dot at the very start of the segment (`.md`) isn't an extension — there's no
    // basename char before it. The scan stops at `from` without inspecting position 0.
    assert!(!has_extension(b".md", 0, 3));
}

#[test]
fn has_extension_short_string() {
    assert!(!has_extension(b"a", 0, 1));
    assert!(!has_extension(b"ab", 0, 2));
}

#[test]
fn decode_utf8_basic() {
    assert_eq!(decode_utf8(b"hello", 0, 5), "hello");
}

#[test]
fn decode_utf8_slice() {
    assert_eq!(decode_utf8(b"hello world", 6, 5), "world");
}

#[test]
fn directory_and_base_name_make_up_the_path() {
    for p in ["/a/b", "a/b/c", "/x", "dir/"] {
        assert_eq!(format!("{}/{}", dir_name(p), base_name(p)), p);
    }
}

#[test]
fn sibling_with_the_same_beginning_is_outside() {
    assert_eq!(rel_path("/repo-two/x.md", "/repo"), None);
    assert!(!is_under("/repo-two/x.md", "/repo"));
    assert!(is_under("/repo", "/repo"));
    assert!(is_under("/repo/a/b.md", "/repo"));
}

#[test]
fn canonical_path_keeps_its_text() {
    let p = CanonicalPath::assume_canonical("/a/\u{e9}.md".to_string());
    assert_eq!(p.as_str(), "/a/\u{e9}.md");
    assert_eq!(p.clone(), p);
}

#[test]
fn has_extension_stops_at_a_slash() {
    let s = b"a.b/cd";
    assert!(!has_extension(s, 0, s.len()));
    assert!(has_extension(s, 0, 3));
}

#[test]
fn decode_utf8_replaces_malformed_bytes() {
    assert_eq!(decode_utf8(b"a\xffb", 0, 3), "a\u{fffd}b");
}

#[test]
fn has_extension_needs_a_name_before_and_a_byte_behind_the_dot() {
    assert!(!has_extension(b"foo.", 0, 4));
    assert!(!has_extension(b"a/.md", 0, 5));
    assert!(!has_extension(b"a/b.c/", 0, 6));
    assert!(has_extension(b"a/.md.x", 0, 7));
    assert!(has_extension(b"a/b.c", 0, 5));
    assert!(has_extension(b"a.b.", 0, 4));
}

#[test]
fn repaired_text_has_its_ascii_from_the_bytes() {
    let text = decode_utf8(b"a/\xff.md\xc3", 0, 7);
    assert_eq!(text, "a/\u{fffd}.md\u{fffd}");
}
