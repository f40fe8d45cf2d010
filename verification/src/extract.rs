//! Byte-level extraction of links and headings from markdown.
use crate::ascii::{
    alphanumeric, is_alphanumeric, BACKTICK, CLOSE_BRACE, CLOSE_BRACKET, CLOSE_PAREN, DOT, GREATER,
    HASH, HYPHEN, LESS, LOWER_D, LOWER_H, LOWER_M, LOWER_P, LOWER_T, NEWLINE, OPEN_BRACE,
    OPEN_BRACKET, OPEN_PAREN, PIPE, RETURN, SLASH, SPACE, TAB, UNDERSCORE,
};
use crate::collections::StringSet;
use crate::path::{decode_utf8, extension_in, has_extension, lossy_text};
use crate::text::texts;
use unicode_segmentation::UnicodeSegmentation;
use vstd::prelude::*;
use vstd::string::StringExecFns;
use vstd::utf8::is_ascii_chars;

verus! {

/// The syntax that a link is written in.
#[derive(Debug, PartialEq, Eq)]
pub enum LinkKind {
    /// `[[page]]`
    Wiki,
    /// `[text](path)`
    Standard,
    /// `` `path` (repo) ``
    CrossRepo { repo: String },
}

/// One link of a markdown text. `path_start..path_end` are the bytes of the target.
#[derive(Debug, PartialEq, Eq)]
pub struct Link {
    pub kind: LinkKind,
    pub target: String,
    pub fragment: Option<String>,
    pub path_start: usize,
    pub path_end: usize,
}

/// What a [`LinkKind`] stands for.
pub enum KindView {
    Wiki,
    Standard,
    CrossRepo(Seq<char>),
}

/// What a [`Link`] stands for.
pub struct LinkView {
    pub kind: KindView,
    pub target: Seq<char>,
    pub fragment: Option<Seq<char>>,
    pub path_start: int,
    pub path_end: int,
}

/// The text of an optional string.
pub open spec fn opt_text(s: Option<String>) -> Option<Seq<char>> {
    match s {
        Some(t) => Some(t@),
        None => None,
    }
}

impl Clone for LinkKind {
    fn clone(&self) -> (r: Self)
        ensures
            r@ == self@,
    {
        match self {
            LinkKind::Wiki => LinkKind::Wiki,
            LinkKind::Standard => LinkKind::Standard,
            LinkKind::CrossRepo { repo } => LinkKind::CrossRepo { repo: repo.clone() },
        }
    }
}

impl Clone for Link {
    fn clone(&self) -> (r: Self)
        ensures
            r@ == self@,
    {
        Link {
            kind: self.kind.clone(),
            target: self.target.clone(),
            fragment: match &self.fragment {
                Some(f) => Some(f.clone()),
                None => None,
            },
            path_start: self.path_start,
            path_end: self.path_end,
        }
    }
}

impl View for LinkKind {
    type V = KindView;

    open spec fn view(&self) -> KindView {
        match self {
            LinkKind::Wiki => KindView::Wiki,
            LinkKind::Standard => KindView::Standard,
            LinkKind::CrossRepo { repo } => KindView::CrossRepo(repo@),
        }
    }
}

impl View for Link {
    type V = LinkView;

    open spec fn view(&self) -> LinkView {
        LinkView {
            kind: self.kind@,
            target: self.target@,
            fragment: opt_text(self.fragment),
            path_start: self.path_start as int,
            path_end: self.path_end as int,
        }
    }
}

/// What a sequence of links stands for.
pub open spec fn link_views(links: Seq<Link>) -> Seq<LinkView> {
    Seq::new(links.len(), |i: int| links[i]@)
}

/// The first position in `i..end` that holds one of `stops`; `end` when none does.
pub open spec fn find_byte(buf: Seq<u8>, i: int, end: int, stops: Set<u8>) -> int
    decreases end - i,
{
    if i >= end {
        end
    } else if stops.contains(buf[i]) {
        i
    } else {
        find_byte(buf, i + 1, end, stops)
    }
}

/// The position behind `p`, or the end of the text.
pub open spec fn past(buf: Seq<u8>, p: int) -> int {
    if p < buf.len() {
        p + 1
    } else {
        buf.len() as int
    }
}

/// The position as a `usize`: the largest there is, where it does not fit.
pub open spec fn as_index(p: int) -> int {
    if p > usize::MAX {
        usize::MAX as int
    } else {
        p
    }
}

/// The text of the bytes `from..to`.
pub open spec fn text_at(buf: Seq<u8>, from: int, to: int) -> Seq<char> {
    lossy_text(buf.subrange(from, to))
}

/// The text between `hash` and `end`, which starts behind the `#`; nothing when it is empty.
pub open spec fn fragment_at(buf: Seq<u8>, hash: int, end: int) -> Option<Seq<char>> {
    if hash + 1 < end {
        Some(text_at(buf, hash + 1, end))
    } else {
        None
    }
}

/// `i` is the first byte of a line.
pub open spec fn line_start(buf: Seq<u8>, i: int) -> bool {
    i == 0 || buf[i - 1] == NEWLINE
}

/// A line that starts with three backticks starts at `i`.
pub open spec fn fence_at(buf: Seq<u8>, i: int) -> bool {
    line_start(buf, i) && i + 2 < buf.len() && buf[i] == BACKTICK && buf[i + 1] == BACKTICK
        && buf[i + 2] == BACKTICK
}

/// Where the inside of a wiki link that starts at `e` stops: at a line break, at `]]`, or
/// before the last byte.
pub open spec fn wiki_end(buf: Seq<u8>, e: int) -> int
    decreases buf.len() - e,
{
    if e >= buf.len() - 1 || buf[e] == NEWLINE || buf[e] == RETURN || (buf[e] == CLOSE_BRACKET
        && buf[e + 1] == CLOSE_BRACKET) {
        e
    } else {
        wiki_end(buf, e + 1)
    }
}

/// What the `[[` at `i` gives: a link when it is closed on its line and names a file or a
/// section, and the position to go on from.
pub open spec fn wiki_at(buf: Seq<u8>, i: int) -> (Option<LinkView>, int) {
    let start = i + 2;
    let end = wiki_end(buf, start);
    if !(start < end < buf.len() - 1 && buf[end] == CLOSE_BRACKET && buf[end + 1]
        == CLOSE_BRACKET) {
        (None, end + 1)
    } else {
        let name_end = find_byte(buf, start, end, set![HASH, PIPE]);
        let hashed = name_end < end && buf[name_end] == HASH;
        let fragment = if hashed {
            fragment_at(buf, name_end, find_byte(buf, name_end + 1, end, set![PIPE]))
        } else {
            None
        };
        let named = extension_in(buf, start, name_end);
        if named || (name_end == start && fragment is Some) {
            let link = LinkView {
                kind: KindView::Wiki,
                target: if name_end == start {
                    Seq::empty()
                } else {
                    text_at(buf, start, name_end)
                },
                fragment,
                path_start: start,
                path_end: name_end,
            };
            (Some(link), end + 2)
        } else {
            (None, end + 2)
        }
    }
}

/// The bytes `start..end` are longer than seven and start with `http`.
pub open spec fn web_address(buf: Seq<u8>, start: int, end: int) -> bool {
    end - start > 7 && buf[start] == LOWER_H && buf[start + 1] == LOWER_T && buf[start + 2]
        == LOWER_T && buf[start + 3] == LOWER_P
}

/// What the `](` at `i` gives.
pub open spec fn standard_at(buf: Seq<u8>, i: int) -> (Option<LinkView>, int) {
    let start = i + 2;
    let end = find_byte(buf, start, buf.len() as int, set![CLOSE_PAREN, NEWLINE, RETURN]);
    let path_end = find_byte(buf, start, end, set![HASH]);
    if end < buf.len() && buf[end] == CLOSE_PAREN && !web_address(buf, start, path_end)
        && extension_in(buf, start, path_end) {
        let link = LinkView {
            kind: KindView::Standard,
            target: text_at(buf, start, path_end),
            fragment: if path_end < end {
                fragment_at(buf, path_end, end)
            } else {
                None
            },
            path_start: start,
            path_end,
        };
        (Some(link), end + 1)
    } else {
        (None, end + 1)
    }
}

/// A byte of a repository name.
pub open spec fn repo_byte(b: u8) -> bool {
    alphanumeric(b) || b == UNDERSCORE || b == HYPHEN
}

/// The first position from `j` on that holds no byte of a repository name.
pub open spec fn repo_end(buf: Seq<u8>, j: int) -> int
    decreases buf.len() - j,
{
    if j >= buf.len() || !repo_byte(buf[j]) {
        j
    } else {
        repo_end(buf, j + 1)
    }
}

/// A byte that no path of a cross-repository reference holds.
pub open spec fn stray_byte(b: u8) -> bool {
    b == SPACE || b == TAB || b == LESS || b == GREATER || b == OPEN_BRACE || b == CLOSE_BRACE
}

/// The bytes `from..to` are a path that a cross-repository reference may name: a markdown
/// file, not relative by a leading dot, without white space and placeholders.
pub open spec fn cross_repo_path(buf: Seq<u8>, from: int, to: int) -> bool {
    &&& to - from >= 4
    &&& buf[to - 3] == DOT && buf[to - 2] == LOWER_M && buf[to - 1] == LOWER_D
    &&& !(buf[from] == DOT && buf[from + 1] == SLASH)
    &&& !(buf[from] == DOT && buf[from + 1] == DOT && buf[from + 2] == SLASH)
    &&& forall|j: int| from <= j < to ==> !stray_byte(#[trigger] buf[j])
}

/// What the backtick at `i` gives.
pub open spec fn backtick_at(buf: Seq<u8>, i: int, repos: Set<Seq<char>>) -> (Option<LinkView>, int) {
    let start = i + 1;
    let end = find_byte(buf, start, buf.len() as int, set![BACKTICK, NEWLINE, RETURN]);
    let close = end + 1;
    let name = close + 2;
    let name_end = repo_end(buf, name);
    if !(start < end < buf.len() && buf[end] == BACKTICK) {
        (None, start)
    } else if !(name < buf.len() && buf[close] == SPACE && buf[close + 1] == OPEN_PAREN && name
        < name_end < buf.len() && buf[name_end] == CLOSE_PAREN) {
        (None, close)
    } else {
        let path_end = find_byte(buf, start, end, set![HASH]);
        if repos.contains(text_at(buf, name, name_end)) && cross_repo_path(buf, start, path_end) {
            let link = LinkView {
                kind: KindView::CrossRepo(text_at(buf, name, name_end)),
                target: text_at(buf, start, path_end),
                fragment: if path_end < end {
                    fragment_at(buf, path_end, end)
                } else {
                    None
                },
                path_start: start,
                path_end,
            };
            (Some(link), name_end + 1)
        } else {
            (None, name_end + 1)
        }
    }
}

/// What the byte at `i`, outside a fence, gives.
pub open spec fn link_at(buf: Seq<u8>, i: int, repos: Set<Seq<char>>) -> (Option<LinkView>, int) {
    if i < buf.len() - 1 && buf[i] == OPEN_BRACKET && buf[i + 1] == OPEN_BRACKET {
        wiki_at(buf, i)
    } else if i < buf.len() - 1 && buf[i] == CLOSE_BRACKET && buf[i + 1] == OPEN_PAREN {
        standard_at(buf, i)
    } else if buf[i] == BACKTICK {
        backtick_at(buf, i, repos)
    } else {
        (None, i + 1)
    }
}

/// The link, if there is one, as a sequence.
pub open spec fn opt_seq(link: Option<LinkView>) -> Seq<LinkView> {
    match link {
        Some(l) => seq![l],
        None => Seq::empty(),
    }
}

/// The links from position `i` on, read with a fence open or not.
pub open spec fn links_from(
    buf: Seq<u8>,
    repos: Set<Seq<char>>,
    i: int,
    in_fence: bool,
) -> Seq<LinkView>
    decreases buf.len() + 1 - i,
    via links_from_goes_on
{
    if i < 0 || i >= buf.len() {
        Seq::empty()
    } else if fence_at(buf, i) {
        links_from(
            buf,
            repos,
            past(buf, find_byte(buf, i, buf.len() as int, set![NEWLINE])),
            !in_fence,
        )
    } else if in_fence {
        links_from(buf, repos, i + 1, in_fence)
    } else {
        let (link, next) = link_at(buf, i, repos);
        opt_seq(link) + links_from(buf, repos, next, in_fence)
    }
}

#[via_fn]
proof fn links_from_goes_on(buf: Seq<u8>, repos: Set<Seq<char>>, i: int, in_fence: bool) {
    if 0 <= i < buf.len() {
        lemma_find_byte(buf, i, buf.len() as int, set![NEWLINE]);
        lemma_link_at(buf, i, repos);
    }
}

/// The links of a markdown text, where `repos` are the known repository names.
pub open spec fn links_of(buf: Seq<u8>, repos: Set<Seq<char>>) -> Seq<LinkView> {
    if buf.len() <= 4 {
        Seq::empty()
    } else {
        links_from(buf, repos, 0, false)
    }
}

pub(crate) proof fn lemma_find_byte(buf: Seq<u8>, i: int, end: int, stops: Set<u8>)
    requires
        i <= end,
    ensures
        i <= find_byte(buf, i, end, stops) <= end,
        find_byte(buf, i, end, stops) < end ==> stops.contains(buf[find_byte(buf, i, end, stops)]),
        forall|j: int| i <= j < find_byte(buf, i, end, stops) ==> !stops.contains(#[trigger] buf[j]),
    decreases end - i,
{
    if i < end && !stops.contains(buf[i]) {
        lemma_find_byte(buf, i + 1, end, stops);
    }
}

pub(crate) proof fn lemma_wiki_end(buf: Seq<u8>, e: int)
    ensures
        e <= wiki_end(buf, e),
        e <= buf.len() ==> wiki_end(buf, e) <= buf.len(),
        forall|j: int| e <= j < wiki_end(buf, e) ==> #[trigger] buf[j] != NEWLINE && buf[j] != RETURN,
    decreases buf.len() - e,
{
    if !(e >= buf.len() - 1 || buf[e] == NEWLINE || buf[e] == RETURN || (buf[e] == CLOSE_BRACKET
        && buf[e + 1] == CLOSE_BRACKET)) {
        lemma_wiki_end(buf, e + 1);
    }
}

pub(crate) proof fn lemma_repo_end(buf: Seq<u8>, j: int)
    ensures
        j <= repo_end(buf, j),
        j <= buf.len() ==> repo_end(buf, j) <= buf.len(),
        forall|k: int| j <= k < repo_end(buf, j) ==> repo_byte(#[trigger] buf[k]),
    decreases buf.len() - j,
{
    if j < buf.len() && repo_byte(buf[j]) {
        lemma_repo_end(buf, j + 1);
    }
}

/// A scan goes forward, stays on its line, and gives a link whose bytes it has passed.
pub(crate) proof fn lemma_link_at(buf: Seq<u8>, i: int, repos: Set<Seq<char>>)
    requires
        0 <= i < buf.len(),
    ensures
        ({
            let (link, next) = link_at(buf, i, repos);
            &&& i < next <= buf.len() + 1
            &&& forall|k: int| i <= k < next - 1 ==> #[trigger] buf[k] != NEWLINE
            &&& link matches Some(l) ==> i < l.path_start <= l.path_end < next <= buf.len()
        }),
{
    let n = buf.len() as int;
    if i + 1 < n {
        lemma_wiki_end(buf, i + 2);
        lemma_find_byte(buf, i + 2, n, set![CLOSE_PAREN, NEWLINE, RETURN]);
        let e1 = wiki_end(buf, i + 2);
        lemma_find_byte(buf, i + 2, e1, set![HASH, PIPE]);
        let e2 = find_byte(buf, i + 2, n, set![CLOSE_PAREN, NEWLINE, RETURN]);
        lemma_find_byte(buf, i + 2, e2, set![HASH]);
    }
    lemma_find_byte(buf, i + 1, n, set![BACKTICK, NEWLINE, RETURN]);
    let e3 = find_byte(buf, i + 1, n, set![BACKTICK, NEWLINE, RETURN]);
    lemma_find_byte(buf, i + 1, e3, set![HASH]);
    lemma_repo_end(buf, e3 + 3);
}

proof fn lemma_push_link(links: Seq<Link>, link: Link)
    ensures
        link_views(links.push(link)) == link_views(links) + seq![link@],
{
    assert(link_views(links.push(link)) =~= link_views(links) + seq![link@]);
}

fn find_any(buf: &[u8], from: usize, end: usize, a: u8, b: u8, c: u8) -> (r: usize)
    requires
        from <= end <= buf.len(),
    ensures
        r == find_byte(buf@, from as int, end as int, set![a, b, c]),
        from <= r <= end,
{
    let mut i: usize = from;
    while i < end && buf[i] != a && buf[i] != b && buf[i] != c
        invariant
            from <= i <= end <= buf.len(),
            find_byte(buf@, from as int, end as int, set![a, b, c]) == find_byte(
                buf@,
                i as int,
                end as int,
                set![a, b, c],
            ),
        decreases end - i,
    {
        i += 1;
    }
    i
}

fn find_either(buf: &[u8], from: usize, end: usize, a: u8, b: u8) -> (r: usize)
    requires
        from <= end <= buf.len(),
    ensures
        r == find_byte(buf@, from as int, end as int, set![a, b]),
        from <= r <= end,
{
    assert(set![a, b, b] =~= set![a, b]);
    find_any(buf, from, end, a, b, b)
}

fn find_one(buf: &[u8], from: usize, end: usize, a: u8) -> (r: usize)
    requires
        from <= end <= buf.len(),
    ensures
        r == find_byte(buf@, from as int, end as int, set![a]),
        from <= r <= end,
{
    assert(set![a, a, a] =~= set![a]);
    find_any(buf, from, end, a, a, a)
}

/// The fragment behind a `#` at `hash_pos`, which ends at `end`. None without a `#` and
/// when nothing stands behind it.
fn parse_fragment(buf: &[u8], hash_pos: Option<usize>, end: usize) -> (r: Option<String>)
    requires
        end <= buf.len(),
        hash_pos matches Some(h) ==> h < end,
    ensures
        opt_text(r) == (match hash_pos {
            Some(h) => fragment_at(buf@, h as int, end as int),
            None => None,
        }),
{
    match hash_pos {
        Some(h) => {
            let frag_len: usize = end - h - 1;
            if frag_len > 0 {
                Some(decode_utf8(buf, h + 1, frag_len))
            } else {
                None
            }
        },
        None => None,
    }
}

/// Reads a wiki link, `[[page]]`, `[[page|alias]]` or `[[page#section]]`, whose brackets
/// open at `i`, and says where to go on.
pub fn scan_wiki_link(buf: &[u8], i: usize, links: &mut Vec<Link>) -> (next: usize)
    requires
        i + 1 < buf.len(),
    ensures
        link_views(final(links)@) == link_views(old(links)@) + opt_seq(wiki_at(buf@, i as int).0),
        next == as_index(wiki_at(buf@, i as int).1),
{
    let count: usize = buf.len();
    let start: usize = i + 2;
    let mut end: usize = start;
    while end < count - 1 && buf[end] != NEWLINE && buf[end] != RETURN && !(buf[end]
        == CLOSE_BRACKET && buf[end + 1] == CLOSE_BRACKET)
        invariant
            2 <= start <= end <= count,
            count == buf.len(),
            wiki_end(buf@, start as int) == wiki_end(buf@, end as int),
        decreases count - end,
    {
        end += 1;
    }
    if !(end < count - 1 && buf[end] == CLOSE_BRACKET && buf[end + 1] == CLOSE_BRACKET && end
        > start) {
        return end.saturating_add(1);
    }
    let name_end: usize = find_either(buf, start, end, HASH, PIPE);
    let hash_pos: Option<usize> = if name_end < end && buf[name_end] == HASH {
        Some(name_end)
    } else {
        None
    };
    let frag_end: usize = match hash_pos {
        Some(h) => find_one(buf, h + 1, end, PIPE),
        None => end,
    };
    let fragment = parse_fragment(buf, hash_pos, frag_end);
    if name_end == start {
        if fragment.is_some() {
            let link = Link {
                kind: LinkKind::Wiki,
                target: String::new(),
                fragment,
                path_start: start,
                path_end: start,
            };
            proof {
                lemma_push_link(links@, link);
            }
            links.push(link);
        }
        return end + 2;
    }
    if !has_extension(buf, start, name_end - start) {
        return end + 2;
    }
    let link = Link {
        kind: LinkKind::Wiki,
        target: decode_utf8(buf, start, name_end - start),
        fragment,
        path_start: start,
        path_end: name_end,
    };
    proof {
        lemma_push_link(links@, link);
    }
    links.push(link);
    end + 2
}

/// Reads a standard link, `[text](path.md#fragment)`, whose `](` stands at `i`.
pub fn scan_standard_link(buf: &[u8], i: usize, links: &mut Vec<Link>) -> (next: usize)
    requires
        i + 1 < buf.len(),
    ensures
        link_views(final(links)@) == link_views(old(links)@) + opt_seq(
            standard_at(buf@, i as int).0,
        ),
        next == as_index(standard_at(buf@, i as int).1),
{
    let count: usize = buf.len();
    let start: usize = i + 2;
    let end: usize = find_any(buf, start, count, CLOSE_PAREN, NEWLINE, RETURN);
    if !(end < count && buf[end] == CLOSE_PAREN) {
        return end.saturating_add(1);
    }
    let path_end: usize = find_one(buf, start, end, HASH);
    let path_len: usize = path_end - start;
    if path_len > 7 && buf[start] == LOWER_H && buf[start + 1] == LOWER_T && buf[start + 2]
        == LOWER_T && buf[start + 3] == LOWER_P {
        return end + 1;
    }
    if !has_extension(buf, start, path_len) {
        return end + 1;
    }
    let hash_pos: Option<usize> = if path_end < end {
        Some(path_end)
    } else {
        None
    };
    let link = Link {
        kind: LinkKind::Standard,
        target: decode_utf8(buf, start, path_len),
        fragment: parse_fragment(buf, hash_pos, end),
        path_start: start,
        path_end,
    };
    proof {
        lemma_push_link(links@, link);
    }
    links.push(link);
    end + 1
}

/// Whether the bytes `from..to` are a path that a cross-repository reference may name.
/// Prose with blanks, placeholders in angle or curly brackets, paths relative by a leading
/// dot and files that are not markdown are not.
fn is_valid_cross_repo_path(buf: &[u8], from: usize, to: usize) -> (r: bool)
    requires
        from <= to <= buf.len(),
    ensures
        r == cross_repo_path(buf@, from as int, to as int),
{
    if to - from < 4 {
        return false;
    }
    if !(buf[to - 3] == DOT && buf[to - 2] == LOWER_M && buf[to - 1] == LOWER_D) {
        return false;
    }
    if buf[from] == DOT && buf[from + 1] == SLASH {
        return false;
    }
    if buf[from] == DOT && buf[from + 1] == DOT && buf[from + 2] == SLASH {
        return false;
    }
    let mut j: usize = from;
    while j < to
        invariant
            from <= j <= to <= buf.len(),
            forall|k: int| from <= k < j ==> !stray_byte(#[trigger] buf@[k]),
        decreases to - j,
    {
        let b: u8 = buf[j];
        if b == SPACE || b == TAB || b == LESS || b == GREATER || b == OPEN_BRACE || b
            == CLOSE_BRACE {
            assert(stray_byte(buf@[j as int]));
            return false;
        }
        j += 1;
    }
    true
}

/// Reads a cross-repository reference, `` `path` (repo-name) ``, whose backtick stands at
/// `i`. An annotation that is not one of `repos` makes it plain inline code.
pub fn scan_backtick_ref(buf: &[u8], i: usize, links: &mut Vec<Link>, repos: &StringSet) -> (next:
    usize)
    requires
        i < buf.len(),
    ensures
        link_views(final(links)@) == link_views(old(links)@) + opt_seq(
            backtick_at(buf@, i as int, repos@).0,
        ),
        next == backtick_at(buf@, i as int, repos@).1,
{
    let count: usize = buf.len();
    let path_start: usize = i + 1;
    let end: usize = find_any(buf, path_start, count, BACKTICK, NEWLINE, RETURN);
    if !(end < count && buf[end] == BACKTICK && end > path_start) {
        return path_start;
    }
    let after_close: usize = end + 1;
    if !(count - after_close > 2 && buf[after_close] == SPACE && buf[after_close + 1]
        == OPEN_PAREN) {
        return after_close;
    }
    let repo_start: usize = after_close + 2;
    let mut repo_stop: usize = repo_start;
    while repo_stop < count && (is_alphanumeric(buf[repo_stop]) || buf[repo_stop] == UNDERSCORE
        || buf[repo_stop] == HYPHEN)
        invariant
            repo_start <= repo_stop <= count,
            count == buf.len(),
            repo_end(buf@, repo_start as int) == repo_end(buf@, repo_stop as int),
        decreases count - repo_stop,
    {
        repo_stop += 1;
    }
    if !(repo_stop < count && buf[repo_stop] == CLOSE_PAREN && repo_stop > repo_start) {
        return after_close;
    }
    let repo = decode_utf8(buf, repo_start, repo_stop - repo_start);
    if !repos.contains(repo.as_str()) {
        return repo_stop + 1;
    }
    let name_end: usize = find_one(buf, path_start, end, HASH);
    if !is_valid_cross_repo_path(buf, path_start, name_end) {
        return repo_stop + 1;
    }
    let hash_pos: Option<usize> = if name_end < end {
        Some(name_end)
    } else {
        None
    };
    let link = Link {
        kind: LinkKind::CrossRepo { repo },
        target: decode_utf8(buf, path_start, name_end - path_start),
        fragment: parse_fragment(buf, hash_pos, end),
        path_start,
        path_end: name_end,
    };
    proof {
        lemma_push_link(links@, link);
    }
    links.push(link);
    repo_stop + 1
}

/// The links of a markdown text, in the order in which they stand. Only backtick
/// references annotated with one of `repos` count as cross-repository links; what stands
/// between fences is code and holds no link.
pub fn extract_links(buf: &[u8], repos: &StringSet) -> (links: Vec<Link>)
    ensures
        link_views(links@) == links_of(buf@, repos@),
{
    let mut links: Vec<Link> = Vec::new();
    assert(link_views(links@) =~= Seq::empty());
    let count: usize = buf.len();
    if count <= 4 {
        return links;
    }
    let mut i: usize = 0;
    let mut in_fence: bool = false;
    assert(link_views(links@) + links_from(buf@, repos@, 0, false) =~= links_from(
        buf@,
        repos@,
        0,
        false,
    ));
    while i < count
        invariant
            i <= count + 1,
            count == buf.len(),
            count > 4,
            links_of(buf@, repos@) == link_views(links@) + links_from(
                buf@,
                repos@,
                i as int,
                in_fence,
            ),
        decreases count + 1 - i,
    {
        let at_line_start: bool = i == 0 || buf[i - 1] == NEWLINE;
        if at_line_start && count - i > 2 && buf[i] == BACKTICK && buf[i + 1] == BACKTICK && buf[i
            + 2] == BACKTICK {
            let line_end: usize = find_one(buf, i, count, NEWLINE);
            in_fence = !in_fence;
            i = if line_end < count {
                line_end + 1
            } else {
                count
            };
        } else if in_fence {
            i += 1;
        } else {
            proof {
                lemma_link_at(buf@, i as int, repos@);
                let (link, next) = link_at(buf@, i as int, repos@);
                assert(link_views(links@) + (opt_seq(link) + links_from(
                    buf@,
                    repos@,
                    next,
                    in_fence,
                )) =~= (link_views(links@) + opt_seq(link)) + links_from(
                    buf@,
                    repos@,
                    next,
                    in_fence,
                ));
                assert(link_views(links@) + Seq::empty() =~= link_views(links@));
            }
            if i < count - 1 && buf[i] == OPEN_BRACKET && buf[i + 1] == OPEN_BRACKET {
                i = scan_wiki_link(buf, i, &mut links);
            } else if i < count - 1 && buf[i] == CLOSE_BRACKET && buf[i + 1] == OPEN_PAREN {
                i = scan_standard_link(buf, i, &mut links);
            } else if buf[i] == BACKTICK {
                i = scan_backtick_ref(buf, i, &mut links, repos);
            } else {
                i += 1;
            }
        }
    }
    assert(link_views(links@) + Seq::empty() =~= link_views(links@));
    links
}

/// What `str::to_lowercase` makes of a text that is not ASCII.
pub uninterp spec fn wide_lowercase(s: Seq<char>) -> Seq<char>;

/// The extended grapheme clusters of a text that is not ASCII.
pub uninterp spec fn wide_clusters(s: Seq<char>) -> Seq<Seq<char>>;

/// The characters beyond ASCII with the Unicode property `Alphabetic`.
pub uninterp spec fn wide_alphabetic(c: char) -> bool;

/// The characters beyond ASCII of the Unicode categories of numbers.
pub uninterp spec fn wide_numeric(c: char) -> bool;

/// An ASCII letter.
pub open spec fn ascii_letter(c: char) -> bool {
    ('a' <= c && c <= 'z') || ('A' <= c && c <= 'Z')
}

/// The character in lower case, where it is an ASCII letter.
pub open spec fn ascii_lower(c: char) -> char {
    if 'A' <= c && c <= 'Z' {
        (c as int + 32) as char
    } else {
        c
    }
}

/// A letter.
pub open spec fn alphabetic(c: char) -> bool {
    if c <= '\u{7f}' {
        ascii_letter(c)
    } else {
        wide_alphabetic(c)
    }
}

/// A number.
pub open spec fn numeric(c: char) -> bool {
    if c <= '\u{7f}' {
        '0' <= c && c <= '9'
    } else {
        wide_numeric(c)
    }
}

/// A text in lower case.
pub open spec fn lowercase(s: Seq<char>) -> Seq<char> {
    if is_ascii_chars(s) {
        s.map_values(|c: char| ascii_lower(c))
    } else {
        wide_lowercase(s)
    }
}

/// The clusters of an ASCII text: each character by itself, but a carriage return and the
/// line feed behind it together.
pub open spec fn ascii_clusters(s: Seq<char>) -> Seq<Seq<char>>
    decreases s.len(),
{
    let n = s.len() as int;
    if n == 0 {
        Seq::empty()
    } else if n >= 2 && s[n - 2] == '\r' && s[n - 1] == '\n' {
        ascii_clusters(s.take(n - 2)).push(seq!['\r', '\n'])
    } else {
        ascii_clusters(s.take(n - 1)).push(seq![s[n - 1]])
    }
}

/// The extended grapheme clusters of a text, in order.
pub open spec fn clusters(s: Seq<char>) -> Seq<Seq<char>> {
    if is_ascii_chars(s) {
        ascii_clusters(s)
    } else {
        wide_clusters(s)
    }
}

/// `str::to_lowercase`: of an ASCII text, its letters in lower case; otherwise the result
/// depends on the text alone.
pub assume_specification[ str::to_lowercase ](s: &str) -> (r: String)
    ensures
        is_ascii_chars(s@) ==> r@ == s@.map_values(|c: char| ascii_lower(c)),
        !is_ascii_chars(s@) ==> r@ == wide_lowercase(s@),
;

/// `char::is_alphabetic`: of ASCII characters, the letters; otherwise the result depends
/// on the character alone.
pub assume_specification[ char::is_alphabetic ](c: char) -> (r: bool)
    ensures
        c <= '\u{7f}' ==> r == ascii_letter(c),
        c > '\u{7f}' ==> r == wide_alphabetic(c),
;

/// `char::is_numeric`: of ASCII characters, the digits; otherwise the result depends on
/// the character alone.
pub assume_specification[ char::is_numeric ](c: char) -> (r: bool)
    ensures
        c <= '\u{7f}' ==> r == ('0' <= c && c <= '9'),
        c > '\u{7f}' ==> r == wide_numeric(c),
;

/// `UnicodeSegmentation::graphemes`, with extended clusters: of an ASCII text, each
/// character, but a carriage return and the line feed behind it together; otherwise the
/// pieces depend on the text alone.
#[verifier::external_body]
fn graphemes(text: &str) -> (r: Vec<String>)
    ensures
        is_ascii_chars(text@) ==> texts(r@) == ascii_clusters(text@),
        !is_ascii_chars(text@) ==> texts(r@) == wide_clusters(text@),
{
    text.graphemes(true).map(|g| g.to_string()).collect()
}

/// What a cluster of a heading leaves in its anchor: a hyphen for a space; itself when it
/// starts with a letter, a number, a hyphen or an underscore; nothing otherwise.
pub open spec fn anchor_part(cluster: Seq<char>) -> Seq<char> {
    if cluster == seq![' '] {
        seq!['-']
    } else if cluster.len() > 0 && (alphabetic(cluster[0]) || numeric(cluster[0]) || cluster[0]
        == '-' || cluster[0] == '_') {
        cluster
    } else {
        Seq::empty()
    }
}

/// The anchor that the clusters of a heading in lower case make.
pub open spec fn anchor_of(parts: Seq<Seq<char>>) -> Seq<char>
    decreases parts.len(),
{
    if parts.len() == 0 {
        Seq::empty()
    } else {
        anchor_of(parts.drop_last()) + anchor_part(parts.last())
    }
}

/// The anchor of a heading.
pub open spec fn anchor(heading: Seq<char>) -> Seq<char> {
    anchor_of(clusters(lowercase(heading)))
}

/// The anchor made of the grapheme clusters of a heading in lower case.
pub fn anchor_from_graphemes(parts: &Vec<String>) -> (r: String)
    ensures
        r@ == anchor_of(texts(parts@)),
{
    let mut result = String::new();
    let mut k: usize = 0;
    assert(texts(parts@).take(0) =~= Seq::empty());
    while k < parts.len()
        invariant
            k <= parts.len(),
            result@ == anchor_of(texts(parts@).take(k as int)),
        decreases parts.len() - k,
    {
        let g = parts[k].as_str();
        assert(texts(parts@).take(k + 1).drop_last() =~= texts(parts@).take(k as int));
        assert(texts(parts@).take(k + 1).last() == g@);
        if g.unicode_len() > 0 {
            let first: char = g.get_char(0);
            if first == ' ' && g.unicode_len() == 1 {
                assert(g@ =~= seq![' ']);
                assert(result@.push('-') =~= result@ + seq!['-']);
                result.push('-');
            } else if first.is_alphabetic() || first.is_numeric() || first == '-' || first
                == '_' {
                result.append(g);
            } else {
                assert(result@ + Seq::empty() =~= result@);
            }
        } else {
            assert(result@ + Seq::empty() =~= result@);
        }
        k += 1;
    }
    assert(texts(parts@).take(k as int) =~= texts(parts@));
    result
}

/// The anchor of a heading: in lower case, of letters, numbers, hyphens and underscores,
/// with a hyphen for each space. It goes by grapheme clusters, so a letter keeps its
/// combining marks.
pub fn anchor_id(text: &str) -> (r: String)
    ensures
        r@ == anchor(text@),
{
    let lower = text.to_lowercase();
    let parts = graphemes(lower.as_str());
    anchor_from_graphemes(&parts)
}

/// The end of the heading text `start..end` without the blanks at its end.
pub open spec fn trimmed_end(buf: Seq<u8>, start: int, end: int) -> int
    decreases end - start,
{
    if end > start && (buf[end - 1] == SPACE || buf[end - 1] == TAB) {
        trimmed_end(buf, start, end - 1)
    } else {
        end
    }
}

/// The first position from `i` on that holds no `#`.
pub open spec fn hashes_end(buf: Seq<u8>, i: int) -> int
    decreases buf.len() - i,
{
    if i < buf.len() && buf[i] == HASH {
        hashes_end(buf, i + 1)
    } else {
        i
    }
}

/// What the line at `i` gives: the anchor of a heading, and where to go on.
pub open spec fn heading_at(buf: Seq<u8>, i: int) -> (Option<Seq<char>>, int) {
    if buf[i] == HASH && (i == 0 || buf[i - 1] == NEWLINE || buf[i - 1] == RETURN) {
        let j = hashes_end(buf, i);
        if j < buf.len() && buf[j] == SPACE {
            let stop = find_byte(buf, j + 1, buf.len() as int, set![NEWLINE, RETURN]);
            let end = trimmed_end(buf, j + 1, stop);
            (
                if end > j + 1 {
                    Some(anchor(text_at(buf, j + 1, end)))
                } else {
                    None
                },
                past(buf, stop),
            )
        } else {
            (None, past(buf, j))
        }
    } else {
        (None, past(buf, find_byte(buf, i, buf.len() as int, set![NEWLINE])))
    }
}

/// The anchors of the headings from position `i` on.
pub open spec fn headings_from(buf: Seq<u8>, i: int) -> Set<Seq<char>>
    decreases buf.len() - i,
    via headings_from_goes_on
{
    if i < 0 || i >= buf.len() {
        Set::empty()
    } else {
        let (found, next) = heading_at(buf, i);
        let rest = headings_from(buf, next);
        match found {
            Some(a) => rest.insert(a),
            None => rest,
        }
    }
}

#[via_fn]
proof fn headings_from_goes_on(buf: Seq<u8>, i: int) {
    if 0 <= i < buf.len() {
        lemma_heading_at(buf, i);
    }
}

pub(crate) proof fn lemma_heading_at(buf: Seq<u8>, i: int)
    requires
        0 <= i < buf.len(),
    ensures
        i < heading_at(buf, i).1 <= buf.len(),
{
    let n = buf.len() as int;
    lemma_find_byte(buf, i, n, set![NEWLINE]);
    lemma_hashes_end(buf, i);
    let j = hashes_end(buf, i);
    if j < n {
        lemma_find_byte(buf, j + 1, n, set![NEWLINE, RETURN]);
    }
}

proof fn lemma_hashes_end(buf: Seq<u8>, i: int)
    ensures
        i <= hashes_end(buf, i),
        i <= buf.len() ==> hashes_end(buf, i) <= buf.len(),
    decreases buf.len() - i,
{
    if i < buf.len() && buf[i] == HASH {
        lemma_hashes_end(buf, i + 1);
    }
}

/// The anchors of the headings of a markdown text.
pub open spec fn headings_of(buf: Seq<u8>) -> Set<Seq<char>> {
    headings_from(buf, 0)
}

/// The anchors of the headings of a markdown text. A heading is a line of one or more `#`,
/// a space and a text.
pub fn extract_headings(buf: &[u8]) -> (headings: StringSet)
    ensures
        headings@ == headings_of(buf@),
{
    let mut headings = StringSet::new();
    let count: usize = buf.len();
    let mut i: usize = 0;
    assert(headings@.union(headings_from(buf@, 0)) =~= headings_from(buf@, 0));
    while i < count
        invariant
            i <= count == buf.len(),
            headings_of(buf@) == headings@.union(headings_from(buf@, i as int)),
        decreases count - i,
    {
        let ghost before = headings@;
        let ghost (found, next) = heading_at(buf@, i as int);
        let ghost rest = headings_from(buf@, next);
        proof {
            lemma_heading_at(buf@, i as int);
        }
        if buf[i] == HASH && (i == 0 || buf[i - 1] == NEWLINE || buf[i - 1] == RETURN) {
            let mut j: usize = i;
            while j < count && buf[j] == HASH
                invariant
                    i <= j <= count == buf.len(),
                    hashes_end(buf@, i as int) == hashes_end(buf@, j as int),
                decreases count - j,
            {
                j += 1;
            }
            if j < count && buf[j] == SPACE {
                let start: usize = j + 1;
                let stop: usize = find_either(buf, start, count, NEWLINE, RETURN);
                let mut end: usize = stop;
                while end > start && (buf[end - 1] == SPACE || buf[end - 1] == TAB)
                    invariant
                        start <= end <= stop <= buf.len(),
                        trimmed_end(buf@, start as int, stop as int) == trimmed_end(
                            buf@,
                            start as int,
                            end as int,
                        ),
                    decreases end - start,
                {
                    end -= 1;
                }
                if end > start {
                    let text = decode_utf8(buf, start, end - start);
                    let _ = headings.insert(anchor_id(text.as_str()));
                }
                j = stop;
            }
            i = if j < count {
                j + 1
            } else {
                count
            };
        } else {
            let line_end: usize = find_one(buf, i, count, NEWLINE);
            i = if line_end < count {
                line_end + 1
            } else {
                count
            };
        }
        assert(i == next);
        proof {
            match found {
                Some(a) => {
                    assert(before.union(rest.insert(a)) =~= before.insert(a).union(rest));
                },
                None => {},
            }
        }
    }
    assert(headings@.union(Set::empty()) =~= headings@);
    headings
}

/// The number of fence lines that start before position `n`.
pub open spec fn fence_count(buf: Seq<u8>, n: int) -> nat
    decreases n,
{
    if n <= 0 {
        0
    } else if fence_at(buf, n - 1) {
        fence_count(buf, n - 1) + 1
    } else {
        fence_count(buf, n - 1)
    }
}

/// The first position of the line that position `p` stands on.
pub open spec fn line_begin(buf: Seq<u8>, p: int) -> int
    decreases p,
{
    if p <= 0 || line_start(buf, p) {
        p
    } else {
        line_begin(buf, p - 1)
    }
}

/// Position `p` stands neither on a fence line nor between an opening fence and the line
/// that closes it.
pub open spec fn outside_fences(buf: Seq<u8>, p: int) -> bool {
    fence_count(buf, p + 1) % 2 == 0 && !fence_at(buf, line_begin(buf, p))
}

proof fn lemma_same_line(buf: Seq<u8>, i: int, p: int)
    requires
        0 <= i <= p,
        forall|k: int| i <= k < p ==> #[trigger] buf[k] != NEWLINE,
    ensures
        line_begin(buf, p) == line_begin(buf, i),
        fence_count(buf, p + 1) == fence_count(buf, i + 1),
    decreases p - i,
{
    if i < p {
        assert(buf[p - 1] != NEWLINE);
        lemma_same_line(buf, i, p - 1);
    }
}

proof fn lemma_links_from(buf: Seq<u8>, repos: Set<Seq<char>>, i: int, in_fence: bool)
    requires
        0 <= i <= buf.len(),
        in_fence == (fence_count(buf, i) % 2 == 1),
        line_start(buf, i) || !fence_at(buf, line_begin(buf, i)),
    ensures
        ({
            let ls = links_from(buf, repos, i, in_fence);
            &&& forall|k: int|
                0 <= k < ls.len() ==> {
                    &&& i < (#[trigger] ls[k]).path_start <= ls[k].path_end < buf.len()
                    &&& outside_fences(buf, ls[k].path_start)
                    &&& ls[k].kind matches KindView::CrossRepo(name) ==> repos.contains(name)
                    &&& ls[k].target == text_at(buf, ls[k].path_start, ls[k].path_end)
                }
            &&& forall|j: int, k: int|
                0 <= j < k < ls.len() ==> (#[trigger] ls[j]).path_end < (
                #[trigger] ls[k]).path_start
        }),
    decreases buf.len() - i,
{
    let n = buf.len() as int;
    if i < n {
        if fence_at(buf, i) {
            lemma_find_byte(buf, i, n, set![NEWLINE]);
            let line_end = find_byte(buf, i, n, set![NEWLINE]);
            let next = past(buf, line_end);
            assert forall|k: int| i <= k < next - 1 implies #[trigger] buf[k] != NEWLINE by {
                assert(!set![NEWLINE].contains(buf[k]));
            }
            lemma_same_line(buf, i, next - 1);
            if line_end == n {
                assert(fence_count(buf, n) == fence_count(buf, i + 1));
                assert(links_from(buf, repos, next, !in_fence) =~= Seq::empty());
            } else {
                assert(set![NEWLINE].contains(buf[line_end]));
                lemma_links_from(buf, repos, next, !in_fence);
            }
        } else if in_fence {
            if !line_start(buf, i + 1) {
                lemma_same_line(buf, i, i + 1);
            }
            lemma_links_from(buf, repos, i + 1, in_fence);
        } else {
            lemma_link_at(buf, i, repos);
            let (link, next) = link_at(buf, i, repos);
            if next < n {
                lemma_same_line(buf, i, next - 1);
                if !line_start(buf, next) {
                    lemma_same_line(buf, next - 1, next);
                }
                assert(line_start(buf, next) || !fence_at(buf, line_begin(buf, next)));
                lemma_links_from(buf, repos, next, in_fence);
            } else {
                assert(links_from(buf, repos, next, in_fence) =~= Seq::empty());
            }
            match link {
                Some(l) => {
                    lemma_same_line(buf, i, l.path_start);
                    assert(!fence_at(buf, line_begin(buf, i)));
                    assert(buf.subrange(l.path_start, l.path_start).len() == 0);
                },
                None => {},
            }
        }
    }
}

/// The byte ranges of the links of a text lie in it, in order and without overlap, and the
/// target of each link is the text of its range. So the targets can be rewritten in place.
pub proof fn law_link_ranges(buf: Seq<u8>, repos: Set<Seq<char>>)
    ensures
        ({
            let ls = links_of(buf, repos);
            &&& forall|k: int|
                0 <= k < ls.len() ==> {
                    &&& 0 < (#[trigger] ls[k]).path_start <= ls[k].path_end < buf.len()
                    &&& ls[k].target == text_at(buf, ls[k].path_start, ls[k].path_end)
                }
            &&& forall|j: int, k: int|
                0 <= j < k < ls.len() ==> (#[trigger] ls[j]).path_end < (
                #[trigger] ls[k]).path_start
        }),
{
    lemma_links_from(buf, repos, 0, false);
}

/// Nothing between fences, nor on a fence line, counts as a link.
pub proof fn law_no_link_in_fence(buf: Seq<u8>, repos: Set<Seq<char>>, k: int)
    requires
        0 <= k < links_of(buf, repos).len(),
    ensures
        outside_fences(buf, links_of(buf, repos)[k].path_start),
{
    lemma_links_from(buf, repos, 0, false);
}

/// A cross-repository link names a known repository.
pub proof fn law_cross_repo_known(buf: Seq<u8>, repos: Set<Seq<char>>, k: int)
    requires
        0 <= k < links_of(buf, repos).len(),
    ensures
        links_of(buf, repos)[k].kind matches KindView::CrossRepo(name) ==> repos.contains(name),
{
    lemma_links_from(buf, repos, 0, false);
}

/// The link names a repository of the set, if it names one.
pub open spec fn named_in(repos: Set<Seq<char>>) -> spec_fn(LinkView) -> bool {
    |l: LinkView| l.kind matches KindView::CrossRepo(name) ==> repos.contains(name)
}

/// With fewer known repositories, the links are the same but for those into the others.
pub proof fn law_fewer_repos(buf: Seq<u8>, few: Set<Seq<char>>, many: Set<Seq<char>>)
    requires
        few.subset_of(many),
    ensures
        links_of(buf, few) == links_of(buf, many).filter(named_in(few)),
{
    if buf.len() > 4 {
        lemma_fewer_repos(buf, few, many, 0, false);
    } else {
        assert(links_of(buf, many).filter(named_in(few)) =~= Seq::empty()) by {
            reveal(Seq::filter);
        }
    }
}

proof fn lemma_fewer_repos(
    buf: Seq<u8>,
    few: Set<Seq<char>>,
    many: Set<Seq<char>>,
    i: int,
    in_fence: bool,
)
    requires
        few.subset_of(many),
        0 <= i <= buf.len() + 1,
    ensures
        links_from(buf, few, i, in_fence) == links_from(buf, many, i, in_fence).filter(
            named_in(few),
        ),
    decreases buf.len() + 1 - i,
{
    let n = buf.len() as int;
    let keep = named_in(few);
    if i >= n {
        reveal(Seq::filter);
        assert(links_from(buf, many, i, in_fence).filter(keep) =~= Seq::empty());
    } else if fence_at(buf, i) {
        lemma_find_byte(buf, i, n, set![NEWLINE]);
        lemma_fewer_repos(
            buf,
            few,
            many,
            past(buf, find_byte(buf, i, n, set![NEWLINE])),
            !in_fence,
        );
    } else if in_fence {
        lemma_fewer_repos(buf, few, many, i + 1, in_fence);
    } else {
        let (link, next) = link_at(buf, i, many);
        let (left, next_left) = link_at(buf, i, few);
        lemma_link_at(buf, i, many);
        assert(next_left == next);
        lemma_fewer_repos(buf, few, many, next, in_fence);
        Seq::filter_distributes_over_add(
            opt_seq(link),
            links_from(buf, many, next, in_fence),
            keep,
        );
        assert(opt_seq(left) =~= opt_seq(link).filter(keep)) by {
            reveal_with_fuel(Seq::filter, 2);
            if let Some(l) = link {
                assert(seq![l].drop_last() =~= Seq::empty());
                assert(seq![l].last() == l);
                assert(left == if keep(l) {
                    Some(l)
                } else {
                    None
                });
            }
        }
    }
}

/// A text has finitely many headings.
pub proof fn law_headings_finite(buf: Seq<u8>)
    ensures
        headings_of(buf).finite(),
{
    lemma_headings_finite(buf, 0);
}

proof fn lemma_headings_finite(buf: Seq<u8>, i: int)
    ensures
        headings_from(buf, i).finite(),
    decreases buf.len() - i,
{
    if 0 <= i < buf.len() {
        lemma_heading_at(buf, i);
        lemma_headings_finite(buf, heading_at(buf, i).1);
    }
}

/// What a character of an ASCII heading leaves in its anchor.
pub open spec fn ascii_anchor_part(c: char) -> Seq<char> {
    if c == ' ' {
        seq!['-']
    } else if ascii_letter(c) || ('0' <= c && c <= '9') || c == '-' || c == '_' {
        seq![ascii_lower(c)]
    } else {
        Seq::empty()
    }
}

/// The anchor of an ASCII heading, character by character.
pub open spec fn ascii_anchor(heading: Seq<char>) -> Seq<char>
    decreases heading.len(),
{
    if heading.len() == 0 {
        Seq::empty()
    } else {
        ascii_anchor(heading.drop_last()) + ascii_anchor_part(heading.last())
    }
}

/// The anchor of an ASCII heading has its letters in lower case, its digits, hyphens and
/// underscores, and a hyphen for each space, in order, and nothing else.
pub proof fn law_ascii_anchor(heading: Seq<char>)
    requires
        is_ascii_chars(heading),
    ensures
        anchor(heading) == ascii_anchor(heading),
{
    let low = lowercase(heading);
    assert forall|i: int| 0 <= i < low.len() implies '\0' <= #[trigger] low[i] <= '\u{7f}' by {
        assert('\0' <= heading[i] <= '\u{7f}');
    }
    assert(is_ascii_chars(low));
    lemma_ascii_anchor(heading);
}

proof fn lemma_ascii_anchor(heading: Seq<char>)
    requires
        is_ascii_chars(heading),
    ensures
        anchor_of(ascii_clusters(heading.map_values(|c: char| ascii_lower(c)))) == ascii_anchor(
            heading,
        ),
    decreases heading.len(),
{
    let f = |c: char| ascii_lower(c);
    let low = heading.map_values(f);
    let n = heading.len() as int;
    if n > 0 {
        let c = heading[n - 1];
        assert('\0' <= heading[n - 1] <= '\u{7f}');
        assert(low[n - 1] == ascii_lower(c));
        let back: int = if n >= 2 && low[n - 2] == '\r' && low[n - 1] == '\n' {
            2
        } else {
            1
        };
        let before = heading.take(n - back);
        assert(is_ascii_chars(before)) by {
            assert forall|i: int| 0 <= i < before.len() implies '\0' <= #[trigger] before[i]
                <= '\u{7f}' by {
                assert(before[i] == heading[i]);
            }
        }
        lemma_ascii_anchor(before);
        assert(low.take(n - back) =~= before.map_values(f));
        let parts = ascii_clusters(low);
        assert(parts.drop_last() =~= ascii_clusters(low.take(n - back)));
        if back == 2 {
            assert('\0' <= heading[n - 2] <= '\u{7f}');
            assert(heading[n - 2] == '\r' && c == '\n');
            assert(parts.last() == seq!['\r', '\n']);
            assert(parts.last()[0] == '\r');
            assert(parts.last() != seq![' ']) by {
                assert(seq![' '].len() == 1);
            }
            let one = heading.drop_last();
            assert(one.drop_last() =~= before);
            assert(one.last() == '\r');
            assert(ascii_anchor(one) =~= ascii_anchor(before));
            assert(ascii_anchor(heading) =~= ascii_anchor(before));
        } else {
            assert(heading.drop_last() =~= before);
            assert(parts.last() =~= seq![ascii_lower(c)]);
            assert(parts.last()[0] == ascii_lower(c));
            if c != ' ' {
                assert(ascii_lower(c) != ' ');
                assert(parts.last() != seq![' ']) by {
                    assert(seq![' '][0] == ' ');
                }
            }
        }
    }
}

/// A backtick that is not closed on its line is passed over by itself: links behind it on
/// the line are still found.
pub proof fn law_unclosed_backtick(buf: Seq<u8>, i: int, repos: Set<Seq<char>>)
    requires
        0 <= i < buf.len(),
        ({
            let end = find_byte(buf, i + 1, buf.len() as int, set![BACKTICK, NEWLINE, RETURN]);
            end >= buf.len() || buf[end] != BACKTICK
        }),
    ensures
        backtick_at(buf, i, repos) == (None::<LinkView>, i + 1),
{
}

} // verus!
