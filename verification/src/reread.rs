//! Reading a text again after the path of one of its links was replaced: the same links are
//! found, the one with its new path.
use crate::ascii::{
    BACKTICK, CLOSE_BRACKET, CLOSE_PAREN, HASH, NEWLINE, OPEN_BRACKET, OPEN_PAREN, PIPE, RETURN,
    SPACE,
};
use crate::encoding::{law_encode_add, law_encoded_ascii, stands_at};
use crate::extract::{
    backtick_at, cross_repo_path, fence_at, find_byte, law_link_ranges, lemma_find_byte,
    lemma_link_at, lemma_repo_end, lemma_wiki_end, link_at, links_from, links_of, opt_seq, past,
    repo_byte, repo_end, standard_at, stray_byte, text_at, wiki_at, wiki_end, KindView, LinkView,
};
use crate::fix::{apart, edited, woven, EditView};
use crate::path::{
    base_of, extension_in, last_slash, law_decode_encode, law_dir_base, law_lossy_ascii,
    lemma_last_slash, lossy_text,
};
use crate::text::finishes_with;
use vstd::prelude::*;
use vstd::utf8::{
    encode_utf8, encode_utf8_first_scalar, is_ascii_chars, is_ascii_chars_encode_utf8,
};

verus! {

/// The link at a place `d` bytes further on.
pub open spec fn moved(link: LinkView, d: int) -> LinkView {
    LinkView { path_start: link.path_start + d, path_end: link.path_end + d, ..link }
}

/// The link, where there is one, at a place `d` bytes further on.
pub open spec fn opt_moved(link: Option<LinkView>, d: int) -> Option<LinkView> {
    match link {
        Some(l) => Some(moved(l, d)),
        None => None,
    }
}

/// The bytes `lo..hi` of `a` stand in `b` too, `d` bytes further on, and both texts end
/// there or neither does.
pub open spec fn alike(a: Seq<u8>, b: Seq<u8>, lo: int, hi: int, d: int) -> bool {
    &&& 0 <= lo <= hi <= a.len()
    &&& 0 <= lo + d
    &&& hi + d <= b.len()
    &&& hi == a.len() <==> hi + d == b.len()
    &&& forall|p: int| lo <= p < hi ==> #[trigger] a[p] == b[p + d]
}

pub(crate) proof fn lemma_found(buf: Seq<u8>, i: int, end: int, stops: Set<u8>, e: int)
    requires
        i <= e <= end,
        e < end ==> stops.contains(buf[e]),
        forall|j: int| i <= j < e ==> !stops.contains(#[trigger] buf[j]),
    ensures
        find_byte(buf, i, end, stops) == e,
    decreases e - i,
{
    if i < e {
        assert(!stops.contains(buf[i]));
        lemma_found(buf, i + 1, end, stops, e);
    }
}

pub(crate) proof fn lemma_find_alike(
    a: Seq<u8>,
    b: Seq<u8>,
    lo: int,
    hi: int,
    d: int,
    i: int,
    end: int,
    stops: Set<u8>,
)
    requires
        alike(a, b, lo, hi, d),
        lo <= i <= end <= hi,
    ensures
        find_byte(b, i + d, end + d, stops) == find_byte(a, i, end, stops) + d,
        i <= find_byte(a, i, end, stops) <= end,
{
    let e = find_byte(a, i, end, stops);
    lemma_find_byte(a, i, end, stops);
    assert forall|j: int| i + d <= j < e + d implies !stops.contains(#[trigger] b[j]) by {
        assert(a[j - d] == b[j - d + d]);
    }
    if e < end {
        assert(a[e] == b[e + d]);
    }
    lemma_found(b, i + d, end + d, stops, e + d);
}

/// A search to the end of the text that stops before `hi`, or at the end of both texts.
proof fn lemma_find_to_end_alike(
    a: Seq<u8>,
    b: Seq<u8>,
    lo: int,
    hi: int,
    d: int,
    i: int,
    stops: Set<u8>,
)
    requires
        alike(a, b, lo, hi, d),
        lo <= i <= hi,
        find_byte(a, i, a.len() as int, stops) < hi || hi == a.len(),
    ensures
        find_byte(b, i + d, b.len() as int, stops) == find_byte(a, i, a.len() as int, stops) + d,
{
    let e = find_byte(a, i, a.len() as int, stops);
    lemma_find_byte(a, i, a.len() as int, stops);
    assert forall|j: int| i + d <= j < e + d implies !stops.contains(#[trigger] b[j]) by {
        assert(a[j - d] == b[j - d + d]);
    }
    if e < a.len() {
        assert(a[e] == b[e + d]);
    }
    lemma_found(b, i + d, b.len() as int, stops, e + d);
}

/// The inside of a wiki link stops at `e`, wherever it started.
pub open spec fn wiki_stop(buf: Seq<u8>, e: int) -> bool {
    e >= buf.len() - 1 || buf[e] == NEWLINE || buf[e] == RETURN || (buf[e] == CLOSE_BRACKET && buf[e
        + 1] == CLOSE_BRACKET)
}

pub(crate) proof fn lemma_wiki_stops(buf: Seq<u8>, s: int)
    ensures
        s <= wiki_end(buf, s),
        wiki_stop(buf, wiki_end(buf, s)),
        forall|j: int| s <= j < wiki_end(buf, s) ==> !#[trigger] wiki_stop(buf, j),
    decreases buf.len() - s,
{
    if !wiki_stop(buf, s) {
        lemma_wiki_stops(buf, s + 1);
    }
}

pub(crate) proof fn lemma_wiki_end_is(buf: Seq<u8>, s: int, e: int)
    requires
        s <= e,
        wiki_stop(buf, e),
        forall|j: int| s <= j < e ==> !#[trigger] wiki_stop(buf, j),
    ensures
        wiki_end(buf, s) == e,
    decreases e - s,
{
    if s < e {
        assert(!wiki_stop(buf, s));
        lemma_wiki_end_is(buf, s + 1, e);
    }
}

pub(crate) proof fn lemma_repo_end_is(buf: Seq<u8>, j: int, e: int)
    requires
        j <= e <= buf.len(),
        e < buf.len() ==> !repo_byte(buf[e]),
        forall|k: int| j <= k < e ==> repo_byte(#[trigger] buf[k]),
    ensures
        repo_end(buf, j) == e,
    decreases e - j,
{
    if j < e {
        assert(repo_byte(buf[j]));
        lemma_repo_end_is(buf, j + 1, e);
    }
}

proof fn lemma_repo_stops(buf: Seq<u8>, j: int)
    requires
        j <= buf.len(),
    ensures
        j <= repo_end(buf, j) <= buf.len(),
        repo_end(buf, j) < buf.len() ==> !repo_byte(buf[repo_end(buf, j)]),
        forall|k: int| j <= k < repo_end(buf, j) ==> repo_byte(#[trigger] buf[k]),
    decreases buf.len() - j,
{
    if j < buf.len() && repo_byte(buf[j]) {
        lemma_repo_stops(buf, j + 1);
    }
}

pub(crate) proof fn lemma_text_alike(
    a: Seq<u8>,
    b: Seq<u8>,
    lo: int,
    hi: int,
    d: int,
    from: int,
    to: int,
)
    requires
        alike(a, b, lo, hi, d),
        lo <= from <= to <= hi,
    ensures
        text_at(b, from + d, to + d) == text_at(a, from, to),
{
    assert(b.subrange(from + d, to + d) =~= a.subrange(from, to)) by {
        assert forall|k: int| 0 <= k < to - from implies a.subrange(from, to)[k] == b.subrange(
            from + d,
            to + d,
        )[k] by {
            assert(a[from + k] == b[from + k + d]);
        }
    }
}

proof fn lemma_extension_alike(a: Seq<u8>, b: Seq<u8>, lo: int, hi: int, d: int, from: int, to: int)
    requires
        alike(a, b, lo, hi, d),
        lo <= from <= to <= hi,
    ensures
        extension_in(b, from + d, to + d) == extension_in(a, from, to),
{
    if extension_in(a, from, to) {
        let k = choose|k: int|
            from < k < to - 1 && #[trigger] a[k] == 0x2e && a[k - 1] != 0x2f && (forall|j: int|
                k < j < to ==> a[j] != 0x2f);
        assert(a[k - 1] == b[k - 1 + d]);
        assert(b[k + d] == 0x2e);
        assert forall|j: int| k + d < j < to + d implies b[j] != 0x2f by {
            assert(a[j - d] == b[j - d + d]);
        }
    }
    if extension_in(b, from + d, to + d) {
        let k = choose|k: int|
            from + d < k < to + d - 1 && #[trigger] b[k] == 0x2e && b[k - 1] != 0x2f && (forall|
                j: int,
            |
                k < j < to + d ==> b[j] != 0x2f);
        assert(a[k - d] == b[k - d + d]);
        assert(a[k - d - 1] == b[k - d - 1 + d]);
        assert forall|j: int| k - d < j < to implies a[j] != 0x2f by {
            assert(a[j] == b[j + d]);
        }
    }
}

#[verifier::rlimit(30)]
proof fn lemma_wiki_alike(a: Seq<u8>, b: Seq<u8>, i: int, hi: int, d: int)
    requires
        alike(a, b, i, hi, d),
        i + 2 <= a.len(),
        wiki_at(a, i).1 < hi || hi == a.len(),
    ensures
        wiki_at(b, i + d) == (opt_moved(wiki_at(a, i).0, d), wiki_at(a, i).1 + d),
{
    let s = i + 2;
    let e = wiki_end(a, s);
    lemma_wiki_stops(a, s);
    lemma_wiki_end(a, s);
    assert(e < hi || hi == a.len());
    assert(wiki_stop(b, e + d)) by {
        if e < a.len() - 1 {
            assert(a[e] == b[e + d]);
            if a[e] == CLOSE_BRACKET && a[e + 1] == CLOSE_BRACKET {
                assert(e + 1 < hi);
                assert(a[e + 1] == b[e + 1 + d]);
            }
        } else {
            assert(hi == a.len());
        }
    }
    assert forall|j: int| s + d <= j < e + d implies !#[trigger] wiki_stop(b, j) by {
        assert(!wiki_stop(a, j - d));
        assert(a[j - d] == b[j - d + d]);
        assert(j - d + 1 < hi);
        assert(a[j - d + 1] == b[j - d + 1 + d]);
    }
    lemma_wiki_end_is(b, s + d, e + d);
    if s < e < a.len() - 1 && a[e] == CLOSE_BRACKET && a[e + 1] == CLOSE_BRACKET {
        assert(a[e] == b[e + d]);
        assert(a[e + 1] == b[e + 1 + d]);
        lemma_find_alike(a, b, i, hi, d, s, e, set![HASH, PIPE]);
        let name_end = find_byte(a, s, e, set![HASH, PIPE]);
        if name_end < e {
            assert(a[name_end] == b[name_end + d]);
            lemma_find_alike(a, b, i, hi, d, name_end + 1, e, set![PIPE]);
            let stop = find_byte(a, name_end + 1, e, set![PIPE]);
            lemma_text_alike(a, b, i, hi, d, name_end + 1, stop);
        }
        lemma_extension_alike(a, b, i, hi, d, s, name_end);
        lemma_text_alike(a, b, i, hi, d, s, name_end);
    } else {
        if s < e && e < a.len() - 1 {
            assert(a[e] == b[e + d]);
            if e + 1 < hi {
                assert(a[e + 1] == b[e + 1 + d]);
            }
        }
    }
}

proof fn lemma_standard_alike(a: Seq<u8>, b: Seq<u8>, i: int, hi: int, d: int)
    requires
        alike(a, b, i, hi, d),
        i + 2 <= a.len(),
        standard_at(a, i).1 < hi || hi == a.len(),
    ensures
        standard_at(b, i + d) == (opt_moved(standard_at(a, i).0, d), standard_at(a, i).1 + d),
{
    let s = i + 2;
    let n = a.len() as int;
    let stops = set![CLOSE_PAREN, NEWLINE, RETURN];
    let e = find_byte(a, s, n, stops);
    lemma_find_byte(a, s, n, stops);
    assert(e < hi || hi == n);
    lemma_find_to_end_alike(a, b, i, hi, d, s, stops);
    lemma_find_alike(a, b, i, hi, d, s, e, set![HASH]);
    let path_end = find_byte(a, s, e, set![HASH]);
    if e < n {
        assert(a[e] == b[e + d]);
    }
    if path_end - s > 7 {
        assert(a[s] == b[s + d]);
        assert(a[s + 1] == b[s + 1 + d]);
        assert(a[s + 2] == b[s + 2 + d]);
        assert(a[s + 3] == b[s + 3 + d]);
    }
    lemma_extension_alike(a, b, i, hi, d, s, path_end);
    lemma_text_alike(a, b, i, hi, d, s, path_end);
    if path_end < e {
        lemma_text_alike(a, b, i, hi, d, path_end + 1, e);
    }
}

proof fn lemma_cross_path_alike(
    a: Seq<u8>,
    b: Seq<u8>,
    lo: int,
    hi: int,
    d: int,
    from: int,
    to: int,
)
    requires
        alike(a, b, lo, hi, d),
        lo <= from <= to <= hi,
    ensures
        cross_repo_path(b, from + d, to + d) == cross_repo_path(a, from, to),
{
    if to - from >= 4 {
        assert(a[to - 3] == b[to - 3 + d]);
        assert(a[to - 2] == b[to - 2 + d]);
        assert(a[to - 1] == b[to - 1 + d]);
        assert(a[from] == b[from + d]);
        assert(a[from + 1] == b[from + 1 + d]);
        assert(a[from + 2] == b[from + 2 + d]);
        if cross_repo_path(a, from, to) {
            assert forall|j: int| from + d <= j < to + d implies !stray_byte(#[trigger] b[j]) by {
                assert(a[j - d] == b[j - d + d]);
            }
        }
        if cross_repo_path(b, from + d, to + d) {
            assert forall|j: int| from <= j < to implies !stray_byte(#[trigger] a[j]) by {
                assert(a[j] == b[j + d]);
            }
        }
    }
}

/// The repository behind a backtick reference that closes at `close - 1`: the end of its
/// name, where there is one.
spec fn suffix_end(buf: Seq<u8>, close: int) -> Option<int> {
    let name = close + 2;
    let name_end = repo_end(buf, name);
    if name < buf.len() && buf[close] == SPACE && buf[close + 1] == OPEN_PAREN && name < name_end
        < buf.len() && buf[name_end] == CLOSE_PAREN {
        Some(name_end)
    } else {
        None
    }
}

proof fn lemma_suffix_alike(a: Seq<u8>, b: Seq<u8>, lo: int, hi: int, d: int, close: int)
    requires
        alike(a, b, lo, hi, d),
        lo <= close <= hi,
        hi == a.len() || (suffix_end(a, close) is Some && suffix_end(a, close)->0 < hi),
    ensures
        suffix_end(b, close + d) == match suffix_end(a, close) {
            Some(e) => Some(e + d),
            None => None,
        },
{
    let name = close + 2;
    if name < a.len() && (hi == a.len() || name < hi) {
        assert(a[close] == b[close + d]);
        assert(a[close + 1] == b[close + 1 + d]);
        lemma_repo_stops(a, name);
        let e = repo_end(a, name);
        assert(e < hi || hi == a.len());
        if e < hi {
            assert(a[e] == b[e + d]);
        }
        assert forall|k: int| name + d <= k < e + d implies repo_byte(#[trigger] b[k]) by {
            assert(a[k - d] == b[k - d + d]);
        }
        lemma_repo_end_is(b, name + d, e + d);
    } else {
        lemma_repo_end(a, name);
    }
}

#[verifier::rlimit(30)]
proof fn lemma_backtick_alike(
    a: Seq<u8>,
    b: Seq<u8>,
    i: int,
    hi: int,
    d: int,
    repos: Set<Seq<char>>,
)
    requires
        alike(a, b, i, hi, d),
        i < a.len(),
        ({
            let e = find_byte(a, i + 1, a.len() as int, set![BACKTICK, NEWLINE, RETURN]);
            hi == a.len() || (e < hi && suffix_end(a, e + 1) is Some && suffix_end(a, e + 1)->0 < hi)
        }),
    ensures
        backtick_at(b, i + d, repos) == (
            opt_moved(backtick_at(a, i, repos).0, d),
            backtick_at(a, i, repos).1 + d,
        ),
{
    let s = i + 1;
    let n = a.len() as int;
    let stops = set![BACKTICK, NEWLINE, RETURN];
    let e = find_byte(a, s, n, stops);
    lemma_find_byte(a, s, n, stops);
    lemma_find_to_end_alike(a, b, i, hi, d, s, stops);
    if s < e < n && a[e] == BACKTICK {
        let close = e + 1;
        assert(a[e] == b[e + d]);
        lemma_suffix_alike(a, b, i, hi, d, close);
        match suffix_end(a, close) {
            Some(name_end) => {
                lemma_find_alike(a, b, i, hi, d, s, e, set![HASH]);
                let path_end = find_byte(a, s, e, set![HASH]);
                lemma_text_alike(a, b, i, hi, d, close + 2, name_end);
                lemma_cross_path_alike(a, b, i, hi, d, s, path_end);
                lemma_text_alike(a, b, i, hi, d, s, path_end);
                if path_end < e {
                    lemma_text_alike(a, b, i, hi, d, path_end + 1, e);
                }
            },
            None => {},
        }
    } else if e < n {
        assert(a[e] == b[e + d]);
    }
}

/// Where the rest of two texts is the same, so are the links.
#[verifier::rlimit(30)]
proof fn lemma_links_alike(
    a: Seq<u8>,
    b: Seq<u8>,
    i: int,
    d: int,
    repos: Set<Seq<char>>,
    in_fence: bool,
)
    requires
        1 <= i <= a.len(),
        alike(a, b, i - 1, a.len() as int, d),
    ensures
        links_from(b, repos, i + d, in_fence) == links_from(a, repos, i, in_fence).map_values(
            |l: LinkView| moved(l, d),
        ),
    decreases a.len() - i,
{
    let n = a.len() as int;
    let f = |l: LinkView| moved(l, d);
    assert(alike(a, b, i, n, d));
    if i < n {
        assert(a[i - 1] == b[i - 1 + d]);
        assert(a[i] == b[i + d]);
        if i + 1 < n {
            assert(a[i + 1] == b[i + 1 + d]);
        }
        if i + 2 < n {
            assert(a[i + 2] == b[i + 2 + d]);
        }
        assert(fence_at(b, i + d) == fence_at(a, i));
        if fence_at(a, i) {
            lemma_find_alike(a, b, i, n, d, i, n, set![NEWLINE]);
            lemma_find_byte(a, i, n, set![NEWLINE]);
            let next = past(a, find_byte(a, i, n, set![NEWLINE]));
            lemma_links_alike(a, b, next, d, repos, !in_fence);
        } else if in_fence {
            lemma_links_alike(a, b, i + 1, d, repos, in_fence);
        } else {
            lemma_link_at(a, i, repos);
            let (link, next) = link_at(a, i, repos);
            if i < n - 1 && a[i] == OPEN_BRACKET && a[i + 1] == OPEN_BRACKET {
                lemma_wiki_alike(a, b, i, n, d);
            } else if i < n - 1 && a[i] == CLOSE_BRACKET && a[i + 1] == OPEN_PAREN {
                lemma_standard_alike(a, b, i, n, d);
            } else if a[i] == BACKTICK {
                lemma_backtick_alike(a, b, i, n, d, repos);
            }
            assert(link_at(b, i + d, repos) == (opt_moved(link, d), next + d));
            if next <= n {
                lemma_links_alike(a, b, next, d, repos, in_fence);
            } else {
                assert(links_from(b, repos, next + d, in_fence) =~= links_from(
                    a,
                    repos,
                    next,
                    in_fence,
                ).map_values(f));
            }
            assert((opt_seq(link) + links_from(a, repos, next, in_fence)).map_values(f)
                =~= opt_seq(opt_moved(link, d)) + links_from(a, repos, next, in_fence).map_values(
                f,
            ));
        }
    }
    assert(links_from(a, repos, i, in_fence).map_values(f) =~= links_from(
        b,
        repos,
        i + d,
        in_fence,
    ));
}

/// The bytes of a path that a wiki link can have: with an extension, and without what ends
/// the path or the link.
pub open spec fn wiki_path(path: Seq<u8>) -> bool {
    &&& extension_in(path, 0, path.len() as int)
    &&& forall|j: int|
        0 <= j < path.len() ==> #[trigger] path[j] != NEWLINE && path[j] != RETURN && path[j]
            != HASH && path[j] != PIPE
    &&& forall|j: int|
        0 <= j < path.len() && #[trigger] path[j] == CLOSE_BRACKET ==> j + 1 < path.len() && path[j
            + 1] != CLOSE_BRACKET
}

/// The bytes of a path that a cross-repository reference can have.
pub open spec fn cross_path(path: Seq<u8>) -> bool {
    &&& cross_repo_path(path, 0, path.len() as int)
    &&& forall|j: int|
        0 <= j < path.len() ==> #[trigger] path[j] != NEWLINE && path[j] != RETURN && path[j]
            != HASH && path[j] != BACKTICK
}

/// The bytes can be the path of a link of this kind. The paths of standard links are never
/// replaced.
pub open spec fn path_for(kind: KindView, path: Seq<u8>) -> bool {
    match kind {
        KindView::Wiki => wiki_path(path),
        KindView::CrossRepo(_) => cross_path(path),
        KindView::Standard => false,
    }
}

/// The bytes can stand in the place of the path of the link `l` of the text `a`. A backtick
/// would close a code span that stands open before the link. None does where the path had a
/// backtick already: the link would not have been found.
pub open spec fn path_fits(a: Seq<u8>, l: LinkView, path: Seq<u8>) -> bool {
    &&& path_for(l.kind, path)
    &&& path.contains(BACKTICK) ==> a.subrange(l.path_start, l.path_end).contains(BACKTICK)
}

/// Where the syntax of a link that has its path at `p` starts.
spec fn opening(kind: KindView, p: int) -> int {
    match kind {
        KindView::CrossRepo(_) => p - 1,
        _ => p - 2,
    }
}

/// What stands around a link that was found: its opening before the path, and no line break
/// in the path.
spec fn in_place(a: Seq<u8>, l: LinkView) -> bool {
    let p = l.path_start;
    let q = l.path_end;
    &&& 0 <= opening(l.kind, p) < p <= q < a.len()
    &&& forall|j: int| p <= j < q ==> #[trigger] a[j] != NEWLINE && a[j] != RETURN
    &&& match l.kind {
        KindView::Wiki => a[p - 2] == OPEN_BRACKET && a[p - 1] == OPEN_BRACKET,
        KindView::CrossRepo(_) => a[p - 1] == BACKTICK && p < q && a[p] != BACKTICK,
        KindView::Standard => true,
    }
}

proof fn lemma_link_in_place(a: Seq<u8>, i: int, repos: Set<Seq<char>>)
    requires
        0 <= i < a.len(),
    ensures
        link_at(a, i, repos).0 matches Some(l) ==> in_place(a, l) && opening(l.kind, l.path_start)
            == i && l.path_end < link_at(a, i, repos).1,
{
    let n = a.len() as int;
    lemma_link_at(a, i, repos);
    if i + 1 < n {
        lemma_wiki_end(a, i + 2);
        let e1 = wiki_end(a, i + 2);
        lemma_find_byte(a, i + 2, e1, set![HASH, PIPE]);
        let stops = set![CLOSE_PAREN, NEWLINE, RETURN];
        lemma_find_byte(a, i + 2, n, stops);
        let e2 = find_byte(a, i + 2, n, stops);
        lemma_find_byte(a, i + 2, e2, set![HASH]);
        assert forall|j: int| i + 2 <= j < e2 implies #[trigger] a[j] != NEWLINE && a[j]
            != RETURN by {
            assert(!stops.contains(a[j]));
        }
    }
    let stops = set![BACKTICK, NEWLINE, RETURN];
    lemma_find_byte(a, i + 1, n, stops);
    let e3 = find_byte(a, i + 1, n, stops);
    lemma_find_byte(a, i + 1, e3, set![HASH]);
    assert forall|j: int| i + 1 <= j < e3 implies #[trigger] a[j] != NEWLINE && a[j] != RETURN
        && a[j] != BACKTICK by {
        assert(!stops.contains(a[j]));
    }
}

proof fn lemma_links_in_place(a: Seq<u8>, repos: Set<Seq<char>>, i: int, in_fence: bool)
    requires
        0 <= i <= a.len() + 1,
    ensures
        forall|k: int|
            0 <= k < links_from(a, repos, i, in_fence).len() ==> {
                let l = #[trigger] links_from(a, repos, i, in_fence)[k];
                &&& in_place(a, l) && i <= opening(l.kind, l.path_start)
                &&& link_at(a, opening(l.kind, l.path_start), repos).0 == Some(l)
            },
    decreases a.len() + 1 - i,
{
    let n = a.len() as int;
    if i < n {
        if fence_at(a, i) {
            lemma_find_byte(a, i, n, set![NEWLINE]);
            lemma_links_in_place(a, repos, past(a, find_byte(a, i, n, set![NEWLINE])), !in_fence);
        } else if in_fence {
            lemma_links_in_place(a, repos, i + 1, in_fence);
        } else {
            lemma_link_at(a, i, repos);
            lemma_link_in_place(a, i, repos);
            lemma_links_in_place(a, repos, link_at(a, i, repos).1, in_fence);
        }
    }
}

/// The path of a wiki link that was found, as bytes: what ends the path or the link is not
/// in it.
proof fn lemma_wiki_read(a: Seq<u8>, i: int, repos: Set<Seq<char>>)
    requires
        0 <= i < a.len(),
        link_at(a, i, repos).0 matches Some(l) && l.kind is Wiki && l.path_start < l.path_end,
    ensures
        ({
            let l = link_at(a, i, repos).0->0;
            let old = a.subrange(l.path_start, l.path_end);
            &&& l.target == lossy_text(old)
            &&& extension_in(old, 0, old.len() as int)
            &&& forall|j: int|
                0 <= j < old.len() ==> #[trigger] old[j] != NEWLINE && old[j] != RETURN && old[j]
                    != HASH && old[j] != PIPE
            &&& forall|j: int|
                0 <= j && j + 1 < old.len() && #[trigger] old[j] == CLOSE_BRACKET ==> old[j + 1]
                    != CLOSE_BRACKET
        }),
{
    let l = link_at(a, i, repos).0->0;
    let p = l.path_start;
    let q = l.path_end;
    let old = a.subrange(p, q);
    let n = a.len() as int;
    lemma_link_in_place(a, i, repos);
    assert(a[i] == OPEN_BRACKET && a[i + 1] == OPEN_BRACKET);
    let e = wiki_end(a, p);
    lemma_wiki_stops(a, p);
    lemma_wiki_end(a, p);
    lemma_find_byte(a, p, e, set![HASH, PIPE]);
    assert forall|j: int| 0 <= j < old.len() implies #[trigger] old[j] != NEWLINE && old[j]
        != RETURN && old[j] != HASH && old[j] != PIPE by {
        assert(old[j] == a[p + j]);
        assert(!set![HASH, PIPE].contains(a[p + j]));
    }
    assert forall|j: int|
        0 <= j && j + 1 < old.len() && #[trigger] old[j] == CLOSE_BRACKET implies old[j + 1]
        != CLOSE_BRACKET by {
        assert(!wiki_stop(a, p + j));
    }
    let k = choose|k: int|
        p < k < q - 1 && #[trigger] a[k] == 0x2e && a[k - 1] != 0x2f && (forall|j: int|
            k < j < q ==> a[j] != 0x2f);
    assert(old[k - p] == 0x2e && old[k - p - 1] != 0x2f);
}

/// The text with the bytes `p..q` replaced.
pub open spec fn replaced(a: Seq<u8>, p: int, q: int, with: Seq<u8>) -> Seq<u8> {
    a.take(p) + with + a.skip(q)
}

proof fn lemma_replaced(a: Seq<u8>, p: int, q: int, with: Seq<u8>)
    requires
        0 <= p <= q < a.len(),
    ensures
        ({
            let b = replaced(a, p, q, with);
            let d = with.len() - (q - p);
            &&& b.len() == a.len() + d
            &&& alike(a, b, 0, p, 0)
            &&& alike(a, b, q, a.len() as int, d)
            &&& forall|j: int| 0 <= j < with.len() ==> #[trigger] with[j] == b[p + j]
        }),
{
}

proof fn lemma_suffix_before(a: Seq<u8>, b: Seq<u8>, p: int, at: int, close: int)
    requires
        alike(a, b, 0, p, 0),
        0 <= close <= at < p < a.len(),
        a[at] == OPEN_BRACKET || a[at] == BACKTICK,
    ensures
        suffix_end(b, close) is Some ==> suffix_end(a, close) == suffix_end(b, close),
{
    if let Some(e) = suffix_end(b, close) {
        assert(a[close] == b[close + 0]);
        if close < at {
            assert(a[close + 1] == b[close + 1 + 0]);
        }
        let name = close + 2;
        assert(name <= at);
        lemma_repo_stops(b, name);
        assert(a[at] == b[at + 0]);
        assert(e <= at) by {
            if at < e {
                assert(repo_byte(b[at]));
            }
        }
        assert(a[e] == b[e + 0]);
        assert forall|k: int| name <= k < e implies repo_byte(#[trigger] a[k]) by {
            assert(a[k] == b[k + 0]);
        }
        lemma_repo_end_is(a, name, e);
    }
}

#[verifier::rlimit(30)]
proof fn lemma_backtick_before(
    a: Seq<u8>,
    l: LinkView,
    with: Seq<u8>,
    i: int,
    repos: Set<Seq<char>>,
)
    requires
        in_place(a, l),
        path_fits(a, l, with),
        0 <= i < a.len(),
        i < backtick_at(a, i, repos).1 <= opening(l.kind, l.path_start),
    ensures
        backtick_at(replaced(a, l.path_start, l.path_end, with), i, repos) == backtick_at(
            a,
            i,
            repos,
        ),
{
    let p = l.path_start;
    let q = l.path_end;
    let at = opening(l.kind, p);
    let b = replaced(a, p, q, with);
    let d = with.len() - (q - p);
    let n = a.len() as int;
    lemma_replaced(a, p, q, with);
    assert(opt_moved(backtick_at(a, i, repos).0, 0) == backtick_at(a, i, repos).0);
    assert(alike(a, b, i, p, 0));
    let s = i + 1;
    let stops = set![BACKTICK, NEWLINE, RETURN];
    let e = find_byte(a, s, n, stops);
    lemma_find_byte(a, s, n, stops);
    if s < e < n && a[e] == BACKTICK {
        let close = e + 1;
        lemma_repo_end(a, close + 2);
        assert(close <= at);
        if suffix_end(a, close) is Some {
            lemma_backtick_alike(a, b, i, p, 0, repos);
        } else {
            lemma_find_to_end_alike(a, b, i, p, 0, s, stops);
            lemma_suffix_before(a, b, p, at, close);
            assert(a[e] == b[e + 0]);
        }
    } else if e < p {
        lemma_find_to_end_alike(a, b, i, p, 0, s, stops);
        assert(a[e] == b[e + 0]);
    } else {
        assert(e >= q) by {
            if e < q {
                assert(stops.contains(a[e]));
                assert(a[e] != NEWLINE && a[e] != RETURN);
            }
        }
        assert(!with.contains(BACKTICK)) by {
            let old = a.subrange(p, q);
            if old.contains(BACKTICK) {
                let j = choose|j: int| 0 <= j < old.len() && old[j] == BACKTICK;
                assert(!stops.contains(a[p + j]));
            }
        }
        assert forall|j: int| s <= j < e + d implies !stops.contains(#[trigger] b[j]) by {
            if j < p {
                assert(a[j] == b[j + 0]);
            } else if j < p + with.len() {
                assert(with[j - p] == b[p + (j - p)]);
                assert(with[j - p] != BACKTICK);
            } else {
                assert(a[j - d] == b[j - d + d]);
            }
        }
        if e < n {
            assert(a[e] == b[e + d]);
        }
        lemma_found(b, s, b.len() as int, stops, e + d);
    }
}

/// What is read before the opening of the link is read as before.
#[verifier::rlimit(30)]
proof fn lemma_link_before(
    a: Seq<u8>,
    l: LinkView,
    with: Seq<u8>,
    i: int,
    repos: Set<Seq<char>>,
)
    requires
        in_place(a, l),
        path_fits(a, l, with),
        0 <= i < a.len(),
        i < link_at(a, i, repos).1 <= opening(l.kind, l.path_start),
    ensures
        link_at(replaced(a, l.path_start, l.path_end, with), i, repos) == link_at(a, i, repos),
{
    let p = l.path_start;
    let b = replaced(a, p, l.path_end, with);
    lemma_replaced(a, p, l.path_end, with);
    assert(opt_moved(link_at(a, i, repos).0, 0) == link_at(a, i, repos).0);
    assert(alike(a, b, i, p, 0));
    assert(a[i] == b[i + 0]);
    assert(a[i + 1] == b[i + 1 + 0]);
    if a[i] == OPEN_BRACKET && a[i + 1] == OPEN_BRACKET {
        lemma_wiki_alike(a, b, i, p, 0);
    } else if a[i] == CLOSE_BRACKET && a[i + 1] == OPEN_PAREN {
        lemma_standard_alike(a, b, i, p, 0);
    } else if a[i] == BACKTICK {
        lemma_backtick_before(a, l, with, i, repos);
    }
}

/// A fence line stays one, and no other line becomes one.
proof fn lemma_fence_before(a: Seq<u8>, l: LinkView, with: Seq<u8>, i: int)
    requires
        in_place(a, l),
        path_for(l.kind, with),
        0 <= i <= opening(l.kind, l.path_start),
    ensures
        fence_at(replaced(a, l.path_start, l.path_end, with), i) == fence_at(a, i),
{
    let p = l.path_start;
    let b = replaced(a, p, l.path_end, with);
    lemma_replaced(a, p, l.path_end, with);
    assert(with.len() > 0);
    assert(with[0] == b[p + 0]);
    assert(a[i] == b[i + 0]);
    if i > 0 {
        assert(a[i - 1] == b[i - 1 + 0]);
    }
    if i + 1 < p {
        assert(a[i + 1] == b[i + 1 + 0]);
    }
    if i + 2 < p {
        assert(a[i + 2] == b[i + 2 + 0]);
    }
}

/// The link with a new path.
pub open spec fn with_path(link: LinkView, path: Seq<u8>) -> LinkView {
    LinkView {
        target: text_at(path, 0, path.len() as int),
        path_end: link.path_start + path.len(),
        ..link
    }
}

#[verifier::rlimit(30)]
proof fn lemma_wiki_replaced(a: Seq<u8>, i: int, with: Seq<u8>)
    requires
        0 <= i,
        i + 2 <= a.len(),
        wiki_at(a, i).0 is Some,
        wiki_path(with),
    ensures
        ({
            let l = wiki_at(a, i).0->0;
            wiki_at(replaced(a, l.path_start, l.path_end, with), i) == (
                Some(with_path(l, with)),
                wiki_at(a, i).1 + with.len() - (l.path_end - l.path_start),
            )
        }),
{
    let l = wiki_at(a, i).0->0;
    let p = i + 2;
    let q = l.path_end;
    let e = wiki_end(a, p);
    let n = a.len() as int;
    lemma_wiki_stops(a, p);
    lemma_wiki_end(a, p);
    lemma_find_byte(a, p, e, set![HASH, PIPE]);
    let b = replaced(a, p, q, with);
    let d = with.len() - (q - p);
    lemma_replaced(a, p, q, with);
    assert(a[e] == b[e + d]);
    assert(a[e + 1] == b[e + 1 + d]);
    assert(a[q] == b[q + d]);
    assert forall|j: int| p <= j < e + d implies !#[trigger] wiki_stop(b, j) by {
        if j < p + with.len() {
            assert(with[j - p] == b[p + (j - p)]);
            if j + 1 < p + with.len() {
                assert(with[j + 1 - p] == b[p + (j + 1 - p)]);
            }
        } else {
            assert(!wiki_stop(a, j - d));
            assert(a[j - d] == b[j - d + d]);
            assert(a[j - d + 1] == b[j - d + 1 + d]);
        }
    }
    lemma_wiki_end_is(b, p, e + d);
    let stops = set![HASH, PIPE];
    assert forall|j: int| p <= j < q + d implies !stops.contains(#[trigger] b[j]) by {
        assert(with[j - p] == b[p + (j - p)]);
    }
    lemma_found(b, p, e + d, stops, q + d);
    assert(extension_in(b, p, q + d)) by {
        let k = choose|k: int|
            0 < k < with.len() - 1 && #[trigger] with[k] == 0x2e && with[k - 1] != 0x2f && (forall|
                j: int,
            |
                k < j < with.len() ==> with[j] != 0x2f);
        assert(with[k - 1] == b[p + (k - 1)]);
        assert(b[p + k] == 0x2e);
        assert forall|j: int| p + k < j < q + d implies b[j] != 0x2f by {
            assert(with[j - p] == b[p + (j - p)]);
        }
    }
    assert(b.subrange(p, q + d) =~= with.subrange(0, with.len() as int));
    if q < e {
        lemma_find_alike(a, b, q, n, d, q + 1, e, set![PIPE]);
        let stop = find_byte(a, q + 1, e, set![PIPE]);
        lemma_text_alike(a, b, q, n, d, q + 1, stop);
    }
}

#[verifier::rlimit(30)]
proof fn lemma_backtick_replaced(a: Seq<u8>, i: int, with: Seq<u8>, repos: Set<Seq<char>>)
    requires
        0 <= i < a.len(),
        backtick_at(a, i, repos).0 is Some,
        cross_path(with),
    ensures
        ({
            let l = backtick_at(a, i, repos).0->0;
            backtick_at(replaced(a, l.path_start, l.path_end, with), i, repos) == (
                Some(with_path(l, with)),
                backtick_at(a, i, repos).1 + with.len() - (l.path_end - l.path_start),
            )
        }),
{
    let l = backtick_at(a, i, repos).0->0;
    let p = i + 1;
    let q = l.path_end;
    let n = a.len() as int;
    let stops = set![BACKTICK, NEWLINE, RETURN];
    let e = find_byte(a, p, n, stops);
    lemma_find_byte(a, p, n, stops);
    lemma_find_byte(a, p, e, set![HASH]);
    let b = replaced(a, p, q, with);
    let d = with.len() - (q - p);
    lemma_replaced(a, p, q, with);
    assert(a[e] == b[e + d]);
    assert(a[q] == b[q + d]);
    assert forall|j: int| p <= j < e + d implies !stops.contains(#[trigger] b[j]) by {
        if j < p + with.len() {
            assert(with[j - p] == b[p + (j - p)]);
        } else {
            assert(a[j - d] == b[j - d + d]);
        }
    }
    lemma_found(b, p, b.len() as int, stops, e + d);
    lemma_suffix_alike(a, b, q, n, d, e + 1);
    let name_end = suffix_end(a, e + 1)->0;
    lemma_text_alike(a, b, q, n, d, e + 3, name_end);
    assert forall|j: int| p <= j < q + d implies !set![HASH].contains(#[trigger] b[j]) by {
        assert(with[j - p] == b[p + (j - p)]);
    }
    lemma_found(b, p, e + d, set![HASH], q + d);
    assert(alike(with, b, 0, with.len() as int - 1, p)) by {
        assert forall|j: int| 0 <= j < with.len() - 1 implies #[trigger] with[j] == b[j + p] by {
            assert(with[j] == b[p + j]);
        }
    }
    assert(cross_repo_path(b, p, q + d)) by {
        let m = with.len() as int;
        assert(with[m - 3] == b[p + (m - 3)]);
        assert(with[m - 2] == b[p + (m - 2)]);
        assert(with[m - 1] == b[p + (m - 1)]);
        assert(with[0] == b[p + 0]);
        assert(with[1] == b[p + 1]);
        assert(with[2] == b[p + 2]);
        assert forall|j: int| p <= j < q + d implies !stray_byte(#[trigger] b[j]) by {
            assert(with[j - p] == b[p + (j - p)]);
        }
    }
    assert(b.subrange(p, q + d) =~= with.subrange(0, with.len() as int));
    if q < e {
        lemma_text_alike(a, b, q, n, d, q + 1, e);
    }
}

/// The link is found again, with its new path.
#[verifier::rlimit(30)]
proof fn lemma_link_replaced(a: Seq<u8>, i: int, with: Seq<u8>, repos: Set<Seq<char>>)
    requires
        0 <= i < a.len(),
        link_at(a, i, repos).0 is Some,
        path_for(link_at(a, i, repos).0->0.kind, with),
    ensures
        ({
            let l = link_at(a, i, repos).0->0;
            link_at(replaced(a, l.path_start, l.path_end, with), i, repos) == (
                Some(with_path(l, with)),
                link_at(a, i, repos).1 + with.len() - (l.path_end - l.path_start),
            )
        }),
{
    let l = link_at(a, i, repos).0->0;
    let b = replaced(a, l.path_start, l.path_end, with);
    lemma_link_in_place(a, i, repos);
    lemma_replaced(a, l.path_start, l.path_end, with);
    assert(a[i] == b[i + 0]);
    match l.kind {
        KindView::CrossRepo(_) => {
            lemma_backtick_replaced(a, i, with, repos);
        },
        _ => {
            assert(a[i + 1] == b[i + 1 + 0]);
            lemma_wiki_replaced(a, i, with);
        },
    }
}

/// The links after the path of the link `k` was replaced.
pub open spec fn relinked(links: Seq<LinkView>, k: int, path: Seq<u8>) -> Seq<LinkView> {
    let d = path.len() - (links[k].path_end - links[k].path_start);
    links.take(k) + seq![with_path(links[k], path)] + links.skip(k + 1).map_values(
        |l: LinkView| moved(l, d),
    )
}

/// The links from a position, seen from one scan step before it.
proof fn lemma_relinked_step(
    found: Seq<LinkView>,
    rest: Seq<LinkView>,
    k: int,
    with: Seq<u8>,
)
    requires
        0 <= k < rest.len(),
    ensures
        relinked(found + rest, found.len() + k, with) == found + relinked(rest, k, with),
{
    let all = found + rest;
    assert(all[found.len() + k] == rest[k]);
    assert(all.take(found.len() + k) =~= found + rest.take(k));
    assert(all.skip(found.len() + k + 1) =~= rest.skip(k + 1));
    assert(relinked(all, found.len() + k, with) =~= found + relinked(rest, k, with));
}

proof fn lemma_relinked_first(l: LinkView, rest: Seq<LinkView>, with: Seq<u8>)
    ensures
        ({
            let d = with.len() - (l.path_end - l.path_start);
            relinked(seq![l] + rest, 0, with) == seq![with_path(l, with)] + rest.map_values(
                |m: LinkView| moved(m, d),
            )
        }),
{
    let all = seq![l] + rest;
    assert(all.skip(1) =~= rest);
    assert(all.take(0) + seq![with_path(l, with)] =~= seq![with_path(l, with)]);
}

/// The step that finds the link whose path is replaced.
#[verifier::rlimit(30)]
proof fn lemma_found_again(a: Seq<u8>, repos: Set<Seq<char>>, i: int, with: Seq<u8>)
    requires
        0 <= i < a.len(),
        !fence_at(a, i),
        link_at(a, i, repos).0 is Some,
        path_for(link_at(a, i, repos).0->0.kind, with),
    ensures
        ({
            let ls = links_from(a, repos, i, false);
            links_from(replaced(a, ls[0].path_start, ls[0].path_end, with), repos, i, false)
                == relinked(ls, 0, with)
        }),
{
    let n = a.len() as int;
    let (link, next) = link_at(a, i, repos);
    let l = link->0;
    let p = l.path_start;
    let q = l.path_end;
    let d = with.len() - (q - p);
    let b = replaced(a, p, q, with);
    let rest = links_from(a, repos, next, false);
    let ls = links_from(a, repos, i, false);
    lemma_link_at(a, i, repos);
    lemma_link_in_place(a, i, repos);
    lemma_replaced(a, p, q, with);
    lemma_fence_before(a, l, with, i);
    lemma_link_replaced(a, i, with, repos);
    assert(alike(a, b, next - 1, n, d));
    lemma_links_alike(a, b, next, d, repos, false);
    lemma_relinked_first(l, rest, with);
}

/// A step over a fence line before the link whose path is replaced.
proof fn lemma_fence_again(a: Seq<u8>, l: LinkView, with: Seq<u8>, i: int)
    requires
        in_place(a, l),
        path_for(l.kind, with),
        0 <= i < a.len(),
        fence_at(a, i),
        past(a, find_byte(a, i, a.len() as int, set![NEWLINE])) <= opening(l.kind, l.path_start),
    ensures
        ({
            let b = replaced(a, l.path_start, l.path_end, with);
            &&& i < b.len()
            &&& fence_at(b, i)
            &&& past(b, find_byte(b, i, b.len() as int, set![NEWLINE])) == past(
                a,
                find_byte(a, i, a.len() as int, set![NEWLINE]),
            )
        }),
{
    let p = l.path_start;
    let b = replaced(a, p, l.path_end, with);
    lemma_replaced(a, p, l.path_end, with);
    lemma_find_byte(a, i, a.len() as int, set![NEWLINE]);
    lemma_fence_before(a, l, with, i);
    assert(alike(a, b, i, p, 0));
    lemma_find_to_end_alike(a, b, i, p, 0, i, set![NEWLINE]);
}

#[verifier::rlimit(30)]
proof fn lemma_links_replaced(
    a: Seq<u8>,
    repos: Set<Seq<char>>,
    i: int,
    in_fence: bool,
    k: int,
    with: Seq<u8>,
)
    requires
        0 <= i <= a.len(),
        0 <= k < links_from(a, repos, i, in_fence).len(),
        path_fits(a, links_from(a, repos, i, in_fence)[k], with),
    ensures
        ({
            let ls = links_from(a, repos, i, in_fence);
            links_from(replaced(a, ls[k].path_start, ls[k].path_end, with), repos, i, in_fence)
                == relinked(ls, k, with)
        }),
    decreases a.len() - i,
{
    let ls = links_from(a, repos, i, in_fence);
    let l = ls[k];
    lemma_links_in_place(a, repos, i, in_fence);
    lemma_replaced(a, l.path_start, l.path_end, with);
    lemma_fence_before(a, l, with, i);
    if fence_at(a, i) {
        let next = past(a, find_byte(a, i, a.len() as int, set![NEWLINE]));
        lemma_find_byte(a, i, a.len() as int, set![NEWLINE]);
        lemma_links_in_place(a, repos, next, !in_fence);
        assert(links_from(a, repos, next, !in_fence) == ls);
        lemma_fence_again(a, l, with, i);
        lemma_links_replaced(a, repos, next, !in_fence, k, with);
    } else if in_fence {
        lemma_links_replaced(a, repos, i + 1, in_fence, k, with);
    } else {
        let (link, next) = link_at(a, i, repos);
        let found = opt_seq(link);
        let rest = links_from(a, repos, next, in_fence);
        lemma_link_at(a, i, repos);
        assert(ls == found + rest);
        if link is Some && k == 0 {
            assert(l == link->0);
            lemma_found_again(a, repos, i, with);
        } else {
            let m = k - found.len();
            assert(rest[m] == l);
            lemma_links_in_place(a, repos, next, in_fence);
            lemma_link_before(a, l, with, i, repos);
            lemma_links_replaced(a, repos, next, in_fence, m, with);
            lemma_relinked_step(found, rest, m, with);
        }
    }
}

/// A link whose path was replaced by another that a link of its kind can have is found
/// again with the new path. All other links of the text are found as before.
pub proof fn law_replaced_path(a: Seq<u8>, repos: Set<Seq<char>>, k: int, with: Seq<u8>)
    requires
        0 <= k < links_of(a, repos).len(),
        path_fits(a, links_of(a, repos)[k], with),
    ensures
        ({
            let ls = links_of(a, repos);
            links_of(replaced(a, ls[k].path_start, ls[k].path_end, with), repos) == relinked(
                ls,
                k,
                with,
            )
        }),
{
    lemma_links_in_place(a, repos, 0, false);
    lemma_links_replaced(a, repos, 0, false, k, with);
}

/// A byte below 0x80 of an encoded end of a text stands in the bytes that the text was read
/// from, and so does the pair with one behind it.
proof fn lemma_end_from(old: Seq<u8>, from: int, j: int)
    requires
        0 <= from <= lossy_text(old).len(),
        0 <= j < encode_utf8(lossy_text(old).skip(from)).len(),
        encode_utf8(lossy_text(old).skip(from))[j] < 0x80,
    ensures
        ({
            let new = encode_utf8(lossy_text(old).skip(from));
            exists|m: int|
                0 <= m < old.len() && #[trigger] old[m] == new[j] && (j + 1 < new.len() && new[j
                    + 1] < 0x80 ==> m + 1 < old.len() && old[m + 1] == new[j + 1])
        }),
{
    let text = lossy_text(old);
    let name = text.skip(from);
    let new = encode_utf8(name);
    law_lossy_ascii(old);
    law_encoded_ascii(name, j);
    let i = choose|i: int|
        0 <= i < name.len() && #[trigger] name[i] == new[j] as char && (j + 1 < new.len() && new[j
            + 1] < 0x80 ==> i + 1 < name.len() && name[i + 1] == new[j + 1] as char);
    let two = j + 1 < new.len() && new[j + 1] < 0x80;
    let to = if two {
        from + i + 2
    } else {
        from + i + 1
    };
    let run = text.subrange(from + i, to);
    assert(run[0] == name[i]);
    if two {
        assert(run[1] == name[i + 1]);
    }
    assert forall|k: int| 0 <= k < run.len() implies '\0' <= #[trigger] run[k] <= '\u{7f}' by {
        assert(k == 0 || k == 1);
    }
    let m = choose|m: int| #[trigger] stands_at(old, m, run);
    assert(old[m + 0] == new[j]);
    if two {
        assert(old[m + 1] == new[j + 1]);
    }
}

/// The base name of a markdown target is longer than its extension, where the path that it
/// was read from has an extension.
proof fn lemma_named(old: Seq<u8>)
    requires
        extension_in(old, 0, old.len() as int),
        finishes_with(lossy_text(old), ".md"@),
    ensures
        base_of(lossy_text(old)).len() >= 4,
        finishes_with(base_of(lossy_text(old)), ".md"@),
{
    let text = lossy_text(old);
    let n = text.len() as int;
    reveal_strlit(".md");
    lemma_last_slash(text);
    let end = text.skip(n - 3);
    assert(end[0] == text[n - 3] && end[1] == text[n - 2] && end[2] == text[n - 1]);
    assert(end[0] == '.' && end[1] == 'm' && end[2] == 'd');
    let from = match last_slash(text) {
        Some(i) => i + 1,
        None => 0,
    };
    let name = base_of(text);
    assert(name =~= text.skip(from));
    assert(name.skip(name.len() - 3) =~= end);
    if name.len() < 4 {
        law_lossy_ascii(old);
        let at = if from > 0 {
            from - 1
        } else {
            0
        };
        let run = text.subrange(at, n);
        assert(is_ascii_chars(run)) by {
            assert forall|k: int| 0 <= k < run.len() implies '\0' <= #[trigger] run[k]
                <= '\u{7f}' by {
                assert(run[k] == text[at + k]);
            }
        }
        let j = choose|j: int| #[trigger]
            stands_at(old, j, run) && (at == 0 ==> j == 0) && j + (n - at) == old.len();
        let k = choose|k: int|
            0 < k < old.len() - 1 && #[trigger] old[k] == 0x2e && old[k - 1] != 0x2f && (forall|
                x: int,
            |
                k < x < old.len() ==> old[x] != 0x2f);
        let len = old.len() as int;
        let l = run.len() as int;
        assert(run[l - 1] == 'd' && run[l - 2] == 'm' && run[l - 3] == '.');
        assert(old[j + (l - 1)] == 0x64 && old[j + (l - 2)] == 0x6d && old[j + (l - 3)] == 0x2e);
        if from > 0 {
            assert(run[0] == '/');
            assert(old[j + 0] == 0x2f);
            assert(k > j);
        }
        assert(false);
    }
}

/// The bytes of a name that ends in `.md` and has more before it end in an extension.
proof fn lemma_extension_of_name(name: Seq<char>)
    requires
        name.len() >= 4,
        !name.contains('/'),
        finishes_with(name, ".md"@),
    ensures
        ({
            let new = encode_utf8(name);
            extension_in(new, 0, new.len() as int) && new.last() == 0x64
        }),
{
    reveal_strlit(".md");
    let new = encode_utf8(name);
    let n = name.len() as int;
    let m = new.len() as int;
    let head = name.take(n - 3);
    let end = name.skip(n - 3);
    assert(name =~= head + end);
    law_encode_add(head, end);
    is_ascii_chars_encode_utf8(end);
    encode_utf8_first_scalar(head);
    assert(end[0] as u8 == encode_utf8(end)[0] && end[1] as u8 == encode_utf8(end)[1] && end[2]
        as u8 == encode_utf8(end)[2]);
    assert(new[m - 3] == 0x2e && new[m - 2] == 0x6d && new[m - 1] == 0x64);
    if new[m - 4] == 0x2f {
        law_encoded_ascii(name, m - 4);
        let i = choose|i: int|
            0 <= i < name.len() && #[trigger] name[i] == new[m - 4] as char;
        assert(name[i] == '/');
    }
}

/// The base name of a markdown target can be the path of a wiki link, where the path that
/// the target was read from could.
proof fn lemma_name_path(old: Seq<u8>)
    requires
        extension_in(old, 0, old.len() as int),
        forall|j: int|
            0 <= j < old.len() ==> #[trigger] old[j] != NEWLINE && old[j] != RETURN && old[j]
                != HASH && old[j] != PIPE,
        forall|j: int|
            0 <= j && j + 1 < old.len() && #[trigger] old[j] == CLOSE_BRACKET ==> old[j + 1]
                != CLOSE_BRACKET,
        finishes_with(lossy_text(old), ".md"@),
    ensures
        wiki_path(encode_utf8(base_of(lossy_text(old)))),
        encode_utf8(base_of(lossy_text(old))).contains(BACKTICK) ==> old.contains(BACKTICK),
{
    let text = lossy_text(old);
    let name = base_of(text);
    let new = encode_utf8(name);
    let from = match last_slash(text) {
        Some(i) => i + 1,
        None => 0,
    };
    lemma_named(old);
    lemma_last_slash(text);
    law_dir_base(text);
    assert(name =~= text.skip(from));
    lemma_extension_of_name(name);
    assert forall|j: int| 0 <= j < new.len() implies #[trigger] new[j] != NEWLINE && new[j]
        != RETURN && new[j] != HASH && new[j] != PIPE by {
        if new[j] < 0x80 {
            lemma_end_from(old, from, j);
        }
    }
    assert forall|j: int| 0 <= j < new.len() && #[trigger] new[j] == CLOSE_BRACKET implies j + 1
        < new.len() && new[j + 1] != CLOSE_BRACKET by {
        lemma_end_from(old, from, j);
    }
    if new.contains(BACKTICK) {
        let j = choose|j: int| 0 <= j < new.len() && new[j] == BACKTICK;
        lemma_end_from(old, from, j);
        let i = choose|i: int| 0 <= i < old.len() && #[trigger] old[i] == new[j];
        assert(old[i] == BACKTICK);
    }
}

/// The base name of the target of a wiki link to a markdown file can stand in the place of
/// the whole path.
pub proof fn law_base_name_fits(a: Seq<u8>, repos: Set<Seq<char>>, k: int)
    requires
        0 <= k < links_of(a, repos).len(),
        links_of(a, repos)[k].kind is Wiki,
        finishes_with(links_of(a, repos)[k].target, ".md"@),
    ensures
        path_fits(
            a,
            links_of(a, repos)[k],
            encode_utf8(base_of(links_of(a, repos)[k].target)),
        ),
{
    let l = links_of(a, repos)[k];
    let old = a.subrange(l.path_start, l.path_end);
    lemma_links_in_place(a, repos, 0, false);
    law_link_ranges(a, repos);
    if old.len() == 0 {
        assert(vstd::utf8::valid_utf8(old));
        assert(l.target.len() == 0);
        reveal_strlit(".md");
    }
    lemma_wiki_read(a, opening(l.kind, l.path_start), repos);
    lemma_name_path(old);
}

/// The same link with another target, at another place.
pub open spec fn same_link(a: LinkView, b: LinkView, target: Seq<char>) -> bool {
    b.kind == a.kind && b.fragment == a.fragment && b.target == target
}

/// The edits that the notes about the first `k` links ask for, in order: each puts another
/// target in the place of the path.
pub open spec fn note_edits(
    links: Seq<LinkView>,
    notes: Seq<Option<Seq<char>>>,
    k: int,
) -> Seq<EditView>
    decreases k,
{
    if k <= 0 {
        Seq::empty()
    } else {
        note_edits(links, notes, k - 1) + match notes[k - 1] {
            Some(t) => seq![
                EditView {
                    start: links[k - 1].path_start,
                    end: links[k - 1].path_end,
                    bytes: encode_utf8(t),
                },
            ],
            None => Seq::empty(),
        }
    }
}

/// The targets that the notes about the links of the text ask for can stand where they
/// should.
pub open spec fn notes_fit(
    buf: Seq<u8>,
    links: Seq<LinkView>,
    notes: Seq<Option<Seq<char>>>,
) -> bool {
    first_fit(buf, links, notes, links.len() as int)
}

/// The targets that the notes about the first `k` links ask for can stand where they should.
pub open spec fn first_fit(
    buf: Seq<u8>,
    links: Seq<LinkView>,
    notes: Seq<Option<Seq<char>>>,
    k: int,
) -> bool {
    forall|j: int|
        0 <= j < k && (#[trigger] notes[j]) is Some ==> path_fits(
            buf,
            links[j],
            encode_utf8(notes[j]->0),
        )
}

/// The target that the note asks for, or else the one that the link has.
pub open spec fn noted_target(link: LinkView, note: Option<Seq<char>>) -> Seq<char> {
    match note {
        Some(t) => t,
        None => link.target,
    }
}

/// The links `after` are the same, each with the target that its note asks for.
pub open spec fn as_noted(
    links: Seq<LinkView>,
    notes: Seq<Option<Seq<char>>>,
    after: Seq<LinkView>,
) -> bool {
    &&& after.len() == links.len()
    &&& forall|j: int|
        0 <= j < links.len() ==> same_link(
            links[j],
            #[trigger] after[j],
            noted_target(links[j], notes[j]),
        )
}

/// The edits stand apart, where the first `k` links are still those of the text.
pub(crate) proof fn lemma_notes_apart(
    buf: Seq<u8>,
    repos: Set<Seq<char>>,
    links: Seq<LinkView>,
    notes: Seq<Option<Seq<char>>>,
    k: int,
)
    requires
        0 <= k <= links.len() == links_of(buf, repos).len(),
        forall|j: int| 0 <= j < k ==> #[trigger] links[j] == links_of(buf, repos)[j],
    ensures
        apart(buf, note_edits(links, notes, k)),
        forall|i: int, m: int|
            0 <= i < note_edits(links, notes, k).len() && k <= m < links.len() ==> (
            #[trigger] note_edits(links, notes, k)[i]).end < (#[trigger] links_of(
                buf,
                repos,
            )[m]).path_start,
    decreases k,
{
    let now = links_of(buf, repos);
    if k > 0 {
        lemma_notes_apart(buf, repos, links, notes, k - 1);
        law_link_ranges(buf, repos);
        let before = note_edits(links, notes, k - 1);
        let all = note_edits(links, notes, k);
        assert(links[k - 1] == now[k - 1]);
        assert forall|i: int, m: int|
            0 <= i < all.len() && k <= m < now.len() implies (#[trigger] all[i]).end < (
        #[trigger] now[m]).path_start by {
            if i < before.len() {
                assert(all[i] == before[i]);
            }
        }
        assert forall|i: int| 0 <= i < all.len() implies 0 <= (#[trigger] all[i]).start
            <= all[i].end <= buf.len() by {
            if i < before.len() {
                assert(all[i] == before[i]);
            }
        }
        assert forall|i: int, j: int| 0 <= i < j < all.len() implies (#[trigger] all[i]).end <= (
        #[trigger] all[j]).start && all[i].start < all[j].start by {
            assert(all[i] == before[i]);
            if j < before.len() {
                assert(all[j] == before[j]);
            } else {
                assert(before[i].end < now[k - 1].path_start);
            }
        }
    }
}

proof fn lemma_last_edit_first(
    buf: Seq<u8>,
    edits: Seq<EditView>,
    e: EditView,
    k: int,
    from: int,
)
    requires
        apart(buf, edits.push(e)),
        0 <= k <= edits.len(),
        0 <= from <= edits.push(e)[k].start,
    ensures
        woven(buf, edits.push(e), k, from) == woven(edited(buf, e), edits, k, from),
    decreases edits.len() - k,
{
    let all = edits.push(e);
    let after = edited(buf, e);
    assert(all[edits.len() as int] == e);
    if k == edits.len() {
        assert(woven(buf, all, k + 1, e.end) == buf.skip(e.end));
        assert(buf.subrange(from, e.start) + e.bytes + buf.skip(e.end) =~= after.skip(from));
    } else {
        assert(all[k] == edits[k]);
        assert(edits[k].end <= all[k + 1].start);
        assert(edits[k].end <= e.start);
        lemma_last_edit_first(buf, edits, e, k + 1, edits[k].end);
        assert(after.subrange(from, edits[k].start) =~= buf.subrange(from, edits[k].start));
    }
}

/// What becomes of the links when the one at `k` gets another target.
proof fn lemma_one_noted(buf: Seq<u8>, repos: Set<Seq<char>>, k: int, target: Seq<char>)
    requires
        0 <= k < links_of(buf, repos).len(),
        path_fits(buf, links_of(buf, repos)[k], encode_utf8(target)),
    ensures
        ({
            let now = links_of(buf, repos);
            let e = EditView {
                start: now[k].path_start,
                end: now[k].path_end,
                bytes: encode_utf8(target),
            };
            let then = links_of(edited(buf, e), repos);
            &&& then.len() == now.len()
            &&& forall|j: int| 0 <= j < k ==> #[trigger] then[j] == now[j]
            &&& same_link(now[k], then[k], target)
            &&& forall|j: int|
                k < j < now.len() ==> same_link(now[j], #[trigger] then[j], now[j].target)
        }),
{
    let now = links_of(buf, repos);
    let with = encode_utf8(target);
    let e = EditView { start: now[k].path_start, end: now[k].path_end, bytes: with };
    law_link_ranges(buf, repos);
    assert(edited(buf, e) == replaced(buf, now[k].path_start, now[k].path_end, with));
    law_replaced_path(buf, repos, k, with);
    law_decode_encode(target);
    assert(with.subrange(0, with.len() as int) =~= with);
}

/// The links of the text from the `k`th on are as noted, and those before it are as they
/// were.
spec fn half_noted(
    buf: Seq<u8>,
    repos: Set<Seq<char>>,
    links: Seq<LinkView>,
    notes: Seq<Option<Seq<char>>>,
    k: int,
) -> bool {
    let now = links_of(buf, repos);
    &&& 0 <= k <= links.len() == now.len()
    &&& forall|j: int| 0 <= j < k ==> #[trigger] links[j] == now[j]
    &&& forall|j: int|
        k <= j < links.len() ==> same_link(
            links[j],
            #[trigger] now[j],
            noted_target(links[j], notes[j]),
        )
}

/// One edit more.
#[verifier::rlimit(30)]
proof fn lemma_noted_step(
    buf: Seq<u8>,
    repos: Set<Seq<char>>,
    links: Seq<LinkView>,
    notes: Seq<Option<Seq<char>>>,
    k: int,
    t: Seq<char>,
)
    requires
        half_noted(buf, repos, links, notes, k + 1),
        0 <= k,
        notes[k] == Some(t),
        first_fit(buf, links, notes, k + 1),
    ensures
        ({
            let e = EditView {
                start: links[k].path_start,
                end: links[k].path_end,
                bytes: encode_utf8(t),
            };
            &&& half_noted(edited(buf, e), repos, links, notes, k)
            &&& first_fit(edited(buf, e), links, notes, k)
        }),
{
    let now = links_of(buf, repos);
    let e = EditView {
        start: links[k].path_start,
        end: links[k].path_end,
        bytes: encode_utf8(t),
    };
    let then = links_of(edited(buf, e), repos);
    assert(links[k] == now[k]);
    lemma_one_noted(buf, repos, k, t);
    law_link_ranges(buf, repos);
    assert forall|j: int| 0 <= j < k && (#[trigger] notes[j]) is Some implies path_fits(
        edited(buf, e),
        links[j],
        encode_utf8(notes[j]->0),
    ) by {
        assert(links[j] == now[j]);
        assert(edited(buf, e).subrange(links[j].path_start, links[j].path_end) =~= buf.subrange(
            links[j].path_start,
            links[j].path_end,
        ));
    }
    assert forall|j: int| k <= j < links.len() implies same_link(
        links[j],
        #[trigger] then[j],
        noted_target(links[j], notes[j]),
    ) by {
        if j > k {
            assert(same_link(links[j], now[j], noted_target(links[j], notes[j])));
        }
    }
    assert forall|j: int| 0 <= j < k implies #[trigger] links[j] == then[j] by {
        assert(links[j] == now[j]);
        assert(then[j] == now[j]);
    }
}

/// The last edit may be done first.
proof fn lemma_woven_step(
    buf: Seq<u8>,
    repos: Set<Seq<char>>,
    links: Seq<LinkView>,
    notes: Seq<Option<Seq<char>>>,
    k: int,
    t: Seq<char>,
)
    requires
        half_noted(buf, repos, links, notes, k + 1),
        0 <= k,
        notes[k] == Some(t),
    ensures
        ({
            let e = EditView {
                start: links[k].path_start,
                end: links[k].path_end,
                bytes: encode_utf8(t),
            };
            woven(buf, note_edits(links, notes, k + 1), 0, 0) == woven(
                edited(buf, e),
                note_edits(links, notes, k),
                0,
                0,
            )
        }),
{
    let e = EditView {
        start: links[k].path_start,
        end: links[k].path_end,
        bytes: encode_utf8(t),
    };
    let before = note_edits(links, notes, k);
    assert(note_edits(links, notes, k + 1) =~= before.push(e));
    lemma_notes_apart(buf, repos, links, notes, k + 1);
    lemma_last_edit_first(buf, before, e, 0, 0);
}

#[verifier::rlimit(30)]
proof fn lemma_noted(
    buf: Seq<u8>,
    repos: Set<Seq<char>>,
    links: Seq<LinkView>,
    notes: Seq<Option<Seq<char>>>,
    k: int,
)
    requires
        half_noted(buf, repos, links, notes, k),
        first_fit(buf, links, notes, k),
    ensures
        as_noted(links, notes, links_of(woven(buf, note_edits(links, notes, k), 0, 0), repos)),
    decreases k,
{
    if k == 0 {
        assert(woven(buf, note_edits(links, notes, k), 0, 0) =~= buf);
    } else {
        match notes[k - 1] {
            None => {
                assert(note_edits(links, notes, k) =~= note_edits(links, notes, k - 1));
                assert(links[k - 1] == links_of(buf, repos)[k - 1]);
                lemma_noted(buf, repos, links, notes, k - 1);
            },
            Some(t) => {
                let e = EditView {
                    start: links[k - 1].path_start,
                    end: links[k - 1].path_end,
                    bytes: encode_utf8(t),
                };
                lemma_woven_step(buf, repos, links, notes, k - 1, t);
                lemma_noted_step(buf, repos, links, notes, k - 1, t);
                lemma_noted(edited(buf, e), repos, links, notes, k - 1);
            },
        }
    }
}

/// A text in which the paths of some links were replaced, all at once, has the same links
/// with the new targets.
pub proof fn law_replaced_paths(
    buf: Seq<u8>,
    repos: Set<Seq<char>>,
    notes: Seq<Option<Seq<char>>>,
)
    requires
        notes_fit(buf, links_of(buf, repos), notes),
    ensures
        ({
            let links = links_of(buf, repos);
            let edits = note_edits(links, notes, links.len() as int);
            as_noted(links, notes, links_of(woven(buf, edits, 0, 0), repos))
        }),
{
    let links = links_of(buf, repos);
    lemma_noted(buf, repos, links, notes, links.len() as int);
}

} // verus!
