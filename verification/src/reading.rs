//! What counts as a heading and as a link: each form that a reader of markdown would write,
//! and what comes out of it.
use crate::ascii::{
    BACKTICK, CLOSE_BRACE, CLOSE_BRACKET, CLOSE_PAREN, DOT, GREATER, HASH, HYPHEN, LESS, LOWER_D,
    LOWER_H, LOWER_M, LOWER_P, LOWER_T, NEWLINE, OPEN_BRACE, OPEN_BRACKET, OPEN_PAREN, PIPE, RETURN,
    SLASH, SPACE, TAB, UNDERSCORE,
};
use crate::extract::{
    alphabetic, anchor, anchor_of, ascii_anchor, cross_repo_path, fence_at, find_byte, hashes_end,
    heading_at, headings_from, headings_of, law_ascii_anchor, lemma_find_byte, lemma_heading_at,
    lemma_link_at, lemma_repo_end, link_at, links_from, links_of, numeric, repo_byte, repo_end,
    standard_at, stray_byte, text_at, trimmed_end, web_address, wide_clusters, wide_lowercase,
    wiki_at, wiki_end, KindView, LinkView,
};
use crate::joined::{lemma_hashes_end_is, lemma_hashes_stop};
use crate::path::{extension_in, lossy_text};
use crate::reread::{lemma_found, lemma_repo_end_is, lemma_wiki_end_is, wiki_stop};
use vstd::prelude::*;
use vstd::utf8::is_ascii_chars;

verus! {

/// The line that starts at `i` is a heading: number signs up to `j`, a space there, and a text
/// up to `t`, with nothing but blanks from there to the end of the line at `e`.
pub open spec fn heading_line(buf: Seq<u8>, i: int, j: int, t: int, e: int) -> bool {
    &&& 0 <= i < j && j + 1 < t <= e <= buf.len()
    &&& forall|k: int| i <= k < j ==> #[trigger] buf[k] == HASH
    &&& buf[j] == SPACE
    &&& forall|k: int| j < k < e ==> #[trigger] buf[k] != NEWLINE && buf[k] != RETURN
    &&& e < buf.len() ==> buf[e] == NEWLINE || buf[e] == RETURN
    &&& buf[t - 1] != SPACE && buf[t - 1] != TAB
    &&& forall|k: int| t <= k < e ==> #[trigger] buf[k] == SPACE || buf[k] == TAB
}

proof fn lemma_trimmed_is(buf: Seq<u8>, start: int, end: int, t: int)
    requires
        start < t <= end,
        buf[t - 1] != SPACE && buf[t - 1] != TAB,
        forall|k: int| t <= k < end ==> #[trigger] buf[k] == SPACE || buf[k] == TAB,
    ensures
        trimmed_end(buf, start, end) == t,
    decreases end - t,
{
    if t < end {
        assert(buf[end - 1] == SPACE || buf[end - 1] == TAB);
        lemma_trimmed_is(buf, start, end - 1, t);
    }
}

proof fn lemma_trimmed(buf: Seq<u8>, start: int, end: int)
    requires
        start <= end,
    ensures
        start <= trimmed_end(buf, start, end) <= end,
        trimmed_end(buf, start, end) > start ==> ({
            let t = trimmed_end(buf, start, end);
            buf[t - 1] != SPACE && buf[t - 1] != TAB
        }),
        forall|k: int|
            trimmed_end(buf, start, end) <= k < end ==> #[trigger] buf[k] == SPACE || buf[k]
                == TAB,
    decreases end - start,
{
    if end > start && (buf[end - 1] == SPACE || buf[end - 1] == TAB) {
        lemma_trimmed(buf, start, end - 1);
    }
}

/// A reading of headings that is at a place goes by the start of every later line.
proof fn lemma_comes_by(buf: Seq<u8>, p: int, i: int)
    requires
        0 <= p <= i < buf.len(),
        i == p || buf[i - 1] == NEWLINE,
    ensures
        headings_from(buf, i).subset_of(headings_from(buf, p)),
    decreases i - p,
{
    if p < i {
        let n = buf.len() as int;
        lemma_heading_at(buf, p);
        lemma_hashes_stop(buf, p);
        let j = hashes_end(buf, p);
        assert(j <= i - 1) by {
            if j > i - 1 {
                assert(buf[i - 1] == HASH);
            }
        }
        lemma_find_byte(buf, p, n, set![NEWLINE]);
        let e = find_byte(buf, p, n, set![NEWLINE]);
        assert(e <= i - 1) by {
            if e > i - 1 {
                assert(!set![NEWLINE].contains(buf[i - 1]));
            }
        }
        if buf[j] == SPACE {
            assert(j < i - 1);
            lemma_find_byte(buf, j + 1, n, set![NEWLINE, RETURN]);
            let stop = find_byte(buf, j + 1, n, set![NEWLINE, RETURN]);
            assert(stop <= i - 1) by {
                if stop > i - 1 {
                    assert(!set![NEWLINE, RETURN].contains(buf[i - 1]));
                }
            }
        }
        let next = heading_at(buf, p).1;
        assert(p < next <= i);
        lemma_comes_by(buf, next, i);
    }
}

/// A heading on a line of its own, with any number of number signs, is found by the anchor of
/// its text. Blanks behind the text do not count.
pub proof fn law_heading_found(buf: Seq<u8>, i: int, j: int, t: int, e: int)
    requires
        heading_line(buf, i, j, t, e),
        i == 0 || buf[i - 1] == NEWLINE,
    ensures
        headings_of(buf).contains(anchor(lossy_text(buf.subrange(j + 1, t)))),
{
    assert(buf[i] == HASH);
    lemma_hashes_end_is(buf, i, j);
    let stops = set![NEWLINE, RETURN];
    assert forall|k: int| j + 1 <= k < e implies !stops.contains(#[trigger] buf[k]) by {}
    lemma_found(buf, j + 1, buf.len() as int, stops, e);
    lemma_trimmed_is(buf, j + 1, e, t);
    assert(heading_at(buf, i).0 == Some(anchor(text_at(buf, j + 1, t))));
    lemma_heading_at(buf, i);
    assert(headings_from(buf, i).contains(anchor(text_at(buf, j + 1, t))));
    lemma_comes_by(buf, 0, i);
}

/// A line of number signs and a space that starts at `i` and ends, by a carriage return, at `e`.
pub open spec fn returned(buf: Seq<u8>, i: int, j: int, e: int) -> bool {
    &&& 0 <= i < j < e < buf.len()
    &&& forall|k: int| i <= k < j ==> #[trigger] buf[k] == HASH
    &&& buf[j] == SPACE
    &&& forall|k: int| j < k < e ==> #[trigger] buf[k] != NEWLINE && buf[k] != RETURN
    &&& buf[e] == RETURN
}

/// Behind a heading, a carriage return alone also ends the line: a heading that follows it is
/// found too.
pub proof fn law_heading_behind_return(
    buf: Seq<u8>,
    i: int,
    h: int,
    b: int,
    j: int,
    t: int,
    e: int,
)
    requires
        returned(buf, i, h, b),
        i == 0 || buf[i - 1] == NEWLINE,
        heading_line(buf, b + 1, j, t, e),
    ensures
        headings_of(buf).contains(anchor(lossy_text(buf.subrange(j + 1, t)))),
{
    let n = buf.len() as int;
    let stops = set![NEWLINE, RETURN];
    assert(buf[i] == HASH);
    lemma_hashes_end_is(buf, i, h);
    assert forall|k: int| h + 1 <= k < b implies !stops.contains(#[trigger] buf[k]) by {}
    lemma_found(buf, h + 1, n, stops, b);
    assert(heading_at(buf, i).1 == b + 1);
    lemma_heading_at(buf, i);
    assert(buf[b + 1] == HASH);
    lemma_hashes_end_is(buf, b + 1, j);
    assert forall|k: int| j + 1 <= k < e implies !stops.contains(#[trigger] buf[k]) by {}
    lemma_found(buf, j + 1, n, stops, e);
    lemma_trimmed_is(buf, j + 1, e, t);
    lemma_heading_at(buf, b + 1);
    assert(headings_from(buf, b + 1).contains(anchor(text_at(buf, j + 1, t))));
    assert(headings_from(buf, b + 1).subset_of(headings_from(buf, i)));
    lemma_comes_by(buf, 0, i);
}

/// The anchor of a heading beyond ASCII is made of the grapheme clusters of its lower case.
pub proof fn law_wide_anchor(heading: Seq<char>)
    requires
        !is_ascii_chars(heading),
        !is_ascii_chars(wide_lowercase(heading)),
    ensures
        anchor(heading) == anchor_of(wide_clusters(wide_lowercase(heading))),
{
}

/// Which characters of ASCII are letters and numbers.
pub proof fn law_letters_and_numbers(c: char)
    ensures
        c <= '\u{7f}' ==> (alphabetic(c) <==> 'a' <= c <= 'z' || 'A' <= c <= 'Z'),
        c <= '\u{7f}' ==> (numeric(c) <==> '0' <= c <= '9'),
{
}

/// Every anchor is that of a heading on a line of its own.
pub proof fn law_heading_source(buf: Seq<u8>, a: Seq<char>)
    requires
        headings_of(buf).contains(a),
    ensures
        exists|i: int, j: int, t: int, e: int| #[trigger]
            heading_line(buf, i, j, t, e) && (i == 0 || buf[i - 1] == NEWLINE || buf[i - 1]
                == RETURN) && a == anchor(lossy_text(buf.subrange(j + 1, t))),
{
    lemma_heading_source(buf, 0, a);
}

proof fn lemma_heading_source(buf: Seq<u8>, p: int, a: Seq<char>)
    requires
        0 <= p,
        headings_from(buf, p).contains(a),
    ensures
        exists|i: int, j: int, t: int, e: int| #[trigger]
            heading_line(buf, i, j, t, e) && (i == 0 || buf[i - 1] == NEWLINE || buf[i - 1]
                == RETURN) && a == anchor(lossy_text(buf.subrange(j + 1, t))),
    decreases buf.len() - p,
{
    if p < buf.len() {
        let n = buf.len() as int;
        lemma_heading_at(buf, p);
        let (found, next) = heading_at(buf, p);
        if found == Some(a) {
            lemma_hashes_stop(buf, p);
            let j = hashes_end(buf, p);
            let stops = set![NEWLINE, RETURN];
            lemma_find_byte(buf, j + 1, n, stops);
            let e = find_byte(buf, j + 1, n, stops);
            lemma_trimmed(buf, j + 1, e);
            let t = trimmed_end(buf, j + 1, e);
            assert forall|k: int| j < k < e implies #[trigger] buf[k] != NEWLINE && buf[k]
                != RETURN by {
                assert(!stops.contains(buf[k]));
            }
            assert(heading_line(buf, p, j, t, e));
        } else {
            lemma_heading_source(buf, next, a);
        }
    }
}

/// The anchor of an ASCII heading grows with it: a letter adds itself in lower case, a digit,
/// a hyphen and an underscore add themselves, a space adds a hyphen, and nothing else adds
/// anything.
pub proof fn law_anchor_grows(heading: Seq<char>, c: char)
    requires
        is_ascii_chars(heading),
        c <= '\u{7f}',
    ensures
        anchor(Seq::empty()) == Seq::<char>::empty(),
        'a' <= c <= 'z' || '0' <= c <= '9' || c == '-' || c == '_' ==> anchor(heading.push(c))
            == anchor(heading).push(c),
        'A' <= c <= 'Z' ==> anchor(heading.push(c)) == anchor(heading).push(
            (c as int - 'A' as int + 'a' as int) as char,
        ),
        c == ' ' ==> anchor(heading.push(c)) == anchor(heading).push('-'),
        !('a' <= c <= 'z' || 'A' <= c <= 'Z' || '0' <= c <= '9' || c == '-' || c == '_' || c
            == ' ') ==> anchor(heading.push(c)) == anchor(heading),
{
    let all = heading.push(c);
    assert forall|i: int| 0 <= i < all.len() implies '\0' <= #[trigger] all[i] <= '\u{7f}' by {
        if i < heading.len() {
            assert(all[i] == heading[i]);
        }
    }
    law_ascii_anchor(heading);
    law_ascii_anchor(all);
    law_ascii_anchor(Seq::empty());
    assert(all.drop_last() =~= heading);
    assert(all.last() == c);
    let x = ascii_anchor(heading);
    assert forall|d: char| #[trigger] x.push(d) == x + seq![d] by {
        assert(x.push(d) =~= x + seq![d]);
    }
    assert(x + Seq::empty() =~= x);
    if 'A' <= c <= 'Z' {
        assert(x.push((c as int + 32) as char) == x + seq![(c as int + 32) as char]);
    } else {
        assert(x.push(c) == x + seq![c]);
        assert(x.push('-') == x + seq!['-']);
    }
}

/// Clusters that start with a letter, a number, a hyphen or an underscore are kept whole, a
/// space becomes a hyphen, and the others are left out.
pub proof fn law_anchor_of_clusters(parts: Seq<Seq<char>>, g: Seq<char>)
    ensures
        g == seq![' '] ==> anchor_of(parts.push(g)) == anchor_of(parts).push('-'),
        g.len() > 0 && (alphabetic(g[0]) || numeric(g[0]) || g[0]
            == '-' || g[0] == '_') ==> anchor_of(parts.push(g)) == anchor_of(parts) + g,
        g.len() > 0 && g != seq![' '] && !(alphabetic(g[0])
            || numeric(g[0]) || g[0] == '-' || g[0] == '_') ==> anchor_of(
            parts.push(g),
        ) == anchor_of(parts),
{
    assert(parts.push(g).drop_last() =~= parts);
    assert(parts.push(g).last() == g);
    let x = anchor_of(parts);
    assert(x.push('-') =~= x + seq!['-']);
    assert(x + Seq::empty() =~= x);
    if g == seq![' '] {
        assert(g[0] == ' ');
    }
}

/// Text in which no link starts gives none: reading goes on behind the byte.
pub proof fn law_ordinary_byte(buf: Seq<u8>, repos: Set<Seq<char>>, i: int)
    requires
        0 <= i < buf.len(),
        buf[i] != BACKTICK,
        !(i + 1 < buf.len() && buf[i] == OPEN_BRACKET && buf[i + 1] == OPEN_BRACKET),
        !(i + 1 < buf.len() && buf[i] == CLOSE_BRACKET && buf[i + 1] == OPEN_PAREN),
    ensures
        links_from(buf, repos, i, false) == links_from(buf, repos, i + 1, false),
{
    assert(link_at(buf, i, repos) == (None::<LinkView>, i + 1));
    assert(Seq::<LinkView>::empty() + links_from(buf, repos, i + 1, false) =~= links_from(
        buf,
        repos,
        i + 1,
        false,
    ));
}

/// The links of a text are those from its start on, and there are none from its end on.
pub proof fn law_whole_text(buf: Seq<u8>, repos: Set<Seq<char>>)
    ensures
        buf.len() > 4 ==> links_of(buf, repos) == links_from(buf, repos, 0, false),
        links_from(buf, repos, buf.len() as int, false) == Seq::<LinkView>::empty(),
        links_from(buf, repos, buf.len() as int, true) == Seq::<LinkView>::empty(),
{
}

/// The text from `from` on up to `to`; nothing when it is empty.
pub open spec fn part(buf: Seq<u8>, from: int, to: int) -> Option<Seq<char>> {
    if from < to {
        Some(lossy_text(buf.subrange(from, to)))
    } else {
        None
    }
}

/// The inside of the brackets at `i` goes up to `e`, where they are closed on the same line.
pub open spec fn bracketed(buf: Seq<u8>, i: int, e: int) -> bool {
    &&& 0 <= i && i + 2 < e && e + 1 < buf.len()
    &&& buf[i] == OPEN_BRACKET && buf[i + 1] == OPEN_BRACKET
    &&& buf[e] == CLOSE_BRACKET && buf[e + 1] == CLOSE_BRACKET
    &&& forall|k: int|
        i + 2 <= k < e ==> #[trigger] buf[k] != NEWLINE && buf[k] != RETURN && !(buf[k]
            == CLOSE_BRACKET && buf[k + 1] == CLOSE_BRACKET)
}

proof fn lemma_bracketed(buf: Seq<u8>, i: int, e: int)
    requires
        bracketed(buf, i, e),
    ensures
        wiki_end(buf, i + 2) == e,
{
    assert forall|j: int| i + 2 <= j < e implies !#[trigger] wiki_stop(buf, j) by {
        assert(buf[j] != NEWLINE);
    }
    lemma_wiki_end_is(buf, i + 2, e);
}

/// A wiki link `[[path]]`, `[[path#fragment]]`, `[[path|alias]]` or
/// `[[path#fragment|alias]]`: the path goes up to `m`, the fragment up to `f`. It is a link
/// when the path has an extension, or is empty and there is a fragment. Reading goes on
/// behind it.
pub proof fn law_wiki_link(
    buf: Seq<u8>,
    repos: Set<Seq<char>>,
    i: int,
    m: int,
    f: int,
    e: int,
)
    requires
        bracketed(buf, i, e),
        i + 2 <= m <= f <= e,
        forall|k: int| i + 2 <= k < m ==> #[trigger] buf[k] != HASH && buf[k] != PIPE,
        m < e ==> buf[m] == HASH || buf[m] == PIPE,
        m < e && buf[m] == HASH ==> m < f,
        m == e || buf[m] == PIPE ==> f == m,
        forall|k: int| m < k < f ==> #[trigger] buf[k] != PIPE,
        m < f < e ==> buf[f] == PIPE,
        !fence_at(buf, i),
    ensures
        ({
            let link = LinkView {
                kind: KindView::Wiki,
                target: lossy_text(buf.subrange(i + 2, m)),
                fragment: part(buf, m + 1, f),
                path_start: i + 2,
                path_end: m,
            };
            let rest = links_from(buf, repos, e + 2, false);
            links_from(buf, repos, i, false) == if extension_in(buf, i + 2, m) || (m == i + 2
                && m + 1 < f) {
                seq![link] + rest
            } else {
                rest
            }
        }),
{
    lemma_bracketed(buf, i, e);
    let start = i + 2;
    let stops = set![HASH, PIPE];
    assert forall|k: int| start <= k < m implies !stops.contains(#[trigger] buf[k]) by {}
    lemma_found(buf, start, e, stops, m);
    if m < e && buf[m] == HASH {
        assert forall|k: int| m + 1 <= k < f implies !set![PIPE].contains(#[trigger] buf[k]) by {}
        lemma_found(buf, m + 1, e, set![PIPE], f);
    }
    lemma_link_at(buf, i, repos);
    let rest = links_from(buf, repos, e + 2, false);
    if m == start {
        assert(buf.subrange(start, m) =~= Seq::empty());
        assert(vstd::utf8::valid_utf8(Seq::<u8>::empty()));
        assert(lossy_text(Seq::<u8>::empty()) =~= Seq::<char>::empty());
    }
    assert(Seq::<LinkView>::empty() + rest =~= rest);
}

/// Brackets that are not closed on their line, or hold nothing, are no link.
pub proof fn law_no_wiki_link(buf: Seq<u8>, repos: Set<Seq<char>>, i: int, e: int)
    requires
        0 <= i && i + 2 <= e < buf.len(),
        buf[i] == OPEN_BRACKET && buf[i + 1] == OPEN_BRACKET,
        buf[e] == NEWLINE || buf[e] == RETURN,
        forall|k: int|
            i + 2 <= k < e ==> #[trigger] buf[k] != NEWLINE && buf[k] != RETURN && !(buf[k]
                == CLOSE_BRACKET && buf[k + 1] == CLOSE_BRACKET),
    ensures
        e + 1 < buf.len() ==> links_from(buf, repos, i, false) == links_from(
            buf,
            repos,
            e + 1,
            false,
        ),
        e + 1 == buf.len() ==> links_from(buf, repos, i, false) == Seq::<LinkView>::empty(),
{
    let n = buf.len() as int;
    if e + 1 < n {
        assert forall|j: int| i + 2 <= j < e implies !#[trigger] wiki_stop(buf, j) by {
            assert(buf[j] != NEWLINE);
        }
        lemma_wiki_end_is(buf, i + 2, e);
        assert(link_at(buf, i, repos) == (None::<LinkView>, e + 1));
        assert(Seq::<LinkView>::empty() + links_from(buf, repos, e + 1, false) =~= links_from(
            buf,
            repos,
            e + 1,
            false,
        ));
    } else {
        assert forall|j: int| i + 2 <= j < e implies !#[trigger] wiki_stop(buf, j) by {
            assert(buf[j] != NEWLINE);
        }
        lemma_wiki_end_is(buf, i + 2, e);
        assert(link_at(buf, i, repos) == (None::<LinkView>, e + 1));
        assert(links_from(buf, repos, e + 1, false) =~= Seq::<LinkView>::empty());
        assert(Seq::<LinkView>::empty() + links_from(buf, repos, e + 1, false)
            =~= Seq::<LinkView>::empty());
    }
}

/// A standard link `[text](path)` or `[text](path#fragment)`, seen from its `](` at `i`: the
/// path goes up to `m`, the link up to `e`. It is a link when the path has an extension and
/// is no web address. Reading goes on behind it.
pub proof fn law_standard_link(buf: Seq<u8>, repos: Set<Seq<char>>, i: int, m: int, e: int)
    requires
        0 <= i && i + 2 <= m <= e < buf.len(),
        buf[i] == CLOSE_BRACKET && buf[i + 1] == OPEN_PAREN && buf[e] == CLOSE_PAREN,
        forall|k: int|
            i + 2 <= k < e ==> #[trigger] buf[k] != CLOSE_PAREN && buf[k] != NEWLINE && buf[k]
                != RETURN,
        forall|k: int| i + 2 <= k < m ==> #[trigger] buf[k] != HASH,
        m < e ==> buf[m] == HASH,
    ensures
        ({
            let link = LinkView {
                kind: KindView::Standard,
                target: lossy_text(buf.subrange(i + 2, m)),
                fragment: part(buf, m + 1, e),
                path_start: i + 2,
                path_end: m,
            };
            let rest = links_from(buf, repos, e + 1, false);
            let web = m - (i + 2) > 7 && buf.subrange(i + 2, i + 6) == seq![
                LOWER_H,
                LOWER_T,
                LOWER_T,
                LOWER_P,
            ];
            links_from(buf, repos, i, false) == if extension_in(buf, i + 2, m) && !web {
                seq![link] + rest
            } else {
                rest
            }
        }),
{
    let start = i + 2;
    let n = buf.len() as int;
    let stops = set![CLOSE_PAREN, NEWLINE, RETURN];
    assert forall|k: int| start <= k < e implies !stops.contains(#[trigger] buf[k]) by {}
    lemma_found(buf, start, n, stops, e);
    assert forall|k: int| start <= k < m implies !set![HASH].contains(#[trigger] buf[k]) by {}
    lemma_found(buf, start, e, set![HASH], m);
    lemma_link_at(buf, i, repos);
    let rest = links_from(buf, repos, e + 1, false);
    assert(Seq::<LinkView>::empty() + rest =~= rest);
    if m - start > 7 {
        let four = buf.subrange(start, start + 4);
        assert(four[0] == buf[start] && four[1] == buf[start + 1] && four[2] == buf[start + 2]
            && four[3] == buf[start + 3]);
        let http = seq![LOWER_H, LOWER_T, LOWER_T, LOWER_P];
        if web_address(buf, start, m) {
            assert(four =~= http);
        } else if four == http {
            assert(http[0] == LOWER_H && http[1] == LOWER_T && http[2] == LOWER_T && http[3]
                == LOWER_P);
        }
    }
}

/// A standard link that is not closed on its line is none.
pub proof fn law_no_standard_link(buf: Seq<u8>, repos: Set<Seq<char>>, i: int, e: int)
    requires
        0 <= i && i + 2 <= e < buf.len(),
        buf[i] == CLOSE_BRACKET && buf[i + 1] == OPEN_PAREN,
        buf[e] == NEWLINE || buf[e] == RETURN,
        forall|k: int|
            i + 2 <= k < e ==> #[trigger] buf[k] != CLOSE_PAREN && buf[k] != NEWLINE && buf[k]
                != RETURN,
    ensures
        links_from(buf, repos, i, false) == links_from(buf, repos, e + 1, false),
{
    let start = i + 2;
    let stops = set![CLOSE_PAREN, NEWLINE, RETURN];
    assert forall|k: int| start <= k < e implies !stops.contains(#[trigger] buf[k]) by {}
    lemma_found(buf, start, buf.len() as int, stops, e);
    let rest = links_from(buf, repos, e + 1, false);
    assert(Seq::<LinkView>::empty() + rest =~= rest);
}

/// A byte of a repository name: a letter, a digit, a hyphen or an underscore.
pub open spec fn name_byte(b: u8) -> bool {
    (0x30 <= b <= 0x39) || (0x41 <= b <= 0x5a) || (0x61 <= b <= 0x7a) || b == HYPHEN || b
        == UNDERSCORE
}

/// The bytes `from..to` are the path of a markdown file of another repository: nothing that
/// is relative by a leading dot, and without blanks, angle brackets and braces.
pub open spec fn far_path(buf: Seq<u8>, from: int, to: int) -> bool {
    &&& from + 4 <= to
    &&& buf[to - 3] == DOT && buf[to - 2] == LOWER_M && buf[to - 1] == LOWER_D
    &&& !(buf[from] == DOT && buf[from + 1] == SLASH)
    &&& !(buf[from] == DOT && buf[from + 1] == DOT && buf[from + 2] == SLASH)
    &&& forall|k: int|
        from <= k < to ==> #[trigger] buf[k] != SPACE && buf[k] != TAB && buf[k] != LESS && buf[k]
            != GREATER && buf[k] != OPEN_BRACE && buf[k] != CLOSE_BRACE
}

/// The code span that starts with the backtick at `i` goes up to the backtick at `e`, on the
/// same line, and is not empty.
pub open spec fn code_span(buf: Seq<u8>, i: int, e: int) -> bool {
    &&& 0 <= i && i + 1 < e < buf.len()
    &&& buf[i] == BACKTICK && buf[e] == BACKTICK
    &&& forall|k: int|
        i < k < e ==> #[trigger] buf[k] != BACKTICK && buf[k] != NEWLINE && buf[k] != RETURN
}

proof fn lemma_code_span(buf: Seq<u8>, i: int, e: int)
    requires
        code_span(buf, i, e),
    ensures
        find_byte(buf, i + 1, buf.len() as int, set![BACKTICK, NEWLINE, RETURN]) == e,
{
    let stops = set![BACKTICK, NEWLINE, RETURN];
    assert forall|k: int| i + 1 <= k < e implies !stops.contains(#[trigger] buf[k]) by {}
    lemma_found(buf, i + 1, buf.len() as int, stops, e);
}

/// A reference into another repository, a code span with the path and maybe a fragment,
/// and the name of the repository in parentheses behind it: the path goes up to `m`, the
/// span up to `e`, the name up to `r`. It is a link when the repository is known and the path
/// is that of a markdown file. Reading goes on behind it.
pub proof fn law_cross_repo_link(
    buf: Seq<u8>,
    repos: Set<Seq<char>>,
    i: int,
    m: int,
    e: int,
    r: int,
)
    requires
        code_span(buf, i, e),
        !fence_at(buf, i),
        i + 1 <= m <= e,
        forall|k: int| i < k < m ==> #[trigger] buf[k] != HASH,
        m < e ==> buf[m] == HASH,
        e + 3 < r < buf.len(),
        buf[e + 1] == SPACE && buf[e + 2] == OPEN_PAREN && buf[r] == CLOSE_PAREN,
        forall|k: int| e + 3 <= k < r ==> name_byte(#[trigger] buf[k]),
    ensures
        ({
            let name = lossy_text(buf.subrange(e + 3, r));
            let link = LinkView {
                kind: KindView::CrossRepo(name),
                target: lossy_text(buf.subrange(i + 1, m)),
                fragment: part(buf, m + 1, e),
                path_start: i + 1,
                path_end: m,
            };
            let rest = links_from(buf, repos, r + 1, false);
            links_from(buf, repos, i, false) == if repos.contains(name) && far_path(
                buf,
                i + 1,
                m,
            ) {
                seq![link] + rest
            } else {
                rest
            }
        }),
{
    lemma_code_span(buf, i, e);
    assert forall|k: int| e + 3 <= k < r implies repo_byte(#[trigger] buf[k]) by {
        assert(name_byte(buf[k]));
    }
    lemma_repo_end_is(buf, e + 3, r);
    assert forall|k: int| i + 1 <= k < m implies !set![HASH].contains(#[trigger] buf[k]) by {}
    lemma_found(buf, i + 1, e, set![HASH], m);
    lemma_link_at(buf, i, repos);
    let rest = links_from(buf, repos, r + 1, false);
    assert(Seq::<LinkView>::empty() + rest =~= rest);
    assert(far_path(buf, i + 1, m) == cross_repo_path(buf, i + 1, m)) by {
        if cross_repo_path(buf, i + 1, m) {
            assert forall|k: int| i + 1 <= k < m implies #[trigger] buf[k] != SPACE && buf[k]
                != TAB && buf[k] != LESS && buf[k] != GREATER && buf[k] != OPEN_BRACE && buf[k]
                != CLOSE_BRACE by {
                assert(!stray_byte(buf[k]));
            }
        }
        if far_path(buf, i + 1, m) {
            assert forall|k: int| i + 1 <= k < m implies !stray_byte(#[trigger] buf[k]) by {
                assert(buf[k] != SPACE);
            }
        }
    }
}

/// A code span without a repository behind it is no link, and nothing in it is.
pub proof fn law_code_span(buf: Seq<u8>, repos: Set<Seq<char>>, i: int, e: int)
    requires
        code_span(buf, i, e),
        !fence_at(buf, i),
        e + 1 >= buf.len() || buf[e + 1] != SPACE || e + 2 >= buf.len() || buf[e + 2] != OPEN_PAREN,
    ensures
        links_from(buf, repos, i, false) == links_from(buf, repos, e + 1, false),
{
    lemma_code_span(buf, i, e);
    let rest = links_from(buf, repos, e + 1, false);
    assert(Seq::<LinkView>::empty() + rest =~= rest);
    if e + 3 < buf.len() {
        lemma_repo_end(buf, e + 3);
    }
}

/// A line that starts with three backticks opens a fence, or closes the one that is open, and
/// is read over. Reading goes on with the next line.
pub proof fn law_fence_line(buf: Seq<u8>, repos: Set<Seq<char>>, i: int, e: int, open: bool)
    requires
        0 <= i && i + 3 <= e < buf.len(),
        i == 0 || buf[i - 1] == NEWLINE,
        buf[i] == BACKTICK && buf[i + 1] == BACKTICK && buf[i + 2] == BACKTICK,
        buf[e] == NEWLINE,
        forall|k: int| i <= k < e ==> #[trigger] buf[k] != NEWLINE,
    ensures
        links_from(buf, repos, i, open) == links_from(buf, repos, e + 1, !open),
{
    assert forall|k: int| i <= k < e implies !set![NEWLINE].contains(#[trigger] buf[k]) by {}
    lemma_found(buf, i, buf.len() as int, set![NEWLINE], e);
}

/// While a fence is open, no byte but those of a fence line matters.
pub proof fn law_inside_fence(buf: Seq<u8>, repos: Set<Seq<char>>, i: int)
    requires
        0 <= i < buf.len(),
        !((i == 0 || buf[i - 1] == NEWLINE) && i + 2 < buf.len() && buf[i] == BACKTICK && buf[i + 1]
            == BACKTICK && buf[i + 2] == BACKTICK),
    ensures
        links_from(buf, repos, i, true) == links_from(buf, repos, i + 1, true),
{
}

/// A path has an extension when its last part has a dot with something before and behind it.
pub proof fn law_extension(dir: Seq<u8>, name: Seq<u8>, ext: Seq<u8>)
    requires
        dir.len() == 0 || dir.last() == SLASH,
        !name.contains(SLASH),
        !ext.contains(SLASH),
    ensures
        name.len() > 0 && ext.len() > 0 ==> extension_in(
            dir + name + seq![DOT] + ext,
            0,
            (dir + name + seq![DOT] + ext).len() as int,
        ),
        !name.contains(DOT) ==> !extension_in(dir + name, 0, (dir + name).len() as int),
        !name.contains(DOT) ==> !extension_in(
            dir + name + seq![DOT],
            0,
            (dir + name + seq![DOT]).len() as int,
        ),
        !name.contains(DOT) ==> !extension_in(
            dir + seq![DOT] + name,
            0,
            (dir + seq![DOT] + name).len() as int,
        ),
{
    if name.len() > 0 && ext.len() > 0 {
        let s = dir + name + seq![DOT] + ext;
        let k = (dir + name).len() as int;
        assert(s[k] == DOT);
        assert(s[k - 1] == name.last());
        assert(name.last() != SLASH) by {
            assert(name[name.len() - 1] == name.last());
        }
        assert forall|j: int| k < j < s.len() implies s[j] != 0x2f by {
            assert(s[j] == ext[j - k - 1]);
        }
    }
    if !name.contains(DOT) {
        let d = dir.len() as int;
        lemma_no_extension(dir + name, d, name.len() as int, dir);
        lemma_no_extension(dir + name + seq![DOT], d, name.len() as int, dir);
        let t = dir + seq![DOT] + name;
        if extension_in(t, 0, t.len() as int) {
            let k = choose|k: int|
                0 < k < t.len() - 1 && #[trigger] t[k] == 0x2e && t[k - 1] != 0x2f && (forall|
                    j: int,
                |
                    k < j < t.len() ==> t[j] != 0x2f);
            if k > d {
                assert(name[k - d - 1] == DOT);
            } else if k == d {
                assert(t[d - 1] == dir.last());
            } else {
                assert(t[d - 1] == SLASH);
            }
        }
    }
}

proof fn lemma_no_extension(s: Seq<u8>, d: int, n: int, dir: Seq<u8>)
    requires
        d == dir.len(),
        dir.len() == 0 || dir.last() == SLASH,
        d + n <= s.len() <= d + n + 1,
        n >= 0,
        forall|k: int| 0 <= k < d ==> #[trigger] s[k] == dir[k],
        forall|k: int| d <= k < d + n ==> #[trigger] s[k] != DOT,
    ensures
        !extension_in(s, 0, s.len() as int),
{
    if extension_in(s, 0, s.len() as int) {
        let k = choose|k: int|
            0 < k < s.len() - 1 && #[trigger] s[k] == 0x2e && s[k - 1] != 0x2f && (forall|j: int|
                k < j < s.len() ==> s[j] != 0x2f);
        if k < d {
            assert(s[d - 1] == dir[d - 1]);
            assert(k < d - 1 || s[k] == SLASH);
        } else {
            assert(s[k] != DOT);
        }
    }
}

/// Whether a path has an extension depends on its own bytes alone.
pub proof fn law_extension_of_part(buf: Seq<u8>, from: int, to: int)
    requires
        0 <= from <= to <= buf.len(),
    ensures
        extension_in(buf, from, to) == extension_in(buf.subrange(from, to), 0, to - from),
{
    let s = buf.subrange(from, to);
    if extension_in(buf, from, to) {
        let k = choose|k: int|
            from < k < to - 1 && #[trigger] buf[k] == 0x2e && buf[k - 1] != 0x2f && (forall|
                j: int,
            |
                k < j < to ==> buf[j] != 0x2f);
        assert(s[k - from] == 0x2e && s[k - from - 1] != 0x2f);
        assert forall|j: int| k - from < j < to - from implies s[j] != 0x2f by {
            assert(s[j] == buf[j + from]);
        }
    }
    if extension_in(s, 0, to - from) {
        let k = choose|k: int|
            0 < k < to - from - 1 && #[trigger] s[k] == 0x2e && s[k - 1] != 0x2f && (forall|
                j: int,
            |
                k < j < to - from ==> s[j] != 0x2f);
        assert(buf[k + from] == 0x2e && buf[k + from - 1] != 0x2f);
        assert forall|j: int| k + from < j < to implies buf[j] != 0x2f by {
            assert(s[j - from] == buf[j]);
        }
    }
}

/// A text of four bytes or fewer has no link.
pub proof fn law_short_text(buf: Seq<u8>, repos: Set<Seq<char>>)
    requires
        buf.len() <= 4,
    ensures
        links_of(buf, repos) == Seq::<LinkView>::empty(),
{
}

/// Brackets with nothing in them are no link. Reading goes on with the last of them.
pub proof fn law_empty_wiki_link(buf: Seq<u8>, repos: Set<Seq<char>>, i: int)
    requires
        0 <= i && i + 3 < buf.len(),
        buf[i] == OPEN_BRACKET && buf[i + 1] == OPEN_BRACKET,
        buf[i + 2] == CLOSE_BRACKET && buf[i + 3] == CLOSE_BRACKET,
    ensures
        links_from(buf, repos, i, false) == links_from(buf, repos, i + 3, false),
{
    assert(wiki_end(buf, i + 2) == i + 2);
    let rest = links_from(buf, repos, i + 3, false);
    assert(Seq::<LinkView>::empty() + rest =~= rest);
}

/// Brackets and parentheses that are not closed before the end of the text are no link, and
/// there is none behind them.
pub proof fn law_never_closed(buf: Seq<u8>, repos: Set<Seq<char>>, i: int)
    requires
        0 <= i && i + 2 <= buf.len(),
        forall|k: int| i <= k < buf.len() ==> #[trigger] buf[k] != NEWLINE && buf[k] != RETURN,
    ensures
        buf[i] == OPEN_BRACKET && buf[i + 1] == OPEN_BRACKET && (forall|k: int|
            i + 2 <= k < buf.len() - 1 ==> !(#[trigger] buf[k] == CLOSE_BRACKET && buf[k + 1]
                == CLOSE_BRACKET)) ==> links_from(buf, repos, i, false).len() == 0,
        buf[i] == CLOSE_BRACKET && buf[i + 1] == OPEN_PAREN && (forall|k: int|
            i + 2 <= k < buf.len() ==> #[trigger] buf[k] != CLOSE_PAREN) ==> links_from(
            buf,
            repos,
            i,
            false,
        ).len() == 0,
{
    let n = buf.len() as int;
    if buf[i] == OPEN_BRACKET && buf[i + 1] == OPEN_BRACKET && (forall|k: int|
        i + 2 <= k < n - 1 ==> !(#[trigger] buf[k] == CLOSE_BRACKET && buf[k + 1]
            == CLOSE_BRACKET)) {
        lemma_link_at(buf, i, repos);
        if i + 2 < n {
            assert forall|j: int| i + 2 <= j < n - 1 implies !#[trigger] wiki_stop(buf, j) by {
                assert(buf[j] != NEWLINE);
            }
            lemma_wiki_end_is(buf, i + 2, n - 1);
        } else {
            assert(wiki_end(buf, i + 2) == i + 2);
        }
        let next = wiki_at(buf, i).1;
        assert(next >= n);
        assert(links_from(buf, repos, next, false) =~= Seq::<LinkView>::empty());
    }
    if buf[i] == CLOSE_BRACKET && buf[i + 1] == OPEN_PAREN && (forall|k: int|
        i + 2 <= k < n ==> #[trigger] buf[k] != CLOSE_PAREN) {
        let stops = set![CLOSE_PAREN, NEWLINE, RETURN];
        lemma_find_byte(buf, i + 2, n, stops);
        let end = find_byte(buf, i + 2, n, stops);
        if end < n {
            assert(buf[end] != NEWLINE && buf[end] != CLOSE_PAREN);
        }
        assert(standard_at(buf, i) == (None::<LinkView>, n + 1));
        assert(links_from(buf, repos, n + 1, false) =~= Seq::<LinkView>::empty());
    }
}

/// A backtick that starts no code span, as the line ends before the next or the next stands
/// right behind it, is read over.
pub proof fn law_lone_backtick(buf: Seq<u8>, repos: Set<Seq<char>>, i: int, e: int)
    requires
        0 <= i < e <= buf.len(),
        buf[i] == BACKTICK,
        !fence_at(buf, i),
        forall|k: int|
            i < k < e ==> #[trigger] buf[k] != BACKTICK && buf[k] != NEWLINE && buf[k] != RETURN,
        e == buf.len() || buf[e] == NEWLINE || buf[e] == RETURN || (e == i + 1 && buf[e]
            == BACKTICK),
    ensures
        links_from(buf, repos, i, false) == links_from(buf, repos, i + 1, false),
{
    let stops = set![BACKTICK, NEWLINE, RETURN];
    assert forall|k: int| i + 1 <= k < e implies !stops.contains(#[trigger] buf[k]) by {}
    lemma_find_byte(buf, i + 1, buf.len() as int, stops);
    let end = find_byte(buf, i + 1, buf.len() as int, stops);
    assert(end == e) by {
        if end < e {
            assert(buf[end] != BACKTICK);
        }
        if e < end {
            assert(!stops.contains(buf[e]));
        }
    }
    let rest = links_from(buf, repos, i + 1, false);
    assert(Seq::<LinkView>::empty() + rest =~= rest);
}

/// A code span with something in parentheses behind it that is no name of a repository, as it
/// is empty, holds another byte or is not closed, is no link. Reading goes on behind the span.
pub proof fn law_not_a_repo(buf: Seq<u8>, repos: Set<Seq<char>>, i: int, e: int, r: int)
    requires
        code_span(buf, i, e),
        !fence_at(buf, i),
        e + 3 <= r <= buf.len(),
        buf[e + 1] == SPACE && buf[e + 2] == OPEN_PAREN,
        forall|k: int| e + 3 <= k < r ==> name_byte(#[trigger] buf[k]),
        r == buf.len() || (!name_byte(buf[r]) && (r == e + 3 || buf[r] != CLOSE_PAREN)),
    ensures
        links_from(buf, repos, i, false) == links_from(buf, repos, e + 1, false),
{
    lemma_code_span(buf, i, e);
    let rest = links_from(buf, repos, e + 1, false);
    assert(Seq::<LinkView>::empty() + rest =~= rest);
    lemma_name_ends(buf, e + 3, r);
}

proof fn lemma_name_ends(buf: Seq<u8>, j: int, r: int)
    requires
        0 <= j <= r <= buf.len(),
        forall|k: int| j <= k < r ==> name_byte(#[trigger] buf[k]),
        r == buf.len() || !name_byte(buf[r]),
    ensures
        repo_end(buf, j) == r,
    decreases r - j,
{
    if j < r {
        assert(name_byte(buf[j]));
        lemma_name_ends(buf, j + 1, r);
    }
}

/// A fence line that ends with the text ends the reading.
pub proof fn law_last_fence_line(buf: Seq<u8>, repos: Set<Seq<char>>, i: int, open: bool)
    requires
        0 <= i && i + 3 <= buf.len(),
        i == 0 || buf[i - 1] == NEWLINE,
        buf[i] == BACKTICK && buf[i + 1] == BACKTICK && buf[i + 2] == BACKTICK,
        forall|k: int| i <= k < buf.len() ==> #[trigger] buf[k] != NEWLINE,
    ensures
        links_from(buf, repos, i, open) == Seq::<LinkView>::empty(),
{
    let n = buf.len() as int;
    lemma_find_byte(buf, i, n, set![NEWLINE]);
    let end = find_byte(buf, i, n, set![NEWLINE]);
    if end < n {
        assert(buf[end] != NEWLINE);
    }
    assert(links_from(buf, repos, n, !open) =~= Seq::<LinkView>::empty());
}

} // verus!
