//! The headings of two texts, one behind the other.
use crate::ascii::{HASH, NEWLINE, RETURN, SPACE};
use crate::extract::{
    find_byte, hashes_end, heading_at, headings_from, headings_of, lemma_find_byte,
    lemma_heading_at, trimmed_end,
};
use crate::reread::{alike, lemma_find_alike, lemma_found, lemma_text_alike};
use vstd::prelude::*;

verus! {

pub(crate) proof fn lemma_hashes_end_is(buf: Seq<u8>, i: int, e: int)
    requires
        0 <= i <= e <= buf.len(),
        e < buf.len() ==> buf[e] != HASH,
        forall|k: int| i <= k < e ==> #[trigger] buf[k] == HASH,
    ensures
        hashes_end(buf, i) == e,
    decreases e - i,
{
    if i < e {
        assert(buf[i] == HASH);
        lemma_hashes_end_is(buf, i + 1, e);
    }
}

pub(crate) proof fn lemma_hashes_stop(buf: Seq<u8>, i: int)
    requires
        0 <= i <= buf.len(),
    ensures
        i <= hashes_end(buf, i) <= buf.len(),
        hashes_end(buf, i) < buf.len() ==> buf[hashes_end(buf, i)] != HASH,
        forall|k: int| i <= k < hashes_end(buf, i) ==> #[trigger] buf[k] == HASH,
    decreases buf.len() - i,
{
    if i < buf.len() && buf[i] == HASH {
        lemma_hashes_stop(buf, i + 1);
    }
}

proof fn lemma_trimmed_alike(a: Seq<u8>, b: Seq<u8>, d: int, start: int, end: int)
    requires
        forall|p: int| start <= p < end ==> #[trigger] a[p] == b[p + d],
    ensures
        trimmed_end(b, start + d, end + d) == trimmed_end(a, start, end) + d,
        end >= start ==> start <= trimmed_end(a, start, end) <= end,
    decreases end - start,
{
    if end > start {
        assert(a[end - 1] == b[end - 1 + d]);
        lemma_trimmed_alike(a, b, d, start, end - 1);
    }
}

/// In the second text, the headings are those that it has by itself.
proof fn lemma_second(a: Seq<u8>, b: Seq<u8>, i: int)
    requires
        0 <= i <= b.len(),
        i == 0 && a.len() > 0 ==> a.last() == NEWLINE,
    ensures
        headings_from(a + b, a.len() + i) == headings_from(b, i),
    decreases b.len() - i,
{
    let w = a + b;
    let d = a.len() as int;
    let n = b.len() as int;
    if i < n {
        assert(alike(b, w, 0, n, d));
        assert(b[i] == w[i + d]);
        if i > 0 {
            assert(b[i - 1] == w[i - 1 + d]);
        } else if d > 0 {
            assert(w[d - 1] == a.last());
        }
        lemma_heading_at(b, i);
        lemma_find_alike(b, w, 0, n, d, i, n, set![NEWLINE]);
        lemma_hashes_stop(b, i);
        let j = hashes_end(b, i);
        if j < n {
            assert(b[j] == w[j + d]);
            let stops = set![NEWLINE, RETURN];
            lemma_find_alike(b, w, 0, n, d, j + 1, n, stops);
            let stop = find_byte(b, j + 1, n, stops);
            assert forall|p: int| j + 1 <= p < stop implies #[trigger] b[p] == w[p + d] by {}
            lemma_trimmed_alike(b, w, d, j + 1, stop);
            lemma_text_alike(b, w, 0, n, d, j + 1, trimmed_end(b, j + 1, stop));
        }
        assert forall|k: int| i + d <= k < j + d implies #[trigger] w[k] == HASH by {
            assert(b[k - d] == w[k - d + d]);
        }
        lemma_hashes_end_is(w, i + d, j + d);
        assert(heading_at(w, i + d) == (heading_at(b, i).0, heading_at(b, i).1 + d));
        lemma_second(a, b, heading_at(b, i).1);
    }
}

/// From a place in the first text on, the headings are those of the rest of it and of the
/// second.
proof fn lemma_first(a: Seq<u8>, b: Seq<u8>, i: int)
    requires
        0 <= i <= a.len(),
        a.len() > 0,
        a.last() == NEWLINE,
    ensures
        headings_from(a + b, i) == headings_from(a, i).union(headings_of(b)),
    decreases a.len() - i,
{
    let w = a + b;
    let n = a.len() as int;
    if i == n {
        lemma_second(a, b, 0);
        assert(Set::<Seq<char>>::empty().union(headings_of(b)) =~= headings_of(b));
    } else {
        assert(a[n - 1] == NEWLINE);
        assert forall|p: int| 0 <= p < n implies #[trigger] a[p] == w[p] by {}
        lemma_heading_at(a, i);
        lemma_until(a, b, i, set![NEWLINE]);
        lemma_hashes_stop(a, i);
        let j = hashes_end(a, i);
        assert(j < n);
        lemma_hashes_end_is(w, i, j);
        if a[j] == SPACE {
            let stops = set![NEWLINE, RETURN];
            lemma_until(a, b, j + 1, stops);
            let stop = find_byte(a, j + 1, n, stops);
            assert forall|p: int| j + 1 <= p < stop implies #[trigger] a[p] == w[p + 0] by {}
            lemma_trimmed_alike(a, w, 0, j + 1, stop);
            let end = trimmed_end(a, j + 1, stop);
            assert(w.subrange(j + 1, end) =~= a.subrange(j + 1, end));
        }
        assert(heading_at(w, i) == heading_at(a, i));
        lemma_first(a, b, heading_at(a, i).1);
        assert(headings_from(w, i) =~= headings_from(a, i).union(headings_of(b)));
    }
}

/// A search that a line break ends finds the same place in both.
proof fn lemma_until(a: Seq<u8>, b: Seq<u8>, i: int, stops: Set<u8>)
    requires
        0 <= i < a.len(),
        a.last() == NEWLINE,
        stops.contains(NEWLINE),
    ensures
        find_byte(a + b, i, (a + b).len() as int, stops) == find_byte(a, i, a.len() as int, stops),
        i <= find_byte(a, i, a.len() as int, stops) < a.len(),
{
    let w = a + b;
    let n = a.len() as int;
    lemma_find_byte(a, i, n, stops);
    let e = find_byte(a, i, n, stops);
    if e == n {
        assert(!stops.contains(a[n - 1]));
    }
    assert forall|j: int| i <= j < e implies !stops.contains(#[trigger] w[j]) by {
        assert(w[j] == a[j]);
        assert(!stops.contains(a[j]));
    }
    lemma_found(w, i, w.len() as int, stops, e);
}

/// The headings of two texts, one behind the other, are those of both, as long as the first
/// ends with its last line.
pub proof fn law_joined_headings(a: Seq<u8>, b: Seq<u8>)
    requires
        a.len() == 0 || a.last() == NEWLINE,
    ensures
        headings_of(a + b) == headings_of(a).union(headings_of(b)),
{
    if a.len() == 0 {
        assert(a + b =~= b);
        assert(headings_of(a).union(headings_of(b)) =~= headings_of(b));
    } else {
        lemma_first(a, b, 0);
    }
}

} // verus!
