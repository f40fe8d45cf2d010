//! Rewriting links in the canonical way.
use crate::collections::{lemma_take_next, StringMap, StringSet};
use crate::scene::{issue_views, IssueKind, IssueKindView, IssueView, LinkIssue};
use crate::sort::{sort, views, Ranked};
use crate::text::str_eq;
use vstd::prelude::*;
use vstd::relations::{sorted_by, total_ordering};
use vstd::slice::slice_subrange;
use vstd::utf8::encode_utf8;

verus! {

/// Bytes of a file to be replaced by others.
pub struct EditView {
    pub start: int,
    pub end: int,
    pub bytes: Seq<u8>,
}

/// The edit that a style note asks for.
pub open spec fn edit_of(issue: IssueView) -> Option<EditView> {
    match issue.kind {
        IssueKindView::Style { scope: _, suggested, path_start, path_end } => Some(
            EditView { start: path_start, end: path_end, bytes: encode_utf8(suggested) },
        ),
        _ => None,
    }
}

/// The edits to the file `source`, in the order of the notes.
pub open spec fn edits_for(issues: Seq<IssueView>, source: Seq<char>) -> Seq<EditView>
    decreases issues.len(),
{
    if issues.len() == 0 {
        Seq::empty()
    } else {
        let before = edits_for(issues.drop_last(), source);
        match edit_of(issues.last()) {
            Some(e) => if issues.last().source == source {
                before.push(e)
            } else {
                before
            },
            None => before,
        }
    }
}

pub(crate) proof fn lemma_edits_for_add(a: Seq<IssueView>, b: Seq<IssueView>, f: Seq<char>)
    ensures
        edits_for(a + b, f) == edits_for(a, f) + edits_for(b, f),
    decreases b.len(),
{
    if b.len() == 0 {
        assert(a + b =~= a);
        assert(edits_for(a, f) + edits_for(b, f) =~= edits_for(a, f));
    } else {
        lemma_edits_for_add(a, b.drop_last(), f);
        assert((a + b).drop_last() =~= a + b.drop_last());
        assert((a + b).last() == b.last());
        assert(edits_for(a + b, f) =~= edits_for(a, f) + edits_for(b, f));
    }
}

/// The bytes with those of the edit replaced; unchanged when the edit does not fit.
pub open spec fn edited(bytes: Seq<u8>, e: EditView) -> Seq<u8> {
    if 0 <= e.start <= e.end <= bytes.len() {
        bytes.take(e.start) + e.bytes + bytes.skip(e.end)
    } else {
        bytes
    }
}

/// Where an edit starts, and which one it is.
pub struct Turn {
    pub start: usize,
    pub at: usize,
}

impl View for Turn {
    type V = (int, int);

    open spec fn view(&self) -> (int, int) {
        (self.start as int, self.at as int)
    }
}

/// The edits take their turns from the last to the first in the file, so that the
/// positions of those to come stay right. Those at one place keep their order.
pub open spec fn turn_order() -> spec_fn((int, int), (int, int)) -> bool {
    |a: (int, int), b: (int, int)| a.0 > b.0 || (a.0 == b.0 && a.1 <= b.1)
}

impl Ranked for Turn {
    open spec fn rank() -> spec_fn((int, int), (int, int)) -> bool {
        turn_order()
    }

    proof fn rank_is_total() {
        lemma_turn_order();
    }

    fn before(&self, other: &Self) -> (r: bool) {
        self.start > other.start || (self.start == other.start && self.at <= other.at)
    }
}

pub(crate) proof fn lemma_turn_order()
    ensures
        total_ordering(turn_order()),
{
}

/// The turns of the edits, as they are given.
pub open spec fn turns(edits: Seq<EditView>) -> Seq<(int, int)> {
    Seq::new(edits.len(), |i: int| (edits[i].start, i))
}

/// The bytes after the edits have taken these turns.
pub open spec fn after_turns(bytes: Seq<u8>, edits: Seq<EditView>, ts: Seq<(int, int)>) -> Seq<u8>
    decreases ts.len(),
{
    if ts.len() == 0 {
        bytes
    } else {
        edited(after_turns(bytes, edits, ts.drop_last()), edits[ts.last().1])
    }
}

/// The bytes after all edits.
pub open spec fn rewritten(bytes: Seq<u8>, edits: Seq<EditView>) -> Seq<u8> {
    after_turns(bytes, edits, turns(edits).sort_by(turn_order()))
}

/// The bytes from `from` on, with those of the edits from the `k`th on replaced, all at
/// once.
pub open spec fn woven(bytes: Seq<u8>, edits: Seq<EditView>, k: int, from: int) -> Seq<u8>
    decreases edits.len() - k,
{
    if k >= edits.len() {
        bytes.skip(from)
    } else {
        bytes.subrange(from, edits[k].start) + edits[k].bytes + woven(
            bytes,
            edits,
            k + 1,
            edits[k].end,
        )
    }
}

/// The edits stand in the file one behind the other, and no two start at one place.
pub open spec fn apart(bytes: Seq<u8>, edits: Seq<EditView>) -> bool {
    &&& forall|i: int|
        0 <= i < edits.len() ==> 0 <= (#[trigger] edits[i]).start <= edits[i].end <= bytes.len()
    &&& forall|i: int, j: int|
        0 <= i < j < edits.len() ==> (#[trigger] edits[i]).end <= (#[trigger] edits[j]).start
            && edits[i].start < edits[j].start
}

/// Edits of separate places, as those of the links of a file are, come out as if all were
/// done at once.
pub proof fn law_rewritten_at_once(bytes: Seq<u8>, edits: Seq<EditView>)
    requires
        apart(bytes, edits),
    ensures
        rewritten(bytes, edits) == woven(bytes, edits, 0, 0),
{
    let back = turns(edits).reverse();
    let n = edits.len() as int;
    lemma_turn_order();
    assert(sorted_by(back, turn_order())) by {
        assert forall|i: int, j: int| 0 <= i < j < back.len() implies #[trigger] (turn_order())(
            back[i],
            back[j],
        ) by {
            assert(back[i] == (edits[n - 1 - i].start, n - 1 - i));
            assert(back[j] == (edits[n - 1 - j].start, n - 1 - j));
            assert(edits[n - 1 - j].start < edits[n - 1 - i].start);
        }
    }
    turns(edits).lemma_reverse_to_multiset();
    turns(edits).lemma_sort_by_ensures(turn_order());
    vstd::seq_lib::lemma_sorted_unique(back, turns(edits).sort_by(turn_order()), turn_order());
    assert(back.take(n) =~= back);
    lemma_turns_taken(bytes, edits, n, 0);
    assert(bytes.take(0) + woven(bytes, edits, 0, 0) =~= woven(bytes, edits, 0, 0));
}

/// After the last `m` edits: the bytes up to `f`, then those with the edits in.
proof fn lemma_turns_taken(bytes: Seq<u8>, edits: Seq<EditView>, m: int, f: int)
    requires
        apart(bytes, edits),
        0 <= m <= edits.len(),
        0 <= f <= bytes.len(),
        m > 0 ==> f <= edits[edits.len() - m].start,
    ensures
        after_turns(bytes, edits, turns(edits).reverse().take(m)) == bytes.take(f) + woven(
            bytes,
            edits,
            edits.len() - m,
            f,
        ),
    decreases m,
{
    let back = turns(edits).reverse();
    let n = edits.len() as int;
    if m == 0 {
        assert(bytes.take(f) + bytes.skip(f) =~= bytes);
    } else {
        let k = n - m;
        let e = edits[k];
        assert(back.take(m).drop_last() =~= back.take(m - 1));
        assert(back.take(m).last() == (e.start, k));
        if m > 1 {
            assert(edits[k].end <= edits[k + 1].start);
        }
        lemma_turns_taken(bytes, edits, m - 1, e.end);
        let rest = woven(bytes, edits, k + 1, e.end);
        let before = bytes.take(e.end) + rest;
        assert(before.take(e.start) =~= bytes.take(e.start));
        assert(before.skip(e.end) =~= rest);
        assert(bytes.take(e.start) + e.bytes + rest =~= bytes.take(f) + (bytes.subrange(f, e.start)
            + e.bytes + rest));
    }
}

fn append_bytes(out: &mut Vec<u8>, bytes: &[u8])
    ensures
        final(out)@ == old(out)@ + bytes@,
{
    let mut i: usize = 0;
    assert(bytes@.take(0) =~= Seq::empty());
    while i < bytes.len()
        invariant
            i <= bytes.len(),
            out@ == old(out)@ + bytes@.take(i as int),
        decreases bytes.len() - i,
    {
        out.push(bytes[i]);
        assert(bytes@.take(i + 1) =~= bytes@.take(i as int).push(bytes@[i as int]));
        i += 1;
    }
    assert(bytes@.take(i as int) =~= bytes@);
}

fn splice(bytes: Vec<u8>, start: usize, end: usize, with: &[u8]) -> (r: Vec<u8>)
    ensures
        r@ == edited(
            bytes@,
            (EditView { start: start as int, end: end as int, bytes: with@ }),
        ),
{
    if !(start <= end && end <= bytes.len()) {
        return bytes;
    }
    let mut r: Vec<u8> = Vec::new();
    append_bytes(&mut r, slice_subrange(bytes.as_slice(), 0, start));
    append_bytes(&mut r, with);
    append_bytes(&mut r, slice_subrange(bytes.as_slice(), end, bytes.len()));
    assert(r@ =~= bytes@.take(start as int) + with@ + bytes@.skip(end as int));
    r
}

/// A replacement in a file.
struct Edit {
    start: usize,
    end: usize,
    text: String,
}

impl View for Edit {
    type V = EditView;

    closed spec fn view(&self) -> EditView {
        EditView {
            start: self.start as int,
            end: self.end as int,
            bytes: encode_utf8(self.text@),
        }
    }
}

spec fn edit_views(v: Seq<Edit>) -> Seq<EditView> {
    Seq::new(v.len(), |i: int| v[i]@)
}

fn edits_of(issues: &Vec<LinkIssue>, source: &str) -> (r: Vec<Edit>)
    ensures
        edit_views(r@) == edits_for(issue_views(issues@), source@),
{
    let ghost all = issue_views(issues@);
    let mut r: Vec<Edit> = Vec::new();
    let mut i: usize = 0;
    assert(all.take(0) =~= Seq::empty());
    assert(edit_views(r@) =~= Seq::empty());
    while i < issues.len()
        invariant
            i <= issues.len(),
            all == issue_views(issues@),
            edit_views(r@) == edits_for(all.take(i as int), source@),
        decreases issues.len() - i,
    {
        assert(all.take(i + 1).drop_last() =~= all.take(i as int));
        assert(all.take(i + 1).last() == issues@[i as int]@);
        let ghost before = r@;
        match &issues[i].kind {
            IssueKind::Style { scope: _, suggested, path_start, path_end } => {
                if str_eq(issues[i].source.as_str(), source) {
                    let e = Edit { start: *path_start, end: *path_end, text: suggested.clone() };
                    let ghost ev = e@;
                    r.push(e);
                    assert(edit_views(r@) =~= edit_views(before).push(ev));
                }
            },
            _ => {},
        }
        i += 1;
    }
    assert(all.take(i as int) =~= all);
    r
}

/// The bytes of the file `source` with its links rewritten as the style notes ask.
pub fn rewrite(data: Vec<u8>, issues: &Vec<LinkIssue>, source: &str) -> (r: Vec<u8>)
    ensures
        r@ == rewritten(data@, edits_for(issue_views(issues@), source@)),
{
    let edits = edits_of(issues, source);
    let ghost evs = edit_views(edits@);
    let mut rows: Vec<Turn> = Vec::new();
    let mut i: usize = 0;
    while i < edits.len()
        invariant
            i <= edits.len(),
            rows.len() == i,
            evs == edit_views(edits@),
            forall|j: int|
                0 <= j < i ==> (#[trigger] rows@[j])@ == (edits@[j]@.start, j),
        decreases edits.len() - i,
    {
        rows.push(Turn { start: edits[i].start, at: i });
        i += 1;
    }
    assert(views(rows@) =~= turns(evs));
    let rows = sort(rows);
    let ghost ts = views(rows@);
    assert(ts == turns(evs).sort_by(turn_order()));
    proof {
        lemma_turns_in_range(evs);
    }
    let mut bytes = data;
    i = 0;
    assert(ts.take(0) =~= Seq::empty());
    while i < rows.len()
        invariant
            i <= rows.len(),
            evs == edit_views(edits@),
            ts == views(rows@),
            forall|j: int| 0 <= j < ts.len() ==> 0 <= (#[trigger] ts[j]).1 < evs.len(),
            bytes@ == after_turns(data@, evs, ts.take(i as int)),
        decreases rows.len() - i,
    {
        assert(ts.take(i + 1).drop_last() =~= ts.take(i as int));
        assert(ts.take(i + 1).last() == ts[i as int]);
        assert(ts[i as int] == rows@[i as int]@);
        let e = &edits[rows[i].at];
        assert(evs[ts[i as int].1] == e@);
        bytes = splice(bytes, e.start, e.end, e.text.as_str().as_bytes());
        i += 1;
    }
    assert(ts.take(i as int) =~= ts);
    bytes
}

proof fn lemma_turns_in_range(edits: Seq<EditView>)
    ensures
        forall|j: int|
            0 <= j < turns(edits).sort_by(turn_order()).len() ==> 0 <= (#[trigger] turns(
                edits,
            ).sort_by(turn_order())[j]).1 < edits.len(),
{
    let ts = turns(edits).sort_by(turn_order());
    lemma_turn_order();
    turns(edits).lemma_sort_by_ensures(turn_order());
    assert forall|j: int| 0 <= j < ts.len() implies 0 <= (#[trigger] ts[j]).1 < edits.len() by {
        assert(ts.contains(ts[j]));
        assert(turns(edits).contains(ts[j]));
        let k = choose|k: int| 0 <= k < turns(edits).len() && turns(edits)[k] == ts[j];
    }
}

/// The style notes among the issues, in order.
pub open spec fn style_notes_of(issues: Seq<IssueView>) -> Seq<IssueView>
    decreases issues.len(),
{
    if issues.len() == 0 {
        Seq::empty()
    } else {
        let before = style_notes_of(issues.drop_last());
        if issues.last().kind is Style {
            before.push(issues.last())
        } else {
            before
        }
    }
}

/// The style notes among the issues, in order.
pub fn style_notes(issues: Vec<LinkIssue>) -> (r: Vec<LinkIssue>)
    ensures
        issue_views(r@) == style_notes_of(issue_views(issues@)),
{
    let ghost all = issue_views(issues@);
    let mut r: Vec<LinkIssue> = Vec::new();
    assert(all.take(0) =~= Seq::empty());
    assert(issue_views(r@) =~= Seq::empty());
    for issue in it: issues
        invariant
            it.seq() == issues@,
            all == issue_views(issues@),
            issue_views(r@) == style_notes_of(all.take(it.index())),
    {
        assert(all.take(it.index() + 1).drop_last() =~= all.take(it.index()));
        assert(all.take(it.index() + 1).last() == issue@);
        let style: bool = match &issue.kind {
            IssueKind::Style { scope: _, suggested: _, path_start: _, path_end: _ } => true,
            _ => false,
        };
        if style {
            let ghost before = r@;
            let ghost iv = issue@;
            r.push(issue);
            assert(issue_views(r@) =~= issue_views(before).push(iv));
        }
    }
    assert(all.take(all.len() as int) =~= all);
    r
}

/// Some issue is about the file.
pub open spec fn mentioned(issues: Seq<IssueView>, source: Seq<char>) -> bool {
    exists|i: int| 0 <= i < issues.len() && (#[trigger] issues[i]).source == source
}

/// The files that the issues are about, each once.
pub fn fix_sources(issues: &Vec<LinkIssue>) -> (r: StringSet)
    ensures
        forall|source: Seq<char>| #[trigger]
            r@.contains(source) <==> mentioned(issue_views(issues@), source),
{
    let ghost all = issue_views(issues@);
    let mut r = StringSet::new();
    let mut i: usize = 0;
    while i < issues.len()
        invariant
            i <= issues.len(),
            all == issue_views(issues@),
            forall|source: Seq<char>| #[trigger]
                r@.contains(source) <==> exists|j: int|
                    0 <= j < i && (#[trigger] all[j]).source == source,
        decreases issues.len() - i,
    {
        let ghost before = r@;
        let _ = r.insert(issues[i].source.clone());
        assert forall|source: Seq<char>| #[trigger] r@.contains(source) <==> exists|j: int|
            0 <= j < i + 1 && (#[trigger] all[j]).source == source by {
            assert(all[i as int].source == issues@[i as int].source@);
            if before.contains(source) {
                let j = choose|j: int| 0 <= j < i && (#[trigger] all[j]).source == source;
                assert(0 <= j < i + 1 && all[j].source == source);
            }
        }
        i += 1;
    }
    r
}

/// The files with their links rewritten as the style notes ask. `files` has the bytes of
/// each file that could be read; those that the issues are about and that are not there
/// are failures, and handed back as such.
pub fn apply_style_fixes(issues: &Vec<LinkIssue>, files: &StringMap<Vec<u8>>) -> (r: (
    StringMap<Vec<u8>>,
    StringSet,
))
    ensures
        forall|source: Seq<char>| #[trigger]
            r.0@.contains_key(source) <==> mentioned(issue_views(issues@), source)
                && files@.contains_key(source),
        forall|source: Seq<char>| #[trigger]
            r.0@.contains_key(source) ==> r.0@[source]@ == rewritten(
                files@[source]@,
                edits_for(issue_views(issues@), source),
            ),
        forall|source: Seq<char>| #[trigger]
            r.1@.contains(source) <==> mentioned(issue_views(issues@), source)
                && !files@.contains_key(source),
{
    let sources = fix_sources(issues);
    let n: usize = sources.len();
    let ghost order = sources.order();
    let ghost all = issue_views(issues@);
    let mut done: StringMap<Vec<u8>> = StringMap::new();
    let mut failed = StringSet::new();
    let mut i: usize = 0;
    while i < n
        invariant
            i <= n == order.len(),
            order == sources.order(),
            all == issue_views(issues@),
            forall|source: Seq<char>| #[trigger]
                done@.contains_key(source) <==> order.take(i as int).contains(source)
                    && files@.contains_key(source),
            forall|source: Seq<char>| #[trigger]
                done@.contains_key(source) ==> done@[source]@ == rewritten(
                    files@[source]@,
                    edits_for(all, source),
                ),
            forall|source: Seq<char>| #[trigger]
                failed@.contains(source) <==> order.take(i as int).contains(source)
                    && !files@.contains_key(source),
        decreases n - i,
    {
        proof {
            lemma_take_next(order, i as int);
        }
        let source = sources.get(i);
        match files.get(source) {
            Some(data) => {
                let copy = copy_bytes(data);
                done.insert(source.to_owned(), rewrite(copy, issues, source));
            },
            None => {
                let _ = failed.insert(source.to_owned());
            },
        }
        i += 1;
    }
    proof {
        assert(order.take(n as int) =~= order);
        assert forall|source: Seq<char>| order.contains(source) <==> mentioned(all, source) by {
            assert(sources@.contains(source) <==> order.contains(source));
        }
    }
    (done, failed)
}

fn copy_bytes(data: &Vec<u8>) -> (r: Vec<u8>)
    ensures
        r@ == data@,
{
    let mut r: Vec<u8> = Vec::new();
    append_bytes(&mut r, data.as_slice());
    assert(r@ =~= data@);
    r
}

} // verus!
