//! What fixing comes to, edit by edit, and the order that texts are put in.
use crate::fix::{
    after_turns, apart, edits_for, law_rewritten_at_once, lemma_turn_order, mentioned, rewritten,
    style_notes_of, turn_order, turns, woven, EditView,
};
use crate::scene::{IssueKindView, IssueView};
use crate::sort::{bytes_le, text_le};
use vstd::prelude::*;
use vstd::utf8::encode_utf8;

verus! {

/// Without edits the bytes stay as they are.
pub proof fn law_no_fix(bytes: Seq<u8>)
    ensures
        rewritten(bytes, Seq::empty()) == bytes,
{
    assert(apart(bytes, Seq::empty()));
    law_rewritten_at_once(bytes, Seq::empty());
    assert(bytes.skip(0) =~= bytes);
}

/// One edit replaces the bytes from its start to its end. One that does not fit does nothing.
pub proof fn law_one_fix(bytes: Seq<u8>, start: int, end: int, with: Seq<u8>)
    ensures
        rewritten(bytes, seq![EditView { start, end, bytes: with }]) == if 0 <= start <= end
            <= bytes.len() {
            bytes.take(start) + with + bytes.skip(end)
        } else {
            bytes
        },
{
    let edits = seq![EditView { start, end, bytes: with }];
    let ts = turns(edits);
    let sorted = ts.sort_by(turn_order());
    lemma_turn_order();
    ts.lemma_sort_by_ensures(turn_order());
    assert(sorted.len() == 1) by {
        assert(sorted.to_multiset().len() == ts.to_multiset().len());
        broadcast use vstd::seq_lib::group_to_multiset_ensures;

    }
    assert(sorted[0] == ts[0]) by {
        broadcast use vstd::seq_lib::group_to_multiset_ensures;

        assert(sorted.to_multiset().count(sorted[0]) > 0);
        assert(ts.contains(sorted[0]));
    }
    assert(sorted.drop_last() =~= Seq::empty());
    assert(after_turns(bytes, edits, sorted.drop_last()) == bytes);
    assert(sorted.last().1 == 0);
}

proof fn lemma_woven_last(bytes: Seq<u8>, edits: Seq<EditView>, k: int, from: int)
    requires
        apart(bytes, edits),
        0 <= k < edits.len(),
        0 <= from <= edits[k].start,
    ensures
        ({
            let e = edits.last();
            woven(bytes, edits, k, from) == woven(
                bytes.take(e.start),
                edits.drop_last(),
                k,
                from,
            ) + e.bytes + bytes.skip(e.end)
        }),
    decreases edits.len() - k,
{
    let e = edits.last();
    let head = bytes.take(e.start);
    if k == edits.len() - 1 {
        assert(woven(bytes, edits, k + 1, e.end) == bytes.skip(e.end));
        assert(woven(head, edits.drop_last(), k, from) == head.skip(from));
        assert(head.skip(from) =~= bytes.subrange(from, e.start));
    } else {
        assert(edits[k].end <= edits[k + 1].start);
        lemma_woven_last(bytes, edits, k + 1, edits[k].end);
        assert(edits.drop_last()[k] == edits[k]);
        assert(edits[k].start < e.start);
        assert(head.subrange(from, edits[k].start) =~= bytes.subrange(from, edits[k].start));
        let rest = woven(head, edits.drop_last(), k + 1, edits[k].end);
        let first = bytes.subrange(from, edits[k].start) + edits[k].bytes;
        assert(first + (rest + e.bytes + bytes.skip(e.end)) =~= first + rest + e.bytes
            + bytes.skip(e.end));
    }
}

/// Of edits that stand apart, the last replaces its bytes, what is behind it stays, and the
/// others do to what is before it what they would do alone.
pub proof fn law_last_fix(bytes: Seq<u8>, edits: Seq<EditView>, e: EditView)
    requires
        apart(bytes, edits.push(e)),
    ensures
        rewritten(bytes, edits.push(e)) == rewritten(bytes.take(e.start), edits) + e.bytes
            + bytes.skip(e.end),
{
    let all = edits.push(e);
    let head = bytes.take(e.start);
    assert(all.drop_last() =~= edits);
    assert(all.last() == e);
    assert(all[all.len() - 1] == e);
    assert(apart(head, edits)) by {
        assert forall|i: int| 0 <= i < edits.len() implies 0 <= (#[trigger] edits[i]).start
            <= edits[i].end <= head.len() by {
            assert(all[i] == edits[i]);
            assert(all[i].end <= all[all.len() - 1].start);
        }
        assert forall|i: int, j: int| 0 <= i < j < edits.len() implies (
        #[trigger] edits[i]).end <= (#[trigger] edits[j]).start && edits[i].start
            < edits[j].start by {
            assert(all[i] == edits[i] && all[j] == edits[j]);
        }
    }
    law_rewritten_at_once(bytes, all);
    law_rewritten_at_once(head, edits);
    assert(0 <= all[0].start);
    lemma_woven_last(bytes, all, 0, 0);
}

/// The edits in this order, each of them once: from the last place in the file to the first,
/// and at one place as they are given.
pub open spec fn from_the_back(edits: Seq<EditView>, order: Seq<int>) -> bool {
    &&& order.no_duplicates()
    &&& forall|i: int| #[trigger] order.contains(i) <==> 0 <= i < edits.len()
    &&& forall|k: int, l: int|
        0 <= k < l < order.len() ==> {
            let a = edits[#[trigger] order[k]].start;
            let b = edits[#[trigger] order[l]].start;
            a > b || (a == b && order[k] < order[l])
        }
}

/// The bytes after the edits were made one by one in this order. An edit that does not fit is
/// left out.
pub open spec fn applied(bytes: Seq<u8>, edits: Seq<EditView>, order: Seq<int>) -> Seq<u8>
    decreases order.len(),
{
    if order.len() == 0 {
        bytes
    } else {
        let before = applied(bytes, edits, order.drop_last());
        let e = edits[order.last()];
        if 0 <= e.start <= e.end <= before.len() {
            before.take(e.start) + e.bytes + before.skip(e.end)
        } else {
            before
        }
    }
}

proof fn lemma_applied(bytes: Seq<u8>, edits: Seq<EditView>, ts: Seq<(int, int)>)
    ensures
        after_turns(bytes, edits, ts) == applied(
            bytes,
            edits,
            Seq::new(ts.len(), |k: int| ts[k].1),
        ),
    decreases ts.len(),
{
    if ts.len() > 0 {
        let before = ts.drop_last();
        lemma_applied(bytes, edits, before);
        let order = Seq::new(ts.len(), |k: int| ts[k].1);
        assert(order.drop_last() =~= Seq::new(before.len(), |k: int| before[k].1));
        assert(order.last() == ts.last().1);
    }
}

/// Edits are made one by one from the back, so that the places of those to come stay right.
pub proof fn law_fix_order(bytes: Seq<u8>, edits: Seq<EditView>)
    ensures
        exists|order: Seq<int>| #[trigger]
            from_the_back(edits, order) && rewritten(bytes, edits) == applied(bytes, edits, order),
{
    broadcast use vstd::seq_lib::group_to_multiset_ensures;

    let ts = turns(edits);
    let sorted = ts.sort_by(turn_order());
    lemma_turn_order();
    ts.lemma_sort_by_ensures(turn_order());
    let order = Seq::new(sorted.len(), |k: int| sorted[k].1);
    lemma_applied(bytes, edits, sorted);
    assert forall|k: int| 0 <= k < sorted.len() implies 0 <= (#[trigger] sorted[k]).1 < edits.len()
        && sorted[k].0 == edits[sorted[k].1].start by {
        assert(sorted.contains(sorted[k]));
        assert(sorted.to_multiset().count(sorted[k]) > 0);
        assert(ts.to_multiset().count(sorted[k]) > 0);
        assert(ts.contains(sorted[k]));
        let i = choose|i: int| 0 <= i < ts.len() && ts[i] == sorted[k];
        assert(ts[i] == (edits[i].start, i));
    }
    assert(ts.no_duplicates()) by {
        assert forall|k: int, l: int| 0 <= k < l < ts.len() implies ts[k] != ts[l] by {
            assert(ts[k].1 == k && ts[l].1 == l);
        }
    }
    assert(sorted.no_duplicates()) by {
        ts.lemma_multiset_has_no_duplicates();
        assert forall|x: (int, int)|
            sorted.to_multiset().contains(x) implies sorted.to_multiset().count(x) == 1 by {
            assert(ts.to_multiset().contains(x));
        }
        sorted.lemma_multiset_has_no_duplicates_conv();
    }
    assert forall|k: int, l: int| 0 <= k < l < order.len() implies order[k] != order[l] by {
        assert(sorted[k] != sorted[l]);
        assert(sorted[k].0 == edits[sorted[k].1].start);
        assert(sorted[l].0 == edits[sorted[l].1].start);
    }
    assert forall|i: int| #[trigger] order.contains(i) <==> 0 <= i < edits.len() by {
        if order.contains(i) {
            let k = choose|k: int| 0 <= k < order.len() && order[k] == i;
            assert(sorted[k].1 == i);
        }
        if 0 <= i < edits.len() {
            assert(ts.contains(ts[i]));
            assert(ts.to_multiset().count(ts[i]) > 0);
            assert(sorted.contains(ts[i]));
            let m = choose|m: int| 0 <= m < sorted.len() && sorted[m] == ts[i];
            assert(order[m] == i);
        }
    }
    assert forall|k: int, l: int| 0 <= k < l < order.len() implies {
        let a = edits[#[trigger] order[k]].start;
        let b = edits[#[trigger] order[l]].start;
        a > b || (a == b && order[k] < order[l])
    } by {
        let le = turn_order();
        assert(le(sorted[k], sorted[l]));
        assert(sorted[k].0 == edits[sorted[k].1].start);
        assert(sorted[l].0 == edits[sorted[l].1].start);
        assert(order[k] != order[l]);
    }
    assert(from_the_back(edits, order));
}

/// A further issue adds an edit to a file exactly when it is a style note about that file. The
/// edit puts the suggestion in the place of the path.
pub proof fn law_edit_of_note(issues: Seq<IssueView>, issue: IssueView, f: Seq<char>)
    ensures
        edits_for(Seq::empty(), f).len() == 0,
        edits_for(issues.push(issue), f) == match issue.kind {
            IssueKindView::Style { scope: _, suggested, path_start, path_end } => if issue.source
                == f {
                edits_for(issues, f).push(
                    EditView {
                        start: path_start,
                        end: path_end,
                        bytes: encode_utf8(suggested),
                    },
                )
            } else {
                edits_for(issues, f)
            },
            _ => edits_for(issues, f),
        },
{
    assert(issues.push(issue).drop_last() =~= issues);
    assert(issues.push(issue).last() == issue);
}

/// The style notes are all the issues that are style notes, in their order.
pub proof fn law_style_notes(issues: Seq<IssueView>)
    ensures
        style_notes_of(issues) == issues.filter(|i: IssueView| i.kind is Style),
    decreases issues.len(),
{
    let p = |i: IssueView| i.kind is Style;
    reveal(Seq::filter);
    if issues.len() > 0 {
        law_style_notes(issues.drop_last());
    }
}

/// Texts are ordered by their bytes: a beginning comes before the whole, and else the first
/// byte that differs decides.
pub proof fn law_byte_order(same: Seq<u8>, a: Seq<u8>, b: Seq<u8>)
    ensures
        bytes_le(same, same + b),
        b.len() > 0 ==> !bytes_le(same + b, same),
        a.len() > 0 && b.len() > 0 && a[0] < b[0] ==> bytes_le(same + a, same + b) && !bytes_le(
            same + b,
            same + a,
        ),
    decreases same.len(),
{
    if same.len() == 0 {
        assert(same + a =~= a);
        assert(same + b =~= b);
    } else {
        law_byte_order(same.skip(1), a, b);
        assert((same + a).skip(1) =~= same.skip(1) + a);
        assert((same + b).skip(1) =~= same.skip(1) + b);
        assert((same + a)[0] == same[0] && (same + b)[0] == same[0]);
    }
}

/// The order of texts is that of their bytes in UTF-8.
pub proof fn law_text_bytes(a: Seq<char>, b: Seq<char>, same: Seq<u8>, x: Seq<u8>, y: Seq<u8>)
    requires
        encode_utf8(a) == same + x,
        encode_utf8(b) == same + y,
        y.len() > 0 && (x.len() == 0 || x[0] < y[0]),
    ensures
        text_le(a, b),
        !text_le(b, a),
{
    law_byte_order(same, x, y);
    assert(x.len() == 0 ==> same + x =~= same);
}

/// The files that the issues are about are those that some issue names, of whatever kind.
pub proof fn law_mentioned(issues: Seq<IssueView>, f: Seq<char>, i: int)
    ensures
        0 <= i < issues.len() ==> mentioned(issues, issues[i].source),
        mentioned(issues, f) ==> exists|k: int|
            0 <= k < issues.len() && (#[trigger] issues[k]).source == f,
{
}

} // verus!
