//! Fixing is the same, whichever order the issues are in.
use crate::fix::{
    after_turns, edited, edits_for, lemma_edits_for_add, lemma_turn_order, rewritten,
    turn_order, turns, EditView,
};
use crate::scene::IssueView;
use vstd::prelude::*;
use vstd::seq_lib::lemma_multiset_commutative;

verus! {

/// No two edits start at one place.
pub open spec fn starts_differ(edits: Seq<EditView>) -> bool {
    forall|i: int, j: int|
        0 <= i < j < edits.len() ==> (#[trigger] edits[i]).start != (#[trigger] edits[j]).start
}

/// The bytes after the edits, one after the other.
spec fn all_edited(bytes: Seq<u8>, edits: Seq<EditView>) -> Seq<u8>
    decreases edits.len(),
{
    if edits.len() == 0 {
        bytes
    } else {
        edited(all_edited(bytes, edits.drop_last()), edits.last())
    }
}

/// The edits in the order of the turns.
spec fn in_turn(edits: Seq<EditView>, ts: Seq<(int, int)>) -> Seq<EditView> {
    Seq::new(ts.len(), |i: int| edits[ts[i].1])
}

/// The edits go from the last place to the first.
spec fn falling(edits: Seq<EditView>) -> bool {
    forall|i: int, j: int|
        0 <= i < j < edits.len() ==> (#[trigger] edits[i]).start > (#[trigger] edits[j]).start
}

proof fn lemma_in_turn(bytes: Seq<u8>, edits: Seq<EditView>, ts: Seq<(int, int)>)
    ensures
        after_turns(bytes, edits, ts) == all_edited(bytes, in_turn(edits, ts)),
    decreases ts.len(),
{
    if ts.len() > 0 {
        lemma_in_turn(bytes, edits, ts.drop_last());
        assert(in_turn(edits, ts).drop_last() =~= in_turn(edits, ts.drop_last()));
        assert(in_turn(edits, ts).last() == edits[ts.last().1]);
    }
}

/// Edits that go from the last place to the first are told by their members.
proof fn lemma_falling_unique(x: Seq<EditView>, y: Seq<EditView>)
    requires
        falling(x),
        falling(y),
        forall|e: EditView| #[trigger] x.contains(e) <==> y.contains(e),
    ensures
        x == y,
    decreases x.len(),
{
    if x.len() == 0 {
        if y.len() > 0 {
            assert(y.contains(y[0]));
            assert(x.contains(y[0]));
        }
        assert(x =~= y);
    } else {
        let a = x.last();
        let n = x.len() - 1;
        assert(x[n] == a);
        assert(x.contains(a));
        let b = y.last();
        let m = y.len() - 1;
        assert(y.len() > 0);
        assert(y[m] == b);
        assert(y.contains(b));
        assert(x.contains(b) && y.contains(a));
        let i = choose|i: int| 0 <= i < x.len() && x[i] == b;
        let j = choose|j: int| 0 <= j < y.len() && y[j] == a;
        assert(i < n ==> x[i].start > x[n].start);
        assert(j < m ==> y[j].start > y[m].start);
        assert(a == b);
        let p = x.drop_last();
        let q = y.drop_last();
        assert(x =~= p.push(a));
        assert(y =~= q.push(a));
        assert forall|e: EditView| #[trigger] p.contains(e) <==> q.contains(e) by {
            if p.contains(e) {
                let k = choose|k: int| 0 <= k < p.len() && p[k] == e;
                assert(x[k] == e && x[k].start > x[n].start);
                assert(x.contains(e));
                let l = choose|l: int| 0 <= l < y.len() && y[l] == e;
                assert(q[l] == e);
            }
            if q.contains(e) {
                let k = choose|k: int| 0 <= k < q.len() && q[k] == e;
                assert(y[k] == e && y[k].start > y[m].start);
                assert(y.contains(e));
                assert(x.contains(e));
                let l = choose|l: int| 0 <= l < x.len() && x[l] == e;
                assert(p[l] == e);
            }
        }
        assert(falling(p)) by {
            assert forall|i: int, j: int| 0 <= i < j < p.len() implies (#[trigger] p[i]).start > (
            #[trigger] p[j]).start by {
                assert(x[i].start > x[j].start);
            }
        }
        assert(falling(q)) by {
            assert forall|i: int, j: int| 0 <= i < j < q.len() implies (#[trigger] q[i]).start > (
            #[trigger] q[j]).start by {
                assert(y[i].start > y[j].start);
            }
        }
        lemma_falling_unique(p, q);
    }
}

/// Taking their turns, edits of different places go from the last place to the first.
proof fn lemma_turns_fall(edits: Seq<EditView>)
    requires
        starts_differ(edits),
    ensures
        ({
            let x = in_turn(edits, turns(edits).sort_by(turn_order()));
            &&& falling(x)
            &&& forall|e: EditView| #[trigger] x.contains(e) <==> edits.contains(e)
        }),
{
    let rows = turns(edits);
    let ts = rows.sort_by(turn_order());
    let x = in_turn(edits, ts);
    lemma_turn_order();
    rows.lemma_sort_by_ensures(turn_order());
    rows.lemma_multiset_has_no_duplicates();
    ts.lemma_multiset_has_no_duplicates_conv();
    ts.to_multiset_ensures();
    rows.to_multiset_ensures();
    assert forall|t: (int, int)| #[trigger] ts.contains(t) <==> rows.contains(t) by {
        assert(ts.to_multiset().count(t) == rows.to_multiset().count(t));
    }
    assert forall|i: int| 0 <= i < ts.len() implies 0 <= (#[trigger] ts[i]).1 < edits.len()
        && ts[i].0 == edits[ts[i].1].start by {
        assert(ts.contains(ts[i]));
        let k = choose|k: int| 0 <= k < rows.len() && rows[k] == ts[i];
    }
    assert forall|i: int, j: int| 0 <= i < j < x.len() implies (#[trigger] x[i]).start > (
    #[trigger] x[j]).start by {
        assert((turn_order())(ts[i], ts[j]));
        let a = ts[i].1;
        let b = ts[j].1;
        assert(ts[i] != ts[j]);
        assert(a != b);
        assert(edits[a].start != edits[b].start);
    }
    assert forall|e: EditView| #[trigger] x.contains(e) <==> edits.contains(e) by {
        if x.contains(e) {
            let i = choose|i: int| 0 <= i < x.len() && x[i] == e;
            assert(edits[ts[i].1] == e);
        }
        if edits.contains(e) {
            let k = choose|k: int| 0 <= k < edits.len() && edits[k] == e;
            assert(rows[k] == (e.start, k));
            assert(ts.contains((e.start, k)));
            let i = choose|i: int| 0 <= i < ts.len() && ts[i] == (e.start, k);
            assert(x[i] == e);
        }
    }
}

/// The edits are those of the issues, whichever order these are in.
proof fn lemma_same_edits(a: Seq<IssueView>, b: Seq<IssueView>, source: Seq<char>)
    requires
        a.to_multiset() == b.to_multiset(),
    ensures
        edits_for(a, source).to_multiset() == edits_for(b, source).to_multiset(),
    decreases a.len(),
{
    a.to_multiset_ensures();
    b.to_multiset_ensures();
    if a.len() == 0 {
        assert(a =~= b);
    } else {
        let x = a.last();
        let before = a.drop_last();
        assert(a =~= before.push(x));
        assert(a.contains(x)) by {
            assert(a[a.len() - 1] == x);
        }
        assert(b.to_multiset().count(x) > 0);
        let k = choose|k: int| 0 <= k < b.len() && b[k] == x;
        let head = b.take(k);
        let tail = b.skip(k + 1);
        let one = seq![x];
        assert(b =~= head + one + tail);
        assert(b.remove(k) =~= head + tail);
        assert(a.remove(a.len() - 1) =~= before);
        lemma_same_edits(before, head + tail, source);
        lemma_edits_for_add(head + one, tail, source);
        lemma_edits_for_add(head, one, source);
        lemma_edits_for_add(head, tail, source);
        lemma_edits_for_add(before, one, source);
        assert(before + one =~= a);
        let h = edits_for(head, source);
        let o = edits_for(one, source);
        let t = edits_for(tail, source);
        lemma_multiset_commutative(h + o, t);
        lemma_multiset_commutative(h, o);
        lemma_multiset_commutative(h, t);
        lemma_multiset_commutative(edits_for(before, source), o);
        assert(edits_for(b, source).to_multiset() =~= edits_for(a, source).to_multiset());
    }
}

/// The order of the issues does not matter to a fix, as long as no two style notes about the
/// file are for one place.
pub proof fn law_any_order(
    bytes: Seq<u8>,
    a: Seq<IssueView>,
    b: Seq<IssueView>,
    source: Seq<char>,
)
    requires
        a.to_multiset() == b.to_multiset(),
        starts_differ(edits_for(a, source)),
    ensures
        rewritten(bytes, edits_for(b, source)) == rewritten(bytes, edits_for(a, source)),
{
    let x = edits_for(a, source);
    let y = edits_for(b, source);
    lemma_same_edits(a, b, source);
    x.to_multiset_ensures();
    y.to_multiset_ensures();
    assert forall|e: EditView| #[trigger] x.contains(e) <==> y.contains(e) by {
        assert(x.to_multiset().count(e) == y.to_multiset().count(e));
    }
    x.lemma_multiset_has_no_duplicates();
    y.lemma_multiset_has_no_duplicates_conv();
    assert forall|i: int, j: int| 0 <= i < j < y.len() implies (#[trigger] y[i]).start != (
    #[trigger] y[j]).start by {
        assert(y.contains(y[i]) && y.contains(y[j]));
        assert(x.contains(y[i]) && x.contains(y[j]));
        let k = choose|k: int| 0 <= k < x.len() && x[k] == y[i];
        let l = choose|l: int| 0 <= l < x.len() && x[l] == y[j];
        assert(k != l);
        if k < l {
            assert(x[k].start != x[l].start);
        } else {
            assert(x[l].start != x[k].start);
        }
    }
    lemma_turns_fall(x);
    lemma_turns_fall(y);
    let u = turns(x).sort_by(turn_order());
    let v = turns(y).sort_by(turn_order());
    lemma_falling_unique(in_turn(x, u), in_turn(y, v));
    lemma_in_turn(bytes, x, u);
    lemma_in_turn(bytes, y, v);
}

} // verus!
