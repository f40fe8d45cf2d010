//! Sorting. Texts are ordered by their UTF-8 bytes.
use crate::text::texts;
use vstd::prelude::*;
use vstd::relations::{sorted_by, total_ordering};
use vstd::utf8::{decode_utf8, encode_utf8};

verus! {

/// `a` comes before `b` byte by byte, or is `b`.
pub open spec fn bytes_le(a: Seq<u8>, b: Seq<u8>) -> bool
    decreases a.len(),
{
    if a.len() == 0 {
        true
    } else if b.len() == 0 {
        false
    } else if a[0] != b[0] {
        a[0] < b[0]
    } else {
        bytes_le(a.skip(1), b.skip(1))
    }
}

/// `a` comes before `b` in the order of texts, or is `b`.
pub open spec fn text_le(a: Seq<char>, b: Seq<char>) -> bool {
    bytes_le(encode_utf8(a), encode_utf8(b))
}

/// The order of texts as a relation.
pub open spec fn text_order() -> spec_fn(Seq<char>, Seq<char>) -> bool {
    |a: Seq<char>, b: Seq<char>| text_le(a, b)
}

/// The texts in order.
pub open spec fn sorted_texts(s: Seq<Seq<char>>) -> Seq<Seq<char>> {
    s.sort_by(text_order())
}

/// The members of a finite set of texts in order.
pub open spec fn sorted_members(s: Set<Seq<char>>) -> Seq<Seq<char>> {
    sorted_texts(s.to_seq())
}

proof fn lemma_bytes_order(a: Seq<u8>, b: Seq<u8>, c: Seq<u8>)
    ensures
        bytes_le(a, a),
        bytes_le(a, b) || bytes_le(b, a),
        bytes_le(a, b) && bytes_le(b, a) ==> a == b,
        bytes_le(a, b) && bytes_le(b, c) ==> bytes_le(a, c),
    decreases a.len() + b.len() + c.len(),
{
    if a.len() > 0 {
        let a1 = a.skip(1);
        let b1 = if b.len() > 0 {
            b.skip(1)
        } else {
            b
        };
        let c1 = if c.len() > 0 {
            c.skip(1)
        } else {
            c
        };
        lemma_bytes_order(a1, b1, c1);
        if b.len() > 0 && bytes_le(a, b) && bytes_le(b, a) {
            assert(a[0] == b[0]);
            assert(a =~= seq![a[0]] + a1);
            assert(b =~= seq![b[0]] + b1);
        }
    } else if b.len() == 0 {
        assert(a =~= b);
    }
}

/// The order of texts is total.
pub proof fn law_text_order()
    ensures
        total_ordering(text_order()),
{
    broadcast use vstd::utf8::encode_utf8_decode_utf8;

    let r = text_order();
    assert forall|a: Seq<char>| #[trigger] r(a, a) by {
        lemma_bytes_order(encode_utf8(a), encode_utf8(a), encode_utf8(a));
    }
    assert forall|a: Seq<char>, b: Seq<char>| #[trigger] r(a, b) && #[trigger] r(b, a) implies a
        == b by {
        lemma_bytes_order(encode_utf8(a), encode_utf8(b), encode_utf8(b));
        assert(decode_utf8(encode_utf8(a)) == a);
        assert(decode_utf8(encode_utf8(b)) == b);
    }
    assert forall|a: Seq<char>, b: Seq<char>, c: Seq<char>| #[trigger]
        r(a, b) && #[trigger] r(b, c) implies r(a, c) by {
        lemma_bytes_order(encode_utf8(a), encode_utf8(b), encode_utf8(c));
    }
    assert forall|a: Seq<char>, b: Seq<char>| #[trigger] r(a, b) || #[trigger] r(b, a) by {
        lemma_bytes_order(encode_utf8(a), encode_utf8(b), encode_utf8(b));
    }
}

fn bytes_before(a: &[u8], b: &[u8]) -> (r: bool)
    ensures
        r == bytes_le(a@, b@),
{
    let mut i: usize = 0;
    assert(a@.skip(0) =~= a@);
    assert(b@.skip(0) =~= b@);
    while i < a.len() && i < b.len()
        invariant
            i <= a.len(),
            i <= b.len(),
            bytes_le(a@, b@) == bytes_le(a@.skip(i as int), b@.skip(i as int)),
        decreases a.len() - i,
    {
        assert(a@.skip(i as int).skip(1) =~= a@.skip(i + 1));
        assert(b@.skip(i as int).skip(1) =~= b@.skip(i + 1));
        if a[i] != b[i] {
            return a[i] < b[i];
        }
        i += 1;
    }
    i >= a.len()
}

/// Whether `a` comes before `b` in the order of texts, or is `b`.
pub fn text_before(a: &str, b: &str) -> (r: bool)
    ensures
        r == text_le(a@, b@),
{
    bytes_before(a.as_bytes(), b.as_bytes())
}

/// A type whose values can be put in order.
pub trait Ranked: View + Sized {
    /// The order.
    spec fn rank() -> spec_fn(Self::V, Self::V) -> bool;

    /// The order is total.
    proof fn rank_is_total()
        ensures
            total_ordering(Self::rank()),
    ;

    /// Whether the value comes before `other`, or is equal to it.
    fn before(&self, other: &Self) -> (r: bool)
        ensures
            r == (Self::rank())(self@, other@),
    ;
}

/// What a sequence of values stands for.
pub open spec fn views<T: View>(v: Seq<T>) -> Seq<T::V> {
    Seq::new(v.len(), |i: int| v[i]@)
}

/// Puts the values in order.
pub fn sort<T: Ranked>(v: Vec<T>) -> (r: Vec<T>)
    ensures
        views(r@) == views(v@).sort_by(T::rank()),
        r@.to_multiset() == v@.to_multiset(),
{
    let ghost le = T::rank();
    let ghost all = v@;
    proof {
        T::rank_is_total();
        broadcast use vstd::seq_lib::group_to_multiset_ensures;

        assert(views(all).take(0) =~= Seq::empty());
        assert(all.skip(0) =~= all);
    }
    let mut rest = v;
    let mut out: Vec<T> = Vec::new();
    assert(views(out@) =~= Seq::empty());
    assert(out@ =~= Seq::empty());
    assert(out@.to_multiset().add(rest@.to_multiset()) =~= all.to_multiset());
    assert(views(out@).to_multiset().add(views(rest@).to_multiset()) =~= views(all).to_multiset());
    while rest.len() > 0
        invariant
            le == T::rank(),
            total_ordering(le),
            sorted_by(views(out@), le),
            out@.to_multiset().add(rest@.to_multiset()) == all.to_multiset(),
            views(out@).to_multiset().add(views(rest@).to_multiset()) == views(all).to_multiset(),
        decreases rest.len(),
    {
        broadcast use vstd::seq_lib::group_to_multiset_ensures;
        broadcast use vstd::seq_lib::to_multiset_insert;

        let ghost rest0 = rest@;
        let ghost out0 = out@;
        let x = rest.pop().unwrap();
        proof {
            assert(rest0 =~= rest@.push(x));
            assert(views(rest0) =~= views(rest@).push(x@));
        }
        // `lo` counts the values that come before `x`.
        let mut lo: usize = 0;
        let mut hi: usize = out.len();
        while lo < hi
            invariant
                lo <= hi <= out.len(),
                le == T::rank(),
                total_ordering(le),
                sorted_by(views(out@), le),
                forall|j: int| 0 <= j < lo ==> le(#[trigger] views(out@)[j], x@),
                forall|j: int| hi <= j < out.len() ==> le(x@, #[trigger] views(out@)[j]),
            decreases hi - lo,
        {
            let mid: usize = lo + (hi - lo) / 2;
            assert(views(out@)[mid as int] == out@[mid as int]@);
            if out[mid].before(&x) {
                assert forall|j: int| 0 <= j < mid + 1 implies le(#[trigger] views(out@)[j], x@) by {
                    if j < mid {
                        assert(le(views(out@)[j], views(out@)[mid as int]));
                    }
                }
                lo = mid + 1;
            } else {
                assert(le(x@, views(out@)[mid as int]) || le(views(out@)[mid as int], x@));
                assert forall|j: int| mid <= j < out.len() implies le(
                    x@,
                    #[trigger] views(out@)[j],
                ) by {
                    if j > mid {
                        assert(le(views(out@)[mid as int], views(out@)[j]));
                    }
                }
                hi = mid;
            }
        }
        let ghost xv = x@;
        let ghost xx = x;
        out.insert(lo, x);
        proof {
            assert(views(out@) =~= views(out0).insert(lo as int, xv));
            assert forall|i: int, j: int| 0 <= i < j < views(out@).len() implies #[trigger] le(
                views(out@)[i],
                views(out@)[j],
            ) by {
                let before = views(out0);
                let i0 = if i < lo {
                    i
                } else {
                    i - 1
                };
                let j0 = if j < lo {
                    j
                } else {
                    j - 1
                };
                if i != lo {
                    assert(views(out@)[i] == before[i0]);
                }
                if j != lo {
                    assert(views(out@)[j] == before[j0]);
                }
                if i != lo && j != lo {
                    assert(le(before[i0], before[j0]));
                }
            }
            assert(out@.to_multiset() == out0.to_multiset().insert(xx));
            assert(out@.to_multiset().add(rest@.to_multiset()) =~= out0.to_multiset().add(
                rest0.to_multiset(),
            ));
            assert(views(out@).to_multiset() == views(out0).to_multiset().insert(xv));
            assert(views(out@).to_multiset().add(views(rest@).to_multiset()) =~= views(
                out0,
            ).to_multiset().add(views(rest0).to_multiset()));
        }
    }
    proof {
        broadcast use vstd::seq_lib::group_to_multiset_ensures;

        assert(rest@ =~= Seq::empty());
        assert(views(rest@) =~= Seq::empty());
        assert(out@.to_multiset().add(rest@.to_multiset()) =~= out@.to_multiset());
        assert(views(out@).to_multiset().add(views(rest@).to_multiset()) =~= views(
            out@,
        ).to_multiset());
        views(all).lemma_sort_by_ensures(le);
        vstd::seq_lib::lemma_sorted_unique(views(out@), views(all).sort_by(le), le);
    }
    out
}

impl Ranked for String {
    open spec fn rank() -> spec_fn(Seq<char>, Seq<char>) -> bool {
        text_order()
    }

    proof fn rank_is_total() {
        law_text_order();
    }

    fn before(&self, other: &Self) -> (r: bool) {
        text_before(self.as_str(), other.as_str())
    }
}

/// The texts in order.
pub fn sort_texts(v: Vec<String>) -> (r: Vec<String>)
    ensures
        texts(r@) == sorted_texts(texts(v@)),
{
    let ghost all = v@;
    let r = sort(v);
    assert(views(all) =~= texts(all));
    assert(views(r@) =~= texts(r@));
    r
}

/// The order in which texts are given does not matter once they are sorted.
pub proof fn law_sorted_order(a: Seq<Seq<char>>, b: Seq<Seq<char>>)
    requires
        a.to_multiset() == b.to_multiset(),
    ensures
        sorted_texts(a) == sorted_texts(b),
{
    law_text_order();
    a.lemma_sort_by_ensures(text_order());
    b.lemma_sort_by_ensures(text_order());
    vstd::seq_lib::lemma_sorted_unique(sorted_texts(a), sorted_texts(b), text_order());
}

/// A list of the members of a set, sorted, is the same whatever its order was.
pub proof fn law_sorted_members(s: Set<Seq<char>>, order: Seq<Seq<char>>)
    requires
        order.no_duplicates(),
        order.to_set() == s,
    ensures
        sorted_texts(order) == sorted_members(s),
{
    vstd::seq_lib::seq_to_set_is_finite(order);
    lemma_to_seq(s);
    assert forall|x: Seq<char>| order.contains(x) <==> s.to_seq().contains(x) by {
        assert(order.contains(x) <==> order.to_set().contains(x));
        assert(s.contains(x) <==> s.to_seq().contains(x));
    }
    lemma_same_members(order, s.to_seq());
    law_sorted_order(order, s.to_seq());
}

proof fn lemma_to_seq(s: Set<Seq<char>>)
    requires
        s.finite(),
    ensures
        s.to_seq().no_duplicates(),
        forall|x: Seq<char>| s.to_seq().contains(x) <==> s.contains(x),
    decreases s.len(),
{
    if s.len() > 0 {
        let x = s.choose();
        let rest = s.remove(x).to_seq();
        lemma_to_seq(s.remove(x));
        let all = Seq::<Seq<char>>::empty().push(x) + rest;
        assert(s.to_seq() == all);
        assert forall|y: Seq<char>| all.contains(y) <==> s.contains(y) by {
            if s.contains(y) && y != x {
                assert(rest.contains(y));
                let i = choose|i: int| 0 <= i < rest.len() && rest[i] == y;
                assert(all[i + 1] == y);
            }
            if y == x {
                assert(all[0] == y);
            }
            if all.contains(y) && y != x {
                let i = choose|i: int| 0 <= i < all.len() && all[i] == y;
                assert(rest[i - 1] == y);
                assert(rest.contains(y));
            }
        }
        assert forall|i: int, j: int| 0 <= i < all.len() && 0 <= j < all.len() && i != j implies all[i]
            != all[j] by {
            if i > 0 && j > 0 {
                assert(rest[i - 1] != rest[j - 1]);
            } else {
                let k = if i > 0 {
                    i
                } else {
                    j
                };
                assert(rest.contains(rest[k - 1]));
            }
        }
    } else {
        assert(s =~= Set::empty());
    }
}

proof fn lemma_same_members(a: Seq<Seq<char>>, b: Seq<Seq<char>>)
    requires
        a.no_duplicates(),
        b.no_duplicates(),
        forall|x: Seq<char>| a.contains(x) <==> b.contains(x),
    ensures
        a.to_multiset() == b.to_multiset(),
{
    broadcast use vstd::seq_lib::group_to_multiset_ensures;

    a.lemma_multiset_has_no_duplicates();
    b.lemma_multiset_has_no_duplicates();
    assert forall|x: Seq<char>| a.to_multiset().count(x) == b.to_multiset().count(x) by {
        assert(a.contains(x) <==> a.to_multiset().count(x) > 0);
        assert(b.contains(x) <==> b.to_multiset().count(x) > 0);
        if a.contains(x) {
            assert(a.to_multiset().contains(x));
            assert(b.to_multiset().contains(x));
        }
    }
    assert(a.to_multiset() =~= b.to_multiset());
}

/// Sorting keeps the members.
pub proof fn law_sorted_keeps_members(s: Set<Seq<char>>)
    requires
        s.finite(),
    ensures
        sorted_members(s).to_set() == s,
{
    broadcast use vstd::seq_lib::group_to_multiset_ensures;

    law_text_order();
    lemma_to_seq(s);
    s.to_seq().lemma_sort_by_ensures(text_order());
    assert forall|x: Seq<char>| sorted_members(s).contains(x) <==> s.contains(x) by {
        assert(s.to_seq().contains(x) <==> s.to_seq().to_multiset().count(x) > 0);
        assert(sorted_members(s).contains(x) <==> sorted_members(s).to_multiset().count(x) > 0);
    }
    assert(sorted_members(s).to_set() =~= s);
}

} // verus!
