//! Collections keyed by text: constant-time lookup, with the keys in the order in which
//! they first came.
use crate::text::texts;
use vstd::hash_map::StringHashMap;
use vstd::hash_set::StringHashSet;
use vstd::prelude::*;

verus! {

/// The members of a sequence with one more at its end.
pub(crate) proof fn lemma_members_push<A>(s: Seq<A>, a: A)
    ensures
        forall|x: A| #[trigger] s.push(a).contains(x) <==> (s.contains(x) || x == a),
{
    let t = s.push(a);
    assert forall|x: A| #[trigger] t.contains(x) <==> (s.contains(x) || x == a) by {
        if s.contains(x) {
            let j = choose|j: int| 0 <= j < s.len() && s[j] == x;
            assert(t[j] == x);
        }
        if x == a {
            assert(t[s.len() as int] == x);
        }
    }
}

/// The first `i + 1` elements are the first `i` and one more, which is new where none occurs
/// twice.
pub(crate) proof fn lemma_take_next<A>(s: Seq<A>, i: int)
    requires
        0 <= i < s.len(),
    ensures
        s.take(i + 1) == s.take(i).push(s[i]),
        forall|x: A| #[trigger] s.take(i + 1).contains(x) <==> (s.take(i).contains(x) || x == s[i]),
        s.no_duplicates() ==> !s.take(i).contains(s[i]),
{
    assert(s.take(i + 1) =~= s.take(i).push(s[i]));
    lemma_members_push(s.take(i), s[i]);
    if s.no_duplicates() && s.take(i).contains(s[i]) {
        let j = choose|j: int| 0 <= j < i && s.take(i)[j] == s[i];
        assert(s[j] == s[i]);
    }
}

struct SetParts {
    items: Vec<String>,
    index: StringHashSet,
}

impl SetParts {
    spec fn wf(self) -> bool {
        &&& forall|i: int, j: int| 0 <= i < j < self.items@.len() ==> self.items@[i]@ != self.items@[j]@
        &&& forall|i: int| 0 <= i < self.items@.len() ==> self.index@.contains(#[trigger] self.items@[i]@)
        &&& forall|k: Seq<char>| #[trigger]
            self.index@.contains(k) ==> exists|i: int|
                0 <= i < self.items@.len() && self.items@[i]@ == k
    }

    fn empty() -> (r: Self)
        ensures
            r.wf(),
            r.items@.len() == 0,
            r.index@ == Set::<Seq<char>>::empty(),
    {
        SetParts { items: Vec::new(), index: StringHashSet::new() }
    }
}

/// A set of texts.
pub struct StringSet {
    parts: SetParts,
}

impl View for StringSet {
    type V = Set<Seq<char>>;

    closed spec fn view(&self) -> Set<Seq<char>> {
        self.parts.index@
    }
}

impl StringSet {
    #[verifier::type_invariant]
    spec fn inv(self) -> bool {
        self.parts.wf()
    }

    /// The members, in the order in which they came.
    pub closed spec fn order(&self) -> Seq<Seq<char>> {
        texts(self.parts.items@)
    }

    /// The empty set.
    pub fn new() -> (r: Self)
        ensures
            r@ == Set::<Seq<char>>::empty(),
            r.order() == Seq::<Seq<char>>::empty(),
    {
        let r = StringSet { parts: SetParts::empty() };
        assert(r.order() =~= Seq::<Seq<char>>::empty());
        r
    }

    /// The number of members.
    pub fn len(&self) -> (n: usize)
        ensures
            n == self.order().len(),
            n == self@.len(),
            self@.finite(),
            self.order().no_duplicates(),
            self.order().to_set() == self@,
            forall|k: Seq<char>| #[trigger] self@.contains(k) <==> self.order().contains(k),
    {
        proof {
            use_type_invariant(self);
            let o = self.order();
            assert(o.no_duplicates());
            assert forall|k: Seq<char>| #[trigger] self@.contains(k) implies o.contains(k) by {
                let i = choose|i: int|
                    0 <= i < self.parts.items@.len() && self.parts.items@[i]@ == k;
                assert(o[i] == k);
            }
            assert forall|k: Seq<char>| o.contains(k) implies #[trigger] self@.contains(k) by {
                let i = choose|i: int| 0 <= i < o.len() && o[i] == k;
                assert(self.parts.items@[i]@ == k);
            }
            assert(o.to_set() =~= self@);
            o.unique_seq_to_set();
        }
        self.parts.items.len()
    }

    /// Whether the set has no member.
    pub fn is_empty(&self) -> (r: bool)
        ensures
            r == (self@ == Set::<Seq<char>>::empty()),
            r == (self.order().len() == 0),
    {
        let n: usize = self.len();
        proof {
            if n == 0 {
                assert(self@ =~= Set::<Seq<char>>::empty());
            } else {
                assert(self.order().contains(self.order()[0]));
                assert(self@.contains(self.order()[0]));
            }
        }
        n == 0
    }

    /// The member at position `i`.
    pub fn get(&self, i: usize) -> (r: &str)
        requires
            i < self.order().len(),
        ensures
            r@ == self.order()[i as int],
            self@.contains(r@),
    {
        proof {
            use_type_invariant(self);
        }
        self.parts.items[i].as_str()
    }

    /// Whether `k` is a member.
    pub fn contains(&self, k: &str) -> (r: bool)
        ensures
            r == self@.contains(k@),
    {
        self.parts.index.contains(k)
    }

    /// Puts `k` in; tells whether it was new.
    pub fn insert(&mut self, k: String) -> (r: bool)
        ensures
            final(self)@ == old(self)@.insert(k@),
            r == !old(self)@.contains(k@),
            final(self).order() == if r {
                old(self).order().push(k@)
            } else {
                old(self).order()
            },
    {
        proof {
            use_type_invariant(&*self);
        }
        if self.parts.index.contains(k.as_str()) {
            assert(self@.insert(k@) =~= self@);
            return false;
        }
        let mut parts = SetParts::empty();
        core::mem::swap(&mut parts, &mut self.parts);
        let ghost was = parts;
        let ghost kt = k@;
        parts.index.insert(k.clone());
        parts.items.push(k);
        proof {
            assert forall|x: Seq<char>| #[trigger] parts.index@.contains(x) implies exists|i: int|
                0 <= i < parts.items@.len() && parts.items@[i]@ == x by {
                if x == kt {
                    assert(parts.items@[was.items@.len() as int]@ == x);
                } else {
                    assert(was.index@.contains(x));
                    let i = choose|i: int| 0 <= i < was.items@.len() && was.items@[i]@ == x;
                    assert(parts.items@[i]@ == x);
                }
            }
            assert forall|i: int| 0 <= i < parts.items@.len() implies parts.index@.contains(
                #[trigger] parts.items@[i]@,
            ) by {
                if i < was.items@.len() {
                    assert(was.index@.contains(was.items@[i]@));
                }
            }
            assert forall|i: int, j: int| 0 <= i < j < parts.items@.len() implies parts.items@[i]@
                != parts.items@[j]@ by {
                if j == was.items@.len() {
                    assert(was.index@.contains(was.items@[i]@));
                }
            }
            assert(texts(parts.items@) =~= texts(was.items@).push(kt));
        }
        self.parts = parts;
        true
    }
}

impl Clone for StringSet {
    fn clone(&self) -> (r: Self)
        ensures
            r@ == self@,
            r.order() == self.order(),
    {
        let n: usize = self.len();
        let mut out = StringSet::new();
        let mut i: usize = 0;
        while i < n
            invariant
                i <= n == self.order().len(),
                self.order().no_duplicates(),
                self.order().to_set() == self@,
                out.order() == self.order().take(i as int),
                forall|k: Seq<char>| #[trigger] out@.contains(k) <==> self.order().take(i as int).contains(k),
            decreases n - i,
        {
            let ghost k = self.order()[i as int];
            proof {
                lemma_take_next(self.order(), i as int);
            }
            let s = self.get(i).to_owned();
            out.insert(s);
            i += 1;
        }
        proof {
            assert(self.order().take(n as int) =~= self.order());
            assert(out@ =~= self@);
        }
        out
    }
}

struct MapParts<V> {
    keys: Vec<String>,
    values: Vec<V>,
    index: StringHashMap<usize>,
}

impl<V> MapParts<V> {
    spec fn wf(self) -> bool {
        &&& self.keys@.len() == self.values@.len()
        &&& forall|i: int| 0 <= i < self.keys@.len() ==> self.index@.contains_key(
            #[trigger] self.keys@[i]@,
        ) && self.index@[self.keys@[i]@] == i
        &&& forall|k: Seq<char>| #[trigger]
            self.index@.contains_key(k) ==> 0 <= self.index@[k] < self.keys@.len()
                && self.keys@[self.index@[k] as int]@ == k
    }

    fn empty() -> (r: Self)
        ensures
            r.wf(),
            r.keys@.len() == 0,
    {
        MapParts { keys: Vec::new(), values: Vec::new(), index: StringHashMap::new() }
    }
}

/// A map from texts to values.
#[verifier::reject_recursive_types(V)]
pub struct StringMap<V> {
    parts: MapParts<V>,
}

impl<V> View for StringMap<V> {
    type V = Map<Seq<char>, V>;

    closed spec fn view(&self) -> Map<Seq<char>, V> {
        Map::new(
            |k: Seq<char>| self.parts.index@.contains_key(k),
            |k: Seq<char>| self.parts.values@[self.parts.index@[k] as int],
        )
    }
}

impl<V> StringMap<V> {
    #[verifier::type_invariant]
    spec fn inv(self) -> bool {
        self.parts.wf()
    }

    /// The keys, in the order in which they first came.
    pub closed spec fn order(&self) -> Seq<Seq<char>> {
        texts(self.parts.keys@)
    }

    /// The empty map.
    pub fn new() -> (r: Self)
        ensures
            r@ == Map::<Seq<char>, V>::empty(),
            r.order() == Seq::<Seq<char>>::empty(),
    {
        let r = StringMap { parts: MapParts::empty() };
        proof {
            assert forall|k: Seq<char>| !r@.contains_key(k) by {
                if r.parts.index@.contains_key(k) {
                    assert(r.parts.keys@[r.parts.index@[k] as int]@ == k);
                }
            }
            assert(r@ =~= Map::<Seq<char>, V>::empty());
            assert(r.order() =~= Seq::<Seq<char>>::empty());
        }
        r
    }

    /// The number of keys.
    pub fn len(&self) -> (n: usize)
        ensures
            n == self.order().len(),
            n == self@.dom().len(),
            self@.dom().finite(),
            self.order().no_duplicates(),
            self.order().to_set() == self@.dom(),
            forall|k: Seq<char>| #[trigger] self@.contains_key(k) <==> self.order().contains(k),
    {
        proof {
            use_type_invariant(self);
            let o = self.order();
            assert forall|i: int, j: int| 0 <= i < o.len() && 0 <= j < o.len() && i != j implies o[i]
                != o[j] by {
                assert(self.parts.index@[self.parts.keys@[i]@] == i);
                assert(self.parts.index@[self.parts.keys@[j]@] == j);
            }
            assert forall|k: Seq<char>| #[trigger] self@.contains_key(k) implies o.contains(k) by {
                assert(o[self.parts.index@[k] as int] == k);
            }
            assert forall|k: Seq<char>| o.contains(k) implies #[trigger] self@.contains_key(k) by {
                let i = choose|i: int| 0 <= i < o.len() && o[i] == k;
                assert(self.parts.keys@[i]@ == k);
            }
            assert(o.to_set() =~= self@.dom());
            o.unique_seq_to_set();
        }
        self.parts.keys.len()
    }

    /// Whether the map has no key.
    pub fn is_empty(&self) -> (r: bool)
        ensures
            r == (self@.dom() == Set::<Seq<char>>::empty()),
            r == (self.order().len() == 0),
    {
        let n: usize = self.len();
        proof {
            if n == 0 {
                assert(self@.dom() =~= Set::<Seq<char>>::empty());
            } else {
                assert(self.order().contains(self.order()[0]));
                assert(self@.contains_key(self.order()[0]));
            }
        }
        n == 0
    }

    /// The key at position `i`.
    pub fn key_at(&self, i: usize) -> (r: &str)
        requires
            i < self.order().len(),
        ensures
            r@ == self.order()[i as int],
            self@.contains_key(r@),
    {
        proof {
            use_type_invariant(self);
        }
        self.parts.keys[i].as_str()
    }

    /// The value at position `i`.
    pub fn value_at(&self, i: usize) -> (r: &V)
        requires
            i < self.order().len(),
        ensures
            self@.contains_key(self.order()[i as int]),
            *r == self@[self.order()[i as int]],
    {
        proof {
            use_type_invariant(self);
            assert(self.parts.keys@[i as int]@ == self.order()[i as int]);
        }
        &self.parts.values[i]
    }

    /// Whether `k` is a key.
    pub fn contains_key(&self, k: &str) -> (r: bool)
        ensures
            r == self@.contains_key(k@),
    {
        self.parts.index.contains_key(k)
    }

    /// The value of `k`.
    pub fn get(&self, k: &str) -> (r: Option<&V>)
        ensures
            match r {
                Some(v) => self@.contains_key(k@) && *v == self@[k@],
                None => !self@.contains_key(k@),
            },
    {
        proof {
            use_type_invariant(self);
        }
        match self.parts.index.get(k) {
            Some(i) => {
                assert(self.parts.index@.contains_key(k@));
                Some(&self.parts.values[*i])
            },
            None => None,
        }
    }

    /// Gives `k` the value `v`, in place of the value it had.
    pub fn insert(&mut self, k: String, v: V)
        ensures
            final(self)@ == old(self)@.insert(k@, v),
            final(self).order() == if old(self)@.contains_key(k@) {
                old(self).order()
            } else {
                old(self).order().push(k@)
            },
    {
        proof {
            use_type_invariant(&*self);
        }
        let ghost m0 = self@;
        let mut parts = MapParts::empty();
        core::mem::swap(&mut parts, &mut self.parts);
        let ghost was = parts;
        let ghost kt = k@;
        let at: Option<usize> = match parts.index.get(k.as_str()) {
            Some(i) => Some(*i),
            None => None,
        };
        match at {
            Some(i) => {
                assert(was.index@.contains_key(kt));
                parts.values.set(i, v);
                assert(parts.wf());
            },
            None => {
                let n: usize = parts.keys.len();
                parts.index.insert(k.clone(), n);
                parts.keys.push(k);
                parts.values.push(v);
                proof {
                    assert forall|i: int| 0 <= i < parts.keys@.len() implies parts.index@.contains_key(
                    #[trigger] parts.keys@[i]@) && parts.index@[parts.keys@[i]@] == i by {
                        if i < was.keys@.len() {
                            assert(was.index@.contains_key(was.keys@[i]@));
                        }
                    }
                    assert forall|x: Seq<char>| #[trigger] parts.index@.contains_key(x) implies 0
                        <= parts.index@[x] < parts.keys@.len()
                        && parts.keys@[parts.index@[x] as int]@ == x by {
                        if x != kt {
                            assert(was.index@.contains_key(x));
                        }
                    }
                    assert(texts(parts.keys@) =~= texts(was.keys@).push(kt));
                }
            },
        }
        self.parts = parts;
        proof {
            assert forall|x: Seq<char>| self@.contains_key(x) implies #[trigger] self@[x]
                == m0.insert(kt, v)[x] by {
                if x != kt {
                    assert(was.index@.contains_key(x));
                    if was.index@.contains_key(kt) {
                        assert(was.keys@[was.index@[kt] as int]@ == kt);
                        assert(was.keys@[was.index@[x] as int]@ == x);
                    }
                }
            }
            assert(self@ =~= m0.insert(kt, v));
        }
    }

    /// Gives the key `k` the value `v` and hands back the value it had.
    pub fn replace(&mut self, k: &str, v: V) -> (r: V)
        requires
            old(self)@.contains_key(k@),
        ensures
            r == old(self)@[k@],
            final(self)@ == old(self)@.insert(k@, v),
            final(self).order() == old(self).order(),
    {
        proof {
            use_type_invariant(&*self);
        }
        let ghost m0 = self@;
        let mut parts = MapParts::empty();
        core::mem::swap(&mut parts, &mut self.parts);
        let ghost was = parts;
        let i: usize = *parts.index.get(k).unwrap();
        assert(was.keys@[i as int]@ == k@);
        let mut x = v;
        let ghost vv = x;
        core::mem::swap(&mut x, &mut parts.values[i]);
        assert(parts.wf());
        self.parts = parts;
        proof {
            assert forall|y: Seq<char>| self@.contains_key(y) implies #[trigger] self@[y]
                == m0.insert(k@, vv)[y] by {
                if y != k@ {
                    assert(was.keys@[was.index@[y] as int]@ == y);
                }
            }
            assert(self@ =~= m0.insert(k@, vv));
        }
        x
    }

    /// Drops the keys that are not in `keep`.
    pub fn retain(&mut self, keep: &StringSet)
        ensures
            final(self)@ == old(self)@.restrict(keep@),
    {
        proof {
            use_type_invariant(&*self);
        }
        let ghost m0 = self@;
        let mut parts = MapParts::empty();
        core::mem::swap(&mut parts, &mut self.parts);
        let ghost was = parts;
        let mut keys = parts.keys;
        let mut values = parts.values;
        let mut out: StringMap<V> = StringMap::new();
        while keys.len() > 0
            invariant
                keys@.len() == values@.len() <= was.keys@.len(),
                was.wf(),
                keys@ == was.keys@.take(keys@.len() as int),
                values@ == was.values@.take(keys@.len() as int),
                forall|k: Seq<char>| #[trigger]
                    out@.contains_key(k) <==> (was.index@.contains_key(k) && was.index@[k]
                        >= keys@.len() && keep@.contains(k)),
                forall|k: Seq<char>| #[trigger]
                    out@.contains_key(k) ==> out@[k] == was.values@[was.index@[k] as int],
            decreases keys.len(),
        {
            let ghost n = keys@.len() - 1;
            let k = keys.pop().unwrap();
            let v = values.pop().unwrap();
            assert(was.keys@[n]@ == k@);
            assert(keys@ =~= was.keys@.take(n));
            assert(values@ =~= was.values@.take(n));
            assert forall|x: Seq<char>| #[trigger]
                was.index@.contains_key(x) && was.index@[x] == n implies x == k@ by {
                assert(was.keys@[was.index@[x] as int]@ == x);
            }
            if keep.contains(k.as_str()) {
                out.insert(k, v);
            }
        }
        core::mem::swap(self, &mut out);
        assert(self@ =~= m0.restrict(keep@));
    }
}

} // verus!
