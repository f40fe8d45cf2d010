//! Text helpers: splitting, joining, comparing and building strings.
use vstd::prelude::*;
use vstd::string::StringExecFns;

verus! {

/// `String::push` appends one character at the end.
pub assume_specification[ String::push ](s: &mut String, c: char)
    ensures
        final(s)@ == old(s)@.push(c),
;

/// The texts of a sequence of strings.
pub open spec fn texts(v: Seq<String>) -> Seq<Seq<char>> {
    Seq::new(v.len(), |i: int| v[i]@)
}

/// The pieces of `cur + rest` between the `sep` characters of `rest`, where `cur` is the
/// piece read so far.
pub open spec fn split_from(cur: Seq<char>, rest: Seq<char>, sep: char) -> Seq<Seq<char>>
    decreases rest.len(),
{
    if rest.len() == 0 {
        seq![cur]
    } else if rest[0] == sep {
        seq![cur] + split_from(Seq::empty(), rest.skip(1), sep)
    } else {
        split_from(cur.push(rest[0]), rest.skip(1), sep)
    }
}

/// The pieces of `s` between its `sep` characters, empty ones included.
pub open spec fn split(s: Seq<char>, sep: char) -> Seq<Seq<char>> {
    split_from(Seq::empty(), s, sep)
}

/// The non-empty pieces, in order.
pub open spec fn drop_empty(ps: Seq<Seq<char>>) -> Seq<Seq<char>>
    decreases ps.len(),
{
    if ps.len() == 0 {
        Seq::empty()
    } else if ps.last().len() > 0 {
        drop_empty(ps.drop_last()).push(ps.last())
    } else {
        drop_empty(ps.drop_last())
    }
}

/// The non-empty pieces of a path between its slashes.
pub open spec fn segments(s: Seq<char>) -> Seq<Seq<char>> {
    drop_empty(split(s, '/'))
}

/// The pieces written one after another with `sep` between them.
pub open spec fn join(ps: Seq<Seq<char>>, sep: Seq<char>) -> Seq<char>
    decreases ps.len(),
{
    if ps.len() == 0 {
        Seq::empty()
    } else if ps.len() == 1 {
        ps[0]
    } else {
        join(ps.drop_last(), sep) + sep + ps.last()
    }
}

/// `p` is how `s` begins.
pub open spec fn begins_with(s: Seq<char>, p: Seq<char>) -> bool {
    p.len() <= s.len() && s.take(p.len() as int) == p
}

/// `p` is how `s` ends.
pub open spec fn finishes_with(s: Seq<char>, p: Seq<char>) -> bool {
    p.len() <= s.len() && s.skip(s.len() - p.len()) == p
}

/// The characters of `s`.
pub fn chars_of(s: &str) -> (r: Vec<char>)
    ensures
        r@ == s@,
{
    let mut out: Vec<char> = Vec::new();
    for c in it: s.chars()
        invariant
            out@ == s@.take(it.index()),
            it.seq() == s@,
    {
        out.push(c);
    }
    out
}

/// The text made of the characters of `cs` from `from` up to `to`.
pub fn text_of(cs: &Vec<char>, from: usize, to: usize) -> (r: String)
    requires
        from <= to <= cs.len(),
    ensures
        r@ == cs@.subrange(from as int, to as int),
{
    let mut out = String::new();
    let mut i: usize = from;
    while i < to
        invariant
            from <= i <= to <= cs.len(),
            out@ == cs@.subrange(from as int, i as int),
        decreases to - i,
    {
        out.push(cs[i]);
        i += 1;
    }
    out
}

/// Whether the two texts are the same.
pub fn str_eq(a: &str, b: &str) -> (r: bool)
    ensures
        r == (a@ == b@),
{
    broadcast use vstd::utf8::encode_utf8_decode_utf8;

    let x = a.as_bytes();
    let y = b.as_bytes();
    if x.len() != y.len() {
        return false;
    }
    let mut i: usize = 0;
    while i < x.len()
        invariant
            i <= x.len() == y.len(),
            x@ == vstd::utf8::encode_utf8(a@),
            y@ == vstd::utf8::encode_utf8(b@),
            forall|j: int| 0 <= j < i ==> x@[j] == y@[j],
        decreases x.len() - i,
    {
        if x[i] != y[i] {
            return false;
        }
        i += 1;
    }
    proof {
        assert(x@ =~= y@);
        assert(vstd::utf8::decode_utf8(vstd::utf8::encode_utf8(a@)) == a@);
        assert(vstd::utf8::decode_utf8(vstd::utf8::encode_utf8(b@)) == b@);
    }
    true
}

/// Whether `c` occurs in `s`.
pub fn contains_char(s: &str, c: char) -> (r: bool)
    ensures
        r == s@.contains(c),
{
    let cs = chars_of(s);
    let mut i: usize = 0;
    while i < cs.len()
        invariant
            i <= cs.len(),
            cs@ == s@,
            forall|j: int| 0 <= j < i ==> cs@[j] != c,
        decreases cs.len() - i,
    {
        if cs[i] == c {
            return true;
        }
        i += 1;
    }
    false
}

/// Whether `s` begins with `p`.
pub fn starts_with(s: &str, p: &str) -> (r: bool)
    ensures
        r == begins_with(s@, p@),
{
    let a = chars_of(s);
    let b = chars_of(p);
    if b.len() > a.len() {
        return false;
    }
    let mut i: usize = 0;
    while i < b.len()
        invariant
            i <= b.len() <= a.len(),
            a@ == s@,
            b@ == p@,
            forall|j: int| 0 <= j < i ==> a@[j] == b@[j],
        decreases b.len() - i,
    {
        if a[i] != b[i] {
            assert(s@.take(p@.len() as int)[i as int] != p@[i as int]);
            return false;
        }
        i += 1;
    }
    assert(s@.take(p@.len() as int) =~= p@);
    true
}

/// Whether `s` ends with `p`.
pub fn ends_with(s: &str, p: &str) -> (r: bool)
    ensures
        r == finishes_with(s@, p@),
{
    let a = chars_of(s);
    let b = chars_of(p);
    if b.len() > a.len() {
        return false;
    }
    let off: usize = a.len() - b.len();
    let mut i: usize = 0;
    while i < b.len()
        invariant
            i <= b.len() <= a.len(),
            off == a.len() - b.len(),
            a@ == s@,
            b@ == p@,
            forall|j: int| 0 <= j < i ==> a@[off + j] == b@[j],
        decreases b.len() - i,
    {
        if a[off + i] != b[i] {
            assert(s@.skip(off as int)[i as int] != p@[i as int]);
            return false;
        }
        i += 1;
    }
    assert(s@.skip(s@.len() - p@.len()) =~= p@);
    true
}

/// The two texts one after the other.
pub fn concat2(a: &str, b: &str) -> (r: String)
    ensures
        r@ == a@ + b@,
{
    let mut out = a.to_owned();
    out.append(b);
    out
}

/// The three texts one after the other.
pub fn concat3(a: &str, b: &str, c: &str) -> (r: String)
    ensures
        r@ == a@ + b@ + c@,
{
    let mut out = a.to_owned();
    out.append(b);
    out.append(c);
    out
}

/// The pieces of `s` between its `sep` characters, empty ones included.
pub fn split_text(s: &str, sep: char) -> (r: Vec<String>)
    ensures
        texts(r@) == split(s@, sep),
{
    let cs = chars_of(s);
    let mut out: Vec<String> = Vec::new();
    let mut cur = String::new();
    let mut i: usize = 0;
    assert(cs@.skip(0) =~= s@);
    assert(texts(out@) + split_from(cur@, cs@.skip(0), sep) =~= split(s@, sep));
    while i < cs.len()
        invariant
            i <= cs.len(),
            cs@ == s@,
            texts(out@) + split_from(cur@, cs@.skip(i as int), sep) == split(s@, sep),
        decreases cs.len() - i,
    {
        let ghost before = out@;
        assert(cs@.skip(i as int).skip(1) =~= cs@.skip(i + 1));
        if cs[i] == sep {
            let ghost c0 = cur@;
            out.push(cur);
            cur = String::new();
            assert(texts(out@) =~= texts(before) + seq![c0]);
            assert(texts(before) + (seq![c0] + split_from(Seq::empty(), cs@.skip(i + 1), sep))
                =~= texts(out@) + split_from(cur@, cs@.skip(i + 1), sep));
        } else {
            cur.push(cs[i]);
        }
        i += 1;
    }
    let ghost before = out@;
    let ghost c0 = cur@;
    out.push(cur);
    assert(texts(out@) =~= texts(before) + seq![c0]);
    out
}

/// The non-empty pieces of a path between its slashes.
pub fn segments_of(s: &str) -> (r: Vec<String>)
    ensures
        texts(r@) == segments(s@),
{
    let pieces = split_text(s, '/');
    let mut out: Vec<String> = Vec::new();
    let mut i: usize = 0;
    while i < pieces.len()
        invariant
            i <= pieces.len(),
            texts(pieces@) == split(s@, '/'),
            texts(out@) == drop_empty(texts(pieces@).take(i as int)),
        decreases pieces.len() - i,
    {
        assert(texts(pieces@).take(i + 1).drop_last() =~= texts(pieces@).take(i as int));
        assert(texts(pieces@).take(i + 1).last() == pieces@[i as int]@);
        let ghost before = out@;
        if !pieces[i].as_str().is_empty() {
            out.push(pieces[i].clone());
            assert(texts(out@) =~= texts(before).push(pieces@[i as int]@));
        }
        i += 1;
    }
    assert(texts(pieces@).take(pieces@.len() as int) =~= texts(pieces@));
    out
}

/// The texts, each cloned.
pub fn clone_texts(v: &Vec<String>) -> (r: Vec<String>)
    ensures
        texts(r@) == texts(v@),
{
    let mut r: Vec<String> = Vec::new();
    let mut i: usize = 0;
    while i < v.len()
        invariant
            i <= v.len(),
            r.len() == i,
            forall|j: int| 0 <= j < i ==> (#[trigger] r@[j])@ == v@[j]@,
        decreases v.len() - i,
    {
        r.push(v[i].clone());
        i += 1;
    }
    assert(texts(r@) =~= texts(v@));
    r
}

/// The first `n` pieces written one after another with `sep` between them.
pub fn join_first(ps: &Vec<String>, n: usize, sep: &str) -> (r: String)
    requires
        n <= ps.len(),
    ensures
        r@ == join(texts(ps@).take(n as int), sep@),
{
    let mut out = String::new();
    let mut i: usize = 0;
    while i < n
        invariant
            i <= n <= ps.len(),
            out@ == join(texts(ps@).take(i as int), sep@),
        decreases n - i,
    {
        assert(texts(ps@).take(i + 1).drop_last() =~= texts(ps@).take(i as int));
        assert(texts(ps@).take(i + 1).last() == ps@[i as int]@);
        if i > 0 {
            out.append(sep);
        }
        out.append(ps[i].as_str());
        if i == 0 {
            assert(out@ =~= ps@[0]@);
        }
        i += 1;
    }
    out
}

/// Joining the pieces of a text with the separator gives the text back.
pub proof fn law_join_split(s: Seq<char>, sep: char)
    ensures
        join(split(s, sep), seq![sep]) == s,
        forall|i: int| 0 <= i < split(s, sep).len() ==> !(#[trigger] split(s, sep)[i]).contains(sep),
{
    lemma_split_from(Seq::empty(), s, sep);
    assert(Seq::<char>::empty() + s =~= s);
}

pub(crate) proof fn lemma_split_not_empty(s: Seq<char>, sep: char)
    ensures
        split(s, sep).len() > 0,
{
    lemma_split_from(Seq::empty(), s, sep);
}

proof fn lemma_split_from(cur: Seq<char>, rest: Seq<char>, sep: char)
    requires
        !cur.contains(sep),
    ensures
        split_from(cur, rest, sep).len() > 0,
        join(split_from(cur, rest, sep), seq![sep]) == cur + rest,
        forall|i: int|
            0 <= i < split_from(cur, rest, sep).len() ==> !(#[trigger] split_from(
                cur,
                rest,
                sep,
            )[i]).contains(sep),
    decreases rest.len(),
{
    if rest.len() == 0 {
        assert(cur + rest =~= cur);
    } else if rest[0] == sep {
        let tail = split_from(Seq::empty(), rest.skip(1), sep);
        lemma_split_from(Seq::empty(), rest.skip(1), sep);
        lemma_join_cons(cur, tail, seq![sep]);
        assert(cur + seq![sep] + (Seq::<char>::empty() + rest.skip(1)) =~= cur + rest);
    } else {
        let next = cur.push(rest[0]);
        assert forall|i: int| 0 <= i < next.len() implies next[i] != sep by {
            if i < cur.len() {
                assert(cur[i] == next[i]);
                assert(cur.contains(cur[i]));
            }
        }
        lemma_split_from(next, rest.skip(1), sep);
        assert(next + rest.skip(1) =~= cur + rest);
    }
}

/// Joining a non-empty list with one more piece in front.
pub(crate) proof fn lemma_join_cons(p: Seq<char>, ps: Seq<Seq<char>>, sep: Seq<char>)
    requires
        ps.len() > 0,
    ensures
        join(seq![p] + ps, sep) == p + sep + join(ps, sep),
    decreases ps.len(),
{
    let all = seq![p] + ps;
    if ps.len() == 1 {
        assert(all.drop_last() =~= seq![p]);
        assert(all.last() == ps[0]);
        assert(join(seq![p], sep) == p);
    } else {
        assert(all.drop_last() =~= seq![p] + ps.drop_last());
        assert(all.last() == ps.last());
        lemma_join_cons(p, ps.drop_last(), sep);
        assert(p + sep + join(ps.drop_last(), sep) + sep + ps.last() =~= p + sep + (join(
            ps.drop_last(),
            sep,
        ) + sep + ps.last()));
    }
}

} // verus!
