//! Where a target leads: what `.`, `..` and slashes do in it, and where it starts from.
use crate::config::{ancestors_of, components, drop_dots, lemma_no_dots, path_of};
use crate::path::under;
use crate::resolve::{
    absolute, all_proper, fold, law_fold_fixed, lemma_segments_of_absolute, lemma_split_plain,
    plain, proper, resolved,
};
use crate::telling::lemma_dir_of;
use crate::text::{begins_with, drop_empty, finishes_with, join, segments, split, split_from};
use vstd::prelude::*;

verus! {

/// A text begins with another when something follows it there, and ends with another when
/// something comes before it.
pub proof fn law_begins_and_ends(s: Seq<char>, p: Seq<char>)
    ensures
        begins_with(s, p) <==> exists|r: Seq<char>| s == p + r,
        finishes_with(s, p) <==> exists|r: Seq<char>| s == r + p,
{
    let n = p.len() as int;
    if begins_with(s, p) {
        assert(s =~= p + s.skip(n));
    }
    if exists|r: Seq<char>| s == p + r {
        let r = choose|r: Seq<char>| s == p + r;
        assert(s.take(n) =~= p);
    }
    if finishes_with(s, p) {
        assert(s =~= s.take(s.len() - n) + p);
    }
    if exists|r: Seq<char>| s == r + p {
        let r = choose|r: Seq<char>| s == r + p;
        assert(s.skip(s.len() - n) =~= p);
    }
}

proof fn lemma_fold_on(
    x: Seq<Seq<char>>,
    y: Seq<Seq<char>>,
    b: Seq<Seq<char>>,
    strict: bool,
)
    requires
        fold(x, strict) == fold(y, strict),
    ensures
        fold(x + b, strict) == fold(y + b, strict),
    decreases b.len(),
{
    if b.len() == 0 {
        assert(x + b =~= x);
        assert(y + b =~= y);
    } else {
        lemma_fold_on(x, y, b.drop_last(), strict);
        assert((x + b).drop_last() =~= x + b.drop_last());
        assert((y + b).drop_last() =~= y + b.drop_last());
        assert((x + b).last() == b.last() && (y + b).last() == b.last());
    }
}

/// A segment `.` does nothing, wherever it stands.
pub proof fn law_dot(a: Seq<Seq<char>>, b: Seq<Seq<char>>, strict: bool)
    ensures
        fold(a + seq!["."@] + b, strict) == fold(a + b, strict),
{
    let x = a + seq!["."@];
    assert(x.drop_last() =~= a);
    assert(x.last() == "."@);
    lemma_fold_on(x, a, b, strict);
}

/// A segment `..` takes back the name before it.
pub proof fn law_up(a: Seq<Seq<char>>, name: Seq<char>, b: Seq<Seq<char>>, strict: bool)
    requires
        proper(name),
    ensures
        fold(a + seq![name, ".."@] + b, strict) == fold(a + b, strict),
{
    reveal_strlit(".");
    reveal_strlit("..");
    let x = a + seq![name, ".."@];
    let y = a + seq![name];
    assert(x.drop_last() =~= y);
    assert(x.last() == ".."@);
    assert(y.drop_last() =~= a);
    assert(y.last() == name);
    let (left, escaped) = fold(a, strict);
    assert("."@ != ".."@) by {
        assert("."@.len() != ".."@.len());
    }
    if !escaped {
        assert(fold(y, strict) == (left.push(name), false));
        assert(left.push(name).drop_last() =~= left);
        assert(fold(x, strict) == (left, false));
    } else {
        assert(fold(y, strict) == (left, escaped));
    }
    lemma_fold_on(x, a, b, strict);
}

/// At the top, `..` does nothing, or, where it must not climb out, ends it all.
pub proof fn law_up_at_the_top(b: Seq<Seq<char>>)
    ensures
        fold(seq![".."@] + b, false) == fold(b, false),
        fold(seq![".."@] + b, true).1,
    decreases b.len(),
{
    reveal_strlit(".");
    reveal_strlit("..");
    let x = seq![".."@];
    assert(x.drop_last() =~= Seq::<Seq<char>>::empty());
    assert(x.last() == ".."@);
    assert(fold(Seq::<Seq<char>>::empty(), false) == (Seq::<Seq<char>>::empty(), false));
    assert(fold(Seq::<Seq<char>>::empty(), true) == (Seq::<Seq<char>>::empty(), false));
    lemma_fold_on(x, Seq::empty(), b, false);
    assert(Seq::<Seq<char>>::empty() + b =~= b);
    assert(fold(x, true).1);
    if b.len() > 0 {
        law_up_at_the_top(b.drop_last());
        assert((x + b).drop_last() =~= x + b.drop_last());
    } else {
        assert(x + b =~= x);
    }
}

/// Names, which are neither `.` nor `..`, are left as they are.
pub proof fn law_names_stay(segs: Seq<Seq<char>>, strict: bool)
    requires
        forall|i: int| 0 <= i < segs.len() ==> proper(#[trigger] segs[i]),
    ensures
        fold(segs, strict) == (segs, false),
{
    law_fold_fixed(segs, strict);
}

proof fn lemma_split_add(cur: Seq<char>, a: Seq<char>, b: Seq<char>)
    ensures
        split_from(cur, a + seq!['/'] + b, '/') == split_from(cur, a, '/') + split(b, '/'),
    decreases a.len(),
{
    let w = a + seq!['/'] + b;
    if a.len() == 0 {
        assert(w.skip(1) =~= b);
        assert(split_from(cur, w, '/') =~= seq![cur] + split(b, '/'));
    } else {
        assert(w.skip(1) =~= a.skip(1) + seq!['/'] + b);
        if a[0] == '/' {
            lemma_split_add(Seq::empty(), a.skip(1), b);
            assert(split_from(cur, w, '/') =~= split_from(cur, a, '/') + split(b, '/'));
        } else {
            lemma_split_add(cur.push(a[0]), a.skip(1), b);
        }
    }
}

proof fn lemma_drop_empty_add(p: Seq<Seq<char>>, q: Seq<Seq<char>>)
    ensures
        drop_empty(p + q) == drop_empty(p) + drop_empty(q),
    decreases q.len(),
{
    if q.len() == 0 {
        assert(p + q =~= p);
        assert(drop_empty(p) + drop_empty(q) =~= drop_empty(p));
    } else {
        lemma_drop_empty_add(p, q.drop_last());
        assert((p + q).drop_last() =~= p + q.drop_last());
        assert((p + q).last() == q.last());
        assert(drop_empty(p + q) =~= drop_empty(p) + drop_empty(q));
    }
}

/// A slash parts the segments of a path: those before it come first, those behind it follow,
/// and empty ones do not count. A text without a slash is one segment.
pub proof fn law_slash_parts(a: Seq<char>, b: Seq<char>)
    ensures
        segments(a + seq!['/'] + b) == segments(a) + segments(b),
        segments(Seq::empty()) == Seq::<Seq<char>>::empty(),
        a.len() > 0 && !a.contains('/') ==> segments(a) == seq![a],
{
    lemma_split_add(Seq::empty(), a, b);
    lemma_drop_empty_add(split(a, '/'), split(b, '/'));
    let none = Seq::<char>::empty();
    assert(split(none, '/') == seq![none]);
    assert(seq![none].drop_last() =~= Seq::<Seq<char>>::empty());
    assert(seq![none].last() == none);
    assert(drop_empty(Seq::<Seq<char>>::empty()) =~= Seq::<Seq<char>>::empty());
    if a.len() > 0 && !a.contains('/') {
        lemma_split_plain(Seq::empty(), a);
        assert(none + a =~= a);
        assert(seq![a].drop_last() =~= Seq::<Seq<char>>::empty());
        assert(seq![a].last() == a);
        assert(drop_empty(seq![a]) =~= seq![a]);
    }
}

/// The path made of segments starts with a slash and has just these segments, in order.
pub proof fn law_absolute(segs: Seq<Seq<char>>)
    requires
        forall|i: int| 0 <= i < segs.len() ==> plain(#[trigger] segs[i]),
    ensures
        segments(absolute(segs)) == segs,
        absolute(segs).len() > 0 && absolute(segs)[0] == '/',
        segs.len() > 0 ==> absolute(segs).last() != '/',
{
    reveal_strlit("/");
    lemma_segments_of_absolute(segs);
    if segs.len() > 0 {
        let name = segs[segs.len() - 1];
        assert(plain(name));
        let s = absolute(segs);
        assert(name.last() == name[name.len() - 1]);
        if segs.len() == 1 {
            assert(s.last() == name.last());
        } else {
            let head = "/"@ + join(segs.drop_last(), "/"@) + "/"@;
            assert(s =~= head + name);
            assert(s.last() == name.last());
        }
        if s.last() == '/' {
            assert(name.contains('/'));
        }
    }
}

/// A target starts from the directory of the file that it stands in, or, with a slash in
/// front, from the root. It leads nowhere when it ends up outside the root.
pub proof fn law_start(
    target: Seq<char>,
    dir: Seq<char>,
    name: Seq<char>,
    root: Seq<char>,
)
    requires
        !name.contains('/'),
    ensures
        ({
            let source = dir + seq!['/'] + name;
            let from = if target.len() > 0 && target[0] == '/' {
                root
            } else {
                dir
            };
            let path = absolute(fold(segments(from) + segments(target), false).0);
            resolved(target, source, root) == if under(path, root) {
                Some(path)
            } else {
                None
            }
        }),
{
    reveal_strlit("/");
    let source = dir + seq!['/'] + name;
    lemma_dir_of(dir, name);
    law_slash_parts(dir, target);
    assert(dir + "/"@ + target =~= dir + seq!['/'] + target);
    if target.len() > 0 && target[0] == '/' {
        assert(target.take(1) =~= "/"@);
        let rest = target.skip(1);
        assert(root + target =~= root + seq!['/'] + rest);
        law_slash_parts(root, rest);
        law_slash_parts(Seq::empty(), rest);
        assert(Seq::<char>::empty() + seq!['/'] + rest =~= target);
        assert(segments(target) =~= segments(rest));
    } else if begins_with(target, "/"@) {
        assert(target.take(1)[0] == target[0]);
    }
}

/// The parts of a path are its segments without those that are just a dot. A relative path
/// keeps its first.
pub proof fn law_components(path: Seq<char>)
    ensures
        path.len() > 0 && path[0] == '/' ==> components(path) == segments(path).filter(
            |s: Seq<char>| s != "."@,
        ),
        segments(path).len() > 0 && path[0] != '/' ==> components(path) == segments(path).take(1)
            + segments(path).skip(1).filter(|s: Seq<char>| s != "."@),
{
    reveal_strlit("/");
    let segs = segments(path);
    if path.len() > 0 && path[0] == '/' {
        assert(path.take(1) =~= "/"@);
        lemma_drop_dots(segs);
    } else if segs.len() > 0 {
        if begins_with(path, "/"@) {
            assert(path.take(1)[0] == '/');
        }
        lemma_drop_inner_dots(segs);
    }
}

proof fn lemma_drop_dots(segs: Seq<Seq<char>>)
    ensures
        drop_dots(segs, false) == segs.filter(|s: Seq<char>| s != "."@),
    decreases segs.len(),
{
    reveal(Seq::filter);
    if segs.len() > 0 {
        lemma_drop_dots(segs.drop_last());
    }
}

proof fn lemma_drop_inner_dots(segs: Seq<Seq<char>>)
    requires
        segs.len() > 0,
    ensures
        drop_dots(segs, true) == segs.take(1) + segs.skip(1).filter(|s: Seq<char>| s != "."@),
    decreases segs.len(),
{
    reveal(Seq::filter);
    let p = |s: Seq<char>| s != "."@;
    let before = segs.drop_last();
    if segs.len() == 1 {
        assert(before.len() == 0);
        assert(segs.skip(1).filter(p) =~= Seq::empty());
        assert(drop_dots(before, true) =~= Seq::empty());
        assert(drop_dots(segs, true) =~= segs.take(1) + segs.skip(1).filter(p));
    } else {
        lemma_drop_inner_dots(before);
        assert(segs.skip(1).drop_last() =~= before.skip(1));
        assert(segs.skip(1).last() == segs.last());
        assert(segs.take(1) =~= before.take(1));
        assert(drop_dots(segs, true) =~= segs.take(1) + segs.skip(1).filter(p));
    }
}

/// The directories above a path are the one it lies in, and those above that, up to the root.
pub proof fn law_ancestors(segs: Seq<Seq<char>>, name: Seq<char>)
    requires
        all_proper(segs.push(name)),
    ensures
        ancestors_of(absolute(segs.push(name))) == seq![absolute(segs)] + ancestors_of(
            absolute(segs),
        ),
        ancestors_of(seq!['/']) == Seq::<Seq<char>>::empty(),
{
    reveal_strlit("/");
    let all = segs.push(name);
    assert(all.drop_last() =~= segs);
    assert forall|i: int| 0 <= i < segs.len() implies proper(#[trigger] segs[i]) by {
        assert(all[i] == segs[i]);
    }
    lemma_parts_of_absolute(all);
    lemma_parts_of_absolute(segs);
    let none = Seq::<Seq<char>>::empty();
    lemma_parts_of_absolute(none);
    assert(absolute(none) =~= seq!['/']);
}

proof fn lemma_parts_of_absolute(segs: Seq<Seq<char>>)
    requires
        all_proper(segs),
    ensures
        components(absolute(segs)) == segs,
        begins_with(absolute(segs), "/"@),
{
    reveal_strlit("/");
    assert forall|i: int| 0 <= i < segs.len() implies plain(#[trigger] segs[i]) by {
        assert(proper(segs[i]));
    }
    lemma_segments_of_absolute(segs);
    assert(absolute(segs).take(1) =~= "/"@);
    lemma_no_dots(segs);
}

/// The path of parts has slashes between them, and one in front where it is absolute.
pub proof fn law_path_of(segs: Seq<Seq<char>>)
    ensures
        path_of(true, segs) == absolute(segs),
        path_of(false, segs) == join(segs, seq!['/']),
{
    reveal_strlit("/");
    assert("/"@ =~= seq!['/']);
}

/// Texts are joined one behind the other, with the separator between each two.
pub proof fn law_join(ps: Seq<Seq<char>>, p: Seq<char>, sep: Seq<char>)
    ensures
        join(Seq::empty(), sep) == Seq::<char>::empty(),
        join(seq![p], sep) == p,
        ps.len() > 0 ==> join(ps.push(p), sep) == join(ps, sep) + sep + p,
{
    assert(ps.push(p).drop_last() =~= ps);
    assert(ps.push(p).last() == p);
}

} // verus!
