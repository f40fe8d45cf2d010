//! Where a link target leads: folding `.` and `..`, and staying under a root.
use crate::path::{
    base_of, dir_name, dir_of, is_under, law_dir_base, lemma_last_slash, rel_of, under,
};
use crate::text::{
    begins_with, concat2, concat3, drop_empty, join, join_first, segments, segments_of, split,
    split_from, starts_with, str_eq, texts,
};
use vstd::prelude::*;

verus! {

/// What is left of the segments of a path once `.` and `..` are taken out, and whether a
/// `..` with nothing left to take back was met. In strict mode the first such `..` ends it;
/// otherwise it does nothing.
pub open spec fn fold(segs: Seq<Seq<char>>, strict: bool) -> (Seq<Seq<char>>, bool)
    decreases segs.len(),
{
    if segs.len() == 0 {
        (Seq::empty(), false)
    } else {
        let (left, escaped) = fold(segs.drop_last(), strict);
        let seg = segs.last();
        if escaped || seg == "."@ {
            (left, escaped)
        } else if seg == ".."@ {
            if left.len() > 0 {
                (left.drop_last(), false)
            } else {
                (left, strict)
            }
        } else {
            (left.push(seg), false)
        }
    }
}

/// The absolute path made of the segments.
pub open spec fn absolute(segs: Seq<Seq<char>>) -> Seq<char> {
    "/"@ + join(segs, "/"@)
}

/// The segments of a path with `.` and `..` taken out.
fn folded(path: &str, strict_root: bool) -> (r: (Vec<String>, bool))
    ensures
        texts(r.0@) == fold(segments(path@), strict_root).0,
        r.1 == fold(segments(path@), strict_root).1,
{
    let segs = segments_of(path);
    let ghost all = texts(segs@);
    let mut left: Vec<String> = Vec::new();
    let mut escaped: bool = false;
    let mut i: usize = 0;
    assert(all.take(0) =~= Seq::empty());
    assert(texts(left@) =~= Seq::empty());
    while i < segs.len()
        invariant
            i <= segs.len(),
            all == texts(segs@),
            fold(all.take(i as int), strict_root) == (texts(left@), escaped),
        decreases segs.len() - i,
    {
        assert(all.take(i + 1).drop_last() =~= all.take(i as int));
        assert(all.take(i + 1).last() == segs@[i as int]@);
        let seg = segs[i].as_str();
        let ghost before = left@;
        if !escaped && !str_eq(seg, ".") {
            if str_eq(seg, "..") {
                if left.len() > 0 {
                    let _ = left.pop();
                    assert(texts(left@) =~= texts(before).drop_last());
                } else {
                    escaped = strict_root;
                }
            } else {
                left.push(seg.to_owned());
                assert(texts(left@) =~= texts(before).push(seg@));
            }
        }
        i += 1;
    }
    assert(all.take(i as int) =~= all);
    (left, escaped)
}

fn absolute_text(segs: &Vec<String>) -> (r: String)
    ensures
        r@ == absolute(texts(segs@)),
{
    let n: usize = segs.len();
    assert(texts(segs@).take(n as int) =~= texts(segs@));
    concat2("/", join_first(segs, n, "/").as_str())
}

/// Takes `.` and `..` out of an absolute path. `strict_root` governs a `..` that would
/// climb above the top: in lenient mode it does nothing, so that a path may climb out and
/// come back; in strict mode it ends the path and is reported.
pub fn fold_segments(combined: &str, strict_root: bool) -> (r: (String, bool))
    ensures
        r.0@ == absolute(fold(segments(combined@), strict_root).0),
        r.1 == fold(segments(combined@), strict_root).1,
{
    let (left, escaped) = folded(combined, strict_root);
    (absolute_text(&left), escaped)
}

/// The link target as a path, before folding: from the root when it starts with a slash,
/// else from the directory `dir`.
pub open spec fn combined(target: Seq<char>, dir: Seq<char>, root: Seq<char>) -> Seq<char> {
    if begins_with(target, "/"@) {
        root + target
    } else {
        dir + "/"@ + target
    }
}

/// Where a link leads, as long as it stays under the root.
pub open spec fn resolved(link: Seq<char>, source: Seq<char>, root: Seq<char>) -> Option<Seq<char>> {
    let path = absolute(fold(segments(combined(link, dir_of(source), root)), false).0);
    if under(path, root) {
        Some(path)
    } else {
        None
    }
}

/// The path that a link in `source_file` leads to; none when it leads out of the root.
pub fn resolve_link(link: &str, source_file: &str, root: &str) -> (r: Option<String>)
    ensures
        (match r {
            Some(p) => Some(p@),
            None => None,
        }) == resolved(link@, source_file@, root@),
{
    let source_dir = dir_name(source_file);
    let whole = if starts_with(link, "/") {
        concat2(root, link)
    } else {
        concat3(source_dir, "/", link)
    };
    let (path, _) = fold_segments(whole.as_str(), false);
    if is_under(path.as_str(), root) {
        Some(path)
    } else {
        None
    }
}

/// Where a target from the root of a repository leads, as long as it never climbs above that
/// root, not even to come back.
pub open spec fn resolved_strictly(target: Seq<char>, root: Seq<char>) -> Option<Seq<char>> {
    let (left, escaped) = fold(segments(target), true);
    let path = absolute(fold(segments(root), false).0 + left);
    if !escaped && under(path, root) {
        Some(path)
    } else {
        None
    }
}

/// The path that a target leads to from the root of its repository; none when it leaves
/// the root, if only on the way.
pub fn resolve_under_root(target: &str, root: &str) -> (r: Option<String>)
    ensures
        (match r {
            Some(p) => Some(p@),
            None => None,
        }) == resolved_strictly(target@, root@),
{
    let (left, escaped) = folded(target, true);
    if escaped {
        return None;
    }
    let (mut segs, _) = folded(root, false);
    let ghost top = segs@;
    let ghost below = left@;
    let mut left = left;
    segs.append(&mut left);
    assert(texts(segs@) =~= texts(top) + texts(below));
    let path = absolute_text(&segs);
    if is_under(path.as_str(), root) {
        Some(path)
    } else {
        None
    }
}

/// A segment as paths have them.
pub open spec fn plain(seg: Seq<char>) -> bool {
    seg.len() > 0 && !seg.contains('/')
}

/// A segment that names a file or a directory.
pub open spec fn proper(seg: Seq<char>) -> bool {
    seg.len() > 0 && !seg.contains('/') && seg != "."@ && seg != ".."@
}

/// Every segment names a file or a directory.
pub open spec fn all_proper(segs: Seq<Seq<char>>) -> bool {
    forall|i: int| 0 <= i < segs.len() ==> proper(#[trigger] segs[i])
}

proof fn lemma_fold_proper(segs: Seq<Seq<char>>, strict: bool)
    requires
        forall|i: int| 0 <= i < segs.len() ==> plain(#[trigger] segs[i]),
    ensures
        all_proper(fold(segs, strict).0),
    decreases segs.len(),
{
    if segs.len() > 0 {
        let before = segs.drop_last();
        assert forall|i: int| 0 <= i < before.len() implies plain(#[trigger] before[i]) by {
            assert(before[i] == segs[i]);
        }
        lemma_fold_proper(before, strict);
        assert(segs.last() == segs[segs.len() - 1]);
    }
}

proof fn lemma_drop_empty(ps: Seq<Seq<char>>)
    ensures
        forall|i: int|
            0 <= i < drop_empty(ps).len() ==> (#[trigger] drop_empty(ps)[i]).len() > 0
                && ps.contains(drop_empty(ps)[i]),
    decreases ps.len(),
{
    if ps.len() > 0 {
        let before = ps.drop_last();
        lemma_drop_empty(before);
        assert forall|i: int| 0 <= i < drop_empty(ps).len() implies (#[trigger] drop_empty(
            ps,
        )[i]).len() > 0 && ps.contains(drop_empty(ps)[i]) by {
            let x = drop_empty(ps)[i];
            if i < drop_empty(before).len() {
                assert(x == drop_empty(before)[i]);
                let j = choose|j: int| 0 <= j < before.len() && before[j] == x;
                assert(ps[j] == x);
            } else {
                assert(x == ps[ps.len() - 1]);
            }
        }
    }
}

/// The segments of a path are not empty and hold no slash.
pub proof fn law_segments(path: Seq<char>)
    ensures
        forall|i: int| 0 <= i < segments(path).len() ==> plain(#[trigger] segments(path)[i]),
{
    let ps = split(path, '/');
    lemma_drop_empty(ps);
    crate::text::law_join_split(path, '/');
    assert forall|i: int| 0 <= i < segments(path).len() implies plain(
        #[trigger] segments(path)[i],
    ) by {
        let x = segments(path)[i];
        let j = choose|j: int| 0 <= j < ps.len() && ps[j] == x;
        assert(!ps[j].contains('/'));
    }
}

/// A resolved link is an absolute path under the root, and none of its segments is `.`,
/// `..` or empty.
pub proof fn law_resolved(link: Seq<char>, source: Seq<char>, root: Seq<char>)
    requires
        resolved(link, source, root) is Some,
    ensures
        under(resolved(link, source, root)->0, root),
        exists|segs: Seq<Seq<char>>|
            all_proper(segs) && resolved(link, source, root)->0 == #[trigger] absolute(segs),
{
    let whole = combined(link, dir_of(source), root);
    law_segments(whole);
    lemma_fold_proper(segments(whole), false);
    let segs = fold(segments(whole), false).0;
    assert(all_proper(segs) && resolved(link, source, root)->0 == absolute(segs));
}

/// A target resolved from the root of its repository is an absolute path under the root,
/// and none of its segments is `.`, `..` or empty.
pub proof fn law_resolved_strictly(target: Seq<char>, root: Seq<char>)
    requires
        resolved_strictly(target, root) is Some,
    ensures
        under(resolved_strictly(target, root)->0, root),
        exists|segs: Seq<Seq<char>>|
            all_proper(segs) && resolved_strictly(target, root)->0 == #[trigger] absolute(segs),
{
    law_segments(target);
    law_segments(root);
    lemma_fold_proper(segments(target), true);
    lemma_fold_proper(segments(root), false);
    let segs = fold(segments(root), false).0 + fold(segments(target), true).0;
    assert(all_proper(segs));
    assert(resolved_strictly(target, root)->0 == absolute(segs));
}

/// Segments without `.` and `..` are left as they are, in either mode.
pub proof fn law_fold_fixed(segs: Seq<Seq<char>>, strict: bool)
    requires
        all_proper(segs),
    ensures
        fold(segs, strict) == (segs, false),
    decreases segs.len(),
{
    if segs.len() > 0 {
        let before = segs.drop_last();
        assert forall|i: int| 0 <= i < before.len() implies proper(#[trigger] before[i]) by {
            assert(before[i] == segs[i]);
        }
        law_fold_fixed(before, strict);
        assert(proper(segs[segs.len() - 1]));
        assert(before.push(segs.last()) =~= segs);
    } else {
        assert(segs =~= Seq::empty());
    }
}

/// Strict mode, where nothing climbs above the top, folds as lenient mode does.
pub proof fn law_fold_modes(segs: Seq<Seq<char>>)
    ensures
        !fold(segs, false).1,
        !fold(segs, true).1 ==> fold(segs, true) == fold(segs, false),
    decreases segs.len(),
{
    if segs.len() > 0 {
        law_fold_modes(segs.drop_last());
    }
}

proof fn lemma_split_name(cur: Seq<char>, dir: Seq<char>, name: Seq<char>)
    requires
        !name.contains('/'),
    ensures
        split_from(cur, dir + "/"@ + name, '/') == split_from(cur, dir, '/').push(name),
    decreases dir.len(),
{
    reveal_strlit("/");
    let whole = dir + "/"@ + name;
    if dir.len() == 0 {
        assert(whole.skip(1) =~= name);
        lemma_split_plain(Seq::empty(), name);
        assert(Seq::empty() + name =~= name);
        assert(split_from(cur, whole, '/') =~= seq![cur].push(name));
    } else {
        assert(whole.skip(1) =~= dir.skip(1) + "/"@ + name);
        if dir[0] == '/' {
            lemma_split_name(Seq::empty(), dir.skip(1), name);
            assert(split_from(cur, whole, '/') =~= split_from(cur, dir, '/').push(name));
        } else {
            lemma_split_name(cur.push(dir[0]), dir.skip(1), name);
        }
    }
}

pub(crate) proof fn lemma_split_plain(cur: Seq<char>, name: Seq<char>)
    requires
        !name.contains('/'),
    ensures
        split_from(cur, name, '/') == seq![cur + name],
    decreases name.len(),
{
    if name.len() == 0 {
        assert(cur + name =~= cur);
    } else {
        let rest = name.skip(1);
        assert(!rest.contains('/')) by {
            if rest.contains('/') {
                let i = choose|i: int| 0 <= i < rest.len() && rest[i] == '/';
                assert(name[i + 1] == '/');
            }
        }
        assert(name[0] != '/');
        lemma_split_plain(cur.push(name[0]), rest);
        assert(cur.push(name[0]) + rest =~= cur + name);
    }
}

proof fn lemma_named(segs: Seq<Seq<char>>, name: Seq<char>)
    requires
        !name.contains('/'),
    ensures
        base_of(absolute(segs.push(name))) == name,
{
    reveal_strlit("/");
    let all = segs.push(name);
    let dir = if segs.len() == 0 {
        Seq::empty()
    } else {
        "/"@ + join(segs, "/"@)
    };
    assert(all.drop_last() =~= segs);
    assert(absolute(all) =~= dir + "/"@ + name);
    lemma_last_slash(absolute(all));
    assert(absolute(all)[dir.len() as int] == '/');
    assert forall|j: int| dir.len() < j < absolute(all).len() implies absolute(all)[j] != '/' by {
        assert(absolute(all)[j] == name[j - dir.len() - 1]);
    }
    assert(absolute(all).skip(dir.len() + 1int) =~= name);
}

/// A target leads to a path with the base name of the target, wherever the link stands.
pub proof fn law_resolved_name(target: Seq<char>, source: Seq<char>, root: Seq<char>)
    requires
        proper(base_of(target)),
    ensures
        resolved(target, source, root) matches Some(p) ==> base_of(p) == base_of(target),
        resolved_strictly(target, root) matches Some(p) ==> base_of(p) == base_of(target),
{
    reveal_strlit("/");
    let name = base_of(target);
    let top = fold(segments(root), false).0;
    law_dir_base(target);
    let whole = combined(target, dir_of(source), root);
    let dir = if target.contains('/') {
        if begins_with(target, "/"@) {
            root + dir_of(target)
        } else {
            dir_of(source) + "/"@ + dir_of(target)
        }
    } else {
        dir_of(source)
    };
    if !target.contains('/') && begins_with(target, "/"@) {
        assert(target[0] == target.take(1)[0]);
    }
    assert(whole =~= dir + "/"@ + name);
    law_fold_modes(segments(dir));
    lemma_folded_name(dir, name, false);
    lemma_named(fold(segments(dir), false).0, name);
    if target.contains('/') {
        let left = fold(segments(dir_of(target)), true).0;
        assert(target =~= dir_of(target) + "/"@ + name);
        lemma_folded_name(dir_of(target), name, true);
        assert(top + left.push(name) =~= (top + left).push(name));
        lemma_named(top + left, name);
    } else {
        lemma_lone_name(name);
        law_fold_fixed(seq![name], true);
        assert(top + seq![name] =~= top.push(name));
        lemma_named(top, name);
    }
}

proof fn lemma_lone_name(name: Seq<char>)
    requires
        proper(name),
    ensures
        segments(name) == seq![name],
{
    lemma_split_plain(Seq::empty(), name);
    assert(Seq::empty() + name =~= name);
    let one = seq![name];
    assert(one.drop_last() =~= Seq::empty());
    assert(drop_empty(Seq::<Seq<char>>::empty()) =~= Seq::empty());
    assert(drop_empty(one) =~= one);
}

proof fn lemma_folded_name(dir: Seq<char>, name: Seq<char>, strict: bool)
    requires
        proper(name),
    ensures
        ({
            let (left, escaped) = fold(segments(dir), strict);
            fold(segments(dir + "/"@ + name), strict) == if escaped {
                (left, escaped)
            } else {
                (left.push(name), false)
            }
        }),
{
    lemma_split_name(Seq::empty(), dir, name);
    let ps = split(dir, '/');
    assert(ps.push(name).drop_last() =~= ps);
    assert(segments(dir + "/"@ + name) == segments(dir).push(name));
    assert(segments(dir).push(name).drop_last() =~= segments(dir));
}

pub(crate) proof fn lemma_join_add(a: Seq<Seq<char>>, b: Seq<Seq<char>>, sep: Seq<char>)
    requires
        a.len() > 0,
        b.len() > 0,
    ensures
        join(a + b, sep) == join(a, sep) + sep + join(b, sep),
    decreases b.len(),
{
    let all = a + b;
    assert(all.drop_last() =~= a + b.drop_last());
    assert(all.last() == b.last());
    if b.len() == 1 {
        assert(all.drop_last() =~= a);
        assert(join(b, sep) == b[0]);
    } else {
        lemma_join_add(a, b.drop_last(), sep);
        assert(join(all, sep) =~= join(a, sep) + sep + join(b, sep));
    }
}

/// The segments of the path made of segments are those.
pub(crate) proof fn lemma_segments_of_absolute(segs: Seq<Seq<char>>)
    requires
        forall|i: int| 0 <= i < segs.len() ==> plain(#[trigger] segs[i]),
    ensures
        segments(absolute(segs)) == segs,
    decreases segs.len(),
{
    reveal_strlit("/");
    if segs.len() == 0 {
        assert(absolute(segs) =~= "/"@ + Seq::<char>::empty());
        lemma_split_name(Seq::empty(), Seq::empty(), Seq::empty());
        assert(Seq::<char>::empty() + "/"@ + Seq::<char>::empty() =~= absolute(segs));
        let ps = split(absolute(segs), '/');
        assert(ps =~= seq![Seq::<char>::empty(), Seq::<char>::empty()]);
        assert(ps.drop_last() =~= seq![Seq::<char>::empty()]);
        assert(ps.drop_last().drop_last() =~= Seq::<Seq<char>>::empty());
        assert(drop_empty(ps.drop_last().drop_last()) =~= segs);
        assert(drop_empty(ps.drop_last()) =~= segs);
    } else {
        let before = segs.drop_last();
        let name = segs.last();
        assert(plain(segs[segs.len() - 1]));
        assert forall|i: int| 0 <= i < before.len() implies plain(#[trigger] before[i]) by {
            assert(before[i] == segs[i]);
        }
        lemma_segments_of_absolute(before);
        let dir = if before.len() == 0 {
            Seq::empty()
        } else {
            absolute(before)
        };
        assert(absolute(segs) =~= dir + "/"@ + name);
        lemma_split_name(Seq::empty(), dir, name);
        let ps = split(dir, '/');
        assert(ps.push(name).drop_last() =~= ps);
        if before.len() == 0 {
            assert(ps =~= seq![Seq::<char>::empty()]);
            assert(ps.drop_last() =~= Seq::<Seq<char>>::empty());
            assert(drop_empty(Seq::<Seq<char>>::empty()) =~= before);
            assert(drop_empty(ps) =~= before);
        }
        assert(segments(absolute(segs)) =~= segs);
    }
}

/// From the canonical root of a repository, a target leads below the root unless it climbs
/// above it, and then nowhere.
pub proof fn law_from_canonical_root(target: Seq<char>, top: Seq<Seq<char>>)
    requires
        all_proper(top),
        top.len() > 0,
    ensures
        ({
            let (left, escaped) = fold(segments(target), true);
            resolved_strictly(target, absolute(top)) == if escaped {
                None
            } else {
                Some(absolute(top + left))
            }
        }),
{
    reveal_strlit("/");
    let root = absolute(top);
    let (left, escaped) = fold(segments(target), true);
    assert forall|i: int| 0 <= i < top.len() implies plain(#[trigger] top[i]) by {
        assert(proper(top[i]));
    }
    lemma_segments_of_absolute(top);
    law_fold_fixed(top, false);
    let path = absolute(top + left);
    if left.len() == 0 {
        assert(top + left =~= top);
    } else {
        lemma_join_add(top, left, "/"@);
        assert(path =~= root + "/"@ + join(left, "/"@));
        assert(path.take(root.len() as int) =~= root);
        assert(path[root.len() as int] == '/');
    }
}

/// A canonical path below the root is where its relative path leads from there.
pub proof fn law_relative_leads_back(top: Seq<Seq<char>>, below: Seq<Seq<char>>)
    requires
        all_proper(top),
        all_proper(below),
        top.len() > 0,
        below.len() > 0,
    ensures
        rel_of(absolute(top + below), absolute(top)) == Some(join(below, "/"@)),
        resolved_strictly(join(below, "/"@), absolute(top)) == Some(absolute(top + below)),
{
    reveal_strlit("/");
    let root = absolute(top);
    let rel = join(below, "/"@);
    lemma_join_add(top, below, "/"@);
    let path = absolute(top + below);
    assert(path =~= root + seq!['/'] + rel);
    crate::path::law_rel_path(root, rel, path);
    assert(segments(rel) == below) by {
        assert forall|i: int| 0 <= i < below.len() implies plain(#[trigger] below[i]) by {
            assert(proper(below[i]));
        }
        lemma_segments_of_absolute(below);
        lemma_leading_slash(rel);
        assert(absolute(below) =~= seq!['/'] + rel);
    }
    law_fold_fixed(below, true);
    law_from_canonical_root(rel, top);
}

/// A leading slash adds no segment.
proof fn lemma_leading_slash(rest: Seq<char>)
    ensures
        segments(seq!['/'] + rest) == segments(rest),
{
    let whole = seq!['/'] + rest;
    assert(whole.skip(1) =~= rest);
    let ps = split(rest, '/');
    assert(split(whole, '/') == seq![Seq::<char>::empty()] + ps);
    lemma_drop_first_empty(ps);
}

proof fn lemma_drop_first_empty(ps: Seq<Seq<char>>)
    ensures
        drop_empty(seq![Seq::<char>::empty()] + ps) == drop_empty(ps),
    decreases ps.len(),
{
    let all = seq![Seq::<char>::empty()] + ps;
    if ps.len() == 0 {
        assert(all.drop_last() =~= ps);
    } else {
        assert(all.drop_last() =~= seq![Seq::<char>::empty()] + ps.drop_last());
        lemma_drop_first_empty(ps.drop_last());
    }
}

/// The directory of a path made of segments.
proof fn lemma_dir_of_absolute(dir: Seq<Seq<char>>, name: Seq<char>)
    requires
        !name.contains('/'),
    ensures
        dir_of(absolute(dir.push(name))) + "/"@ + name == absolute(dir.push(name)),
        dir_of(absolute(dir.push(name))) == if dir.len() == 0 {
            Seq::<char>::empty()
        } else {
            absolute(dir)
        },
{
    reveal_strlit("/");
    let all = dir.push(name);
    let path = absolute(all);
    let head = if dir.len() == 0 {
        Seq::empty()
    } else {
        absolute(dir)
    };
    assert(all.drop_last() =~= dir);
    assert(path =~= head + "/"@ + name);
    lemma_last_slash(path);
    assert(path[head.len() as int] == '/');
    assert forall|j: int| head.len() < j < path.len() implies path[j] != '/' by {
        assert(path[j] == name[j - head.len() - 1]);
    }
    assert(path.take(head.len() as int) =~= head);
}

/// From a file below the root, a bare name leads to the file of that name beside it.
pub proof fn law_name_beside(name: Seq<char>, top: Seq<Seq<char>>, inner: Seq<Seq<char>>)
    requires
        proper(name),
        all_proper(top),
        all_proper(inner),
        top.len() > 0,
        inner.len() > 0,
    ensures
        resolved(name, absolute(top + inner), absolute(top)) == Some(
            absolute(top + inner.drop_last().push(name)),
        ),
{
    reveal_strlit("/");
    assert(!begins_with(name, "/"@)) by {
        if begins_with(name, "/"@) {
            assert(name[0] == name.take(1)[0]);
        }
    }
    let dir = top + inner.drop_last();
    let last = inner.last();
    assert(proper(inner[inner.len() - 1]));
    assert(dir.push(last) =~= top + inner);
    lemma_dir_of_absolute(dir, last);
    assert(all_proper(dir)) by {
        assert forall|i: int| 0 <= i < dir.len() implies proper(#[trigger] dir[i]) by {
            if i < top.len() {
                assert(dir[i] == top[i]);
            } else {
                assert(dir[i] == inner[i - top.len()]);
            }
        }
    }
    assert forall|i: int| 0 <= i < dir.len() implies plain(#[trigger] dir[i]) by {
        assert(proper(dir[i]));
    }
    lemma_segments_of_absolute(dir);
    lemma_folded_name(absolute(dir), name, false);
    law_fold_fixed(dir, false);
    let below = inner.drop_last().push(name);
    assert(dir.push(name) =~= top + below);
    lemma_join_add(top, below, "/"@);
    assert(absolute(top + below) =~= absolute(top) + seq!['/'] + join(below, "/"@));
    crate::path::law_rel_path(absolute(top), join(below, "/"@), absolute(top + below));
}

} // verus!
