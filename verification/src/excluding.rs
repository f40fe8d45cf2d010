//! Which paths are left out: what each form of pattern matches, and what goes into an index.
use crate::ascii::{
    BACKSLASH, BANG, CARET, CLOSE_BRACKET, COLON, HYPHEN, OPEN_BRACKET, QUESTION, SLASH, STAR,
};
use crate::discovery::{
    bare_only, effective, enters, index_of, indexed, inside, law_md_files, markdown_name, rel_name,
    EntryKind,
};
use crate::exclude::{
    any_excludes, default_patterns, globby, law_plan_is_any_pattern, name_excludes,
    pattern_excludes, Plan,
};
use crate::glob::{
    class_items, class_name_end, fits, glob_matches, named_class, named_class_at, ordinary,
    piece_fits, pieces_from, plain_at, ClassView, PieceView,
};
use crate::judging::ends_in_md;
use crate::leading::law_begins_and_ends;
use crate::path::{base_of, law_decode_encode, law_dir_base};
use crate::text::{begins_with, join, segments};
use vstd::prelude::*;
use vstd::utf8::encode_utf8;

verus! {

/// Pieces one behind the other match a name when it can be cut so that the first match what
/// comes before the cut and the others what comes behind it.
pub proof fn law_pieces_in_turn(ps: Seq<PieceView>, qs: Seq<PieceView>, name: Seq<u8>)
    ensures
        fits(ps + qs, name) <==> exists|k: int|
            0 <= k <= name.len() && fits(ps, #[trigger] name.take(k)) && fits(qs, name.skip(k)),
    decreases ps.len(), name.len(),
{
    let all = ps + qs;
    if ps.len() == 0 {
        assert(all =~= qs);
        assert(name.take(0).len() == 0);
        assert(name.skip(0) =~= name);
        if fits(all, name) {
            assert(fits(ps, name.take(0)) && fits(qs, name.skip(0)));
        }
        if exists|k: int|
            0 <= k <= name.len() && fits(ps, #[trigger] name.take(k)) && fits(qs, name.skip(k)) {
            let k = choose|k: int|
                0 <= k <= name.len() && fits(ps, #[trigger] name.take(k)) && fits(qs, name.skip(k));
            assert(name.take(k).len() == k);
        }
    } else {
        let rest = ps.skip(1);
        assert(all[0] == ps[0]);
        assert(all.skip(1) =~= rest + qs);
        if ps[0] is Run {
            law_pieces_in_turn(rest, qs, name);
            if name.len() > 0 {
                law_pieces_in_turn(ps, qs, name.skip(1));
            }
            if fits(all, name) {
                if fits(rest + qs, name) {
                    let k = choose|k: int|
                        0 <= k <= name.len() && fits(rest, #[trigger] name.take(k)) && fits(
                            qs,
                            name.skip(k),
                        );
                    assert(fits(ps, name.take(k)));
                } else {
                    let tail = name.skip(1);
                    let k = choose|k: int|
                        0 <= k <= tail.len() && fits(ps, #[trigger] tail.take(k)) && fits(
                            qs,
                            tail.skip(k),
                        );
                    assert(name.take(k + 1).skip(1) =~= tail.take(k));
                    assert(name.skip(k + 1) =~= tail.skip(k));
                    assert(name.take(k + 1)[0] == name[0]);
                    assert(fits(ps, name.take(k + 1)));
                }
            }
            if exists|k: int|
                0 <= k <= name.len() && fits(ps, #[trigger] name.take(k)) && fits(
                    qs,
                    name.skip(k),
                ) {
                let k = choose|k: int|
                    0 <= k <= name.len() && fits(ps, #[trigger] name.take(k)) && fits(
                        qs,
                        name.skip(k),
                    );
                let head = name.take(k);
                if fits(rest, head) {
                    assert(fits(rest + qs, name));
                } else {
                    let tail = name.skip(1);
                    assert(head[0] == name[0]);
                    assert(head.skip(1) =~= tail.take(k - 1));
                    assert(name.skip(k) =~= tail.skip(k - 1));
                    assert(fits(all, tail));
                }
            }
        } else {
            if name.len() > 0 {
                let tail = name.skip(1);
                law_pieces_in_turn(rest, qs, tail);
                if fits(all, name) {
                    let k = choose|k: int|
                        0 <= k <= tail.len() && fits(rest, #[trigger] tail.take(k)) && fits(
                            qs,
                            tail.skip(k),
                        );
                    assert(name.take(k + 1).skip(1) =~= tail.take(k));
                    assert(name.skip(k + 1) =~= tail.skip(k));
                    assert(name.take(k + 1)[0] == name[0]);
                    assert(fits(ps, name.take(k + 1)));
                }
                if exists|k: int|
                    0 <= k <= name.len() && fits(ps, #[trigger] name.take(k)) && fits(
                        qs,
                        name.skip(k),
                    ) {
                    let k = choose|k: int|
                        0 <= k <= name.len() && fits(ps, #[trigger] name.take(k)) && fits(
                            qs,
                            name.skip(k),
                        );
                    assert(name.take(k)[0] == name[0]);
                    assert(name.take(k).skip(1) =~= tail.take(k - 1));
                    assert(name.skip(k) =~= tail.skip(k - 1));
                }
            } else {
                assert forall|k: int| 0 <= k <= name.len() implies !fits(
                    ps,
                    #[trigger] name.take(k),
                ) by {
                    assert(name.take(k).len() == 0);
                }
            }
        }
    }
}

/// A piece by itself matches: a byte, itself; `?`, any byte but a slash; `*`, any bytes but
/// slashes; a bracket expression, a byte, not a slash, that is in one of its ranges, or in
/// none when it is negated.
pub proof fn law_piece_alone(b: u8, negated: bool, ranges: Seq<(u8, u8)>, name: Seq<u8>)
    ensures
        fits(seq![PieceView::Byte(b)], name) <==> name == seq![b],
        fits(seq![PieceView::One], name) <==> name.len() == 1 && name[0] != SLASH,
        fits(seq![PieceView::Run], name) <==> !name.contains(SLASH),
        fits(seq![PieceView::Class(negated, ranges)], name) <==> name.len() == 1 && name[0] != SLASH
            && ((exists|i: int|
            0 <= i < ranges.len() && (#[trigger] ranges[i]).0 <= name[0] <= ranges[i].1)
            != negated),
        !fits(seq![PieceView::Never], name),
{
    lemma_one_piece(PieceView::Byte(b), name);
    lemma_one_piece(PieceView::One, name);
    lemma_one_piece(PieceView::Class(negated, ranges), name);
    lemma_one_piece(PieceView::Never, name);
    lemma_run_alone(name);
    if name.len() == 1 {
        assert(name =~= seq![name[0]]);
        if name == seq![b] {
            assert(seq![b][0] == b);
        }
    }
}

proof fn lemma_one_piece(p: PieceView, name: Seq<u8>)
    requires
        !(p is Run),
    ensures
        fits(seq![p], name) == (name.len() == 1 && piece_fits(p, name[0])),
{
    let one = seq![p];
    assert(one[0] == p);
    assert(one.skip(1).len() == 0);
    if name.len() > 0 {
        assert(fits(one.skip(1), name.skip(1)) == (name.skip(1).len() == 0));
    }
}

proof fn lemma_run_alone(name: Seq<u8>)
    ensures
        fits(seq![PieceView::Run], name) <==> !name.contains(SLASH),
    decreases name.len(),
{
    let one = seq![PieceView::Run];
    assert(one.skip(1).len() == 0);
    assert(fits(one.skip(1), name) == (name.len() == 0));
    if name.len() > 0 {
        let tail = name.skip(1);
        lemma_run_alone(tail);
        if tail.contains(SLASH) {
            let k = choose|k: int| 0 <= k < tail.len() && tail[k] == SLASH;
            assert(name[k + 1] == SLASH);
        }
        if name.contains(SLASH) && name[0] != SLASH {
            let k = choose|k: int| 0 <= k < name.len() && name[k] == SLASH;
            assert(tail[k - 1] == SLASH);
        }
        if name[0] == SLASH {
            assert(name.contains(SLASH));
        }
    }
}

/// How a pattern falls into pieces, from the byte at `i` on: `*` and `?` are what they are, a
/// backslash takes the meaning from the byte behind it, and other bytes stand for themselves.
pub proof fn law_next_piece(p: Seq<u8>, i: int)
    requires
        0 <= i < p.len(),
    ensures
        p[i] == STAR ==> pieces_from(p, i) == seq![PieceView::Run] + pieces_from(p, i + 1),
        p[i] == QUESTION ==> pieces_from(p, i) == seq![PieceView::One] + pieces_from(p, i + 1),
        ordinary(p[i]) ==> pieces_from(p, i) == seq![PieceView::Byte(p[i])] + pieces_from(p, i + 1),
        p[i] == BACKSLASH && i + 1 < p.len() ==> pieces_from(p, i) == seq![
            PieceView::Byte(p[i + 1]),
        ] + pieces_from(p, i + 2),
{
}

/// A byte that has no meaning of its own inside brackets.
pub open spec fn listed(b: u8) -> bool {
    b != CLOSE_BRACKET && b != OPEN_BRACKET && b != BACKSLASH && b != SLASH && b != HYPHEN && b
        != BANG && b != CARET
}

/// The bytes `from..to`, each as a range of one.
pub open spec fn each_alone(p: Seq<u8>, from: int, to: int) -> Seq<(u8, u8)> {
    Seq::new((to - from) as nat, |k: int| (p[from + k], p[from + k]))
}

/// Bytes listed in brackets, which may be negated by `!` or `^`, are a bracket expression of
/// just these.
pub proof fn law_bracket_list(p: Seq<u8>, i: int, e: int)
    requires
        0 <= i && i + 1 < e < p.len(),
        p[i] == OPEN_BRACKET && p[e] == CLOSE_BRACKET,
        forall|k: int| i + 2 <= k < e ==> listed(#[trigger] p[k]),
        listed(p[i + 1]) || ((p[i + 1] == BANG || p[i + 1] == CARET) && i + 2 < e),
    ensures
        ({
            let negated = p[i + 1] == BANG || p[i + 1] == CARET;
            let first = if negated {
                i + 2
            } else {
                i + 1
            };
            pieces_from(p, i) == seq![PieceView::Class(negated, each_alone(p, first, e))]
                + pieces_from(p, e + 1)
        }),
{
    let negated = p[i + 1] == BANG || p[i + 1] == CARET;
    let first = if negated {
        i + 2
    } else {
        i + 1
    };
    assert(each_alone(p, first, first) =~= Seq::empty());
    lemma_listed(p, first, first, e);
}

proof fn lemma_listed(p: Seq<u8>, first: int, j: int, e: int)
    requires
        0 <= first <= j <= e < p.len(),
        first < e,
        p[e] == CLOSE_BRACKET,
        forall|k: int| first <= k < e ==> listed(#[trigger] p[k]),
    ensures
        class_items(p, first, j, each_alone(p, first, j)) == ClassView::Closed(
            each_alone(p, first, e),
            e + 1,
        ),
    decreases e - j,
{
    if j < e {
        assert(listed(p[j]));
        if j + 1 < e {
            assert(listed(p[j + 1]));
        }
        assert(each_alone(p, first, j).push((p[j], p[j])) =~= each_alone(p, first, j + 1));
        lemma_listed(p, first, j + 1, e);
    }
}

/// Two bytes with a hyphen between them in brackets are the bytes from the one to the other.
pub proof fn law_bracket_range(p: Seq<u8>, i: int)
    requires
        0 <= i && i + 4 < p.len(),
        p[i] == OPEN_BRACKET && listed(p[i + 1]) && p[i + 2] == HYPHEN && listed(p[i + 3]) && p[i
            + 4] == CLOSE_BRACKET,
    ensures
        pieces_from(p, i) == seq![PieceView::Class(false, seq![(p[i + 1], p[i + 3])])]
            + pieces_from(p, i + 5),
{
    let none = Seq::<(u8, u8)>::empty();
    let one = none.push((p[i + 1], p[i + 3]));
    assert(one =~= seq![(p[i + 1], p[i + 3])]);
    assert(class_items(p, i + 1, i + 4, one) == ClassView::Closed(one, i + 5));
    assert(class_items(p, i + 1, i + 1, none) == ClassView::Closed(one, i + 5));
}

/// A glob matches a name when its pieces do.
pub proof fn law_glob(pattern: Seq<u8>, name: Seq<u8>)
    requires
        !pattern.contains(0),
        !name.contains(0),
    ensures
        glob_matches(pattern, name) <==> fits(pieces_from(pattern, 0), name),
        pieces_from(pattern, pattern.len() as int) == Seq::<PieceView>::empty(),
{
}

/// A star between ordinary bytes matches what starts with those before it and ends with those
/// behind it, with no slash in between.
pub proof fn law_star(a: Seq<u8>, b: Seq<u8>, name: Seq<u8>)
    requires
        forall|k: int| 0 <= k < a.len() ==> ordinary(#[trigger] a[k]),
        forall|k: int| 0 <= k < b.len() ==> ordinary(#[trigger] b[k]),
        !name.contains(0),
    ensures
        glob_matches(a + seq![STAR] + b, name) <==> exists|x: Seq<u8>|
            !x.contains(SLASH) && name == #[trigger] (a + x + b),
{
    let p = a + seq![STAR] + b;
    let n = a.len() as int;
    assert forall|k: int| 0 <= k < n implies p[k] == a[k] by {}
    assert forall|k: int| n < k < p.len() implies p[k] == b[k - n - 1] by {}
    assert(p[n] == STAR);
    assert(!p.contains(0)) by {
        if p.contains(0) {
            let k = choose|k: int| 0 <= k < p.len() && p[k] == 0;
            if k < n {
                assert(ordinary(a[k]));
            } else if k > n {
                assert(ordinary(b[k - n - 1]));
            }
        }
    }
    lemma_literal(p, 0, n, a, 0);
    lemma_literal(p, n + 1, p.len() as int, b, n + 1);
    let run = seq![PieceView::Run];
    let front = letters(a);
    let back = letters(b);
    assert(pieces_from(p, n) == run + pieces_from(p, n + 1));
    assert(pieces_from(p, p.len() as int) =~= Seq::<PieceView>::empty());
    assert(pieces_from(p, n + 1) =~= back);
    assert(pieces_from(p, 0) =~= front + (run + back));
    law_pieces_in_turn(front, run + back, name);
    if glob_matches(p, name) {
        let k = choose|k: int|
            0 <= k <= name.len() && fits(front, #[trigger] name.take(k)) && fits(
                run + back,
                name.skip(k),
            );
        let rest = name.skip(k);
        law_pieces_in_turn(run, back, rest);
        let m = choose|m: int|
            0 <= m <= rest.len() && fits(run, #[trigger] rest.take(m)) && fits(back, rest.skip(m));
        lemma_letters(a, name.take(k));
        lemma_letters(b, rest.skip(m));
        lemma_run_alone(rest.take(m));
        let x = rest.take(m);
        assert(name =~= a + x + b);
    }
    if exists|x: Seq<u8>| !x.contains(SLASH) && name == #[trigger] (a + x + b) {
        let x = choose|x: Seq<u8>| !x.contains(SLASH) && name == #[trigger] (a + x + b);
        let rest = name.skip(n);
        assert(name.take(n) =~= a);
        assert(rest.take(x.len() as int) =~= x);
        assert(rest.skip(x.len() as int) =~= b);
        lemma_letters(a, a);
        lemma_letters(b, b);
        lemma_run_alone(x);
        law_pieces_in_turn(run, back, rest);
        assert(fits(run + back, rest));
    }
}

/// The bytes, each standing for itself.
pub open spec fn letters(s: Seq<u8>) -> Seq<PieceView> {
    Seq::new(s.len(), |k: int| PieceView::Byte(s[k]))
}

proof fn lemma_letters(s: Seq<u8>, name: Seq<u8>)
    ensures
        fits(letters(s), name) == (name == s),
    decreases s.len(),
{
    if s.len() == 0 {
        if name.len() == 0 {
            assert(name =~= s);
        }
    } else {
        let rest = s.skip(1);
        assert(letters(s).skip(1) =~= letters(rest));
        if name.len() > 0 {
            lemma_letters(rest, name.skip(1));
            if name[0] == s[0] && name.skip(1) == rest {
                assert(name =~= seq![name[0]] + name.skip(1));
                assert(s =~= seq![s[0]] + rest);
            }
        }
    }
}

proof fn lemma_literal(p: Seq<u8>, i: int, e: int, s: Seq<u8>, off: int)
    requires
        0 <= off <= i <= e <= p.len(),
        e == off + s.len(),
        forall|k: int| off <= k < e ==> #[trigger] p[k] == s[k - off],
        forall|k: int| 0 <= k < s.len() ==> ordinary(#[trigger] s[k]),
    ensures
        pieces_from(p, i) == letters(s.skip(i - off)) + pieces_from(p, e),
    decreases e - i,
{
    let here = s.skip(i - off);
    if i < e {
        assert(p[i] == s[i - off]);
        assert(ordinary(s[i - off]));
        lemma_literal(p, i + 1, e, s, off);
        assert(letters(here) =~= seq![PieceView::Byte(p[i])] + letters(s.skip(i + 1 - off)));
        assert(pieces_from(p, i) =~= letters(here) + pieces_from(p, e));
    } else {
        assert(letters(here) =~= Seq::<PieceView>::empty());
        assert(pieces_from(p, i) =~= letters(here) + pieces_from(p, e));
    }
    if i == off {
        assert(s.skip(0) =~= s);
    }
}

/// The pattern has a star, a question mark or an opening bracket.
pub open spec fn wild(p: Seq<char>) -> bool {
    exists|i: int|
        0 <= i < p.len() && (#[trigger] p[i] == '*' || p[i] == '?' || p[i] == '[')
}

proof fn lemma_wild(p: Seq<char>)
    ensures
        globby(p) == wild(p),
        wild(p.push('/')) == wild(p),
{
    if wild(p) {
        let i = choose|i: int|
            0 <= i < p.len() && (#[trigger] p[i] == '*' || p[i] == '?' || p[i] == '[');
        assert(p.contains(p[i]));
        assert(p.push('/')[i] == p[i]);
    }
    if globby(p) {
        let c = if p.contains('*') {
            '*'
        } else if p.contains('?') {
            '?'
        } else {
            '['
        };
        let i = choose|i: int| 0 <= i < p.len() && p[i] == c;
        assert(p[i] == c);
    }
    if wild(p.push('/')) {
        let q = p.push('/');
        let i = choose|i: int|
            0 <= i < q.len() && (#[trigger] q[i] == '*' || q[i] == '?' || q[i] == '[');
        assert(p[i] == q[i]);
    }
}

/// A plain pattern excludes the path that it is, from the root, and what lies below it.
pub proof fn law_plain_pattern(p: Seq<char>, rel: Seq<char>, base: Option<Seq<char>>)
    requires
        !wild(p),
        p.len() == 0 || p.last() != '/',
    ensures
        pattern_excludes(p, rel, base) <==> rel == p || exists|r: Seq<char>|
            rel == p + seq!['/'] + r,
{
    reveal_strlit("/");
    lemma_wild(p);
    lemma_below(p, rel);
}

proof fn lemma_below(p: Seq<char>, rel: Seq<char>)
    ensures
        begins_with(rel, p + "/"@) <==> exists|r: Seq<char>| rel == p + seq!['/'] + r,
{
    reveal_strlit("/");
    law_begins_and_ends(rel, p + "/"@);
    assert(p + "/"@ =~= p + seq!['/']);
}

/// A path with a slash behind it excludes what lies below it, from the root alone.
pub proof fn law_anchored_pattern(dir: Seq<char>, rel: Seq<char>, base: Option<Seq<char>>)
    requires
        !wild(dir),
        dir.contains('/'),
    ensures
        pattern_excludes(dir.push('/'), rel, base) <==> exists|r: Seq<char>|
            rel == dir + seq!['/'] + r,
{
    reveal_strlit("/");
    let p = dir.push('/');
    lemma_wild(dir);
    lemma_wild(p);
    assert(p.drop_last() =~= dir);
    assert(p =~= dir + "/"@);
    lemma_below(dir, rel);
}

/// A bare name with a slash behind it excludes every path that it is a segment of, and what
/// goes by it, and nothing else.
pub proof fn law_bare_pattern(name: Seq<char>, rel: Seq<char>, base: Option<Seq<char>>)
    requires
        !wild(name),
        !name.contains('/'),
    ensures
        pattern_excludes(name.push('/'), rel, base) <==> base == Some(name) || exists|i: int|
            0 <= i < segments(rel).len() && #[trigger] segments(rel)[i] == name,
{
    let p = name.push('/');
    lemma_wild(name);
    lemma_wild(p);
    assert(p.drop_last() =~= name);
}

/// A glob excludes the paths that it matches as a whole. One with a slash behind it excludes
/// what lies below the directories that it matches.
pub proof fn law_glob_pattern(p: Seq<char>, rel: Seq<char>, base: Option<Seq<char>>)
    requires
        wild(p),
        p.last() != '/',
    ensures
        pattern_excludes(p, rel, base) <==> glob_matches(encode_utf8(p), encode_utf8(rel)),
        pattern_excludes(p.push('/'), rel, base) <==> ({
            let n = segments(p).len() as int;
            segments(rel).len() > n && glob_matches(
                encode_utf8(p),
                encode_utf8(join(segments(rel).take(n), "/"@)),
            )
        }),
{
    lemma_wild(p);
    lemma_wild(p.push('/'));
    assert(p.push('/').drop_last() =~= p);
    assert(p.push('/').last() == '/');
}

/// One of several patterns is enough.
pub proof fn law_any_pattern(
    ps: Seq<Seq<char>>,
    p: Seq<char>,
    rel: Seq<char>,
    base: Option<Seq<char>>,
)
    ensures
        any_excludes(ps.push(p), rel, base) <==> any_excludes(ps, rel, base) || pattern_excludes(
            p,
            rel,
            base,
        ),
        !any_excludes(Seq::empty(), rel, base),
{
    let qs = ps.push(p);
    if any_excludes(ps, rel, base) {
        let i = choose|i: int| 0 <= i < ps.len() && pattern_excludes(#[trigger] ps[i], rel, base);
        assert(pattern_excludes(qs[i], rel, base));
    }
    if pattern_excludes(p, rel, base) {
        assert(pattern_excludes(qs[ps.len() as int], rel, base));
    }
    if any_excludes(qs, rel, base) {
        let i = choose|i: int| 0 <= i < qs.len() && pattern_excludes(#[trigger] qs[i], rel, base);
        if i < ps.len() {
            assert(pattern_excludes(ps[i], rel, base));
        }
    }
}

/// The names of the directories that are left out unless asked for.
pub open spec fn usually_skipped(name: Seq<char>) -> bool {
    name == ".git"@ || name == ".svn"@ || name == ".hg"@ || name == "node_modules"@ || name
        == ".build"@ || name == "DerivedData"@ || name == "Library"@ || name == "Pods"@ || name
        == "target"@ || name == "vendor"@ || name == ".venv"@ || name == "__pycache__"@
}

/// The built-in patterns exclude a path exactly when one of its segments, or its base name, is
/// one of these names.
pub proof fn law_default_excludes(rel: Seq<char>, base: Option<Seq<char>>)
    ensures
        any_excludes(default_patterns(), rel, base) <==> (base is Some && usually_skipped(base->0))
            || exists|i: int|
            0 <= i < segments(rel).len() && usually_skipped(#[trigger] segments(rel)[i]),
{
    lemma_names_of_defaults();
    let ps = default_patterns();
    let names = skipped_names();
    assert forall|k: int| 0 <= k < 12 implies pattern_excludes(#[trigger] ps[k], rel, base) == (base
        == Some(names[k]) || exists|i: int|
        0 <= i < segments(rel).len() && #[trigger] segments(rel)[i] == names[k]) by {
        assert(ps[k] == names[k].push('/') && !wild(names[k]) && !names[k].contains('/'));
        law_bare_pattern(names[k], rel, base);
    }
    if any_excludes(ps, rel, base) {
        let k = choose|k: int| 0 <= k < ps.len() && pattern_excludes(#[trigger] ps[k], rel, base);
        assert(usually_skipped(names[k]));
        if base != Some(names[k]) {
            let i = choose|i: int|
                0 <= i < segments(rel).len() && #[trigger] segments(rel)[i] == names[k];
            assert(usually_skipped(segments(rel)[i]));
        }
    }
    if base is Some && usually_skipped(base->0) {
        let k = choose|k: int| 0 <= k < 12 && names[k] == base->0;
        assert(names[k] == base->0) by {
            lemma_which(base->0);
        }
        assert(pattern_excludes(ps[k], rel, base));
    }
    if exists|i: int| 0 <= i < segments(rel).len() && usually_skipped(#[trigger] segments(rel)[i]) {
        let i = choose|i: int|
            0 <= i < segments(rel).len() && usually_skipped(#[trigger] segments(rel)[i]);
        lemma_which(segments(rel)[i]);
        let k = choose|k: int| 0 <= k < 12 && names[k] == segments(rel)[i];
        assert(segments(rel)[i] == names[k]);
        assert(pattern_excludes(ps[k], rel, base));
    }
}

spec fn skipped_names() -> Seq<Seq<char>> {
    seq![
        ".git"@,
        ".svn"@,
        ".hg"@,
        "node_modules"@,
        ".build"@,
        "DerivedData"@,
        "Library"@,
        "Pods"@,
        "target"@,
        "vendor"@,
        ".venv"@,
        "__pycache__"@,
    ]
}

proof fn lemma_which(name: Seq<char>)
    requires
        usually_skipped(name),
    ensures
        exists|k: int| 0 <= k < 12 && skipped_names()[k] == name,
{
    let s = skipped_names();
    assert(s[0] == ".git"@ && s[1] == ".svn"@ && s[2] == ".hg"@ && s[3] == "node_modules"@ && s[4]
        == ".build"@ && s[5] == "DerivedData"@ && s[6] == "Library"@ && s[7] == "Pods"@ && s[8]
        == "target"@ && s[9] == "vendor"@ && s[10] == ".venv"@ && s[11] == "__pycache__"@);
}

proof fn lemma_names_of_defaults()
    ensures
        default_patterns().len() == 12,
        skipped_names().len() == 12,
        forall|k: int|
            0 <= k < 12 ==> (#[trigger] default_patterns()[k]) == skipped_names()[k].push('/')
                && !wild(skipped_names()[k]) && !skipped_names()[k].contains('/')
                && usually_skipped(skipped_names()[k]),
{
    reveal_strlit(".git");
    reveal_strlit(".svn");
    reveal_strlit(".hg");
    reveal_strlit("node_modules");
    reveal_strlit(".build");
    reveal_strlit("DerivedData");
    reveal_strlit("Library");
    reveal_strlit("Pods");
    reveal_strlit("target");
    reveal_strlit("vendor");
    reveal_strlit(".venv");
    reveal_strlit("__pycache__");
    reveal_strlit(".git/");
    reveal_strlit(".svn/");
    reveal_strlit(".hg/");
    reveal_strlit("node_modules/");
    reveal_strlit(".build/");
    reveal_strlit("DerivedData/");
    reveal_strlit("Library/");
    reveal_strlit("Pods/");
    reveal_strlit("target/");
    reveal_strlit("vendor/");
    reveal_strlit(".venv/");
    reveal_strlit("__pycache__/");
    assert(".git/"@ =~= ".git"@.push('/'));
    assert(".svn/"@ =~= ".svn"@.push('/'));
    assert(".hg/"@ =~= ".hg"@.push('/'));
    assert("node_modules/"@ =~= "node_modules"@.push('/'));
    assert(".build/"@ =~= ".build"@.push('/'));
    assert("DerivedData/"@ =~= "DerivedData"@.push('/'));
    assert("Library/"@ =~= "Library"@.push('/'));
    assert("Pods/"@ =~= "Pods"@.push('/'));
    assert("target/"@ =~= "target"@.push('/'));
    assert("vendor/"@ =~= "vendor"@.push('/'));
    assert(".venv/"@ =~= ".venv"@.push('/'));
    assert("__pycache__/"@ =~= "__pycache__"@.push('/'));
}

/// The built-in patterns are in force unless switched off, and the given ones always.
pub proof fn law_effective(
    exclude: Seq<Seq<char>>,
    rel: Seq<char>,
    base: Option<Seq<char>>,
)
    ensures
        any_excludes(effective(exclude, false), rel, base) <==> any_excludes(exclude, rel, base),
        any_excludes(effective(exclude, true), rel, base) <==> any_excludes(exclude, rel, base)
            || any_excludes(default_patterns(), rel, base),
{
    let d = default_patterns();
    let all = effective(exclude, true);
    if any_excludes(exclude, rel, base) {
        let i = choose|i: int|
            0 <= i < exclude.len() && pattern_excludes(#[trigger] exclude[i], rel, base);
        assert(pattern_excludes(all[d.len() + i], rel, base));
    }
    if any_excludes(d, rel, base) {
        let i = choose|i: int| 0 <= i < d.len() && pattern_excludes(#[trigger] d[i], rel, base);
        assert(pattern_excludes(all[i], rel, base));
    }
    if any_excludes(all, rel, base) {
        let i = choose|i: int| 0 <= i < all.len() && pattern_excludes(#[trigger] all[i], rel, base);
        if i < d.len() {
            assert(pattern_excludes(d[i], rel, base));
        } else {
            assert(pattern_excludes(exclude[i - d.len()], rel, base));
        }
    }
}

/// The place `k` in the path parts off a directory below the root.
pub open spec fn dir_end(root: Seq<char>, path: Seq<char>, k: int) -> bool {
    root.len() < k < path.len() && path[k] == '/'
}

/// A file below the root goes into the index when it is markdown, or all files do, when no
/// pattern excludes it, and when no directory on the way starts with a dot or is excluded.
pub proof fn law_indexed(
    root: Seq<char>,
    patterns: Seq<Seq<char>>,
    all: bool,
    rel: Seq<char>,
    kind: EntryKind,
)
    ensures
        ({
            let path = root + seq!['/'] + rel;
            let name = base_of(path);
            let plan = Plan::of(patterns);
            &&& (kind is File || kind is Symlink) && (ends_in_md(name) || all)
                && !any_excludes(patterns, rel, Some(name)) && (forall|k: int| #[trigger]
                dir_end(root, path, k) ==> {
                    let dir = base_of(path.take(k));
                    !(dir.len() > 1 && dir[0] == '.') && !any_excludes(
                        patterns,
                        path.take(k).skip(root.len() + 1int),
                        Some(dir),
                    )
                }) ==> indexed(plan, root, all, (path, kind))
            &&& indexed(plan, root, all, (path, kind)) ==> (kind is File || kind is Symlink) && (
            ends_in_md(name) || all) && !any_excludes(patterns, rel, Some(name)) && (
            forall|k: int| #[trigger]
                dir_end(root, path, k) ==> {
                    let dir = base_of(path.take(k));
                    !(dir.len() > 1 && dir[0] == '.')
                })
        }),
{
    reveal_strlit("/");
    let path = root + seq!['/'] + rel;
    let name = base_of(path);
    let plan = Plan::of(patterns);
    let n = root.len() + 1int;
    lemma_inside(root, rel);
    law_plan_is_any_pattern(patterns, rel, Some(name));
    lemma_md_name(name);
    assert forall|k: int| #[trigger] dir_end(root, path, k) implies inside(path.take(k), root)
        == Some(path.take(k).skip(n)) by {
        let d = path.take(k).skip(n);
        assert(path.take(k) =~= root + seq!['/'] + d);
        lemma_inside(root, d);
    }
    if forall|k: int| #[trigger]
        dir_end(root, path, k) ==> {
            let dir = base_of(path.take(k));
            !(dir.len() > 1 && dir[0] == '.') && !any_excludes(
                patterns,
                path.take(k).skip(root.len() + 1int),
                Some(dir),
            )
        } {
        assert forall|k: int|
            root.len() < k < path.len() && #[trigger] path[k] == '/' implies enters(
            plan,
            root,
            path.take(k),
        ) by {
            assert(dir_end(root, path, k));
            let dir = base_of(path.take(k));
            let d = path.take(k).skip(n);
            law_plan_is_any_pattern(patterns, d, Some(dir));
            if plan.bare.contains(dir) {
                assert(name_excludes(dir, d, Some(dir)));
                assert(plan.excludes(d, Some(dir)));
            }
        }
    }
    if indexed(plan, root, all, (path, kind)) {
        assert forall|k: int| #[trigger] dir_end(root, path, k) implies ({
            let dir = base_of(path.take(k));
            !(dir.len() > 1 && dir[0] == '.')
        }) by {
            assert(path[k] == '/');
            assert(enters(plan, root, path.take(k)));
        }
    }
}

proof fn lemma_md_name(name: Seq<char>)
    ensures
        markdown_name(name) == ends_in_md(name),
{
    reveal_strlit(".md");
    let s = name;
    if s.len() >= 3 {
        let end = s.skip(s.len() - 3);
        assert(end[0] == s[s.len() - 3] && end[1] == s[s.len() - 2] && end[2] == s[s.len() - 1]);
        if ends_in_md(s) {
            assert(end =~= ".md"@);
        }
    }
}

proof fn lemma_inside(root: Seq<char>, rel: Seq<char>)
    ensures
        inside(root + seq!['/'] + rel, root) == Some(rel),
        rel_name(root + seq!['/'] + rel, root) == rel,
{
    reveal_strlit("/");
    let path = root + seq!['/'] + rel;
    let head = root + "/"@;
    assert(path.take(head.len() as int) =~= head);
    assert(path.skip(head.len() as int) =~= rel);
}

/// A markdown file below the root that goes into the index is there by its path from the
/// root.
pub proof fn law_indexed_by_path(
    root: Seq<char>,
    patterns: Seq<Seq<char>>,
    all: bool,
    entries: Seq<(Seq<char>, EntryKind)>,
    rel: Seq<char>,
    i: int,
)
    requires
        0 <= i < entries.len(),
        entries[i].0 == root + seq!['/'] + rel,
        indexed(Plan::of(patterns), root, all, entries[i]),
        ends_in_md(base_of(entries[i].0)),
    ensures
        index_of(root, patterns, all, entries).md_files.contains(rel),
{
    lemma_inside(root, rel);
    lemma_md_name(base_of(entries[i].0));
    law_md_files(root, patterns, all, entries, rel);
}

/// How a bracket expression is read, item by item, from `j` on: a closing bracket ends it
/// unless it comes first, a slash spoils it, two bytes with a hyphen between them are a range,
/// and any other byte is itself. A backslash takes the meaning from the byte behind it.
pub proof fn law_bracket_item(p: Seq<u8>, first: int, j: int, acc: Seq<(u8, u8)>)
    requires
        0 <= first <= j < p.len(),
        !(j + 1 < p.len() && p[j] == OPEN_BRACKET && p[j + 1] == COLON),
    ensures
        ({
            let escaped = p[j] == BACKSLASH && j + 1 < p.len();
            let b = if escaped {
                p[j + 1]
            } else {
                p[j]
            };
            let k = if escaped {
                j + 2
            } else {
                j + 1
            };
            let range = k + 1 < p.len() && p[k] == HYPHEN && p[k + 1] != CLOSE_BRACKET;
            let got = class_items(p, first, j, acc);
            if p[j] == CLOSE_BRACKET && j > first {
                got == ClassView::Closed(acc, j + 1)
            } else if p[j] == SLASH {
                got is Slash
            } else if !range {
                got == class_items(p, first, k, acc.push((b, b)))
            } else if p[k + 1] == BACKSLASH && k + 2 < p.len() {
                got == class_items(p, first, k + 3, acc.push((b, p[k + 2])))
            } else {
                got == class_items(p, first, k + 2, acc.push((b, p[k + 1])))
            }
        }),
        class_items(p, first, p.len() as int, acc) is Open,
{
    assert(named_class_at(p, j) is None);
}

/// A bracket expression that is closed is one piece. One with a slash in it matches nothing,
/// and the bracket of one that is not closed stands for itself.
pub proof fn law_bracket(p: Seq<u8>, i: int)
    requires
        0 <= i < p.len(),
        p[i] == OPEN_BRACKET,
    ensures
        ({
            let negated = i + 1 < p.len() && (p[i + 1] == BANG || p[i + 1] == CARET);
            let first = if negated {
                i + 2
            } else {
                i + 1
            };
            pieces_from(p, i) == match class_items(p, first, first, Seq::empty()) {
                ClassView::Closed(ranges, next) => seq![PieceView::Class(negated, ranges)]
                    + pieces_from(p, next),
                ClassView::Slash => seq![PieceView::Never],
                ClassView::Open => seq![PieceView::Byte(OPEN_BRACKET)] + pieces_from(p, i + 1),
            }
        }),
{
    let never = seq![PieceView::Never];
    assert(pieces_from(p, p.len() as int) =~= Seq::empty());
    assert(never + pieces_from(p, p.len() as int) =~= never);
}

/// A bracket without a closing one behind it stands for itself.
pub proof fn law_open_bracket(p: Seq<u8>, i: int)
    requires
        0 <= i < p.len(),
        p[i] == OPEN_BRACKET,
        forall|k: int| i < k < p.len() ==> #[trigger] p[k] != CLOSE_BRACKET && p[k] != SLASH,
    ensures
        pieces_from(p, i) == seq![PieceView::Byte(OPEN_BRACKET)] + pieces_from(p, i + 1),
{
    let negated = i + 1 < p.len() && (p[i + 1] == BANG || p[i + 1] == CARET);
    let first = if negated {
        i + 2
    } else {
        i + 1
    };
    lemma_stays_open(p, first, first, Seq::empty());
    law_bracket(p, i);
}

proof fn lemma_stays_open(p: Seq<u8>, first: int, j: int, acc: Seq<(u8, u8)>)
    requires
        0 <= first <= j,
        forall|k: int| j <= k < p.len() ==> #[trigger] p[k] != CLOSE_BRACKET && p[k] != SLASH,
    ensures
        class_items(p, first, j, acc) is Open,
    decreases p.len() - j,
{
    if j < p.len() {
        assert(p[j] != CLOSE_BRACKET && p[j] != SLASH);
        lemma_no_class_end(p, j + 2);
        assert(named_class_at(p, j) is None);
        let (lo, k) = plain_at(p, j);
        if k + 1 < p.len() && p[k] == HYPHEN && p[k + 1] != CLOSE_BRACKET {
            let (hi, m) = plain_at(p, k + 1);
            lemma_stays_open(p, first, m, acc.push((lo, hi)));
        } else {
            lemma_stays_open(p, first, k, acc.push((lo, lo)));
        }
    }
}

proof fn lemma_no_class_end(p: Seq<u8>, j: int)
    requires
        0 <= j,
        forall|k: int| j <= k < p.len() ==> #[trigger] p[k] != CLOSE_BRACKET,
    ensures
        class_name_end(p, j) is None,
    decreases p.len() - j,
{
    if j + 1 < p.len() {
        assert(p[j + 1] != CLOSE_BRACKET);
        lemma_no_class_end(p, j + 1);
    }
}

/// A named class inside brackets, up to the `:]` at `e`, stands for its bytes.
pub proof fn law_named_class(p: Seq<u8>, first: int, j: int, e: int, acc: Seq<(u8, u8)>)
    requires
        0 <= first <= j && j + 2 <= e && e + 1 < p.len(),
        p[j] == OPEN_BRACKET && p[j + 1] == COLON && p[e] == COLON && p[e + 1] == CLOSE_BRACKET,
        forall|k: int| j + 2 <= k < e ==> !(#[trigger] p[k] == COLON && p[k + 1] == CLOSE_BRACKET),
        named_class(p.subrange(j + 2, e)) is Some,
    ensures
        class_items(p, first, j, acc) == class_items(
            p,
            first,
            e + 2,
            acc + named_class(p.subrange(j + 2, e))->0,
        ),
{
    lemma_class_ends(p, j + 2, e);
}

proof fn lemma_class_ends(p: Seq<u8>, j: int, e: int)
    requires
        0 <= j <= e && e + 1 < p.len(),
        p[e] == COLON && p[e + 1] == CLOSE_BRACKET,
        forall|k: int| j <= k < e ==> !(#[trigger] p[k] == COLON && p[k + 1] == CLOSE_BRACKET),
    ensures
        class_name_end(p, j) == Some(e),
    decreases e - j,
{
    if j < e {
        assert(!(p[j] == COLON && p[j + 1] == CLOSE_BRACKET));
        lemma_class_ends(p, j + 1, e);
    }
}

/// The class of this name is there, and holds the byte.
pub open spec fn class_holds(name: Seq<char>, b: u8) -> bool {
    named_class(encode_utf8(name)) matches Some(ranges) && exists|i: int|
        0 <= i < ranges.len() && (#[trigger] ranges[i]).0 <= b <= ranges[i].1
}

proof fn lemma_encoded_apart(a: Seq<char>, b: Seq<char>)
    requires
        a != b,
    ensures
        encode_utf8(a) != encode_utf8(b),
{
    law_decode_encode(a);
    law_decode_encode(b);
}

/// Which bytes the named classes hold.
#[verifier::rlimit(60)]
pub proof fn law_class_members(b: u8)
    ensures
        class_holds("digit"@, b) <==> 0x30 <= b <= 0x39,
        class_holds("upper"@, b) <==> 0x41 <= b <= 0x5a,
        class_holds("lower"@, b) <==> 0x61 <= b <= 0x7a,
        class_holds("alpha"@, b) <==> (0x41 <= b <= 0x5a) || (0x61 <= b <= 0x7a),
        class_holds("alnum"@, b) <==> (0x30 <= b <= 0x39) || (0x41 <= b <= 0x5a) || (0x61 <= b
            <= 0x7a),
        class_holds("xdigit"@, b) <==> (0x30 <= b <= 0x39) || (0x41 <= b <= 0x46) || (0x61 <= b
            <= 0x66),
        class_holds("blank"@, b) <==> b == 0x20 || b == 0x09,
        class_holds("space"@, b) <==> b == 0x20 || (0x09 <= b <= 0x0d),
        class_holds("cntrl"@, b) <==> b < 0x20 || b == 0x7f,
        class_holds("print"@, b) <==> 0x20 <= b < 0x7f,
        class_holds("graph"@, b) <==> 0x20 < b < 0x7f,
        class_holds("punct"@, b) <==> 0x20 < b < 0x7f && !((0x30 <= b <= 0x39) || (0x41 <= b
            <= 0x5a) || (0x61 <= b <= 0x7a)),
{
    reveal_strlit("alnum");
    reveal_strlit("alpha");
    reveal_strlit("blank");
    reveal_strlit("cntrl");
    reveal_strlit("digit");
    reveal_strlit("graph");
    reveal_strlit("lower");
    reveal_strlit("print");
    reveal_strlit("punct");
    reveal_strlit("space");
    reveal_strlit("upper");
    reveal_strlit("xdigit");
    let names = seq![
        "alnum"@,
        "alpha"@,
        "blank"@,
        "cntrl"@,
        "digit"@,
        "graph"@,
        "lower"@,
        "print"@,
        "punct"@,
        "space"@,
        "upper"@,
        "xdigit"@,
    ];
    assert("alnum"@[2] == 'n' && "alpha"@[2] == 'p');
    assert("punct"@[1] == 'u' && "print"@[1] == 'r');
    assert forall|i: int, j: int| 0 <= i < j < names.len() implies names[i] != names[j] by {
        if names[i] == names[j] {
            assert(names[i][0] == names[j][0]);
            assert(names[i][1] == names[j][1]);
            assert(names[i][2] == names[j][2]);
        }
    }
    assert forall|i: int, j: int| 0 <= i < j < names.len() implies encode_utf8(
        #[trigger] names[i],
    ) != encode_utf8(#[trigger] names[j]) by {
        lemma_encoded_apart(names[i], names[j]);
    }
    assert forall|k: int| 0 <= k < names.len() implies named_class(
        encode_utf8(#[trigger] names[k]),
    ) == Some(class_ranges(k)) by {
        let x = encode_utf8(names[k]);
        assert(k > 0 ==> x != encode_utf8(names[0]));
        assert(k > 1 ==> x != encode_utf8(names[1]));
        assert(k > 2 ==> x != encode_utf8(names[2]));
        assert(k > 3 ==> x != encode_utf8(names[3]));
        assert(k > 4 ==> x != encode_utf8(names[4]));
        assert(k > 5 ==> x != encode_utf8(names[5]));
        assert(k > 6 ==> x != encode_utf8(names[6]));
        assert(k > 7 ==> x != encode_utf8(names[7]));
        assert(k > 8 ==> x != encode_utf8(names[8]));
        assert(k > 9 ==> x != encode_utf8(names[9]));
        assert(k > 10 ==> x != encode_utf8(names[10]));
    }
    assert forall|k: int| 0 <= k < names.len() implies class_holds(#[trigger] names[k], b)
        == among(class_ranges(k), b) by {
        lemma_among(class_ranges(k), b);
    }
    assert(names[0] == "alnum"@ && names[1] == "alpha"@ && names[2] == "blank"@ && names[3]
        == "cntrl"@ && names[4] == "digit"@ && names[5] == "graph"@);
    assert(names[6] == "lower"@ && names[7] == "print"@ && names[8] == "punct"@ && names[9]
        == "space"@ && names[10] == "upper"@ && names[11] == "xdigit"@);
}

/// The ranges of the named classes, in the order of their names.
spec fn class_ranges(k: int) -> Seq<(u8, u8)> {
    if k == 0 {
        seq![(0x30, 0x39), (0x41, 0x5a), (0x61, 0x7a)]
    } else if k == 1 {
        seq![(0x41, 0x5a), (0x61, 0x7a)]
    } else if k == 2 {
        seq![(0x09, 0x09), (0x20, 0x20)]
    } else if k == 3 {
        seq![(0x00, 0x1f), (0x7f, 0x7f)]
    } else if k == 4 {
        seq![(0x30, 0x39)]
    } else if k == 5 {
        seq![(0x21, 0x7e)]
    } else if k == 6 {
        seq![(0x61, 0x7a)]
    } else if k == 7 {
        seq![(0x20, 0x7e)]
    } else if k == 8 {
        seq![(0x21, 0x2f), (0x3a, 0x40), (0x5b, 0x60), (0x7b, 0x7e)]
    } else if k == 9 {
        seq![(0x09, 0x0d), (0x20, 0x20)]
    } else if k == 10 {
        seq![(0x41, 0x5a)]
    } else {
        seq![(0x30, 0x39), (0x41, 0x46), (0x61, 0x66)]
    }
}

/// One of up to four ranges holds the byte.
spec fn among(ranges: Seq<(u8, u8)>, b: u8) -> bool {
    ||| ranges.len() > 0 && ranges[0].0 <= b <= ranges[0].1
    ||| ranges.len() > 1 && ranges[1].0 <= b <= ranges[1].1
    ||| ranges.len() > 2 && ranges[2].0 <= b <= ranges[2].1
    ||| ranges.len() > 3 && ranges[3].0 <= b <= ranges[3].1
}

proof fn lemma_among(ranges: Seq<(u8, u8)>, b: u8)
    requires
        ranges.len() <= 4,
    ensures
        among(ranges, b) <==> exists|i: int|
            0 <= i < ranges.len() && (#[trigger] ranges[i]).0 <= b <= ranges[i].1,
{
    if exists|i: int| 0 <= i < ranges.len() && (#[trigger] ranges[i]).0 <= b <= ranges[i].1 {
        let i = choose|i: int|
            0 <= i < ranges.len() && (#[trigger] ranges[i]).0 <= b <= ranges[i].1;
        assert(i == 0 || i == 1 || i == 2 || i == 3);
    }
}

/// A bare name is one that a pattern gives with a slash behind it and nothing else.
pub proof fn law_bare_names(ps: Seq<Seq<char>>, name: Seq<char>)
    ensures
        Plan::of(ps).bare.contains(name) <==> !wild(name) && !name.contains('/') && ps.contains(
            name.push('/'),
        ),
    decreases ps.len(),
{
    if ps.len() > 0 {
        let before = ps.drop_last();
        let p = ps.last();
        law_bare_names(before, name);
        let full = name.push('/');
        assert(full.drop_last() =~= name);
        lemma_wild(name);
        lemma_wild(full);
        assert(ps.contains(full) <==> before.contains(full) || p == full) by {
            if ps.contains(full) {
                let k = choose|k: int| 0 <= k < ps.len() && ps[k] == full;
                if k < before.len() {
                    assert(before[k] == full);
                }
            }
            if before.contains(full) {
                let k = choose|k: int| 0 <= k < before.len() && before[k] == full;
                assert(ps[k] == full);
            }
            if p == full {
                assert(ps[ps.len() - 1] == full);
            }
        }
        if p.len() > 0 && p.last() == '/' {
            assert(p.drop_last().push('/') =~= p);
            lemma_wild(p.drop_last());
            lemma_wild(p);
        }
    }
}

/// The pattern is a bare name with a slash behind it.
pub open spec fn bare_form(p: Seq<char>) -> bool {
    p.len() > 0 && p.last() == '/' && !wild(p) && !p.drop_last().contains('/')
}

proof fn lemma_bare_only(ps: Seq<Seq<char>>)
    ensures
        bare_only(Plan::of(ps)) <==> forall|i: int|
            0 <= i < ps.len() ==> bare_form(#[trigger] ps[i]),
    decreases ps.len(),
{
    if ps.len() > 0 {
        let before = ps.drop_last();
        lemma_bare_only(before);
        lemma_wild(ps.last());
        if forall|i: int| 0 <= i < ps.len() ==> bare_form(#[trigger] ps[i]) {
            assert forall|i: int| 0 <= i < before.len() implies bare_form(#[trigger] before[i]) by {
                assert(before[i] == ps[i]);
            }
            assert(bare_form(ps[ps.len() - 1]));
        }
        if bare_only(Plan::of(ps)) {
            assert(bare_only(Plan::of(before)));
            assert forall|i: int| 0 <= i < ps.len() implies bare_form(#[trigger] ps[i]) by {
                if i < before.len() {
                    assert(before[i] == ps[i]);
                }
            }
        }
    }
}

/// A walk goes into a directory below the root unless its name starts with a dot or a pattern
/// excludes it. With bare names alone only the last name of the path is looked at: the walk
/// stayed out of the others before.
pub proof fn law_enters(root: Seq<char>, patterns: Seq<Seq<char>>, rel: Seq<char>)
    ensures
        ({
            let dir = root + seq!['/'] + rel;
            let name = base_of(dir);
            let into = enters(Plan::of(patterns), root, dir);
            let hidden = name.len() > 1 && name[0] == '.';
            &&& !hidden && !any_excludes(patterns, rel, Some(name)) ==> into
            &&& into ==> !hidden
            &&& into && !wild(name) ==> !patterns.contains(name.push('/'))
            &&& into && (exists|i: int|
                0 <= i < patterns.len() && !bare_form(#[trigger] patterns[i])) ==> !any_excludes(
                patterns,
                rel,
                Some(name),
            )
        }),
{
    let dir = root + seq!['/'] + rel;
    let name = base_of(dir);
    let plan = Plan::of(patterns);
    lemma_inside(root, rel);
    law_plan_is_any_pattern(patterns, rel, Some(name));
    law_bare_names(patterns, name);
    law_dir_base(dir);
    lemma_bare_only(patterns);
    if plan.bare.contains(name) {
        assert(name_excludes(name, rel, Some(name)));
        assert(plan.excludes(rel, Some(name)));
    }
}

/// One entry more adds at most its own path to the index: under its base name, behind those
/// that were there, and, for a markdown file, to the markdown files.
pub proof fn law_index_grows(
    root: Seq<char>,
    patterns: Seq<Seq<char>>,
    all: bool,
    entries: Seq<(Seq<char>, EntryKind)>,
    path: Seq<char>,
    kind: EntryKind,
)
    ensures
        ({
            let was = index_of(root, patterns, all, entries);
            let now = index_of(root, patterns, all, entries.push((path, kind)));
            let name = base_of(path);
            &&& now.root == root && now.exclude == patterns
            &&& index_of(root, patterns, all, Seq::empty()).by_name
                == Map::<Seq<char>, Seq<Seq<char>>>::empty()
            &&& index_of(root, patterns, all, Seq::empty()).md_files == Set::<Seq<char>>::empty()
            &&& !indexed(Plan::of(patterns), root, all, (path, kind)) ==> now == was
            &&& indexed(Plan::of(patterns), root, all, (path, kind)) ==> {
                &&& now.by_name.contains_key(name)
                &&& now.by_name.remove(name) == was.by_name.remove(name)
                &&& now.by_name[name] == if was.by_name.contains_key(name) {
                    was.by_name[name].push(path)
                } else {
                    seq![path]
                }
                &&& now.md_files == if ends_in_md(name) {
                    was.md_files.insert(rel_name(path, root))
                } else {
                    was.md_files
                }
            }
        }),
{
    let more = entries.push((path, kind));
    assert(more.drop_last() =~= entries);
    assert(more.last() == (path, kind));
    lemma_index_kept(root, patterns, all, entries);
    let was = index_of(root, patterns, all, entries);
    let now = index_of(root, patterns, all, more);
    let name = base_of(path);
    lemma_md_name(name);
    assert(now.by_name.remove(name) =~= was.by_name.remove(name));
    assert(Seq::<Seq<char>>::empty().push(path) =~= seq![path]);
}

proof fn lemma_index_kept(
    root: Seq<char>,
    patterns: Seq<Seq<char>>,
    all: bool,
    entries: Seq<(Seq<char>, EntryKind)>,
)
    ensures
        index_of(root, patterns, all, entries).root == root,
        index_of(root, patterns, all, entries).exclude == patterns,
    decreases entries.len(),
{
    if entries.len() > 0 {
        lemma_index_kept(root, patterns, all, entries.drop_last());
    }
}

/// Below the root the index calls a path by what follows the root, elsewhere by all of it.
pub proof fn law_rel_name(root: Seq<char>, rel: Seq<char>, path: Seq<char>)
    ensures
        rel_name(root + seq!['/'] + rel, root) == rel,
        (forall|r: Seq<char>| path != #[trigger] (root + seq!['/'] + r)) ==> rel_name(path, root)
            == path,
{
    reveal_strlit("/");
    lemma_inside(root, rel);
    if begins_with(path, root + "/"@) {
        let r = path.skip((root + "/"@).len() as int);
        assert(path =~= root + seq!['/'] + r) by {
            assert(path =~= path.take((root + "/"@).len() as int) + r);
            assert(root + "/"@ =~= root + seq!['/']);
        }
    }
}

} // verus!
