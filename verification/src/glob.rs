//! Shell globs over paths, as `fnmatch` reads them in path-name mode: `*`, `?` and `[…]`
//! never match a slash, and a backslash makes the next byte stand for itself. Patterns and
//! names are compared byte by byte.
use crate::ascii::{
    BACKSLASH, BANG, CARET, CLOSE_BRACKET, COLON, HYPHEN, OPEN_BRACKET, QUESTION, SLASH, STAR,
};
use vstd::prelude::*;
use vstd::utf8::encode_utf8;

verus! {

/// One piece of a glob.
pub enum Piece {
    /// The byte itself.
    Byte(u8),
    /// `?`: any byte but a slash.
    One,
    /// `*`: any run of bytes other than slashes.
    Run,
    /// `[…]`: a byte, not a slash, in one of the ranges, or in none of them when negated.
    Class { negated: bool, ranges: Vec<(u8, u8)> },
    /// A bracket expression with a slash inside: matches nothing.
    Never,
}

/// What a [`Piece`] stands for.
pub enum PieceView {
    Byte(u8),
    One,
    Run,
    Class(bool, Seq<(u8, u8)>),
    Never,
}

impl View for Piece {
    type V = PieceView;

    open spec fn view(&self) -> PieceView {
        match self {
            Piece::Byte(b) => PieceView::Byte(*b),
            Piece::One => PieceView::One,
            Piece::Run => PieceView::Run,
            Piece::Class { negated, ranges } => PieceView::Class(*negated, ranges@),
            Piece::Never => PieceView::Never,
        }
    }
}

/// What a sequence of pieces stands for.
pub open spec fn piece_views(ps: Seq<Piece>) -> Seq<PieceView> {
    Seq::new(ps.len(), |i: int| ps[i]@)
}

/// Some range holds `b`.
pub open spec fn in_ranges(ranges: Seq<(u8, u8)>, b: u8) -> bool {
    exists|i: int| 0 <= i < ranges.len() && (#[trigger] ranges[i]).0 <= b <= ranges[i].1
}

/// The piece, other than a run, matches the byte `b`.
pub open spec fn piece_fits(p: PieceView, b: u8) -> bool {
    match p {
        PieceView::Byte(x) => b == x,
        PieceView::One => b != SLASH,
        PieceView::Class(negated, ranges) => b != SLASH && in_ranges(ranges, b) != negated,
        PieceView::Run => false,
        PieceView::Never => false,
    }
}

/// The pieces, one after another, match the whole of `name`. A run matches nothing, or a
/// byte other than a slash and what a run matches behind it.
pub open spec fn fits(ps: Seq<PieceView>, name: Seq<u8>) -> bool
    decreases ps.len(), name.len(),
{
    if ps.len() == 0 {
        name.len() == 0
    } else if ps[0] is Run {
        fits(ps.skip(1), name) || (name.len() > 0 && name[0] != SLASH && fits(ps, name.skip(1)))
    } else {
        name.len() > 0 && piece_fits(ps[0], name[0]) && fits(ps.skip(1), name.skip(1))
    }
}

/// How a bracket expression ends.
pub enum ClassView {
    /// It is not closed: the bracket stands for itself.
    Open,
    /// A slash stands in it.
    Slash,
    /// Its ranges, and the position behind the closing bracket.
    Closed(Seq<(u8, u8)>, int),
}

/// The byte that the pattern names at `j`, which a backslash may precede, and the position
/// behind it.
pub open spec fn plain_at(p: Seq<u8>, j: int) -> (u8, int) {
    if p[j] == BACKSLASH && j + 1 < p.len() {
        (p[j + 1], j + 2)
    } else {
        (p[j], j + 1)
    }
}

/// The first position from `j` on of `:]`.
pub open spec fn class_name_end(p: Seq<u8>, j: int) -> Option<int>
    decreases p.len() - j,
{
    if j + 1 >= p.len() {
        None
    } else if p[j] == COLON && p[j + 1] == CLOSE_BRACKET {
        Some(j)
    } else {
        class_name_end(p, j + 1)
    }
}

/// The ASCII characters of a named class.
pub open spec fn named_class(name: Seq<u8>) -> Option<Seq<(u8, u8)>> {
    if name == encode_utf8("alnum"@) {
        Some(seq![(0x30, 0x39), (0x41, 0x5a), (0x61, 0x7a)])
    } else if name == encode_utf8("alpha"@) {
        Some(seq![(0x41, 0x5a), (0x61, 0x7a)])
    } else if name == encode_utf8("blank"@) {
        Some(seq![(0x09, 0x09), (0x20, 0x20)])
    } else if name == encode_utf8("cntrl"@) {
        Some(seq![(0x00, 0x1f), (0x7f, 0x7f)])
    } else if name == encode_utf8("digit"@) {
        Some(seq![(0x30, 0x39)])
    } else if name == encode_utf8("graph"@) {
        Some(seq![(0x21, 0x7e)])
    } else if name == encode_utf8("lower"@) {
        Some(seq![(0x61, 0x7a)])
    } else if name == encode_utf8("print"@) {
        Some(seq![(0x20, 0x7e)])
    } else if name == encode_utf8("punct"@) {
        Some(seq![(0x21, 0x2f), (0x3a, 0x40), (0x5b, 0x60), (0x7b, 0x7e)])
    } else if name == encode_utf8("space"@) {
        Some(seq![(0x09, 0x0d), (0x20, 0x20)])
    } else if name == encode_utf8("upper"@) {
        Some(seq![(0x41, 0x5a)])
    } else if name == encode_utf8("xdigit"@) {
        Some(seq![(0x30, 0x39), (0x41, 0x46), (0x61, 0x66)])
    } else {
        None
    }
}

/// The named class, `[:name:]`, at `j`: its ranges and the position behind it.
pub open spec fn named_class_at(p: Seq<u8>, j: int) -> Option<(Seq<(u8, u8)>, int)> {
    if j + 1 < p.len() && p[j] == OPEN_BRACKET && p[j + 1] == COLON {
        match class_name_end(p, j + 2) {
            Some(e) => match named_class(p.subrange(j + 2, e)) {
                Some(ranges) => Some((ranges, e + 2)),
                None => None,
            },
            None => None,
        }
    } else {
        None
    }
}

/// The inside of a bracket expression from `j` on, whose first item stands at `first` and
/// whose items so far are `acc`.
pub open spec fn class_items(p: Seq<u8>, first: int, j: int, acc: Seq<(u8, u8)>) -> ClassView
    decreases p.len() - j,
    via class_items_go_on
{
    if j < 0 || j >= p.len() {
        ClassView::Open
    } else if p[j] == CLOSE_BRACKET && j > first {
        ClassView::Closed(acc, j + 1)
    } else if p[j] == SLASH {
        ClassView::Slash
    } else {
        match named_class_at(p, j) {
            Some((ranges, next)) => class_items(p, first, next, acc + ranges),
            None => {
                let (lo, k) = plain_at(p, j);
                if k + 1 < p.len() && p[k] == HYPHEN && p[k + 1] != CLOSE_BRACKET {
                    let (hi, m) = plain_at(p, k + 1);
                    class_items(p, first, m, acc.push((lo, hi)))
                } else {
                    class_items(p, first, k, acc.push((lo, lo)))
                }
            },
        }
    }
}

#[via_fn]
proof fn class_items_go_on(p: Seq<u8>, first: int, j: int, acc: Seq<(u8, u8)>) {
    lemma_class_name_end(p, j + 2);
}

proof fn lemma_class_name_end(p: Seq<u8>, j: int)
    ensures
        class_name_end(p, j) matches Some(e) ==> j <= e && e + 1 < p.len(),
    decreases p.len() - j,
{
    if j + 1 < p.len() && !(p[j] == COLON && p[j + 1] == CLOSE_BRACKET) {
        lemma_class_name_end(p, j + 1);
    }
}

proof fn lemma_class_items(p: Seq<u8>, first: int, j: int, acc: Seq<(u8, u8)>)
    requires
        0 <= j,
    ensures
        class_items(p, first, j, acc) matches ClassView::Closed(_, next) ==> j < next <= p.len(),
    decreases p.len() - j,
{
    if j < p.len() && !(p[j] == CLOSE_BRACKET && j > first) && p[j] != SLASH {
        lemma_class_name_end(p, j + 2);
        match named_class_at(p, j) {
            Some((ranges, next)) => lemma_class_items(p, first, next, acc + ranges),
            None => {
                let (lo, k) = plain_at(p, j);
                if k + 1 < p.len() && p[k] == HYPHEN && p[k + 1] != CLOSE_BRACKET {
                    let (hi, m) = plain_at(p, k + 1);
                    lemma_class_items(p, first, m, acc.push((lo, hi)));
                } else {
                    lemma_class_items(p, first, k, acc.push((lo, lo)));
                }
            },
        }
    }
}

/// The piece at `i`, and the position behind it.
pub open spec fn piece_at(p: Seq<u8>, i: int) -> (PieceView, int) {
    if p[i] == STAR {
        (PieceView::Run, i + 1)
    } else if p[i] == QUESTION {
        (PieceView::One, i + 1)
    } else if p[i] == OPEN_BRACKET {
        let negated = i + 1 < p.len() && (p[i + 1] == BANG || p[i + 1] == CARET);
        let first = if negated {
            i + 2
        } else {
            i + 1
        };
        match class_items(p, first, first, Seq::empty()) {
            ClassView::Open => (PieceView::Byte(OPEN_BRACKET), i + 1),
            ClassView::Slash => (PieceView::Never, p.len() as int),
            ClassView::Closed(ranges, next) => (PieceView::Class(negated, ranges), next),
        }
    } else {
        let (b, next) = plain_at(p, i);
        (PieceView::Byte(b), next)
    }
}

/// The pieces of a pattern from `i` on.
pub open spec fn pieces_from(p: Seq<u8>, i: int) -> Seq<PieceView>
    decreases p.len() - i,
    via pieces_from_go_on
{
    if i < 0 || i >= p.len() {
        Seq::empty()
    } else {
        let (piece, next) = piece_at(p, i);
        seq![piece] + pieces_from(p, next)
    }
}

#[via_fn]
proof fn pieces_from_go_on(p: Seq<u8>, i: int) {
    if 0 <= i < p.len() {
        lemma_piece_at(p, i);
    }
}

proof fn lemma_piece_at(p: Seq<u8>, i: int)
    requires
        0 <= i < p.len(),
    ensures
        i < piece_at(p, i).1 <= p.len(),
{
    lemma_class_items(p, i + 1, i + 1, Seq::empty());
    lemma_class_items(p, i + 2, i + 2, Seq::empty());
}

/// The pattern matches the name. A pattern or a name with a zero byte matches nothing.
pub open spec fn glob_matches(pattern: Seq<u8>, name: Seq<u8>) -> bool {
    !pattern.contains(0) && !name.contains(0) && fits(pieces_from(pattern, 0), name)
}

fn bytes_are(p: &[u8], from: usize, to: usize, name: &str) -> (r: bool)
    requires
        from <= to <= p.len(),
    ensures
        r == (p@.subrange(from as int, to as int) == encode_utf8(name@)),
{
    let bytes = name.as_bytes();
    if bytes.len() != to - from {
        return false;
    }
    let mut k: usize = 0;
    while k < bytes.len()
        invariant
            k <= bytes.len() == to - from,
            from <= to <= p.len(),
            bytes@ == encode_utf8(name@),
            forall|j: int| 0 <= j < k ==> p@[from + j] == #[trigger] bytes@[j],
        decreases bytes.len() - k,
    {
        if p[from + k] != bytes[k] {
            assert(p@.subrange(from as int, to as int)[k as int] != bytes@[k as int]);
            return false;
        }
        k += 1;
    }
    assert(p@.subrange(from as int, to as int) =~= bytes@);
    true
}

fn find_named_class(p: &[u8], from: usize, to: usize) -> (r: Option<Vec<(u8, u8)>>)
    requires
        from <= to <= p.len(),
    ensures
        (match r {
            Some(v) => Some(v@),
            None => None,
        }) == named_class(p@.subrange(from as int, to as int)),
{
    if bytes_are(p, from, to, "alnum") {
        Some(vec![(0x30, 0x39), (0x41, 0x5a), (0x61, 0x7a)])
    } else if bytes_are(p, from, to, "alpha") {
        Some(vec![(0x41, 0x5a), (0x61, 0x7a)])
    } else if bytes_are(p, from, to, "blank") {
        Some(vec![(0x09, 0x09), (0x20, 0x20)])
    } else if bytes_are(p, from, to, "cntrl") {
        Some(vec![(0x00, 0x1f), (0x7f, 0x7f)])
    } else if bytes_are(p, from, to, "digit") {
        Some(vec![(0x30, 0x39)])
    } else if bytes_are(p, from, to, "graph") {
        Some(vec![(0x21, 0x7e)])
    } else if bytes_are(p, from, to, "lower") {
        Some(vec![(0x61, 0x7a)])
    } else if bytes_are(p, from, to, "print") {
        Some(vec![(0x20, 0x7e)])
    } else if bytes_are(p, from, to, "punct") {
        Some(vec![(0x21, 0x2f), (0x3a, 0x40), (0x5b, 0x60), (0x7b, 0x7e)])
    } else if bytes_are(p, from, to, "space") {
        Some(vec![(0x09, 0x0d), (0x20, 0x20)])
    } else if bytes_are(p, from, to, "upper") {
        Some(vec![(0x41, 0x5a)])
    } else if bytes_are(p, from, to, "xdigit") {
        Some(vec![(0x30, 0x39), (0x41, 0x46), (0x61, 0x66)])
    } else {
        None
    }
}

fn read_named_class(p: &[u8], j: usize) -> (r: Option<(Vec<(u8, u8)>, usize)>)
    requires
        j < p.len(),
    ensures
        (match r {
            Some((v, next)) => Some((v@, next as int)),
            None => None,
        }) == named_class_at(p@, j as int),
{
    if !(p.len() - j > 1 && p[j] == OPEN_BRACKET && p[j + 1] == COLON) {
        return None;
    }
    let mut e: usize = j + 2;
    while p.len() - e > 1 && !(p[e] == COLON && p[e + 1] == CLOSE_BRACKET)
        invariant
            j + 2 <= e <= p.len(),
            class_name_end(p@, j + 2) == class_name_end(p@, e as int),
        decreases p.len() - e,
    {
        e += 1;
    }
    if p.len() - e <= 1 {
        return None;
    }
    match find_named_class(p, j + 2, e) {
        Some(ranges) => Some((ranges, e + 2)),
        None => None,
    }
}

fn read_plain(p: &[u8], j: usize) -> (r: (u8, usize))
    requires
        j < p.len(),
    ensures
        r.0 == plain_at(p@, j as int).0,
        r.1 == plain_at(p@, j as int).1,
        j < r.1 <= p.len(),
{
    if p[j] == BACKSLASH && p.len() - j > 1 {
        (p[j + 1], j + 2)
    } else {
        (p[j], j + 1)
    }
}

/// How a bracket expression ends.
enum ClassEnd {
    Open,
    Slash,
    Closed(Vec<(u8, u8)>, usize),
}

impl View for ClassEnd {
    type V = ClassView;

    closed spec fn view(&self) -> ClassView {
        match self {
            ClassEnd::Open => ClassView::Open,
            ClassEnd::Slash => ClassView::Slash,
            ClassEnd::Closed(ranges, next) => ClassView::Closed(ranges@, *next as int),
        }
    }
}

fn read_class(p: &[u8], first: usize) -> (r: ClassEnd)
    requires
        first <= p.len(),
    ensures
        r@ == class_items(p@, first as int, first as int, Seq::empty()),
{
    let mut acc: Vec<(u8, u8)> = Vec::new();
    let mut j: usize = first;
    while j < p.len()
        invariant
            first <= j <= p.len(),
            class_items(p@, first as int, first as int, Seq::empty()) == class_items(
                p@,
                first as int,
                j as int,
                acc@,
            ),
        decreases p.len() - j,
    {
        if p[j] == CLOSE_BRACKET && j > first {
            return ClassEnd::Closed(acc, j + 1);
        }
        if p[j] == SLASH {
            return ClassEnd::Slash;
        }
        proof {
            lemma_class_name_end(p@, j + 2);
        }
        match read_named_class(p, j) {
            Some((ranges, next)) => {
                let mut more = ranges;
                acc.append(&mut more);
                j = next;
            },
            None => {
                let (lo, k) = read_plain(p, j);
                if p.len() - k > 1 && p[k] == HYPHEN && p[k + 1] != CLOSE_BRACKET {
                    let (hi, m) = read_plain(p, k + 1);
                    acc.push((lo, hi));
                    j = m;
                } else {
                    acc.push((lo, lo));
                    j = k;
                }
            },
        }
    }
    ClassEnd::Open
}

fn read_piece(p: &[u8], i: usize) -> (r: (Piece, usize))
    requires
        i < p.len(),
    ensures
        r.0@ == piece_at(p@, i as int).0,
        r.1 == piece_at(p@, i as int).1,
{
    if p[i] == STAR {
        (Piece::Run, i + 1)
    } else if p[i] == QUESTION {
        (Piece::One, i + 1)
    } else if p[i] == OPEN_BRACKET {
        let negated: bool = p.len() - i > 1 && (p[i + 1] == BANG || p[i + 1] == CARET);
        let first: usize = if negated {
            i + 2
        } else {
            i + 1
        };
        match read_class(p, first) {
            ClassEnd::Open => (Piece::Byte(OPEN_BRACKET), i + 1),
            ClassEnd::Slash => (Piece::Never, p.len()),
            ClassEnd::Closed(ranges, next) => (Piece::Class { negated, ranges }, next),
        }
    } else {
        let (b, next) = read_plain(p, i);
        (Piece::Byte(b), next)
    }
}

fn read_pieces(p: &[u8]) -> (r: Vec<Piece>)
    ensures
        piece_views(r@) == pieces_from(p@, 0),
{
    let mut r: Vec<Piece> = Vec::new();
    let mut i: usize = 0;
    assert(piece_views(r@) + pieces_from(p@, 0) =~= pieces_from(p@, 0));
    while i < p.len()
        invariant
            i <= p.len(),
            pieces_from(p@, 0) == piece_views(r@) + pieces_from(p@, i as int),
        decreases p.len() - i,
    {
        let (piece, next) = read_piece(p, i);
        proof {
            lemma_piece_at(p@, i as int);
            assert(piece_views(r@.push(piece)) =~= piece_views(r@).push(piece@));
            assert(piece_views(r@) + (seq![piece@] + pieces_from(p@, next as int))
                =~= piece_views(r@).push(piece@) + pieces_from(p@, next as int));
        }
        r.push(piece);
        i = next;
    }
    assert(piece_views(r@) + Seq::empty() =~= piece_views(r@));
    r
}

fn piece_takes(piece: &Piece, b: u8) -> (r: bool)
    ensures
        r == piece_fits(piece@, b),
{
    match piece {
        Piece::Byte(x) => b == *x,
        Piece::One => b != SLASH,
        Piece::Run => false,
        Piece::Never => false,
        Piece::Class { negated, ranges } => {
            if b == SLASH {
                return false;
            }
            let mut k: usize = 0;
            while k < ranges.len()
                invariant
                    k <= ranges.len(),
                    forall|j: int|
                        0 <= j < k ==> !((#[trigger] ranges@[j]).0 <= b <= ranges@[j].1),
                    piece@ == PieceView::Class(*negated, ranges@),
                    b != SLASH,
                decreases ranges.len() - k,
            {
                if ranges[k].0 <= b && b <= ranges[k].1 {
                    assert(in_ranges(ranges@, b));
                    return !*negated;
                }
                k += 1;
            }
            *negated
        },
    }
}

/// Whether the pieces match the whole of `name`. One row of answers per piece, from the
/// last piece to the first: entry `j` says whether the pieces from there on match the name
/// from `j` on.
fn pieces_fit(ps: &Vec<Piece>, name: &[u8]) -> (r: bool)
    ensures
        r == fits(piece_views(ps@), name@),
{
    let n: usize = name.len();
    let ghost views = piece_views(ps@);
    let mut row: Vec<bool> = Vec::new();
    let mut j: usize = 0;
    while j < n
        invariant
            j <= n == name.len(),
            row.len() == j,
            forall|k: int| 0 <= k < j ==> !(#[trigger] row@[k]),
        decreases n - j,
    {
        row.push(false);
        j += 1;
    }
    row.push(true);
    let mut t: usize = ps.len();
    assert forall|k: int| 0 <= k <= n implies #[trigger] row@[k] == fits(
        views.skip(t as int),
        name@.skip(k),
    ) by {}
    while t > 0
        invariant
            t <= ps.len(),
            n == name.len(),
            views == piece_views(ps@),
            row.len() == n + 1,
            forall|k: int|
                0 <= k <= n ==> #[trigger] row@[k] == fits(views.skip(t as int), name@.skip(k)),
        decreases t,
    {
        t -= 1;
        let ghost here = views.skip(t as int);
        assert(here.skip(1) =~= views.skip(t + 1));
        assert(here[0] == ps@[t as int]@);
        let is_run: bool = match &ps[t] {
            Piece::Run => true,
            _ => false,
        };
        let mut next: Vec<bool> = Vec::new();
        // Filled from the end of the name: entry `n - k` of the new row is `next[k]`.
        let mut k: usize = 0;
        while k <= n
            invariant
                k <= n + 1,
                n == name.len(),
                row.len() == n + 1,
                t < ps.len(),
                next.len() == k,
                here == views.skip(t as int),
                here.len() > 0,
                here[0] == ps@[t as int]@,
                is_run == (here[0] is Run),
                forall|m: int|
                    0 <= m <= n ==> #[trigger] row@[m] == fits(here.skip(1), name@.skip(m)),
                forall|m: int|
                    0 <= m < k ==> #[trigger] next@[m] == fits(here, name@.skip(n - m)),
            decreases n + 1 - k,
        {
            let at: usize = n - k;
            assert(at < n ==> name@.skip(at as int).skip(1) =~= name@.skip(at + 1));
            let here_fits: bool = if is_run {
                row[at] || (k > 0 && name[at] != SLASH && next[k - 1])
            } else {
                k > 0 && piece_takes(&ps[t], name[at]) && row[at + 1]
            };
            next.push(here_fits);
            k += 1;
        }
        let mut flipped: Vec<bool> = Vec::new();
        let mut m: usize = 0;
        while m <= n
            invariant
                m <= n + 1,
                next.len() == n + 1,
                flipped.len() == m,
                forall|q: int|
                    0 <= q <= n ==> #[trigger] next@[q] == fits(here, name@.skip(n - q)),
                forall|q: int| 0 <= q < m ==> #[trigger] flipped@[q] == fits(here, name@.skip(q)),
            decreases n + 1 - m,
        {
            assert(next@[n - m] == fits(here, name@.skip(n - (n - m))));
            flipped.push(next[n - m]);
            m += 1;
        }
        row = flipped;
    }
    assert(views.skip(0) =~= views);
    assert(name@.skip(0) =~= name@);
    row[0]
}

fn has_zero(bytes: &[u8]) -> (r: bool)
    ensures
        r == bytes@.contains(0),
{
    let mut k: usize = 0;
    while k < bytes.len()
        invariant
            k <= bytes.len(),
            forall|j: int| 0 <= j < k ==> #[trigger] bytes@[j] != 0,
        decreases bytes.len() - k,
    {
        if bytes[k] == 0 {
            return true;
        }
        k += 1;
    }
    false
}

/// Whether the glob matches the whole name.
pub fn glob_match(pattern: &str, name: &str) -> (r: bool)
    ensures
        r == glob_matches(encode_utf8(pattern@), encode_utf8(name@)),
{
    let p = pattern.as_bytes();
    let n = name.as_bytes();
    if has_zero(p) || has_zero(n) {
        return false;
    }
    let pieces = read_pieces(p);
    pieces_fit(&pieces, n)
}

/// The number of slashes in a name.
pub open spec fn slashes(name: Seq<u8>) -> nat
    decreases name.len(),
{
    if name.len() == 0 {
        0
    } else {
        slashes(name.skip(1)) + if name[0] == SLASH {
            1nat
        } else {
            0nat
        }
    }
}

/// The number of pieces that are a slash.
pub open spec fn slash_pieces(ps: Seq<PieceView>) -> nat
    decreases ps.len(),
{
    if ps.len() == 0 {
        0
    } else {
        slash_pieces(ps.skip(1)) + if ps[0] == PieceView::Byte(SLASH) {
            1nat
        } else {
            0nat
        }
    }
}

/// Only a slash of the pattern matches a slash: a glob matches only names that lie as deep
/// as it does itself.
pub proof fn law_slashes(ps: Seq<PieceView>, name: Seq<u8>)
    requires
        fits(ps, name),
    ensures
        slashes(name) == slash_pieces(ps),
    decreases ps.len(), name.len(),
{
    if ps.len() > 0 {
        if ps[0] is Run {
            if fits(ps.skip(1), name) {
                law_slashes(ps.skip(1), name);
            } else {
                law_slashes(ps, name.skip(1));
            }
        } else {
            law_slashes(ps.skip(1), name.skip(1));
        }
    }
}

/// The byte stands for itself in a pattern.
pub open spec fn ordinary(b: u8) -> bool {
    b != STAR && b != QUESTION && b != OPEN_BRACKET && b != BACKSLASH && b != 0
}

proof fn lemma_ordinary(p: Seq<u8>, i: int, name: Seq<u8>)
    requires
        0 <= i <= p.len(),
        forall|k: int| 0 <= k < p.len() ==> ordinary(#[trigger] p[k]),
    ensures
        fits(pieces_from(p, i), name) == (name == p.skip(i)),
    decreases p.len() - i,
{
    if i < p.len() {
        let rest = pieces_from(p, i + 1);
        assert(ordinary(p[i]));
        assert((seq![PieceView::Byte(p[i])] + rest).skip(1) =~= rest);
        if name.len() > 0 {
            lemma_ordinary(p, i + 1, name.skip(1));
            if name[0] == p[i] && name.skip(1) == p.skip(i + 1) {
                assert(name =~= p.skip(i)) by {
                    assert forall|k: int| 0 <= k < name.len() implies name[k] == p.skip(i)[k] by {
                        if k > 0 {
                            assert(name.skip(1)[k - 1] == p.skip(i + 1)[k - 1]);
                        }
                    }
                    assert(name.skip(1).len() == p.skip(i + 1).len());
                }
            }
            if name == p.skip(i) {
                assert(name.skip(1) =~= p.skip(i + 1));
            }
        }
    } else if name.len() == 0 {
        assert(name =~= p.skip(i));
    }
}

/// A pattern of ordinary bytes matches itself and nothing else.
pub proof fn law_ordinary_pattern(pattern: Seq<u8>, name: Seq<u8>)
    requires
        forall|k: int| 0 <= k < pattern.len() ==> ordinary(#[trigger] pattern[k]),
    ensures
        glob_matches(pattern, name) == (name == pattern),
{
    lemma_ordinary(pattern, 0, name);
    assert(pattern.skip(0) =~= pattern);
    if pattern.contains(0) {
        let k = choose|k: int| 0 <= k < pattern.len() && pattern[k] == 0;
        assert(ordinary(pattern[k]));
    }
}

} // verus!
