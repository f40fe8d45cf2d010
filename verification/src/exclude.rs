//! Exclude patterns: the built-in ones and those of a repository.
//!
//! - A trailing `/` makes a directory pattern.
//! - A bare name with a trailing `/` (`Pods/`) matches at any depth.
//! - A path with a trailing `/` (`docs/internal/`) is anchored at the repository root.
//! - A pattern with `*`, `?` or `[` is a glob.
//! - Any other pattern is a path, and excludes it with all that lies under it.
use crate::collections::StringSet;
use crate::glob::{glob_match, glob_matches};
use crate::text::{
    begins_with, concat2, contains_char, join, join_first, segments, segments_of, starts_with,
    str_eq, texts,
};
use vstd::prelude::*;
use vstd::string::StrSliceExecFns;
use vstd::utf8::encode_utf8;

verus! {

/// The built-in excludes: directories that are large, generated, or hold no documents.
pub open spec fn default_patterns() -> Seq<Seq<char>> {
    seq![
        ".git/"@,
        ".svn/"@,
        ".hg/"@,
        "node_modules/"@,
        ".build/"@,
        "DerivedData/"@,
        "Library/"@,
        "Pods/"@,
        "target/"@,
        "vendor/"@,
        ".venv/"@,
        "__pycache__/"@,
    ]
}

/// The built-in excludes.
pub fn default_excludes() -> (r: Vec<String>)
    ensures
        texts(r@) == default_patterns(),
{
    let r = vec![
        ".git/".to_owned(),
        ".svn/".to_owned(),
        ".hg/".to_owned(),
        "node_modules/".to_owned(),
        ".build/".to_owned(),
        "DerivedData/".to_owned(),
        "Library/".to_owned(),
        "Pods/".to_owned(),
        "target/".to_owned(),
        "vendor/".to_owned(),
        ".venv/".to_owned(),
        "__pycache__/".to_owned(),
    ];
    assert(texts(r@) =~= default_patterns());
    r
}

/// The pattern has a character that makes it a glob.
pub open spec fn globby(p: Seq<char>) -> bool {
    p.contains('*') || p.contains('?') || p.contains('[')
}

fn is_glob(s: &str) -> (r: bool)
    ensures
        r == globby(s@),
{
    contains_char(s, '*') || contains_char(s, '?') || contains_char(s, '[')
}

/// The glob `p` matches the whole text `name`.
pub open spec fn glob_text(p: Seq<char>, name: Seq<char>) -> bool {
    glob_matches(encode_utf8(p), encode_utf8(name))
}

/// The path `p` excludes itself and what lies under it.
pub open spec fn path_excludes(p: Seq<char>, rel: Seq<char>) -> bool {
    rel == p || begins_with(rel, p + "/"@)
}

/// Some segment of the path, or its base name, is `name`.
pub open spec fn name_excludes(name: Seq<char>, rel: Seq<char>, base: Option<Seq<char>>) -> bool {
    base == Some(name) || segments(rel).contains(name)
}

/// The first `depth` directories of the path match the glob `p`, and something lies under
/// them.
pub open spec fn dir_glob_excludes(p: Seq<char>, depth: int, rel: Seq<char>) -> bool {
    segments(rel).len() > depth && glob_text(p, join(segments(rel).take(depth), "/"@))
}

/// The pattern excludes the path `rel`, whose base name may be given.
pub open spec fn pattern_excludes(p: Seq<char>, rel: Seq<char>, base: Option<Seq<char>>) -> bool {
    if p.len() > 0 && p.last() == '/' {
        let prefix = p.drop_last();
        if globby(p) {
            dir_glob_excludes(prefix, segments(prefix).len() as int, rel)
        } else if !prefix.contains('/') {
            name_excludes(prefix, rel, base)
        } else {
            begins_with(rel, p)
        }
    } else if globby(p) {
        glob_text(p, rel)
    } else {
        path_excludes(p, rel)
    }
}

/// One of the patterns excludes the path.
pub open spec fn any_excludes(ps: Seq<Seq<char>>, rel: Seq<char>, base: Option<Seq<char>>) -> bool {
    exists|i: int| 0 <= i < ps.len() && pattern_excludes(#[trigger] ps[i], rel, base)
}

/// Patterns sorted by the way in which they match.
#[verifier::ext_equal]
pub struct Plan {
    pub bare: Set<Seq<char>>,
    pub anchored: Seq<Seq<char>>,
    pub globs: Seq<Seq<char>>,
    pub plain: Seq<Seq<char>>,
    pub trailing: Seq<(Seq<char>, int)>,
}

impl Plan {
    /// The plan of no patterns.
    pub open spec fn none() -> Plan {
        Plan {
            bare: Set::empty(),
            anchored: Seq::empty(),
            globs: Seq::empty(),
            plain: Seq::empty(),
            trailing: Seq::empty(),
        }
    }

    /// The plan with one more pattern.
    pub open spec fn with(self, p: Seq<char>) -> Plan {
        if p.len() > 0 && p.last() == '/' {
            let prefix = p.drop_last();
            if globby(p) {
                let depth = segments(prefix).len() as int;
                Plan { trailing: self.trailing.push((prefix, depth)), ..self }
            } else if !prefix.contains('/') {
                Plan { bare: self.bare.insert(prefix), ..self }
            } else {
                Plan { anchored: self.anchored.push(p), ..self }
            }
        } else if globby(p) {
            Plan { globs: self.globs.push(p), ..self }
        } else {
            Plan { plain: self.plain.push(p), ..self }
        }
    }

    /// The plan of the patterns.
    pub open spec fn of(ps: Seq<Seq<char>>) -> Plan
        decreases ps.len(),
    {
        if ps.len() == 0 {
            Plan::none()
        } else {
            Plan::of(ps.drop_last()).with(ps.last())
        }
    }

    /// Some pattern of the plan excludes the path.
    pub open spec fn excludes(self, rel: Seq<char>, base: Option<Seq<char>>) -> bool {
        ||| exists|name: Seq<char>|
            #[trigger] self.bare.contains(name) && name_excludes(name, rel, base)
        ||| exists|i: int| 0 <= i < self.plain.len() && path_excludes(#[trigger] self.plain[i], rel)
        ||| exists|i: int|
            0 <= i < self.anchored.len() && begins_with(rel, #[trigger] self.anchored[i])
        ||| exists|i: int| 0 <= i < self.globs.len() && glob_text(#[trigger] self.globs[i], rel)
        ||| exists|i: int|
            0 <= i < self.trailing.len() && dir_glob_excludes(
                (#[trigger] self.trailing[i]).0,
                self.trailing[i].1,
                rel,
            )
    }
}

/// Patterns made ready for matching many paths.
pub struct ExcludeMatcher {
    /// Bare names (`Pods/`), without the slash. They match at any depth.
    pub bare_basenames: StringSet,
    /// Paths with a trailing slash (`docs/internal/`), anchored at the root.
    pub anchored: Vec<String>,
    /// Globs.
    pub globs: Vec<String>,
    /// Plain paths, which match at the root.
    pub plain_prefixes: Vec<String>,
    /// Globs with a trailing slash (`assets/*/`), without it, with the number of their
    /// segments.
    pub trailing_globs: Vec<(String, usize)>,
}

/// What trailing globs stand for.
pub open spec fn trailing_view(v: Seq<(String, usize)>) -> Seq<(Seq<char>, int)> {
    Seq::new(v.len(), |i: int| (v[i].0@, v[i].1 as int))
}

impl View for ExcludeMatcher {
    type V = Plan;

    open spec fn view(&self) -> Plan {
        Plan {
            bare: self.bare_basenames@,
            anchored: texts(self.anchored@),
            globs: texts(self.globs@),
            plain: texts(self.plain_prefixes@),
            trailing: trailing_view(self.trailing_globs@),
        }
    }
}

impl ExcludeMatcher {
    /// A matcher for the patterns.
    pub fn new(patterns: &Vec<String>) -> (r: Self)
        ensures
            r@ == Plan::of(texts(patterns@)),
            forall|rel: Seq<char>, base: Option<Seq<char>>| #[trigger]
                r@.excludes(rel, base) == any_excludes(texts(patterns@), rel, base),
    {
        let mut r = ExcludeMatcher {
            bare_basenames: StringSet::new(),
            anchored: Vec::new(),
            globs: Vec::new(),
            plain_prefixes: Vec::new(),
            trailing_globs: Vec::new(),
        };
        let mut i: usize = 0;
        assert(texts(patterns@).take(0) =~= Seq::empty());
        assert(r@ =~= Plan::none());
        while i < patterns.len()
            invariant
                i <= patterns.len(),
                r@ == Plan::of(texts(patterns@).take(i as int)),
            decreases patterns.len() - i,
        {
            assert(texts(patterns@).take(i + 1).drop_last() =~= texts(patterns@).take(i as int));
            assert(texts(patterns@).take(i + 1).last() == patterns@[i as int]@);
            r.push(patterns[i].as_str());
            i += 1;
        }
        assert(texts(patterns@).take(i as int) =~= texts(patterns@));
        assert forall|rel: Seq<char>, base: Option<Seq<char>>| #[trigger]
            r@.excludes(rel, base) == any_excludes(texts(patterns@), rel, base) by {
            law_plan_is_any_pattern(texts(patterns@), rel, base);
        }
        r
    }

    fn push(&mut self, p: &str)
        ensures
            final(self)@ == old(self)@.with(p@),
    {
        let glob: bool = is_glob(p);
        let len: usize = p.unicode_len();
        if len > 0 && p.get_char(len - 1) == '/' {
            let prefix = p.substring_char(0, len - 1);
            assert(prefix@ =~= p@.drop_last());
            if glob {
                let depth: usize = segments_of(prefix).len();
                self.trailing_globs.push((prefix.to_owned(), depth));
                assert(self@ =~= old(self)@.with(p@));
            } else if !contains_char(prefix, '/') {
                let _ = self.bare_basenames.insert(prefix.to_owned());
                assert(self@ =~= old(self)@.with(p@));
            } else {
                self.anchored.push(p.to_owned());
                assert(self@ =~= old(self)@.with(p@));
            }
        } else if glob {
            self.globs.push(p.to_owned());
            assert(self@ =~= old(self)@.with(p@));
        } else {
            self.plain_prefixes.push(p.to_owned());
            assert(self@ =~= old(self)@.with(p@));
        }
    }

    /// Whether a bare name excludes a directory or file of this name, wherever it lies.
    pub fn matches_bare(&self, basename: &str) -> (r: bool)
        ensures
            r == self@.bare.contains(basename@),
    {
        self.bare_basenames.contains(basename)
    }

    /// Whether there are only bare names.
    pub fn is_bare_only(&self) -> (r: bool)
        ensures
            r == (self@.anchored.len() == 0 && self@.globs.len() == 0 && self@.plain.len() == 0
                && self@.trailing.len() == 0),
    {
        self.anchored.len() == 0 && self.globs.len() == 0 && self.plain_prefixes.len() == 0
            && self.trailing_globs.len() == 0
    }

    /// Whether a pattern excludes the path `rel_path`. The base name, where it is known,
    /// is looked up first.
    pub fn matches(&self, rel_path: &str, basename: Option<&str>) -> (r: bool)
        ensures
            r == self@.excludes(
                rel_path@,
                match basename {
                    Some(b) => Some(b@),
                    None => None,
                },
            ),
    {
        let ghost rel = rel_path@;
        let ghost base = match basename {
            Some(b) => Some(b@),
            None => None,
        };
        if let Some(b) = basename {
            if self.bare_basenames.contains(b) {
                assert(self@.bare.contains(b@) && name_excludes(b@, rel, base));
                return true;
            }
        }
        let parts = segments_of(rel_path);
        let mut i: usize = 0;
        while i < parts.len()
            invariant
                i <= parts.len(),
                texts(parts@) == segments(rel),
                rel == rel_path@,
                forall|j: int| 0 <= j < i ==> !self@.bare.contains(#[trigger] parts@[j]@),
            decreases parts.len() - i,
        {
            if self.bare_basenames.contains(parts[i].as_str()) {
                let ghost name = parts@[i as int]@;
                assert(texts(parts@)[i as int] == name);
                assert(self@.bare.contains(name) && name_excludes(name, rel, base));
                return true;
            }
            i += 1;
        }
        assert(!exists|name: Seq<char>| #[trigger]
            self@.bare.contains(name) && name_excludes(name, rel, base)) by {
            if exists|name: Seq<char>| #[trigger]
                self@.bare.contains(name) && name_excludes(name, rel, base) {
                let name = choose|name: Seq<char>| #[trigger]
                    self@.bare.contains(name) && name_excludes(name, rel, base);
                let j = choose|j: int| 0 <= j < segments(rel).len() && segments(rel)[j] == name;
                assert(texts(parts@)[j] == parts@[j]@);
            }
        }
        i = 0;
        while i < self.plain_prefixes.len()
            invariant
                i <= self.plain_prefixes.len(),
                rel == rel_path@,
                forall|j: int| 0 <= j < i ==> !path_excludes(#[trigger] self@.plain[j], rel),
            decreases self.plain_prefixes.len() - i,
        {
            let p = self.plain_prefixes[i].as_str();
            assert(self@.plain[i as int] == p@);
            if str_eq(rel_path, p) || starts_with(rel_path, concat2(p, "/").as_str()) {
                return true;
            }
            i += 1;
        }
        i = 0;
        while i < self.anchored.len()
            invariant
                i <= self.anchored.len(),
                rel == rel_path@,
                forall|j: int| 0 <= j < i ==> !begins_with(rel, #[trigger] self@.anchored[j]),
            decreases self.anchored.len() - i,
        {
            assert(self@.anchored[i as int] == self.anchored@[i as int]@);
            if starts_with(rel_path, self.anchored[i].as_str()) {
                return true;
            }
            i += 1;
        }
        i = 0;
        while i < self.globs.len()
            invariant
                i <= self.globs.len(),
                rel == rel_path@,
                forall|j: int| 0 <= j < i ==> !glob_text(#[trigger] self@.globs[j], rel),
            decreases self.globs.len() - i,
        {
            assert(self@.globs[i as int] == self.globs@[i as int]@);
            if glob_match(self.globs[i].as_str(), rel_path) {
                return true;
            }
            i += 1;
        }
        i = 0;
        while i < self.trailing_globs.len()
            invariant
                i <= self.trailing_globs.len(),
                rel == rel_path@,
                texts(parts@) == segments(rel),
                forall|j: int|
                    0 <= j < i ==> !dir_glob_excludes(
                        (#[trigger] self@.trailing[j]).0,
                        self@.trailing[j].1,
                        rel,
                    ),
            decreases self.trailing_globs.len() - i,
        {
            let depth: usize = self.trailing_globs[i].1;
            assert(self@.trailing[i as int] == (self.trailing_globs@[i as int].0@, depth as int));
            if parts.len() > depth {
                let dir = join_first(&parts, depth, "/");
                if glob_match(self.trailing_globs[i].0.as_str(), dir.as_str()) {
                    return true;
                }
            }
            i += 1;
        }
        false
    }
}

/// A plan with one more pattern excludes what it excluded and what the pattern excludes.
proof fn lemma_plan_with(pl: Plan, p: Seq<char>, rel: Seq<char>, base: Option<Seq<char>>)
    ensures
        pl.with(p).excludes(rel, base) == (pl.excludes(rel, base) || pattern_excludes(
            p,
            rel,
            base,
        )),
{
    let q = pl.with(p);
    if pl.excludes(rel, base) {
        if exists|name: Seq<char>| #[trigger]
            pl.bare.contains(name) && name_excludes(name, rel, base) {
            let name = choose|name: Seq<char>| #[trigger]
                pl.bare.contains(name) && name_excludes(name, rel, base);
            assert(q.bare.contains(name));
        }
        if exists|i: int| 0 <= i < pl.plain.len() && path_excludes(#[trigger] pl.plain[i], rel) {
            let i = choose|i: int|
                0 <= i < pl.plain.len() && path_excludes(#[trigger] pl.plain[i], rel);
            assert(q.plain[i] == pl.plain[i]);
        }
        if exists|i: int|
            0 <= i < pl.anchored.len() && begins_with(rel, #[trigger] pl.anchored[i]) {
            let i = choose|i: int|
                0 <= i < pl.anchored.len() && begins_with(rel, #[trigger] pl.anchored[i]);
            assert(q.anchored[i] == pl.anchored[i]);
        }
        if exists|i: int| 0 <= i < pl.globs.len() && glob_text(#[trigger] pl.globs[i], rel) {
            let i = choose|i: int|
                0 <= i < pl.globs.len() && glob_text(#[trigger] pl.globs[i], rel);
            assert(q.globs[i] == pl.globs[i]);
        }
        if exists|i: int|
            0 <= i < pl.trailing.len() && dir_glob_excludes(
                (#[trigger] pl.trailing[i]).0,
                pl.trailing[i].1,
                rel,
            ) {
            let i = choose|i: int|
                0 <= i < pl.trailing.len() && dir_glob_excludes(
                    (#[trigger] pl.trailing[i]).0,
                    pl.trailing[i].1,
                    rel,
                );
            assert(q.trailing[i] == pl.trailing[i]);
        }
    }
    if pattern_excludes(p, rel, base) {
        if p.len() > 0 && p.last() == '/' {
            let prefix = p.drop_last();
            if globby(p) {
                assert(q.trailing[pl.trailing.len() as int] == (prefix, segments(
                    prefix,
                ).len() as int));
            } else if !prefix.contains('/') {
                assert(q.bare.contains(prefix));
            } else {
                assert(q.anchored[pl.anchored.len() as int] == p);
            }
        } else if globby(p) {
            assert(q.globs[pl.globs.len() as int] == p);
        } else {
            assert(q.plain[pl.plain.len() as int] == p);
        }
    }
}

/// A matcher excludes a path exactly when one of its patterns does.
pub proof fn law_plan_is_any_pattern(ps: Seq<Seq<char>>, rel: Seq<char>, base: Option<Seq<char>>)
    ensures
        Plan::of(ps).excludes(rel, base) == any_excludes(ps, rel, base),
    decreases ps.len(),
{
    if ps.len() > 0 {
        let before = ps.drop_last();
        law_plan_is_any_pattern(before, rel, base);
        lemma_plan_with(Plan::of(before), ps.last(), rel, base);
        if any_excludes(before, rel, base) {
            let i = choose|i: int|
                0 <= i < before.len() && pattern_excludes(#[trigger] before[i], rel, base);
            assert(pattern_excludes(ps[i], rel, base));
        }
        if pattern_excludes(ps.last(), rel, base) {
            assert(pattern_excludes(ps[ps.len() - 1], rel, base));
        }
        if any_excludes(ps, rel, base) && !pattern_excludes(ps.last(), rel, base) {
            let i = choose|i: int|
                0 <= i < ps.len() && pattern_excludes(#[trigger] ps[i], rel, base);
            assert(before[i] == ps[i]);
        }
    }
}

/// The order of the patterns, and how often each is given, do not matter; more patterns
/// exclude more.
pub proof fn law_patterns_as_set(
    ps: Seq<Seq<char>>,
    qs: Seq<Seq<char>>,
    rel: Seq<char>,
    base: Option<Seq<char>>,
)
    requires
        forall|i: int| 0 <= i < ps.len() ==> qs.contains(#[trigger] ps[i]),
    ensures
        Plan::of(ps).excludes(rel, base) ==> Plan::of(qs).excludes(rel, base),
{
    law_plan_is_any_pattern(ps, rel, base);
    law_plan_is_any_pattern(qs, rel, base);
    if any_excludes(ps, rel, base) {
        let i = choose|i: int| 0 <= i < ps.len() && pattern_excludes(#[trigger] ps[i], rel, base);
        let j = choose|j: int| 0 <= j < qs.len() && qs[j] == ps[i];
        assert(pattern_excludes(qs[j], rel, base));
    }
}

/// A bare name with a trailing slash excludes a path in which it is a segment, at any
/// depth.
pub proof fn law_bare_name_at_any_depth(name: Seq<char>, rel: Seq<char>, i: int)
    requires
        !name.contains('/'),
        !globby(name),
        0 <= i < segments(rel).len(),
        segments(rel)[i] == name,
    ensures
        pattern_excludes(name.push('/'), rel, None),
{
    let p = name.push('/');
    assert(p.drop_last() =~= name);
    if globby(p) {
        let c = if p.contains('*') {
            '*'
        } else if p.contains('?') {
            '?'
        } else {
            '['
        };
        let j = choose|j: int| 0 <= j < p.len() && p[j] == c;
        assert(name[j] == c);
    }
}

} // verus!
