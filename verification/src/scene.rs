//! Where the links of a file lead, and what is wrong with them.
//!
//! A link is resolved on [`Facts`]: canonical paths, files and indices. Where a fact is
//! missing, the answer is which one is needed.
use crate::cache::{ExtractedFile, ExtractedView};
use crate::collections::StringMap;
use crate::discovery::{name_views, IndexView, RepoIndex};
use crate::extract::{anchor, anchor_id, KindView, Link, LinkKind, LinkView};
use crate::path::{base_name, base_of, is_under, rel_of, rel_path, under, CanonicalPath};
use crate::resolve::{resolve_link, resolve_under_root, resolved, resolved_strictly};
use crate::text::{ends_with, finishes_with, str_eq, texts};
use vstd::prelude::*;

verus! {

/// Which kind of link a style note is about.
#[derive(Debug, Clone, PartialEq, Eq)]
pub enum StyleScope {
    Wiki,
    CrossRepo { repo: String },
}

/// What is wrong with a link.
#[derive(Debug, Clone, PartialEq, Eq)]
pub enum IssueKind {
    /// It leads to no file.
    Broken,
    /// Its name fits this many files.
    Ambiguous(usize),
    /// The file has no such heading.
    BrokenAnchor(String),
    /// It could be written in the canonical way.
    Style { scope: StyleScope, suggested: String, path_start: usize, path_end: usize },
    /// It leads to no file in the other repository.
    CrossRepoBroken(String),
    /// The file itself could not be read, so its links cannot be checked.
    Unreadable,
}

/// A link, the file it stands in, and what is wrong with it.
#[derive(Debug, Clone, PartialEq, Eq)]
pub struct LinkIssue {
    pub link: String,
    pub source: String,
    pub kind: IssueKind,
}

/// What a [`StyleScope`] stands for.
pub enum ScopeView {
    Wiki,
    CrossRepo(Seq<char>),
}

/// What an [`IssueKind`] stands for.
pub enum IssueKindView {
    Broken,
    Ambiguous(int),
    BrokenAnchor(Seq<char>),
    Style { scope: ScopeView, suggested: Seq<char>, path_start: int, path_end: int },
    CrossRepoBroken(Seq<char>),
    Unreadable,
}

/// What a [`LinkIssue`] stands for.
pub struct IssueView {
    pub link: Seq<char>,
    pub source: Seq<char>,
    pub kind: IssueKindView,
}

impl View for StyleScope {
    type V = ScopeView;

    open spec fn view(&self) -> ScopeView {
        match self {
            StyleScope::Wiki => ScopeView::Wiki,
            StyleScope::CrossRepo { repo } => ScopeView::CrossRepo(repo@),
        }
    }
}

impl View for IssueKind {
    type V = IssueKindView;

    open spec fn view(&self) -> IssueKindView {
        match self {
            IssueKind::Broken => IssueKindView::Broken,
            IssueKind::Ambiguous(n) => IssueKindView::Ambiguous(*n as int),
            IssueKind::BrokenAnchor(f) => IssueKindView::BrokenAnchor(f@),
            IssueKind::Style { scope, suggested, path_start, path_end } => IssueKindView::Style {
                scope: scope@,
                suggested: suggested@,
                path_start: *path_start as int,
                path_end: *path_end as int,
            },
            IssueKind::CrossRepoBroken(repo) => IssueKindView::CrossRepoBroken(repo@),
            IssueKind::Unreadable => IssueKindView::Unreadable,
        }
    }
}

impl View for LinkIssue {
    type V = IssueView;

    open spec fn view(&self) -> IssueView {
        IssueView { link: self.link@, source: self.source@, kind: self.kind@ }
    }
}

/// What a sequence of issues stands for.
pub open spec fn issue_views(v: Seq<LinkIssue>) -> Seq<IssueView> {
    Seq::new(v.len(), |i: int| v[i]@)
}

/// A fact that the crawl needs.
#[derive(Debug, Clone, PartialEq, Eq)]
pub enum Query {
    /// The canonical path of a path.
    Canonical(String),
    /// The content of the file `path`, which belongs to the repository at `root`.
    File { path: String, root: String },
    /// The index of the repository at this root.
    Index(String),
}

/// What a [`Query`] stands for.
pub enum QueryView {
    Canonical(Seq<char>),
    File(Seq<char>, Seq<char>),
    Index(Seq<char>),
}

impl View for Query {
    type V = QueryView;

    open spec fn view(&self) -> QueryView {
        match self {
            Query::Canonical(p) => QueryView::Canonical(p@),
            Query::File { path, root } => QueryView::File(path@, root@),
            Query::Index(root) => QueryView::Index(root@),
        }
    }
}

/// What the crawl knows of the outside.
pub struct Facts {
    /// The canonical path of each path that was asked for, where it exists.
    pub canonical: StringMap<Option<CanonicalPath>>,
    /// What was read out of each file, where it could be read.
    pub files: StringMap<Option<ExtractedFile>>,
    /// The index of each repository, by root.
    pub indices: StringMap<RepoIndex>,
}

/// What [`Facts`] stand for.
#[verifier::ext_equal]
pub struct FactsView {
    pub canonical: Map<Seq<char>, Option<Seq<char>>>,
    pub files: Map<Seq<char>, Option<ExtractedView>>,
    pub indices: Map<Seq<char>, IndexView>,
}

/// What an optional path stands for.
pub open spec fn opt_path(p: Option<CanonicalPath>) -> Option<Seq<char>> {
    match p {
        Some(p) => Some(p@),
        None => None,
    }
}

/// What an optional file stands for.
pub open spec fn opt_file(f: Option<ExtractedFile>) -> Option<ExtractedView> {
    match f {
        Some(f) => Some(f@),
        None => None,
    }
}

impl View for Facts {
    type V = FactsView;

    open spec fn view(&self) -> FactsView {
        FactsView {
            canonical: self.canonical@.map_values(|p: Option<CanonicalPath>| opt_path(p)),
            files: self.files@.map_values(|f: Option<ExtractedFile>| opt_file(f)),
            indices: self.indices@.map_values(|ix: RepoIndex| ix@),
        }
    }
}

impl Facts {
    /// No facts.
    pub fn new() -> (r: Self)
        ensures
            r@ == (FactsView {
                canonical: Map::empty(),
                files: Map::empty(),
                indices: Map::empty(),
            }),
    {
        let r = Facts {
            canonical: StringMap::new(),
            files: StringMap::new(),
            indices: StringMap::new(),
        };
        assert(r@.canonical =~= Map::empty());
        assert(r@.files =~= Map::empty());
        assert(r@.indices =~= Map::empty());
        r
    }

    /// Notes the canonical path of `path`; none when it does not exist.
    pub fn set_canonical(&mut self, path: String, canonical: Option<CanonicalPath>)
        ensures
            final(self)@ == (FactsView {
                canonical: old(self)@.canonical.insert(path@, opt_path(canonical)),
                ..old(self)@
            }),
    {
        let ghost p = path@;
        self.canonical.insert(path, canonical);
        assert(self@.canonical =~= old(self)@.canonical.insert(p, opt_path(canonical)));
        assert(self@.files =~= old(self)@.files);
        assert(self@.indices =~= old(self)@.indices);
    }

    /// Notes what was read out of the file `path`; none when it could not be read.
    pub fn set_file(&mut self, path: String, file: Option<ExtractedFile>)
        ensures
            final(self)@ == (FactsView {
                files: old(self)@.files.insert(path@, opt_file(file)),
                ..old(self)@
            }),
    {
        let ghost p = path@;
        self.files.insert(path, file);
        assert(self@.canonical =~= old(self)@.canonical);
        assert(self@.files =~= old(self)@.files.insert(p, opt_file(file)));
        assert(self@.indices =~= old(self)@.indices);
    }

    /// Notes the index of the repository at `root`.
    pub fn set_index(&mut self, root: String, index: RepoIndex)
        ensures
            final(self)@ == (FactsView {
                indices: old(self)@.indices.insert(root@, index@),
                ..old(self)@
            }),
    {
        let ghost p = root@;
        self.indices.insert(root, index);
        assert(self@.canonical =~= old(self)@.canonical);
        assert(self@.files =~= old(self)@.files);
        assert(self@.indices =~= old(self)@.indices.insert(p, index@));
    }
}

/// The repository that is crawled, the others, and what is known of them.
pub struct Scene {
    /// The root of the repository that is crawled.
    pub entry_root: CanonicalPath,
    /// The canonical roots of the known repositories, by name.
    pub repos: StringMap<CanonicalPath>,
    pub all_extensions: bool,
    pub facts: Facts,
}

/// What a [`Scene`] stands for.
#[verifier::ext_equal]
pub struct SceneView {
    pub entry_root: Seq<char>,
    pub repos: Map<Seq<char>, Seq<char>>,
    /// The names of the repositories, in the order in which they are tried.
    pub order: Seq<Seq<char>>,
    pub all_extensions: bool,
    pub facts: FactsView,
}

impl View for Scene {
    type V = SceneView;

    open spec fn view(&self) -> SceneView {
        SceneView {
            entry_root: self.entry_root@,
            repos: self.repos@.map_values(|p: CanonicalPath| p@),
            order: self.repos.order(),
            all_extensions: self.all_extensions,
            facts: self.facts@,
        }
    }
}

/// The root of the first repository, from the `i`th on, that holds the path.
pub open spec fn first_holder(w: SceneView, path: Seq<char>, i: int) -> Option<Seq<char>>
    decreases w.order.len() - i,
{
    if i >= w.order.len() {
        None
    } else if under(path, w.repos[w.order[i]]) {
        Some(w.repos[w.order[i]])
    } else {
        first_holder(w, path, i + 1)
    }
}

/// The root of the repository that holds the path. The crawled repository comes first.
pub open spec fn holder(w: SceneView, path: Seq<char>) -> Option<Seq<char>> {
    if under(path, w.entry_root) {
        Some(w.entry_root)
    } else {
        first_holder(w, path, 0)
    }
}

/// The root `r`, or `other` when there is none.
pub open spec fn root_or(r: Option<Seq<char>>, other: Seq<char>) -> Seq<char> {
    match r {
        Some(r) => r,
        None => other,
    }
}

/// Where a target was found.
pub enum FoundView {
    At(Seq<char>),
    Missing,
    /// Its name fits this many files.
    Many(int),
}

/// The file that the base name of the target stands for in a repository.
pub open spec fn by_base_name(
    facts: FactsView,
    target: Seq<char>,
    by_name: Map<Seq<char>, Seq<Seq<char>>>,
) -> Result<FoundView, QueryView> {
    let name = base_of(target);
    if !by_name.contains_key(name) || by_name[name].len() == 0 {
        Ok(FoundView::Missing)
    } else if by_name[name].len() == 1 {
        let path = by_name[name][0];
        if facts.canonical.contains_key(path) {
            match facts.canonical[path] {
                Some(c) => Ok(FoundView::At(c)),
                None => Ok(FoundView::Missing),
            }
        } else {
            Err(QueryView::Canonical(path))
        }
    } else {
        Ok(FoundView::Many(by_name[name].len() as int))
    }
}

/// The file that a target stands for: the one at the path it leads to, or else, where
/// names are tried, the one that its base name stands for.
pub open spec fn located(
    facts: FactsView,
    path: Option<Seq<char>>,
    try_names: bool,
    target: Seq<char>,
    by_name: Map<Seq<char>, Seq<Seq<char>>>,
) -> Result<FoundView, QueryView> {
    let rest = if try_names {
        by_base_name(facts, target, by_name)
    } else {
        Ok(FoundView::Missing)
    };
    match path {
        Some(p) => if facts.canonical.contains_key(p) {
            match facts.canonical[p] {
                Some(c) => Ok(FoundView::At(c)),
                None => rest,
            }
        } else {
            Err(QueryView::Canonical(p))
        },
        None => rest,
    }
}

/// The path from the root of the repository, as a wiki link may give it.
pub open spec fn from_root(link: LinkView, root: Seq<char>) -> Option<Seq<char>> {
    if link.kind is Wiki {
        resolved_strictly(link.target, root)
    } else {
        None
    }
}

/// The file that a wiki or standard link stands for, which leads to `path` from its own
/// directory: the one there, or else, for a wiki link, the one at that path from the root of
/// the repository, or else, where names are tried, the one of its base name.
pub open spec fn located_in_repo(
    w: SceneView,
    link: LinkView,
    path: Seq<char>,
    ix: IndexView,
) -> Result<FoundView, QueryView> {
    if !w.facts.canonical.contains_key(path) {
        Err(QueryView::Canonical(path))
    } else {
        match w.facts.canonical[path] {
            Some(c) => Ok(FoundView::At(c)),
            None => located(
                w.facts,
                from_root(link, ix.root),
                to_markdown(link) || w.all_extensions,
                link.target,
                ix.by_name,
            ),
        }
    }
}

/// The anchors of a file; none of one that could not be read.
pub open spec fn anchors(file: Option<ExtractedView>) -> Set<Seq<char>> {
    match file {
        Some(f) => f.headings,
        None => Set::empty(),
    }
}

/// The fragment names a heading. Standard links must give the anchor itself; the others
/// may give the text of the heading.
pub open spec fn names_heading(kind: KindView, headings: Set<Seq<char>>, fragment: Seq<char>) -> bool {
    headings.contains(fragment) || (!(kind is Standard) && headings.contains(anchor(fragment)))
}

/// The issue about a fragment that names no heading of the file `path`.
pub open spec fn fragment_issues(
    w: SceneView,
    link: LinkView,
    source: Seq<char>,
    path: Seq<char>,
    fragment: Seq<char>,
) -> Result<Seq<IssueView>, QueryView> {
    if !w.facts.files.contains_key(path) {
        Err(QueryView::File(path, root_or(holder(w, path), w.entry_root)))
    } else if names_heading(link.kind, anchors(w.facts.files[path]), fragment) {
        Ok(Seq::empty())
    } else {
        Ok(
            seq![
                IssueView {
                    link: link.target,
                    source,
                    kind: IssueKindView::BrokenAnchor(fragment),
                },
            ],
        )
    }
}

/// How a link to the file at `rel` in a repository is best written: by base name, where
/// that is unique.
pub open spec fn canonical_form(
    rel: Seq<char>,
    by_name: Map<Seq<char>, Seq<Seq<char>>>,
) -> Seq<char> {
    let name = base_of(rel);
    if by_name.contains_key(name) && by_name[name].len() == 1 {
        name
    } else {
        rel
    }
}

/// The note about a link to `path`, in the repository at `root`, that is not written in
/// the canonical way.
pub open spec fn style_issues(
    link: LinkView,
    source: Seq<char>,
    path: Seq<char>,
    root: Seq<char>,
    by_name: Map<Seq<char>, Seq<Seq<char>>>,
    scope: ScopeView,
) -> Seq<IssueView> {
    match rel_of(path, root) {
        Some(rel) => if link.target == canonical_form(rel, by_name) {
            Seq::empty()
        } else {
            seq![
                IssueView {
                    link: link.target,
                    source,
                    kind: IssueKindView::Style {
                        scope,
                        suggested: canonical_form(rel, by_name),
                        path_start: link.path_start,
                        path_end: link.path_end,
                    },
                },
            ]
        },
        None => Seq::empty(),
    }
}

/// What a link comes to: the issues with it, and the file to go on to, with the root of
/// its repository.
#[verifier::ext_equal]
pub struct ResolutionView {
    pub issues: Seq<IssueView>,
    pub next: Option<(Seq<char>, Seq<char>)>,
}

/// Nothing to say and nowhere to go.
pub open spec fn silent() -> ResolutionView {
    ResolutionView { issues: Seq::empty(), next: None }
}

/// One issue, and nowhere to go.
pub open spec fn only_issue(link: LinkView, source: Seq<char>, kind: IssueKindView) -> ResolutionView {
    ResolutionView { issues: seq![IssueView { link: link.target, source, kind }], next: None }
}

/// The target of the link is a markdown file.
pub open spec fn to_markdown(link: LinkView) -> bool {
    finishes_with(link.target, ".md"@)
}

/// What a link to the file `path` comes to, once its style is judged: the fragment is
/// checked and the file is gone on to when it is markdown.
pub open spec fn settled(
    w: SceneView,
    link: LinkView,
    source: Seq<char>,
    path: Seq<char>,
    owner: Seq<char>,
    style: Seq<IssueView>,
) -> Result<ResolutionView, QueryView> {
    if !to_markdown(link) {
        Ok(ResolutionView { issues: style, next: None })
    } else {
        match link.fragment {
            None => Ok(ResolutionView { issues: style, next: Some((path, owner)) }),
            Some(fragment) => match fragment_issues(w, link, source, path, fragment) {
                Ok(more) => Ok(
                    ResolutionView { issues: style + more, next: Some((path, owner)) },
                ),
                Err(q) => Err(q),
            },
        }
    }
}

/// What a wiki or standard link comes to, in the file `source` of the repository at
/// `root`.
pub open spec fn same_repo(
    w: SceneView,
    link: LinkView,
    source: Seq<char>,
    root: Seq<char>,
) -> Result<ResolutionView, QueryView> {
    if link.target.len() == 0 {
        match link.fragment {
            Some(fragment) => match fragment_issues(w, link, source, source, fragment) {
                Ok(issues) => Ok(ResolutionView { issues, next: None }),
                Err(q) => Err(q),
            },
            None => Ok(silent()),
        }
    } else if !w.facts.indices.contains_key(root) {
        Err(QueryView::Index(root))
    } else {
        let ix = w.facts.indices[root];
        match resolved(link.target, source, ix.root) {
            None => Ok(silent()),
            Some(p) => match located_in_repo(w, link, p, ix) {
                Err(q) => Err(q),
                Ok(FoundView::Many(n)) => Ok(only_issue(link, source, IssueKindView::Ambiguous(n))),
                Ok(FoundView::Missing) => Ok(only_issue(link, source, IssueKindView::Broken)),
                Ok(FoundView::At(path)) => settled(
                    w,
                    link,
                    source,
                    path,
                    root_or(holder(w, path), ix.root),
                    if link.kind is Wiki {
                        style_issues(link, source, path, ix.root, ix.by_name, ScopeView::Wiki)
                    } else {
                        Seq::empty()
                    },
                ),
            },
        }
    }
}

/// What a link into the repository `name` comes to, in the file `source`.
pub open spec fn cross_repo(
    w: SceneView,
    link: LinkView,
    source: Seq<char>,
    name: Seq<char>,
) -> Result<ResolutionView, QueryView> {
    if !w.repos.contains_key(name) {
        Ok(silent())
    } else {
        let root = w.repos[name];
        if !w.facts.indices.contains_key(root) {
            Err(QueryView::Index(root))
        } else {
            let by_name = w.facts.indices[root].by_name;
            match located(
                w.facts,
                resolved_strictly(link.target, root),
                to_markdown(link),
                link.target,
                by_name,
            ) {
                Err(q) => Err(q),
                Ok(FoundView::Many(n)) => Ok(only_issue(link, source, IssueKindView::Ambiguous(n))),
                Ok(FoundView::Missing) => Ok(
                    only_issue(link, source, IssueKindView::CrossRepoBroken(name)),
                ),
                Ok(FoundView::At(path)) => settled(
                    w,
                    link,
                    source,
                    path,
                    if under(path, w.entry_root) {
                        w.entry_root
                    } else {
                        root
                    },
                    style_issues(link, source, path, root, by_name, ScopeView::CrossRepo(name)),
                ),
            }
        }
    }
}

/// What a link comes to, in the file `source` of the repository at `root`.
pub open spec fn outcome(
    w: SceneView,
    link: LinkView,
    source: Seq<char>,
    root: Seq<char>,
) -> Result<ResolutionView, QueryView> {
    match link.kind {
        KindView::CrossRepo(name) => cross_repo(w, link, source, name),
        _ => same_repo(w, link, source, root),
    }
}

/// Where a target was found.
enum Found {
    At(CanonicalPath),
    Missing,
    Many(usize),
}

impl View for Found {
    type V = FoundView;

    closed spec fn view(&self) -> FoundView {
        match self {
            Found::At(p) => FoundView::At(p@),
            Found::Missing => FoundView::Missing,
            Found::Many(n) => FoundView::Many(*n as int),
        }
    }
}

spec fn found_view(r: Result<Found, Query>) -> Result<FoundView, QueryView> {
    match r {
        Ok(f) => Ok(f@),
        Err(q) => Err(q@),
    }
}

/// A file to go on to, and the root of its repository.
pub struct Target {
    pub path: CanonicalPath,
    pub root: CanonicalPath,
}

/// What a link comes to: the issues with it, and the file to go on to.
pub struct Resolution {
    pub issues: Vec<LinkIssue>,
    pub next: Option<Target>,
}

impl View for Resolution {
    type V = ResolutionView;

    open spec fn view(&self) -> ResolutionView {
        ResolutionView {
            issues: issue_views(self.issues@),
            next: match self.next {
                Some(t) => Some((t.path@, t.root@)),
                None => None,
            },
        }
    }
}

/// What a resolution, or the fact that it needs, stands for.
pub open spec fn resolution_view(r: Result<Resolution, Query>) -> Result<ResolutionView, QueryView> {
    match r {
        Ok(x) => Ok(x@),
        Err(q) => Err(q@),
    }
}

spec fn issues_view(r: Result<Vec<LinkIssue>, Query>) -> Result<Seq<IssueView>, QueryView> {
    match r {
        Ok(x) => Ok(issue_views(x@)),
        Err(q) => Err(q@),
    }
}

fn one_issue(link: &Link, source: &str, kind: IssueKind) -> (r: Vec<LinkIssue>)
    ensures
        issue_views(r@) == seq![IssueView { link: link@.target, source: source@, kind: kind@ }],
{
    let r = vec![
        LinkIssue { link: link.target.clone(), source: source.to_owned(), kind },
    ];
    assert(issue_views(r@) =~= seq![
        IssueView { link: link@.target, source: source@, kind: kind@ },
    ]);
    r
}

fn no_issues() -> (r: Vec<LinkIssue>)
    ensures
        issue_views(r@) == Seq::<IssueView>::empty(),
{
    let r: Vec<LinkIssue> = Vec::new();
    assert(issue_views(r@) =~= Seq::<IssueView>::empty());
    r
}

impl Scene {
    /// The root of the repository that holds the path.
    fn repo_root_containing(&self, path: &str) -> (r: Option<CanonicalPath>)
        ensures
            opt_path(r) == holder(self@, path@),
    {
        if is_under(path, self.entry_root.as_str()) {
            return Some(self.entry_root.clone());
        }
        let n: usize = self.repos.len();
        let mut i: usize = 0;
        while i < n
            invariant
                i <= n == self.repos.order().len(),
                first_holder(self@, path@, 0) == first_holder(self@, path@, i as int),
                !under(path@, self@.entry_root),
            decreases n - i,
        {
            let root = self.repos.value_at(i);
            assert(self@.repos[self@.order[i as int]] == root@);
            if is_under(path, root.as_str()) {
                return Some(root.clone());
            }
            i += 1;
        }
        None
    }

    /// Looks the base name of the target up among the files of a repository.
    fn basename_fallback(&self, target: &str, by_name: &StringMap<Vec<String>>) -> (r: Result<
        Found,
        Query,
    >)
        ensures
            found_view(r) == by_base_name(self@.facts, target@, name_views(by_name@)),
    {
        let ghost names = name_views(by_name@);
        match by_name.get(base_name(target)) {
            None => Ok(Found::Missing),
            Some(candidates) => {
                assert(names[base_of(target@)] == texts(candidates@));
                if candidates.len() == 0 {
                    Ok(Found::Missing)
                } else if candidates.len() == 1 {
                    let path = candidates[0].as_str();
                    assert(texts(candidates@)[0] == path@);
                    match self.facts.canonical.get(path) {
                        Some(Some(c)) => Ok(Found::At(c.clone())),
                        Some(None) => Ok(Found::Missing),
                        None => Err(Query::Canonical(path.to_owned())),
                    }
                } else {
                    Ok(Found::Many(candidates.len()))
                }
            },
        }
    }

    fn locate(
        &self,
        path: Option<String>,
        try_names: bool,
        target: &str,
        by_name: &StringMap<Vec<String>>,
    ) -> (r: Result<Found, Query>)
        ensures
            found_view(r) == located(
                self@.facts,
                match path {
                    Some(p) => Some(p@),
                    None => None,
                },
                try_names,
                target@,
                name_views(by_name@),
            ),
    {
        match path {
            Some(p) => match self.facts.canonical.get(p.as_str()) {
                Some(Some(c)) => {
                    return Ok(Found::At(c.clone()));
                },
                Some(None) => {},
                None => {
                    return Err(Query::Canonical(p));
                },
            },
            None => {},
        }
        if try_names {
            self.basename_fallback(target, by_name)
        } else {
            Ok(Found::Missing)
        }
    }

    fn locate_in_repo(&self, link: &Link, path: String, index: &RepoIndex) -> (r: Result<
        Found,
        Query,
    >)
        ensures
            found_view(r) == located_in_repo(self@, link@, path@, index@),
    {
        match self.facts.canonical.get(path.as_str()) {
            Some(Some(c)) => {
                return Ok(Found::At(c.clone()));
            },
            Some(None) => {},
            None => {
                return Err(Query::Canonical(path));
            },
        }
        let target = link.target.as_str();
        let second = match &link.kind {
            LinkKind::Wiki => resolve_under_root(target, index.root.as_str()),
            _ => None,
        };
        let try_names: bool = ends_with(target, ".md") || self.all_extensions;
        self.locate(second, try_names, target, &index.by_name)
    }

    /// Checks that the fragment names a heading of the file `path`: the target, or the
    /// source itself for a link to a section of its own.
    fn validate_fragment(&self, link: &Link, source: &str, path: &str, fragment: &str) -> (r:
        Result<Vec<LinkIssue>, Query>)
        ensures
            issues_view(r) == fragment_issues(self@, link@, source@, path@, fragment@),
    {
        let ghost w = self@;
        match self.facts.files.get(path) {
            None => {
                let root = match self.repo_root_containing(path) {
                    Some(r) => r,
                    None => self.entry_root.clone(),
                };
                Err(Query::File { path: path.to_owned(), root: root.as_str().to_owned() })
            },
            Some(file) => {
                assert(w.facts.files[path@] == opt_file(*file));
                let standard: bool = match &link.kind {
                    LinkKind::Standard => true,
                    _ => false,
                };
                let ok: bool = match file {
                    Some(f) => f.headings.contains(fragment) || (!standard && f.headings.contains(
                        anchor_id(fragment).as_str(),
                    )),
                    None => false,
                };
                if ok {
                    Ok(no_issues())
                } else {
                    Ok(one_issue(link, source, IssueKind::BrokenAnchor(fragment.to_owned())))
                }
            },
        }
    }

    /// The note about a link that is not written in the canonical way.
    pub fn emit_style_if_needed(
        &self,
        link: &Link,
        source: &str,
        path: &str,
        root: &str,
        by_name: &StringMap<Vec<String>>,
        scope: StyleScope,
    ) -> (r: Vec<LinkIssue>)
        ensures
            issue_views(r@) == style_issues(
                link@,
                source@,
                path@,
                root@,
                name_views(by_name@),
                scope@,
            ),
    {
        let rel = match rel_path(path, root) {
            Some(rel) => rel,
            None => return no_issues(),
        };
        let name = base_name(rel);
        let form = match by_name.get(name) {
            Some(candidates) => {
                assert(name_views(by_name@)[name@] == texts(candidates@));
                if candidates.len() == 1 {
                    name
                } else {
                    rel
                }
            },
            None => rel,
        };
        assert(form@ == canonical_form(rel@, name_views(by_name@)));
        if str_eq(link.target.as_str(), form) {
            return no_issues();
        }
        one_issue(
            link,
            source,
            IssueKind::Style {
                scope,
                suggested: form.to_owned(),
                path_start: link.path_start,
                path_end: link.path_end,
            },
        )
    }

    fn settle(
        &self,
        link: &Link,
        source: &str,
        path: CanonicalPath,
        owner: CanonicalPath,
        style: Vec<LinkIssue>,
    ) -> (r: Result<Resolution, Query>)
        ensures
            resolution_view(r) == settled(
                self@,
                link@,
                source@,
                path@,
                owner@,
                issue_views(style@),
            ),
    {
        if !ends_with(link.target.as_str(), ".md") {
            return Ok(Resolution { issues: style, next: None });
        }
        let mut issues = style;
        match &link.fragment {
            Some(fragment) => {
                match self.validate_fragment(link, source, path.as_str(), fragment.as_str()) {
                    Ok(more) => {
                        let ghost before = issues@;
                        let ghost added = more@;
                        let mut rest = more;
                        issues.append(&mut rest);
                        assert(issue_views(issues@) =~= issue_views(before) + issue_views(added));
                    },
                    Err(q) => {
                        return Err(q);
                    },
                }
            },
            None => {},
        }
        Ok(Resolution { issues, next: Some(Target { path, root: owner }) })
    }

    /// What a wiki or standard link comes to.
    pub fn resolve_same_repo(&self, link: &Link, source: &str, root: &str) -> (r: Result<
        Resolution,
        Query,
    >)
        ensures
            resolution_view(r) == same_repo(self@, link@, source@, root@),
    {
        if link.target.as_str().is_empty() {
            return match &link.fragment {
                Some(fragment) => match self.validate_fragment(
                    link,
                    source,
                    source,
                    fragment.as_str(),
                ) {
                    Ok(issues) => Ok(Resolution { issues, next: None }),
                    Err(q) => Err(q),
                },
                None => Ok(Resolution { issues: no_issues(), next: None }),
            };
        }
        let index = match self.facts.indices.get(root) {
            Some(ix) => ix,
            None => {
                return Err(Query::Index(root.to_owned()));
            },
        };
        assert(self@.facts.indices[root@] == index@);
        let target = link.target.as_str();
        let path = match resolve_link(target, source, index.root.as_str()) {
            Some(p) => p,
            None => {
                return Ok(Resolution { issues: no_issues(), next: None });
            },
        };
        match self.locate_in_repo(link, path, index) {
            Err(q) => Err(q),
            Ok(Found::Many(n)) => Ok(
                Resolution {
                    issues: one_issue(link, source, IssueKind::Ambiguous(n)),
                    next: None,
                },
            ),
            Ok(Found::Missing) => Ok(
                Resolution { issues: one_issue(link, source, IssueKind::Broken), next: None },
            ),
            Ok(Found::At(found)) => {
                let style = match &link.kind {
                    LinkKind::Wiki => self.emit_style_if_needed(
                        link,
                        source,
                        found.as_str(),
                        index.root.as_str(),
                        &index.by_name,
                        StyleScope::Wiki,
                    ),
                    _ => no_issues(),
                };
                let owner = match self.repo_root_containing(found.as_str()) {
                    Some(r) => r,
                    None => index.root.clone(),
                };
                self.settle(link, source, found, owner, style)
            },
        }
    }

    /// What a link into the repository `repo` comes to.
    pub fn resolve_cross_repo(&self, link: &Link, source: &str, repo: &str) -> (r: Result<
        Resolution,
        Query,
    >)
        ensures
            resolution_view(r) == cross_repo(self@, link@, source@, repo@),
    {
        let root = match self.repos.get(repo) {
            Some(r) => r,
            None => {
                return Ok(Resolution { issues: no_issues(), next: None });
            },
        };
        assert(self@.repos[repo@] == root@);
        let index = match self.facts.indices.get(root.as_str()) {
            Some(ix) => ix,
            None => {
                return Err(Query::Index(root.as_str().to_owned()));
            },
        };
        assert(self@.facts.indices[root@] == index@);
        let target = link.target.as_str();
        let path = resolve_under_root(target, root.as_str());
        match self.locate(path, ends_with(target, ".md"), target, &index.by_name) {
            Err(q) => Err(q),
            Ok(Found::Many(n)) => Ok(
                Resolution {
                    issues: one_issue(link, source, IssueKind::Ambiguous(n)),
                    next: None,
                },
            ),
            Ok(Found::Missing) => Ok(
                Resolution {
                    issues: one_issue(link, source, IssueKind::CrossRepoBroken(repo.to_owned())),
                    next: None,
                },
            ),
            Ok(Found::At(found)) => {
                let style = self.emit_style_if_needed(
                    link,
                    source,
                    found.as_str(),
                    root.as_str(),
                    &index.by_name,
                    StyleScope::CrossRepo { repo: repo.to_owned() },
                );
                let owner = if is_under(found.as_str(), self.entry_root.as_str()) {
                    self.entry_root.clone()
                } else {
                    root.clone()
                };
                self.settle(link, source, found, owner, style)
            },
        }
    }

    /// What a link comes to, in the file `source` of the repository at `root`, or the fact
    /// that is needed to tell.
    pub fn resolve_one(&self, link: &Link, source: &str, root: &str) -> (r: Result<
        Resolution,
        Query,
    >)
        ensures
            resolution_view(r) == outcome(self@, link@, source@, root@),
    {
        match &link.kind {
            LinkKind::CrossRepo { repo } => self.resolve_cross_repo(link, source, repo.as_str()),
            _ => self.resolve_same_repo(link, source, root),
        }
    }
}

/// A link rewritten as a style note suggests gets no style note.
pub proof fn law_suggested_is_quiet(
    link: LinkView,
    source: Seq<char>,
    path: Seq<char>,
    root: Seq<char>,
    by_name: Map<Seq<char>, Seq<Seq<char>>>,
    scope: ScopeView,
)
    ensures
        style_issues(link, source, path, root, by_name, scope).len() <= 1,
        forall|i: int|
            0 <= i < style_issues(link, source, path, root, by_name, scope).len() ==> {
                let issue = #[trigger] style_issues(link, source, path, root, by_name, scope)[i];
                &&& issue.kind is Style
                &&& issue.kind->suggested != link.target
                &&& style_issues(
                    LinkView { target: issue.kind->suggested, ..link },
                    source,
                    path,
                    root,
                    by_name,
                    scope,
                ).len() == 0
            },
{
}

/// Every issue with a link names the link and the file it stands in.
pub proof fn law_issues_name_their_link(
    w: SceneView,
    link: LinkView,
    source: Seq<char>,
    root: Seq<char>,
)
    ensures
        outcome(w, link, source, root) matches Ok(r) ==> forall|i: int|
            0 <= i < r.issues.len() ==> (#[trigger] r.issues[i]).link == link.target
                && r.issues[i].source == source,
{
}

/// A link gets at most one style note, which is about the bytes of its path. Standard links
/// get none: they are left as they are.
pub proof fn law_one_style_note(w: SceneView, link: LinkView, source: Seq<char>, root: Seq<char>)
    ensures
        outcome(w, link, source, root) matches Ok(r) ==> {
            &&& forall|i: int|
                0 <= i < r.issues.len() && (#[trigger] r.issues[i]).kind is Style ==> i == 0
                    && r.issues[i].kind->path_start == link.path_start
                    && r.issues[i].kind->path_end == link.path_end
            &&& link.kind is Standard ==> forall|i: int|
                0 <= i < r.issues.len() ==> !((#[trigger] r.issues[i]).kind is Style)
        },
{
}

/// A fragment that a standard link may give, any link may give.
pub proof fn law_standard_fragments(
    kind: KindView,
    headings: Set<Seq<char>>,
    fragment: Seq<char>,
)
    requires
        names_heading(KindView::Standard, headings, fragment),
    ensures
        names_heading(kind, headings, fragment),
{
}

/// A path into another repository that climbs out of it still leads to the one file of its
/// base name there, and the note is that the base name is the way to write it.
pub proof fn law_escape_is_a_matter_of_style(
    w: SceneView,
    link: LinkView,
    source: Seq<char>,
    root: Seq<char>,
    name: Seq<char>,
    path: Seq<char>,
    rel: Seq<char>,
)
    requires
        link.kind == KindView::CrossRepo(name),
        to_markdown(link),
        w.repos.contains_key(name),
        w.facts.indices.contains_key(w.repos[name]),
        resolved_strictly(link.target, w.repos[name]) is None,
        ({
            let by_name = w.facts.indices[w.repos[name]].by_name;
            let base = base_of(link.target);
            &&& by_name.contains_key(base) && by_name[base].len() == 1
            &&& w.facts.canonical.contains_key(by_name[base][0])
            &&& w.facts.canonical[by_name[base][0]] == Some(path)
            &&& rel_of(path, w.repos[name]) == Some(rel) && base_of(rel) == base
            &&& link.target != base
        }),
    ensures
        outcome(w, link, source, root) matches Ok(r) ==> {
            &&& r.next matches Some((next, _)) && next == path
            &&& r.issues.len() > 0
            &&& r.issues[0].kind == (IssueKindView::Style {
                scope: ScopeView::CrossRepo(name),
                suggested: base_of(link.target),
                path_start: link.path_start,
                path_end: link.path_end,
            })
        },
{
}

} // verus!
