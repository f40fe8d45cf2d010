//! A second run after fixing: a link written as suggested leads to the same file, the same
//! files are reached, and no style note is left.
use crate::crawl::{informed, step, CrawlView};
use crate::discovery::{named_right, IndexView};
use crate::extract::{links_of, KindView, LinkView};
use crate::fix::{edits_for, rewritten};
use crate::path::{base_of, law_dir_base, law_rel_base, lemma_last_slash, rel_of, under};
use crate::reachability::{
    checked, closed_set, comes_to, grown, law_issues, law_reachable, law_sound_with_more_facts,
    leads, says, sound,
};
use crate::reread::{law_base_name_fits, notes_fit, path_fits, same_link};
use crate::resolve::{
    absolute, all_proper, law_name_beside, law_relative_leads_back, law_resolved_name, proper,
    resolved, resolved_strictly,
};
use crate::rewriting::{
    found_at, law_fixed_links, law_rewritten_link_is_quiet, law_stays_quiet,
    law_traced_with_more_facts, lemma_judged, notes_of, quiet, same_setting, suggestion, top_of,
    traced,
};
use crate::scene::{
    canonical_form, first_holder, holder, law_one_style_note, outcome, to_markdown, FactsView,
    IssueView, ResolutionView, SceneView,
};
use crate::text::{finishes_with, join};
use vstd::prelude::*;
use vstd::utf8::encode_utf8;

verus! {

/// At this place there is nothing, or the file `path`.
pub open spec fn nothing_but(facts: FactsView, place: Seq<char>, path: Seq<char>) -> bool {
    facts.canonical.contains_key(place) && (facts.canonical[place] is None
        || facts.canonical[place] == Some(path))
}

/// The names of the files of the repository that the link leads into.
pub open spec fn names_for(w: SceneView, link: LinkView, root: Seq<char>) -> Map<
    Seq<char>,
    Seq<Seq<char>>,
> {
    match link.kind {
        KindView::CrossRepo(repo) => w.facts.indices[w.repos[repo]].by_name,
        _ => w.facts.indices[root].by_name,
    }
}

/// A link written as its style note suggests leads to the same file, below the root of its
/// repository, as long as no other file stands in the way: for a wiki link at that path from
/// its own directory, for a base name at that path from the root, too.
pub proof fn law_suggestion_leads_back(
    w: SceneView,
    a: LinkView,
    b: LinkView,
    source: Seq<char>,
    root: Seq<char>,
    top: Seq<Seq<char>>,
    below: Seq<Seq<char>>,
)
    requires
        suggestion(w, a, source, root) is Some,
        same_link(a, b, suggestion(w, a, source, root)->0),
        all_proper(top) && top.len() > 0 && all_proper(below) && below.len() > 0,
        top_of(w, a, root) == absolute(top),
        found_at(w, a, source, root) == Some(absolute(top + below)),
        w.facts.canonical.contains_key(absolute(top + below)),
        w.facts.canonical[absolute(top + below)] == Some(absolute(top + below)),
        a.kind is Wiki ==> (resolved(b.target, source, absolute(top)) matches Some(p)
            && nothing_but(w.facts, p, absolute(top + below))),
        ({
            let names = names_for(w, a, root);
            let path = absolute(top + below);
            let name = base_of(path);
            names.contains_key(name) && names[name].len() == 1 ==> {
                &&& proper(name)
                &&& to_markdown(b)
                &&& w.facts.canonical.contains_key(names[name][0])
                &&& w.facts.canonical[names[name][0]] == Some(path)
                &&& resolved_strictly(name, absolute(top)) matches Some(p) && nothing_but(
                    w.facts,
                    p,
                    path,
                )
            }
        }),
    ensures
        found_at(w, b, source, root) == Some(absolute(top + below)),
{
    let path = absolute(top + below);
    let rel = join(below, "/"@);
    law_relative_leads_back(top, below);
    if path == absolute(top) {
        assert(rel_of(path, absolute(top)) == Some(Seq::<char>::empty()));
        assert(proper(below[0]));
        lemma_join_not_empty(below);
    }
    law_rel_base(path, absolute(top));
    law_dir_base(base_of(path));
    let names = names_for(w, a, root);
    assert(b.target == canonical_form(rel, names));
}

proof fn lemma_join_not_empty(segs: Seq<Seq<char>>)
    requires
        all_proper(segs),
        segs.len() > 0,
    ensures
        join(segs, "/"@).len() > 0,
{
    reveal_strlit("/");
    assert(proper(segs[0]));
}

/// The path is that of a markdown file.
pub open spec fn markdown_path(path: Seq<char>) -> bool {
    finishes_with(base_of(path), ".md"@) && proper(base_of(path))
}

/// The path lies below the one made of the segments `top`.
pub open spec fn lies_below(path: Seq<char>, top: Seq<Seq<char>>) -> bool {
    exists|inner: Seq<Seq<char>>|
        all_proper(inner) && inner.len() > 0 && path == #[trigger] absolute(top + inner)
}

/// The repository at the path made of the segments `top` is a tree of files without symbolic
/// links, where no two markdown files have one name, and its index has them all, each under
/// its name.
pub open spec fn plain_tree(
    facts: FactsView,
    ix: IndexView,
    tree: Set<Seq<char>>,
    top: Seq<Seq<char>>,
) -> bool {
    &&& all_proper(top) && top.len() > 0
    &&& ix.root == absolute(top) && !markdown_path(ix.root)
    &&& forall|p: Seq<char>| #[trigger]
        facts.canonical.contains_key(p) && under(p, ix.root) ==> facts.canonical[p]
            == if tree.contains(p) {
            Some(p)
        } else {
            None
        }
    &&& forall|p: Seq<char>|
        #![trigger tree.contains(p), markdown_path(p)]
        tree.contains(p) && markdown_path(p) && under(p, ix.root) ==> {
            &&& lies_below(p, top)
            &&& ix.by_name.contains_key(base_of(p))
            &&& ix.by_name[base_of(p)] == seq![p]
        }
    &&& named_right(ix)
    &&& forall|name: Seq<char>, k: int|
        #![trigger ix.by_name[name][k]]
        ix.by_name.contains_key(name) && 0 <= k < ix.by_name[name].len() ==> under(
            ix.by_name[name][k],
            ix.root,
        )
}

/// In such a tree, a link to a markdown file leads to a file of the name that its target
/// ends in.
pub proof fn law_name_found(
    w: SceneView,
    link: LinkView,
    source: Seq<char>,
    root: Seq<char>,
    tree: Set<Seq<char>>,
    top: Seq<Seq<char>>,
)
    requires
        plain_tree(w.facts, w.facts.indices[root], tree, top),
        !(link.kind is CrossRepo),
        to_markdown(link),
    ensures
        found_at(w, link, source, root) matches Some(path) ==> {
            &&& base_of(path) == base_of(link.target)
            &&& markdown_path(path)
            &&& tree.contains(path)
            &&& under(path, w.facts.indices[root].root)
            &&& lies_below(path, top)
            &&& w.facts.canonical.contains_key(path)
            &&& w.facts.canonical[path] == Some(path)
        },
{
    let ix = w.facts.indices[root];
    let target = link.target;
    let name = base_of(target);
    reveal_strlit(".md");
    reveal_strlit(".");
    reveal_strlit("..");
    lemma_last_slash(target);
    law_dir_base(target);
    let n = target.len() as int;
    let end = target.skip(n - 3);
    assert(end[0] == target[n - 3] && end[1] == target[n - 2] && end[2] == target[n - 1]);
    assert(name.skip(name.len() - 3) =~= end);
    assert(name.len() >= 3);
    assert(proper(name));
    law_resolved_name(target, source, ix.root);
    if ix.by_name.contains_key(name) && ix.by_name[name].len() == 1 {
        assert(base_of(ix.by_name[name][0]) == name);
        assert(under(ix.by_name[name][0], ix.root));
    }
    if let Some(path) = found_at(w, link, source, root) {
        assert(w.facts.canonical.contains_key(path));
        assert(under(path, ix.root));
        assert(tree.contains(path) && markdown_path(path));
    }
}

/// The link is a standard link, or a wiki link to a markdown file or to a heading of its own
/// file.
pub open spec fn own_link(link: LinkView) -> bool {
    match link.kind {
        KindView::Standard => true,
        KindView::Wiki => link.target.len() == 0 || to_markdown(link),
        KindView::CrossRepo(_) => false,
    }
}

/// In such a tree, the style note about a link suggests the name that its target ends in.
pub proof fn law_name_suggested(
    w: SceneView,
    link: LinkView,
    source: Seq<char>,
    root: Seq<char>,
    tree: Set<Seq<char>>,
    top: Seq<Seq<char>>,
)
    requires
        plain_tree(w.facts, w.facts.indices[root], tree, top),
        own_link(link),
    ensures
        suggestion(w, link, source, root) matches Some(t) ==> {
            &&& link.kind is Wiki && to_markdown(link)
            &&& t == base_of(link.target)
            &&& found_at(w, link, source, root) is Some
        },
{
    law_one_style_note(w, link, source, root);
    if suggestion(w, link, source, root) is Some {
        assert(link.kind is Wiki && link.target.len() > 0);
        law_name_found(w, link, source, root, tree, top);
        let ix = w.facts.indices[root];
        let path = found_at(w, link, source, root)->0;
        assert(path != ix.root);
        law_rel_base(path, ix.root);
        assert(ix.by_name[base_of(path)] == seq![path]);
    }
}

/// In such a tree, a wiki link to a markdown file that is written as suggested leads to the
/// same file.
pub proof fn law_plain_tree(
    w: SceneView,
    v: SceneView,
    a: LinkView,
    b: LinkView,
    source: Seq<char>,
    root: Seq<char>,
    tree: Set<Seq<char>>,
    top: Seq<Seq<char>>,
)
    requires
        same_setting(w, v),
        a.kind is Wiki,
        suggestion(w, a, source, root) is Some,
        same_link(a, b, suggestion(w, a, source, root)->0),
        outcome(v, b, source, root) is Ok,
        plain_tree(w.facts, w.facts.indices[root], tree, top),
        lies_below(source, top),
        to_markdown(a),
    ensures
        found_at(w, b, source, root) == found_at(w, a, source, root),
        to_markdown(b),
{
    let ix = w.facts.indices[root];
    let inner = choose|inner: Seq<Seq<char>>|
        all_proper(inner) && inner.len() > 0 && source == #[trigger] absolute(top + inner);
    law_name_found(w, a, source, root, tree, top);
    law_name_suggested(w, a, source, root, tree, top);
    let path = found_at(w, a, source, root)->0;
    let name = base_of(path);
    assert(ix.by_name[name] == seq![path]);
    assert(seq![path][0] == path);
    assert(b.target == name);
    law_dir_base(name);
    law_name_beside(name, top, inner);
    law_resolved_name(name, source, ix.root);
    let near = resolved(name, source, ix.root)->0;
    assert(w.facts.canonical.contains_key(near));
    if tree.contains(near) {
        assert(markdown_path(near));
        assert(ix.by_name[base_of(near)] == seq![near]);
        assert(seq![near][0] == near);
    }
    if let Some(far) = resolved_strictly(name, ix.root) {
        if tree.contains(far) {
            assert(markdown_path(far));
            assert(ix.by_name[base_of(far)] == seq![far]);
            assert(seq![far][0] == far);
        }
    }
}

/// Two links of one kind to one file are followed alike.
proof fn lemma_next(
    w: SceneView,
    v: SceneView,
    a: LinkView,
    b: LinkView,
    source: Seq<char>,
    root: Seq<char>,
)
    requires
        same_setting(w, v),
        a.kind == b.kind,
        found_at(w, a, source, root) == found_at(w, b, source, root),
        to_markdown(a) == to_markdown(b),
        outcome(w, a, source, root) is Ok,
        outcome(v, b, source, root) is Ok,
    ensures
        outcome(w, a, source, root)->Ok_0.next == outcome(v, b, source, root)->Ok_0.next,
{
    reveal_strlit(".md");
    assert forall|path: Seq<char>| holder(v, path) == holder(
        w,
        path,
    ) by {
        lemma_same_first_holder(w, v, path, 0);
    }
}

proof fn lemma_same_first_holder(w: SceneView, v: SceneView, path: Seq<char>, i: int)
    requires
        same_setting(w, v),
    ensures
        first_holder(v, path, i) == first_holder(w, path, i),
    decreases w.order.len() - i,
{
    if i < w.order.len() {
        lemma_same_first_holder(w, v, path, i + 1);
    }
}

/// The files that `t` read are those that `s` read, fixed as the style notes of `s` ask.
/// `bytes` is what the files held before.
pub open spec fn fixed_between(
    s: CrawlView,
    t: CrawlView,
    bytes: Map<Seq<char>, Seq<u8>>,
    repos: Set<Seq<char>>,
) -> bool {
    forall|f: Seq<char>| #[trigger]
        s.reachable.contains(f) ==> fixed_file(s, t, f, bytes[f], repos)
}

/// The file `f` that `t` read is the one that `s` read, fixed; none that could not be read
/// has become readable.
pub open spec fn fixed_file(
    s: CrawlView,
    t: CrawlView,
    f: Seq<char>,
    bytes: Seq<u8>,
    repos: Set<Seq<char>>,
) -> bool {
    let before = s.scene.facts.files[f];
    let after = t.scene.facts.files[f];
    match before {
        Some(file) => {
            &&& file.links == links_of(bytes, repos)
            &&& t.scene.facts.files.contains_key(f) ==> (after matches Some(fixed) && fixed.links
                == links_of(rewritten(bytes, edits_for(s.issues, f)), repos))
        },
        None => t.scene.facts.files.contains_key(f) ==> after is None,
    }
}

/// Every suggestion can stand where it should.
pub open spec fn all_fit(
    s: CrawlView,
    bytes: Map<Seq<char>, Seq<u8>>,
    repos: Set<Seq<char>>,
) -> bool {
    forall|f: Seq<char>| #[trigger]
        s.reachable.contains(f) && s.scene.facts.files[f] is Some ==> notes_fit(
            bytes[f],
            links_of(bytes[f], repos),
            notes_of(s.scene, f),
        )
}

/// The link, written as suggested, leads to the same file, as far as it is known where it
/// leads.
pub open spec fn steady(w: SceneView, v: SceneView, link: LinkView, f: Seq<char>) -> bool {
    suggestion(w, link, f, w.entry_root) matches Some(t) ==> {
        let fixed = LinkView { target: t, ..link };
        outcome(v, fixed, f, w.entry_root) is Ok ==> found_at(w, fixed, f, w.entry_root)
            == found_at(w, link, f, w.entry_root) && to_markdown(fixed) == to_markdown(link)
    }
}

/// The suggestion about the link `j` of the file `f`, where there is one, leads to the same
/// file.
pub open spec fn steady_at(s: CrawlView, v: SceneView, f: Seq<char>, j: int) -> bool {
    s.reachable.contains(f) && s.scene.facts.files[f] is Some && 0 <= j
        < s.scene.facts.files[f]->0.links.len() ==> steady(
        s.scene,
        v,
        s.scene.facts.files[f]->0.links[j],
        f,
    )
}

/// Every suggestion leads to the same file.
pub open spec fn all_steady(s: CrawlView, v: SceneView) -> bool {
    forall|f: Seq<char>, j: int| #[trigger] steady_at(s, v, f, j)
}

/// A link and what became of it lead to one file, and the latter has no style note.
proof fn lemma_pair(
    w: SceneView,
    v: SceneView,
    a: LinkView,
    b: LinkView,
    f: Seq<char>,
)
    requires
        same_setting(w, v),
        outcome(w, a, f, w.entry_root) is Ok,
        outcome(v, b, f, w.entry_root) is Ok,
        same_link(
            a,
            b,
            match suggestion(w, a, f, w.entry_root) {
                Some(t) => t,
                None => a.target,
            },
        ),
        steady(w, v, a, f),
    ensures
        outcome(w, a, f, w.entry_root)->Ok_0.next == outcome(v, b, f, w.entry_root)->Ok_0.next,
        quiet(v, b, f, w.entry_root),
{
    let root = w.entry_root;
    match suggestion(w, a, f, root) {
        None => {
            law_stays_quiet(w, v, a, b, f, root);
            lemma_next(w, v, a, b, f, root);
        },
        Some(t) => {
            let fixed = LinkView { target: t, ..a };
            assert(outcome(v, fixed, f, root) is Ok);
            assert(found_at(w, b, f, root) == found_at(w, fixed, f, root));
            law_rewritten_link_is_quiet(w, v, a, b, f, root);
            lemma_next(w, v, a, b, f, root);
        },
    }
}

/// The pair of links `j` of a reachable file, before and after.
proof fn lemma_pair_of_file(
    s: CrawlView,
    t: CrawlView,
    seeds: Set<Seq<char>>,
    f: Seq<char>,
    j: int,
    bytes: Seq<u8>,
    repos: Set<Seq<char>>,
)
    requires
        sound(s, seeds) && traced(s) && step(s) is Finished,
        same_setting(s.scene, t.scene),
        s.reachable.contains(f),
        fixed_file(s, t, f, bytes, repos),
        s.scene.facts.files[f] is Some ==> notes_fit(
            bytes,
            links_of(bytes, repos),
            notes_of(s.scene, f),
        ),
        all_steady(s, t.scene),
        t.scene.facts.files.contains_key(f),
    ensures
        s.scene.facts.files.contains_key(f),
        s.scene.facts.files[f] is Some <==> t.scene.facts.files[f] is Some,
        s.scene.facts.files[f] is Some ==> {
            let links = s.scene.facts.files[f]->0.links;
            let after = t.scene.facts.files[f]->0.links;
            &&& after.len() == links.len()
            &&& 0 <= j < links.len() && outcome(t.scene, after[j], f, s.scene.entry_root) is Ok
                ==> {
                &&& checked(s, f, j)
                &&& outcome(s.scene, links[j], f, s.scene.entry_root) is Ok
                &&& outcome(s.scene, links[j], f, s.scene.entry_root)->Ok_0.next == outcome(
                    t.scene,
                    after[j],
                    f,
                    s.scene.entry_root,
                )->Ok_0.next
                &&& quiet(t.scene, after[j], f, s.scene.entry_root)
            }
        },
{
    lemma_judged(s, seeds, f);
    if s.scene.facts.files[f] is Some {
        law_fixed_links(s, seeds, f, bytes, repos);
        let links = s.scene.facts.files[f]->0.links;
        let after = t.scene.facts.files[f]->0.links;
        if 0 <= j < links.len() && outcome(t.scene, after[j], f, s.scene.entry_root) is Ok {
            assert(checked(s, f, j));
            let r = choose|r: ResolutionView| #[trigger] comes_to(s.scene, f, j, r);
            assert(notes_of(s.scene, f)[j] == suggestion(
                s.scene,
                links[j],
                f,
                s.scene.entry_root,
            ));
            assert(steady_at(s, t.scene, f, j));
            lemma_pair(s.scene, t.scene, links[j], after[j], f);
        }
    }
}

proof fn lemma_second_run(
    s: CrawlView,
    t: CrawlView,
    seeds: Set<Seq<char>>,
    bytes: Map<Seq<char>, Seq<u8>>,
    repos: Set<Seq<char>>,
)
    requires
        sound(s, seeds) && traced(s) && step(s) is Finished,
        sound(t, seeds) && step(t) is Finished,
        same_setting(s.scene, t.scene),
        fixed_between(s, t, bytes, repos),
        all_fit(s, bytes, repos),
        all_steady(s, t.scene),
    ensures
        t.reachable == s.reachable,
        forall|i: IssueView| #[trigger] t.issues.contains(i) ==> !(i.kind is Style),
{
    law_reachable(s, seeds);
    law_reachable(t, seeds);
    let w = s.scene;
    let v = t.scene;
    assert(closed_set(v, s.reachable)) by {
        assert forall|f: Seq<char>, j: int, q: Seq<char>|
            s.reachable.contains(f) && #[trigger] leads(v, f, j, q) implies s.reachable.contains(
            q,
        ) by {
            let r = choose|r: ResolutionView| #[trigger]
                comes_to(v, f, j, r) && r.next == Some((q, v.entry_root));
            lemma_pair_of_file(s, t, seeds, f, j, bytes[f], repos);
            let r2 = outcome(w, w.facts.files[f]->0.links[j], f, w.entry_root)->Ok_0;
            assert(comes_to(w, f, j, r2));
            assert(leads(w, f, j, q));
        }
    }
    assert(t.reachable.subset_of(s.reachable));
    assert(closed_set(w, t.reachable)) by {
        assert forall|f: Seq<char>, j: int, q: Seq<char>|
            t.reachable.contains(f) && #[trigger] leads(w, f, j, q) implies t.reachable.contains(
            q,
        ) by {
            let r = choose|r: ResolutionView| #[trigger]
                comes_to(w, f, j, r) && r.next == Some((q, w.entry_root));
            assert(s.reachable.contains(f));
            lemma_judged(t, seeds, f);
            lemma_pair_of_file(s, t, seeds, f, j, bytes[f], repos);
            assert(checked(t, f, j));
            let r2 = choose|r2: ResolutionView| #[trigger] comes_to(v, f, j, r2);
            assert(leads(v, f, j, q));
        }
    }
    assert(s.reachable =~= t.reachable);
    assert forall|i: IssueView| #[trigger] t.issues.contains(i) implies !(i.kind is Style) by {
        law_issues(t, seeds, i);
        if exists|f: Seq<char>, j: int| #[trigger] says(v, f, j, i) && t.reachable.contains(f) {
            let (f, j) = choose|f: Seq<char>, j: int| #[trigger]
                says(v, f, j, i) && t.reachable.contains(f);
            let r = choose|r: ResolutionView| #[trigger] comes_to(v, f, j, r) && r.issues.contains(
                i,
            );
            assert(s.reachable.contains(f));
            lemma_pair_of_file(s, t, seeds, f, j, bytes[f], repos);
            let k = choose|k: int| 0 <= k < r.issues.len() && r.issues[k] == i;
            assert(!(r.issues[k].kind is Style));
        }
    }
}

/// The crawl, knowing of paths and indices what is known in `w`.
pub open spec fn knowing(s: CrawlView, w: SceneView) -> CrawlView {
    informed(s, FactsView { files: s.scene.facts.files, ..w.facts })
}

/// What the crawl knows of paths and indices is known in `w` too, where the repositories are
/// the same.
pub open spec fn within(s: CrawlView, w: SceneView) -> bool {
    grown(s.scene.facts, knowing(s, w).scene.facts) && same_setting(knowing(s, w).scene, w)
}

/// A second run from the same entry files, after the style notes of the first were fixed,
/// reaches the same files and has no style note, as long as each suggestion can stand where
/// it should and leads to the same file. Whichever paths and indices the runs came to ask
/// for, `w` knows them all.
pub proof fn law_second_run(
    s: CrawlView,
    t: CrawlView,
    seeds: Set<Seq<char>>,
    w: SceneView,
    bytes: Map<Seq<char>, Seq<u8>>,
    repos: Set<Seq<char>>,
)
    requires
        sound(s, seeds) && traced(s) && step(s) is Finished && within(s, w),
        sound(t, seeds) && step(t) is Finished && within(t, w),
        fixed_between(knowing(s, w), knowing(t, w), bytes, repos),
        all_fit(knowing(s, w), bytes, repos),
        all_steady(knowing(s, w), knowing(t, w).scene),
    ensures
        t.reachable == s.reachable,
        forall|i: IssueView| #[trigger] t.issues.contains(i) ==> !(i.kind is Style),
{
    let a = knowing(s, w);
    let b = knowing(t, w);
    law_sound_with_more_facts(s, a.scene.facts, seeds);
    law_traced_with_more_facts(s, a.scene.facts, seeds);
    law_sound_with_more_facts(t, b.scene.facts, seeds);
    lemma_second_run(a, b, seeds, bytes, repos);
}

/// In such a tree, the suggestions about the links of a file can stand where they should.
pub proof fn law_names_fit(
    w: SceneView,
    f: Seq<char>,
    bytes: Seq<u8>,
    repos: Set<Seq<char>>,
    tree: Set<Seq<char>>,
    top: Seq<Seq<char>>,
)
    requires
        plain_tree(w.facts, w.facts.indices[w.entry_root], tree, top),
        w.facts.files[f] is Some,
        w.facts.files[f]->0.links == links_of(bytes, repos),
        forall|j: int|
            0 <= j < links_of(bytes, repos).len() ==> own_link(
                #[trigger] links_of(bytes, repos)[j],
            ),
    ensures
        notes_fit(bytes, links_of(bytes, repos), notes_of(w, f)),
{
    let links = links_of(bytes, repos);
    let notes = notes_of(w, f);
    assert forall|j: int| 0 <= j < links.len() && (#[trigger] notes[j]) is Some implies path_fits(
        bytes,
        links[j],
        encode_utf8(notes[j]->0),
    ) by {
        assert(own_link(links[j]));
        law_name_suggested(w, links[j], f, w.entry_root, tree, top);
        law_base_name_fits(bytes, repos, j);
    }
}

/// The reachable files that lie below the path made of the segments `top` or could not be
/// read.
spec fn read_below(s: CrawlView, top: Seq<Seq<char>>) -> Set<Seq<char>> {
    s.reachable.filter(|f: Seq<char>| s.scene.facts.files[f] is Some ==> lies_below(f, top))
}

/// In such a tree, where the entry files lie below the root, all files that are read do.
proof fn lemma_read_below(
    s: CrawlView,
    seeds: Set<Seq<char>>,
    tree: Set<Seq<char>>,
    top: Seq<Seq<char>>,
)
    requires
        sound(s, seeds) && step(s) is Finished,
        plain_tree(s.scene.facts, s.scene.facts.indices[s.scene.entry_root], tree, top),
        forall|f: Seq<char>| #[trigger]
            seeds.contains(f) && s.scene.facts.files[f] is Some ==> lies_below(f, top),
        forall|f: Seq<char>, j: int|
            s.reachable.contains(f) && s.scene.facts.files[f] is Some && 0 <= j
                < s.scene.facts.files[f]->0.links.len() ==> own_link(
                #[trigger] s.scene.facts.files[f]->0.links[j],
            ),
    ensures
        s.reachable.subset_of(read_below(s, top)),
{
    let w = s.scene;
    let below = read_below(s, top);
    law_reachable(s, seeds);
    assert forall|f: Seq<char>, j: int, q: Seq<char>|
        below.contains(f) && #[trigger] leads(w, f, j, q) implies below.contains(q) by {
        let r = choose|r: ResolutionView| #[trigger]
            comes_to(w, f, j, r) && r.next == Some((q, w.entry_root));
        let link = w.facts.files[f]->0.links[j];
        assert(own_link(link));
        assert(to_markdown(link));
        law_name_found(w, link, f, w.entry_root, tree, top);
        assert(found_at(w, link, f, w.entry_root) == Some(q));
    }
    assert(closed_set(w, below));
    assert(seeds.subset_of(below));
}

/// In a repository without symbolic links, whose markdown files have each a name of their
/// own and are all in the index, and whose wiki links are to its markdown files, a second
/// run from the same entry files, after fixing, reaches the same files and has no style note.
pub proof fn law_second_run_in_plain_tree(
    s: CrawlView,
    t: CrawlView,
    seeds: Set<Seq<char>>,
    w: SceneView,
    bytes: Map<Seq<char>, Seq<u8>>,
    repos: Set<Seq<char>>,
    tree: Set<Seq<char>>,
    top: Seq<Seq<char>>,
)
    requires
        sound(s, seeds) && traced(s) && step(s) is Finished && within(s, w),
        sound(t, seeds) && step(t) is Finished && within(t, w),
        fixed_between(knowing(s, w), knowing(t, w), bytes, repos),
        plain_tree(w.facts, w.facts.indices[w.entry_root], tree, top),
        forall|f: Seq<char>| #[trigger]
            seeds.contains(f) && s.scene.facts.files[f] is Some ==> lies_below(f, top),
        forall|f: Seq<char>, j: int|
            s.reachable.contains(f) && s.scene.facts.files[f] is Some && 0 <= j
                < s.scene.facts.files[f]->0.links.len() ==> own_link(
                #[trigger] s.scene.facts.files[f]->0.links[j],
            ),
    ensures
        t.reachable == s.reachable,
        forall|i: IssueView| #[trigger] t.issues.contains(i) ==> !(i.kind is Style),
{
    let a = knowing(s, w);
    let b = knowing(t, w);
    law_sound_with_more_facts(s, a.scene.facts, seeds);
    lemma_read_below(a, seeds, tree, top);
    assert forall|f: Seq<char>, j: int| #[trigger] steady_at(a, b.scene, f, j) by {
        if s.reachable.contains(f) && s.scene.facts.files[f] is Some && 0 <= j
            < s.scene.facts.files[f]->0.links.len() {
            let link = s.scene.facts.files[f]->0.links[j];
            assert(own_link(link));
            assert(read_below(a, top).contains(f));
            law_name_suggested(a.scene, link, f, w.entry_root, tree, top);
            if let Some(target) = suggestion(a.scene, link, f, w.entry_root) {
                let fixed = LinkView { target, ..link };
                if outcome(b.scene, fixed, f, w.entry_root) is Ok {
                    law_plain_tree(
                        a.scene,
                        b.scene,
                        link,
                        fixed,
                        f,
                        w.entry_root,
                        tree,
                        top,
                    );
                }
            }
        }
    }
    assert(all_fit(a, bytes, repos)) by {
        assert forall|f: Seq<char>| #[trigger]
            a.reachable.contains(f) && a.scene.facts.files[f] is Some implies notes_fit(
            bytes[f],
            links_of(bytes[f], repos),
            notes_of(a.scene, f),
        ) by {
            assert(fixed_file(a, b, f, bytes[f], repos));
            law_names_fit(a.scene, f, bytes[f], repos, tree, top);
        }
    }
    law_second_run(s, t, seeds, w, bytes, repos);
}

} // verus!
