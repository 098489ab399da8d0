//! Laws of searches and garbage collection: which branches are found, and which are deleted.
use crate::branches::laws::{deletion_is_local, gc_accounts_for_all, gc_spares_main_and_current, lemma_left};
use crate::branches::manager::{add_names, ancestry, by_id, by_name, child_count, deletable, delete_error, deleted_reparented, found_among, gc_candidates, gc_run, is_found, lemma_branch_at, lemma_found, matches_any, matching, occurs_in, reparent_error, reparented, search_is_complete, without_name, BranchesView, GcOptionsView, Search};
use crate::types::{BranchId, BranchView};
use vstd::prelude::*;
use vstd::utf8::*;

verus! {

proof fn lemma_filter(v: BranchesView, which: Search, bs: Seq<BranchView>, p: spec_fn(BranchView) -> bool)
    requires
        forall|b: BranchView| #[trigger] p(b) == is_found(v, which, b),
    ensures
        found_among(v, which, bs) == bs.filter(p),
    decreases bs.len(),
{
    reveal(Seq::filter);
    if bs.len() > 0 {
        lemma_filter(v, which, bs.drop_last(), p);
        assert(p(bs.last()) == is_found(v, which, bs.last()));
    } else {
        assert(bs.filter(p) =~= bs);
    }
}

/// A search gives the branches it is for, in their order: the orphaned ones have a parent
/// that no branch is; the empty ones have no commit behind their branch point; the stale
/// ones are empty and older than a time; children name their parent. The main branch is
/// neither empty nor stale.
pub proof fn searches_pick_by_fields(v: BranchesView, bs: Seq<BranchView>, time: u64, id: BranchId)
    ensures
        found_among(v, Search::Orphaned, bs) == bs.filter(
            |b: BranchView|
                b.parent is Some && forall|j: int|
                    0 <= j < v.branches.len() ==> (#[trigger] v.branches[j]).id != b.parent->0,
        ),
        found_among(v, Search::Empty, bs) == bs.filter(
            |b: BranchView| b.name != "main"@ && b.branch_point is Some && b.branch_point->0 == b.head,
        ),
        found_among(v, Search::Stale(time), bs) == bs.filter(
            |b: BranchView|
                b.name != "main"@ && b.branch_point is Some && b.branch_point->0 == b.head
                    && b.created.0 < time,
        ),
        found_among(v, Search::ChildrenOf(id), bs) == bs.filter(
            |b: BranchView| b.parent is Some && b.parent->0 == id,
        ),
{
    let orphaned = |b: BranchView|
        b.parent is Some && forall|j: int|
            0 <= j < v.branches.len() ==> (#[trigger] v.branches[j]).id != b.parent->0;
    assert forall|b: BranchView| #[trigger] orphaned(b) == is_found(v, Search::Orphaned, b) by {
        if b.parent is Some {
            lemma_found(v.branches, Seq::empty(), b.parent->0);
        }
    }
    lemma_filter(v, Search::Orphaned, bs, orphaned);
    lemma_filter(
        v,
        Search::Empty,
        bs,
        |b: BranchView| b.name != "main"@ && b.branch_point is Some && b.branch_point->0 == b.head,
    );
    lemma_filter(
        v,
        Search::Stale(time),
        bs,
        |b: BranchView|
            b.name != "main"@ && b.branch_point is Some && b.branch_point->0 == b.head
                && b.created.0 < time,
    );
    lemma_filter(
        v,
        Search::ChildrenOf(id),
        bs,
        |b: BranchView| b.parent is Some && b.parent->0 == id,
    );
}

/// The number of children of a branch is the number of branches that name it as parent.
pub proof fn children_are_counted(bs: Seq<BranchView>, id: BranchId)
    ensures
        child_count(bs, id) == bs.filter(
            |b: BranchView| b.parent is Some && b.parent->0 == id,
        ).len(),
        child_count(bs, id) == 0 <==> forall|i: int|
            0 <= i < bs.len() ==> (#[trigger] bs[i]).parent != Some(id),
    decreases bs.len(),
{
    reveal(Seq::filter);
    if bs.len() > 0 {
        let init = bs.drop_last();
        children_are_counted(init, id);
        assert(bs[bs.len() - 1] == bs.last());
        if child_count(bs, id) == 0 {
            assert forall|i: int| 0 <= i < bs.len() implies (#[trigger] bs[i]).parent != Some(id) by {
                if i < init.len() {
                    assert(init[i] == bs[i]);
                }
            }
        }
        if forall|i: int| 0 <= i < bs.len() ==> (#[trigger] bs[i]).parent != Some(id) {
            assert forall|i: int| 0 <= i < init.len() implies (#[trigger] init[i]).parent != Some(
                id,
            ) by {
                assert(init[i] == bs[i]);
            }
        }
    }
}

/// A branch is found by its name and by its id, and what is found has them.
pub proof fn lookups_find_branches(v: BranchesView, name: Seq<char>, id: BranchId, b: BranchView)
    requires
        v.wf(),
    ensures
        by_name(v.branches, name) == Some(b) <==> v.branches.contains(b) && b.name == name,
        by_id(v.branches, id) == Some(b) <==> v.branches.contains(b) && b.id == id,
        by_name(v.branches, name) is None <==> forall|i: int|
            0 <= i < v.branches.len() ==> (#[trigger] v.branches[i]).name != name,
        by_id(v.branches, id) is None <==> forall|i: int|
            0 <= i < v.branches.len() ==> (#[trigger] v.branches[i]).id != id,
{
    lemma_found(v.branches, name, id);
    if v.branches.contains(b) {
        let i = choose|i: int| 0 <= i < v.branches.len() && v.branches[i] == b;
        lemma_branch_at(v, i);
    }
}

/// An ancestry leads from a branch to its parent, and on, until there is no parent or it is
/// gone.
pub proof fn ancestry_follows_parents(bs: Seq<BranchView>, id: BranchId, fuel: nat)
    ensures
        ancestry(bs, Some(id), fuel) matches Some(l) ==> {
            &&& by_id(bs, id) is None ==> l.len() == 0
            &&& by_id(bs, id) matches Some(b) ==> l.len() > 0 && l[0] == b
            &&& forall|i: int|
                0 <= i < l.len() - 1 ==> (#[trigger] l[i]).parent is Some && by_id(
                    bs,
                    l[i].parent->0,
                ) == Some(l[i + 1])
            &&& l.len() > 0 && l.last().parent is Some ==> by_id(bs, l.last().parent->0) is None
        },
    decreases fuel,
{
    if by_id(bs, id) is Some && fuel > 0 {
        let b = by_id(bs, id)->0;
        if b.parent is Some {
            ancestry_follows_parents(bs, b.parent->0, (fuel - 1) as nat);
        }
        if let Some(rest) = ancestry(bs, b.parent, (fuel - 1) as nat) {
            let l = seq![b] + rest;
            assert(l.skip(1) =~= rest);
            assert forall|i: int| 0 <= i < l.len() - 1 implies (#[trigger] l[i]).parent is Some
                && by_id(bs, l[i].parent->0) == Some(l[i + 1]) by {
                assert(l[i + 1] == rest[i]);
                if i > 0 {
                    assert(l[i] == rest[i - 1]);
                }
            }
            if rest.len() > 0 {
                assert(l.last() == rest.last());
            }
        }
    }
}

/// A text occurs in another just if that one is the text with something before and behind.
pub proof fn occurrence_splits_the_text(part: Seq<char>, whole: Seq<char>)
    ensures
        occurs_in(part, whole) <==> exists|before: Seq<u8>, behind: Seq<u8>|
            encode_utf8(whole) == #[trigger] (before + encode_utf8(part) + behind),
{
    let p = encode_utf8(part);
    let w = encode_utf8(whole);
    if occurs_in(part, whole) {
        let i = choose|i: int|
            0 <= i && i + p.len() <= w.len() && #[trigger] w.subrange(i, i + p.len()) == p;
        assert(w =~= w.take(i) + p + w.skip(i + p.len())) by {
            assert forall|k: int| 0 <= k < w.len() implies w[k] == (w.take(i) + p + w.skip(
                i + p.len(),
            ))[k] by {
                if i <= k < i + p.len() {
                    assert(w.subrange(i, i + p.len())[k - i] == w[k]);
                }
            }
        }
    }
    if exists|before: Seq<u8>, behind: Seq<u8>| w == #[trigger] (before + p + behind) {
        let (before, behind) = choose|before: Seq<u8>, behind: Seq<u8>|
            w == #[trigger] (before + p + behind);
        let i = before.len() as int;
        assert(w.subrange(i, i + p.len()) =~= p);
    }
}

proof fn lemma_add_names(names: Seq<Seq<char>>, bs: Seq<BranchView>, name: Seq<char>)
    ensures
        add_names(names, bs).contains(name) <==> names.contains(name) || exists|k: int|
            0 <= k < bs.len() && (#[trigger] bs[k]).name == name,
    decreases bs.len(),
{
    if bs.len() > 0 {
        let init = bs.drop_last();
        lemma_add_names(names, init, name);
        let before = add_names(names, init);
        let all = add_names(names, bs);
        assert(bs[bs.len() - 1] == bs.last());
        if exists|k: int| 0 <= k < init.len() && (#[trigger] init[k]).name == name {
            let k = choose|k: int| 0 <= k < init.len() && (#[trigger] init[k]).name == name;
            assert(bs[k].name == name);
        }
        if exists|k: int| 0 <= k < bs.len() && (#[trigger] bs[k]).name == name {
            let k = choose|k: int| 0 <= k < bs.len() && (#[trigger] bs[k]).name == name;
            if k < init.len() {
                assert(init[k].name == name);
            }
        }
        if !before.contains(bs.last().name) {
            assert(all[before.len() as int] == bs.last().name);
            if before.contains(name) {
                let i = choose|i: int| 0 <= i < before.len() && before[i] == name;
                assert(all[i] == name);
            }
            if all.contains(name) && name != bs.last().name {
                let i = choose|i: int| 0 <= i < all.len() && all[i] == name;
                assert(before[i] == name);
            }
        }
    }
}

proof fn lemma_added_found(
    v: BranchesView,
    names: Seq<Seq<char>>,
    which: Search,
    name: Seq<char>,
)
    ensures
        add_names(names, found_among(v, which, v.branches)).contains(name) <==> names.contains(name)
            || exists|k: int|
            0 <= k < v.branches.len() && (#[trigger] v.branches[k]).name == name && is_found(
                v,
                which,
                v.branches[k],
            ),
{
    let f = found_among(v, which, v.branches);
    lemma_add_names(names, f, name);
    if exists|k: int| 0 <= k < f.len() && (#[trigger] f[k]).name == name {
        let k = choose|k: int| 0 <= k < f.len() && (#[trigger] f[k]).name == name;
        search_is_complete(v, which, v.branches, f[k]);
        assert(f.contains(f[k]));
        let j = choose|j: int| 0 <= j < v.branches.len() && v.branches[j] == f[k];
        assert(v.branches[j].name == name);
    }
    if exists|k: int|
        0 <= k < v.branches.len() && (#[trigger] v.branches[k]).name == name && is_found(
            v,
            which,
            v.branches[k],
        ) {
        let k = choose|k: int|
            0 <= k < v.branches.len() && (#[trigger] v.branches[k]).name == name && is_found(
                v,
                which,
                v.branches[k],
            );
        search_is_complete(v, which, v.branches, v.branches[k]);
        assert(v.branches.contains(v.branches[k]));
        let j = choose|j: int| 0 <= j < f.len() && f[j] == v.branches[k];
        assert(f[j].name == name);
    }
}

proof fn lemma_matching(names: Seq<Seq<char>>, patterns: Option<Seq<Seq<char>>>, name: Seq<char>)
    ensures
        matching(names, patterns).contains(name) <==> names.contains(name) && (patterns matches Some(
            ps,
        ) ==> matches_any(ps, name)),
    decreases names.len(),
{
    if let Some(ps) = patterns {
        if names.len() > 0 {
            let init = names.drop_last();
            lemma_matching(init, patterns, name);
            let before = matching(init, patterns);
            let all = matching(names, patterns);
            assert(names[names.len() - 1] == names.last());
            if init.contains(name) {
                let i = choose|i: int| 0 <= i < init.len() && init[i] == name;
                assert(names[i] == name);
            }
            if names.contains(name) && name != names.last() {
                let i = choose|i: int| 0 <= i < names.len() && names[i] == name;
                assert(init[i] == name);
            }
            if matches_any(ps, names.last()) {
                assert(all[before.len() as int] == names.last());
                if before.contains(name) {
                    let i = choose|i: int| 0 <= i < before.len() && before[i] == name;
                    assert(all[i] == name);
                }
                if all.contains(name) && name != names.last() {
                    let i = choose|i: int| 0 <= i < all.len() && all[i] == name;
                    assert(before[i] == name);
                }
            }
        }
    }
}

/// Garbage collection looks at just the branches that are orphaned, empty or stale, as far
/// as it is asked to, and, where patterns are given, whose name contains at least one of
/// them, whichever it is.
pub proof fn candidates_are_those_asked_for(v: BranchesView, o: GcOptionsView, name: Seq<char>)
    ensures
        gc_candidates(v, o).contains(name) <==> (exists|k: int|
            0 <= k < v.branches.len() && (#[trigger] v.branches[k]).name == name && ({
                let b = v.branches[k];
                ||| o.delete_orphaned && b.parent is Some && forall|j: int|
                    0 <= j < v.branches.len() ==> (#[trigger] v.branches[j]).id != b.parent->0
                ||| o.delete_empty && name != "main"@ && b.branch_point is Some
                    && b.branch_point->0 == b.head
                ||| o.delete_stale_older_than is Some && name != "main"@ && b.branch_point is Some
                    && b.branch_point->0 == b.head && b.created.0 < o.delete_stale_older_than->0
            })) && (o.name_patterns is None || exists|p: int, at: int|
            0 <= p < o.name_patterns->0.len() && 0 <= at && at + encode_utf8(
                #[trigger] o.name_patterns->0[p],
            ).len() <= encode_utf8(name).len() && #[trigger] encode_utf8(name).subrange(
                at,
                at + encode_utf8(o.name_patterns->0[p]).len(),
            ) == encode_utf8(o.name_patterns->0[p])),
{
    let none = Seq::<Seq<char>>::empty();
    let a = if o.delete_orphaned {
        add_names(none, found_among(v, Search::Orphaned, v.branches))
    } else {
        none
    };
    let b = if o.delete_empty {
        add_names(a, found_among(v, Search::Empty, v.branches))
    } else {
        a
    };
    let c = match o.delete_stale_older_than {
        Some(t) => add_names(b, found_among(v, Search::Stale(t), v.branches)),
        None => b,
    };
    lemma_added_found(v, none, Search::Orphaned, name);
    lemma_added_found(v, a, Search::Empty, name);
    if let Some(t) = o.delete_stale_older_than {
        lemma_added_found(v, b, Search::Stale(t), name);
    }
    lemma_matching(c, o.name_patterns, name);
    assert forall|k: int| 0 <= k < v.branches.len() implies is_found(
        v,
        Search::Orphaned,
        #[trigger] v.branches[k],
    ) == (v.branches[k].parent is Some && forall|j: int|
        0 <= j < v.branches.len() ==> (#[trigger] v.branches[j]).id
            != v.branches[k].parent->0) by {
        if v.branches[k].parent is Some {
            lemma_found(v.branches, Seq::empty(), v.branches[k].parent->0);
        }
    }
    if let Some(ps) = o.name_patterns {
        if matches_any(ps, name) {
            let p = choose|p: int| 0 <= p < ps.len() && occurs_in(#[trigger] ps[p], name);
            let w = encode_utf8(name);
            let at = choose|at: int|
                0 <= at && at + encode_utf8(ps[p]).len() <= w.len() && #[trigger] w.subrange(
                    at,
                    at + encode_utf8(ps[p]).len(),
                ) == encode_utf8(ps[p]);
            assert(encode_utf8(name).subrange(at, at + encode_utf8(ps[p]).len()) == encode_utf8(
                ps[p],
            ));
        }
        if exists|p: int, at: int|
            0 <= p < ps.len() && 0 <= at && at + encode_utf8(#[trigger] ps[p]).len()
                <= encode_utf8(name).len() && #[trigger] encode_utf8(name).subrange(
                at,
                at + encode_utf8(ps[p]).len(),
            ) == encode_utf8(ps[p]) {
            let (p, at) = choose|p: int, at: int|
                0 <= p < ps.len() && 0 <= at && at + encode_utf8(#[trigger] ps[p]).len()
                    <= encode_utf8(name).len() && #[trigger] encode_utf8(name).subrange(
                    at,
                    at + encode_utf8(ps[p]).len(),
                ) == encode_utf8(ps[p]);
            assert(occurs_in(ps[p], name));
        }
    }
}

proof fn lemma_added_once(names: Seq<Seq<char>>, bs: Seq<BranchView>)
    requires
        names.no_duplicates(),
    ensures
        add_names(names, bs).no_duplicates(),
    decreases bs.len(),
{
    if bs.len() > 0 {
        lemma_added_once(names, bs.drop_last());
    }
}

proof fn lemma_matching_once(names: Seq<Seq<char>>, patterns: Option<Seq<Seq<char>>>)
    requires
        names.no_duplicates(),
    ensures
        matching(names, patterns).no_duplicates(),
    decreases names.len(),
{
    if patterns is Some && names.len() > 0 {
        let init = names.drop_last();
        assert(init.no_duplicates());
        lemma_matching_once(init, patterns);
        lemma_matching(init, patterns, names.last());
        assert(!init.contains(names.last())) by {
            if init.contains(names.last()) {
                let i = choose|i: int| 0 <= i < init.len() && init[i] == names.last();
                assert(names[i] == names[names.len() - 1]);
            }
        }
    }
}

/// No branch is a candidate twice, however many of the searches find it.
pub proof fn candidates_occur_once(v: BranchesView, o: GcOptionsView)
    ensures
        gc_candidates(v, o).no_duplicates(),
{
    let none = Seq::<Seq<char>>::empty();
    let a = if o.delete_orphaned {
        add_names(none, found_among(v, Search::Orphaned, v.branches))
    } else {
        none
    };
    let b = if o.delete_empty {
        add_names(a, found_among(v, Search::Empty, v.branches))
    } else {
        a
    };
    let c = match o.delete_stale_older_than {
        Some(t) => add_names(b, found_among(v, Search::Stale(t), v.branches)),
        None => b,
    };
    lemma_added_once(none, found_among(v, Search::Orphaned, v.branches));
    lemma_added_once(a, found_among(v, Search::Empty, v.branches));
    if let Some(t) = o.delete_stale_older_than {
        lemma_added_once(b, found_among(v, Search::Stale(t), v.branches));
    }
    lemma_matching_once(c, o.name_patterns);
}

/// Deleting a branch takes it out and no other; its children get the new parent, if there is
/// one, and every other branch stays as it is.
pub proof fn deletion_takes_out_one_branch(
    v: BranchesView,
    name: Seq<char>,
    to: Option<Seq<char>>,
    b: BranchView,
)
    requires
        v.wf(),
        reparent_error(v, name, to) is None,
        v.branches.contains(b),
    ensures
        ({
            let w = deleted_reparented(v, name, to);
            let gone = by_name(v.branches, name)->0;
            &&& w.current == v.current
            &&& w.next_id == v.next_id
            &&& w.branches.len() == v.branches.len() - 1
            &&& forall|c: BranchView| #[trigger] w.branches.contains(c) ==> c.name != name
            &&& b.name != name && (to is None || b.parent != Some(gone.id))
                ==> w.branches.contains(b)
            &&& b.name != name && to is Some && b.parent == Some(gone.id)
                ==> w.branches.contains(
                BranchView { parent: Some(by_name(v.branches, to->0)->0.id), ..b },
            )
        }),
{
    let gone = by_name(v.branches, name)->0;
    let parent = match to {
        Some(p) => Some(by_name(v.branches, p)->0.id),
        None => None,
    };
    let moved = reparented(v.branches, gone.id, parent);
    let w = deleted_reparented(v, name, to);
    assert forall|c: BranchView| #[trigger] w.branches.contains(c) implies c.name != name by {
        lemma_left(moved, name, c);
    }
    let i = choose|i: int| 0 <= i < v.branches.len() && v.branches[i] == b;
    lemma_left(moved, name, moved[i]);
    assert(moved.contains(moved[i]));
    lemma_found(v.branches, name, gone.id);
    let g = choose|g: int| 0 <= g < v.branches.len() && v.branches[g] == gone;
    assert forall|j: int| 0 <= j < moved.len() && j != g implies (#[trigger] moved[j]).name
        != name by {
        assert(moved[j].name == v.branches[j].name);
        assert(v.branches[j].name != v.branches[g].name);
    }
    assert(moved[g].name == name);
    lemma_one_out(moved, name, g);
}

proof fn lemma_none_out(bs: Seq<BranchView>, name: Seq<char>)
    requires
        forall|j: int| 0 <= j < bs.len() ==> (#[trigger] bs[j]).name != name,
    ensures
        without_name(bs, name) == bs,
    decreases bs.len(),
{
    if bs.len() > 0 {
        let init = bs.drop_last();
        assert forall|j: int| 0 <= j < init.len() implies (#[trigger] init[j]).name != name by {
            assert(init[j] == bs[j]);
        }
        lemma_none_out(init, name);
        assert(bs[bs.len() - 1] == bs.last());
        assert(init.push(bs.last()) =~= bs);
    }
}

proof fn lemma_one_out(bs: Seq<BranchView>, name: Seq<char>, g: int)
    requires
        0 <= g < bs.len(),
        bs[g].name == name,
        forall|j: int| 0 <= j < bs.len() && j != g ==> (#[trigger] bs[j]).name != name,
    ensures
        without_name(bs, name) == bs.remove(g),
    decreases bs.len(),
{
    let init = bs.drop_last();
    assert(bs[bs.len() - 1] == bs.last());
    assert(forall|j: int| 0 <= j < init.len() ==> #[trigger] init[j] == bs[j]);
    if g == bs.len() - 1 {
        lemma_none_out(init, name);
        assert(bs.remove(g) =~= init);
    } else {
        lemma_one_out(init, name, g);
        assert(init.remove(g).push(bs.last()) =~= bs.remove(g));
    }
}

/// A garbage collection takes out just the branches that it reports as deleted.
pub proof fn collection_takes_out_what_it_reports(
    v: BranchesView,
    names: Seq<Seq<char>>,
    o: GcOptionsView,
    name: Seq<char>,
)
    ensures
        ({
            let (w, r) = gc_run(v, names, o);
            &&& r.deleted.contains(name) ==> by_name(w.branches, name) is None && by_name(
                v.branches,
                name,
            ) is Some
            &&& !r.deleted.contains(name) ==> (by_name(w.branches, name) is Some <==> by_name(
                v.branches,
                name,
            ) is Some)
        }),
    decreases names.len(),
{
    if names.len() > 0 {
        let init = names.drop_last();
        collection_takes_out_what_it_reports(v, init, o, name);
        gc_spares_main_and_current(v, init, o, names.last());
        let (w, r) = gc_run(v, init, o);
        let n = names.last();
        if deletable(w, n, o.force) && reparent_error(w, n, o.reparent_to) is None {
            let id = by_name(w.branches, n)->0.id;
            let parent = match o.reparent_to {
                Some(p) => Some(by_name(w.branches, p)->0.id),
                None => None,
            };
            lemma_reparented_name(w.branches, id, parent, name);
            deletion_is_local(reparented(w.branches, id, parent), n, name);
            let d = r.deleted.push(n);
            assert(d[r.deleted.len() as int] == n);
            if r.deleted.contains(name) {
                let k = choose|k: int| 0 <= k < r.deleted.len() && r.deleted[k] == name;
                assert(d[k] == name);
            }
            if d.contains(name) && name != n {
                let k = choose|k: int| 0 <= k < d.len() && d[k] == name;
                assert(r.deleted[k] == name);
            }
        }
    }
}

proof fn lemma_reparented_name(
    bs: Seq<BranchView>,
    id: BranchId,
    to: Option<BranchId>,
    name: Seq<char>,
)
    ensures
        by_name(reparented(bs, id, to), name) is Some <==> by_name(bs, name) is Some,
    decreases bs.len(),
{
    if bs.len() > 0 {
        lemma_reparented_name(bs.drop_last(), id, to, name);
        assert(reparented(bs, id, to).drop_last() =~= reparented(bs.drop_last(), id, to));
    }
}

/// No branch gets a parent by a garbage collection but the one that children are given to.
proof fn lemma_no_new_children(
    v: BranchesView,
    names: Seq<Seq<char>>,
    o: GcOptionsView,
    id: BranchId,
)
    requires
        forall|i: int| 0 <= i < v.branches.len() ==> (#[trigger] v.branches[i]).parent != Some(id),
        o.reparent_to matches Some(p) ==> (by_name(v.branches, p) matches Some(x) && x.id != id),
    ensures
        ({
            let (w, r) = gc_run(v, names, o);
            forall|i: int|
                0 <= i < w.branches.len() ==> (#[trigger] w.branches[i]).parent != Some(id)
        }),
    decreases names.len(),
{
    if names.len() > 0 {
        let init = names.drop_last();
        lemma_no_new_children(v, init, o, id);
        let (w, r) = gc_run(v, init, o);
        let n = names.last();
        if deletable(w, n, o.force) && reparent_error(w, n, o.reparent_to) is None {
            let gone = by_name(w.branches, n)->0.id;
            let parent = match o.reparent_to {
                Some(p) => Some(by_name(w.branches, p)->0.id),
                None => None,
            };
            if let Some(p) = o.reparent_to {
                gc_spares_main_and_current(v, init, o, p);
            }
            let moved = reparented(w.branches, gone, parent);
            let left = without_name(moved, n);
            assert forall|i: int| 0 <= i < left.len() implies (#[trigger] left[i]).parent != Some(
                id,
            ) by {
                lemma_left(moved, n, left[i]);
                assert(left.contains(left[i]));
                let j = choose|j: int| 0 <= j < moved.len() && moved[j] == left[i];
                assert(w.branches[j].parent != Some(id));
            }
        }
    }
}

/// A candidate that is neither main nor current is deleted where it has no children or
/// deletion is forced, whatever the other candidates are: provided that the children of
/// deleted branches are given to nobody, or to the main or the current branch.
pub proof fn deletable_candidate_is_deleted(
    v: BranchesView,
    names: Seq<Seq<char>>,
    o: GcOptionsView,
    b: BranchView,
)
    requires
        v.wf(),
        v.branches.contains(b),
        names.contains(b.name),
        b.name != "main"@,
        b.id != v.current,
        o.force || forall|i: int|
            0 <= i < v.branches.len() ==> (#[trigger] v.branches[i]).parent != Some(b.id),
        o.reparent_to matches Some(p) ==> (by_name(v.branches, p) matches Some(x) && (p == "main"@
            || x.id == v.current)),
    ensures
        gc_run(v, names, o).1.deleted.contains(b.name),
        by_name(gc_run(v, names, o).0.branches, b.name) is None,
    decreases names.len(),
{
    let init = names.drop_last();
    let (w, r) = gc_run(v, init, o);
    let all = gc_run(v, names, o).1;
    let n = names.last();
    let k = choose|k: int| 0 <= k < names.len() && names[k] == b.name;
    collection_takes_out_what_it_reports(v, names, o, b.name);
    collection_takes_out_what_it_reports(v, init, o, b.name);
    if init.contains(b.name) {
        deletable_candidate_is_deleted(v, init, o, b);
    } else {
        assert(k == names.len() - 1) by {
            if k < init.len() {
                assert(init[k] == b.name);
            }
        }
        gc_accounts_for_all(v, init, o);
    }
    if r.deleted.contains(b.name) {
        let i = choose|i: int| 0 <= i < r.deleted.len() && r.deleted[i] == b.name;
        assert(all.deleted[i] == b.name);
    } else {
        assert(n == b.name);
        lookups_find_branches(v, b.name, b.id, b);
        gc_spares_main_and_current(v, init, o, b.name);
        assert(by_name(w.branches, n) is Some);
        if let Some(p) = o.reparent_to {
            gc_spares_main_and_current(v, init, o, p);
            let x = by_name(v.branches, p)->0;
            lookups_find_branches(v, p, x.id, x);
            lookups_find_branches(v, p, b.id, x);
            assert(x.id != b.id);
        }
        if !o.force {
            lemma_no_new_children(v, init, o, b.id);
            children_are_counted(w.branches, b.id);
        }
        assert(delete_error(w, n) is None);
        assert(deletable(w, n, o.force));
        assert(all.deleted[r.deleted.len() as int] == b.name);
    }
}

/// The main branch and the current branch are skipped where they are candidates.
pub proof fn main_and_current_are_skipped(
    v: BranchesView,
    names: Seq<Seq<char>>,
    o: GcOptionsView,
    name: Seq<char>,
)
    requires
        names.contains(name),
        name == "main"@ || (by_name(v.branches, name) matches Some(b) && b.id == v.current),
    ensures
        gc_run(v, names, o).1.skipped.contains(name),
    decreases names.len(),
{
    let init = names.drop_last();
    let (w, r) = gc_run(v, init, o);
    let all = gc_run(v, names, o).1;
    if init.contains(name) {
        main_and_current_are_skipped(v, init, o, name);
        let i = choose|i: int| 0 <= i < r.skipped.len() && r.skipped[i] == name;
        assert(all.skipped[i] == name);
    } else {
        let k = choose|k: int| 0 <= k < names.len() && names[k] == name;
        assert(k == names.len() - 1) by {
            if k < init.len() {
                assert(init[k] == name);
            }
        }
        gc_spares_main_and_current(v, init, o, name);
        assert(delete_error(w, name) is Some);
        assert(all.skipped[r.skipped.len() as int] == name);
    }
}

/// A branch can be deleted just if it is there, is neither main nor current, and has no
/// children or its deletion is forced. To give its children away the new parent has to be
/// there.
pub proof fn deletable_branches(
    v: BranchesView,
    b: BranchView,
    force: bool,
    to: Option<Seq<char>>,
)
    requires
        v.wf(),
        v.branches.contains(b),
    ensures
        deletable(v, b.name, force) <==> b.name != "main"@ && b.id != v.current && (force || forall|
            i: int,
        |
            0 <= i < v.branches.len() ==> (#[trigger] v.branches[i]).parent != Some(b.id)),
        reparent_error(v, b.name, to) is None <==> b.name != "main"@ && b.id != v.current && (
        to matches Some(p) ==> exists|i: int|
            0 <= i < v.branches.len() && (#[trigger] v.branches[i]).name == p),
{
    lookups_find_branches(v, b.name, b.id, b);
    children_are_counted(v.branches, b.id);
    if let Some(p) = to {
        lemma_found(v.branches, p, b.id);
    }
}

/// Branches that are not there cannot be deleted.
pub proof fn missing_branches_are_not_deletable(
    v: BranchesView,
    name: Seq<char>,
    force: bool,
    to: Option<Seq<char>>,
)
    requires
        forall|i: int| 0 <= i < v.branches.len() ==> (#[trigger] v.branches[i]).name != name,
    ensures
        !deletable(v, name, force),
        reparent_error(v, name, to) is Some,
{
    lemma_found(v.branches, name, v.current);
}

/// A garbage collection goes on branch by branch: what can be deleted is, and its children
/// are counted as given away; what cannot is skipped, or told with the reason why its
/// children cannot be given away.
pub proof fn collection_goes_branch_by_branch(
    v: BranchesView,
    names: Seq<Seq<char>>,
    name: Seq<char>,
    o: GcOptionsView,
)
    ensures
        ({
            let (w, r) = gc_run(v, names, o);
            let (now, after) = gc_run(v, names.push(name), o);
            if !deletable(w, name, o.force) {
                &&& now == w
                &&& after.skipped == r.skipped.push(name)
                &&& after.deleted == r.deleted
                &&& after.errors == r.errors
                &&& after.reparented == r.reparented
            } else if reparent_error(w, name, o.reparent_to) is Some {
                &&& now == w
                &&& after.skipped == r.skipped
                &&& after.deleted == r.deleted
                &&& after.errors.len() == r.errors.len() + 1
                &&& after.errors.last().0 == name
                &&& after.reparented == r.reparented
            } else {
                &&& now == deleted_reparented(w, name, o.reparent_to)
                &&& after.skipped == r.skipped
                &&& after.deleted == r.deleted.push(name)
                &&& after.errors == r.errors
                &&& r.reparented + w.branches.len() <= usize::MAX ==> after.reparented
                    == r.reparented + w.branches.filter(
                    |b: BranchView|
                        b.parent is Some && b.parent->0 == by_name(w.branches, name)->0.id,
                ).len()
            }
        }),
        ({
            let (w, r) = gc_run(v, Seq::empty(), o);
            w == v && r.deleted.len() == 0 && r.skipped.len() == 0 && r.errors.len() == 0
                && r.reparented == 0
        }),
{
    assert(names.push(name).drop_last() =~= names);
    let (w, r) = gc_run(v, names, o);
    let id = by_name(w.branches, name)->0.id;
    children_are_counted(w.branches, id);
    w.branches.lemma_filter_len(|b: BranchView| b.parent is Some && b.parent->0 == id);
}

/// The current branch is the one whose id is current.
pub proof fn current_branch_has_the_current_id(v: BranchesView, b: BranchView)
    requires
        v.wf(),
    ensures
        v.current_branch() == Some(b) <==> v.branches.contains(b) && b.id == v.current,
{
    lookups_find_branches(v, b.name, v.current, b);
}

} // verus!
