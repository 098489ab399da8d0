//! Laws of branches: what operations on one branch leave unchanged.
use crate::branches::manager::{by_id, by_name, deletable, deleted_reparented, found_among, gc_run, lemma_branch_at, lemma_found, reparent_error, reparented, with_branch, with_head, without_name, BranchesView, GcOptionsView, Search};
use crate::types::{BranchId, BranchView, Sequence};
use vstd::prelude::*;

verus! {

/// Moving the head of one branch leaves every other branch as it is.
pub proof fn heads_are_independent(bs: Seq<BranchView>, id: BranchId, head: Sequence, other: BranchId)
    ensures
        other != id ==> by_id(with_head(bs, id, head), other) == by_id(bs, other),
        by_id(with_head(bs, id, head), id) == (match by_id(bs, id) {
            Some(b) => Some(BranchView { head, ..b }),
            None => None,
        }),
    decreases bs.len(),
{
    if bs.len() > 0 {
        heads_are_independent(bs.drop_last(), id, head, other);
        assert(with_head(bs, id, head).drop_last() =~= with_head(bs.drop_last(), id, head));
        assert(with_head(bs, id, head).last() == (if bs.last().id == id {
            BranchView { head, ..bs.last() }
        } else {
            bs.last()
        }));
    }
}

/// A new branch has an id that no branch had, is found under its name, and leaves the
/// others as they are.
pub proof fn new_branch_is_fresh(v: BranchesView, b: BranchView, name: Seq<char>)
    requires
        v.wf(),
        b.id == BranchId(v.next_id),
    ensures
        by_id(v.branches, b.id) is None,
        by_name(with_branch(v, b).branches, b.name) == Some(b),
        by_id(with_branch(v, b).branches, b.id) == Some(b),
        name != b.name ==> by_name(with_branch(v, b).branches, name) == by_name(v.branches, name),
{
    assert(v.branches.push(b).drop_last() =~= v.branches);
    lemma_no_id(v.branches, v.next_id);
}

proof fn lemma_no_id(bs: Seq<BranchView>, next: u64)
    requires
        forall|i: int| 0 <= i < bs.len() ==> (#[trigger] bs[i]).id.0 < next,
    ensures
        by_id(bs, BranchId(next)) is None,
    decreases bs.len(),
{
    if bs.len() > 0 {
        assert(bs[bs.len() - 1].id.0 < next);
        assert forall|i: int| 0 <= i < bs.drop_last().len() implies (
        #[trigger] bs.drop_last()[i]).id.0 < next by {
            assert(bs.drop_last()[i] == bs[i]);
        }
        lemma_no_id(bs.drop_last(), next);
    }
}

/// Deleting a branch removes its name and leaves every other name as it is.
pub proof fn deletion_is_local(bs: Seq<BranchView>, name: Seq<char>, other: Seq<char>)
    ensures
        by_name(without_name(bs, name), name) is None,
        other != name ==> by_name(without_name(bs, name), other) == by_name(bs, other),
    decreases bs.len(),
{
    if bs.len() > 0 {
        deletion_is_local(bs.drop_last(), name, other);
        let init = without_name(bs.drop_last(), name);
        assert(init.push(bs.last()).drop_last() =~= init);
    }
}

/// Giving children to another parent leaves names and ids as they are.
proof fn lemma_reparented_names(
    bs: Seq<BranchView>,
    id: BranchId,
    to: Option<BranchId>,
    name: Seq<char>,
)
    ensures
        match by_name(bs, name) {
            None => by_name(reparented(bs, id, to), name) is None,
            Some(b) => by_name(reparented(bs, id, to), name) matches Some(c) && c.id == b.id
                && c.name == b.name && c.head == b.head,
        },
    decreases bs.len(),
{
    if bs.len() > 0 {
        lemma_reparented_names(bs.drop_last(), id, to, name);
        assert(reparented(bs, id, to).drop_last() =~= reparented(bs.drop_last(), id, to));
    }
}

/// The branches that deleting one leaves are those with other names.
pub proof fn lemma_left(bs: Seq<BranchView>, name: Seq<char>, b: BranchView)
    ensures
        without_name(bs, name).contains(b) <==> bs.contains(b) && b.name != name,
    decreases bs.len(),
{
    if bs.len() > 0 {
        let init = bs.drop_last();
        lemma_left(init, name, b);
        let left = without_name(init, name);
        let all = without_name(bs, name);
        assert(bs[bs.len() - 1] == bs.last());
        if bs.contains(b) && b != bs.last() {
            let k = choose|k: int| 0 <= k < bs.len() && bs[k] == b;
            assert(init[k] == b);
        }
        if init.contains(b) {
            let k = choose|k: int| 0 <= k < init.len() && init[k] == b;
            assert(bs[k] == b);
        }
        if bs.last().name != name {
            assert(all[all.len() - 1] == bs.last());
            if left.contains(b) {
                let k = choose|k: int| 0 <= k < left.len() && left[k] == b;
                assert(all[k] == b);
            }
            if all.contains(b) && b != bs.last() {
                let k = choose|k: int| 0 <= k < all.len() && all[k] == b;
                assert(left[k] == b);
            }
        }
    }
}

/// The children of a branch that is deleted without a new parent for them become orphaned,
/// and a search for orphaned branches finds them.
pub proof fn children_become_orphans(v: BranchesView, name: Seq<char>, child: BranchView)
    requires
        v.wf(),
        reparent_error(v, name, None) is None,
        v.branches.contains(child),
        child.name != name,
        child.parent == Some(by_name(v.branches, name)->0.id),
    ensures
        ({
            let now = deleted_reparented(v, name, None);
            found_among(now, Search::Orphaned, now.branches).contains(child)
        }),
{
    let now = deleted_reparented(v, name, None);
    let gone = by_name(v.branches, name)->0;
    assert(reparented(v.branches, gone.id, None) =~= v.branches);
    lemma_left(v.branches, name, child);
    lemma_found(now.branches, name, gone.id);
    if let Some(b) = by_id(now.branches, gone.id) {
        assert(now.branches.contains(b));
        lemma_left(v.branches, name, b);
        let i = choose|i: int| 0 <= i < v.branches.len() && v.branches[i] == b;
        lemma_branch_at(v, i);
        lemma_found(v.branches, name, gone.id);
        let k = choose|k: int| 0 <= k < v.branches.len() && v.branches[k] == gone;
        lemma_branch_at(v, k);
        assert(b == gone);
    }
    crate::branches::manager::search_is_complete(now, Search::Orphaned, now.branches, child);
}

/// Garbage collection never deletes the main branch or the current branch, and keeps the
/// head of every branch that is left.
pub proof fn gc_spares_main_and_current(
    v: BranchesView,
    names: Seq<Seq<char>>,
    o: GcOptionsView,
    name: Seq<char>,
)
    ensures
        ({
            let (w, r) = gc_run(v, names, o);
            &&& w.current == v.current
            &&& !r.deleted.contains("main"@)
            &&& by_name(w.branches, name) matches Some(c) ==> (by_name(v.branches, name) matches Some(
                b,
            ) && b.id == c.id && b.head == c.head)
            &&& (by_name(v.branches, name) matches Some(b) && (name == "main"@ || b.id
                == v.current)) ==> by_name(w.branches, name) is Some
        }),
    decreases names.len(),
{
    if names.len() > 0 {
        gc_spares_main_and_current(v, names.drop_last(), o, name);
        let (w, r) = gc_run(v, names.drop_last(), o);
        let n = names.last();
        if deletable(w, n, o.force) && reparent_error(w, n, o.reparent_to) is None {
            let id = by_name(w.branches, n)->0.id;
            let parent = match o.reparent_to {
                Some(p) => Some(by_name(w.branches, p)->0.id),
                None => None,
            };
            let moved = reparented(w.branches, id, parent);
            lemma_reparented_names(w.branches, id, parent, name);
            deletion_is_local(moved, n, name);
            let d = r.deleted.push(n);
            assert(n != "main"@);
            assert(!d.contains("main"@)) by {
                if d.contains("main"@) {
                    let k = choose|k: int| 0 <= k < d.len() && d[k] == "main"@;
                    assert(r.deleted[k] == d[k]);
                }
            }
        }
    }
}

/// Every candidate of a garbage collection is deleted, skipped or reported, in order.
pub proof fn gc_accounts_for_all(v: BranchesView, names: Seq<Seq<char>>, o: GcOptionsView)
    ensures
        ({
            let (w, r) = gc_run(v, names, o);
            &&& r.deleted.len() + r.skipped.len() + r.errors.len() == names.len()
            &&& forall|i: int| 0 <= i < r.deleted.len() ==> names.contains(#[trigger] r.deleted[i])
            &&& forall|i: int| 0 <= i < r.skipped.len() ==> names.contains(#[trigger] r.skipped[i])
            &&& forall|i: int|
                0 <= i < r.errors.len() ==> names.contains((#[trigger] r.errors[i]).0)
        }),
    decreases names.len(),
{
    if names.len() > 0 {
        let init = names.drop_last();
        gc_accounts_for_all(v, init, o);
        let (w, r) = gc_run(v, names, o);
        let (w0, r0) = gc_run(v, init, o);
        let n = names.last();
        assert(names[names.len() - 1] == n);
        assert forall|x: Seq<char>| init.contains(x) implies #[trigger] names.contains(x) by {
            let k = choose|k: int| 0 <= k < init.len() && init[k] == x;
            assert(names[k] == x);
        }
        assert forall|i: int| 0 <= i < r.deleted.len() implies names.contains(
            #[trigger] r.deleted[i],
        ) by {
            if i < r0.deleted.len() {
                assert(r.deleted[i] == r0.deleted[i]);
            }
        }
        assert forall|i: int| 0 <= i < r.skipped.len() implies names.contains(
            #[trigger] r.skipped[i],
        ) by {
            if i < r0.skipped.len() {
                assert(r.skipped[i] == r0.skipped[i]);
            }
        }
        assert forall|i: int| 0 <= i < r.errors.len() implies names.contains(
            (#[trigger] r.errors[i]).0,
        ) by {
            if i < r0.errors.len() {
                assert(r.errors[i] == r0.errors[i]);
            }
        }
    }
}

} // verus!
