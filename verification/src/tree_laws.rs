//! Laws of trees: which files operations, listings and differences are about.
use crate::order::{text_before, text_order_total};
use crate::state::operations::tree_ops_of;
use crate::store::trees::first_invalid;
use crate::json::json_quoted;
use crate::text::decimal_bytes;
use crate::tree::{change_at, component_at, entry_members, has_dot_component, is_diff, listing_agrees_with_lookup, tree_lookup, tree_remove, tree_remove_meaning, tree_set, tree_set_meaning, tree_sorted, tree_steps, tree_steps_sorted, valid_tree_path, with_prefix, FileView, TreeView};
use crate::types::{EntryView, OperationView, TreeChangeView, TreeOpView};
use vstd::prelude::*;
use vstd::utf8::encode_utf8;

verus! {

/// A file that is set is in the tree, with no other entry under its path; every other file
/// stays, and none is new.
pub proof fn set_file_is_in_the_tree(
    t: TreeView,
    path: Seq<char>,
    entry: EntryView,
    q: Seq<char>,
    e: EntryView,
)
    requires
        tree_sorted(t),
    ensures
        tree_set(t, path, entry).contains((q, e)) <==> (if q == path {
            e == entry
        } else {
            t.contains((q, e))
        }),
{
    tree_set_meaning(t, path, entry, q);
    listing_agrees_with_lookup(tree_set(t, path, entry), q, e);
    listing_agrees_with_lookup(t, q, e);
}

/// A file that is removed is not in the tree; every other file stays, and none is new.
pub proof fn removed_file_is_gone(t: TreeView, path: Seq<char>, q: Seq<char>, e: EntryView)
    requires
        tree_sorted(t),
    ensures
        tree_remove(t, path).contains((q, e)) <==> q != path && t.contains((q, e)),
{
    tree_remove_meaning(t, path, q);
    listing_agrees_with_lookup(tree_remove(t, path), q, e);
    listing_agrees_with_lookup(t, q, e);
}

/// Of the operations on a path the last one counts.
pub proof fn last_operation_on_a_path_counts(
    t: TreeView,
    ops: Seq<TreeOpView>,
    k: int,
    path: Seq<char>,
    e: EntryView,
)
    requires
        tree_sorted(t),
        0 <= k < ops.len(),
        match ops[k] {
            TreeOpView::SetEntry { path: p, .. } => p == path,
            TreeOpView::Remove { path: p } => p == path,
        },
        forall|j: int|
            k < j < ops.len() ==> match #[trigger] ops[j] {
                TreeOpView::SetEntry { path: p, .. } => p != path,
                TreeOpView::Remove { path: p } => p != path,
            },
    ensures
        tree_steps(t, ops).contains((path, e)) <==> (ops[k] matches TreeOpView::SetEntry {
            entry,
            ..
        } && entry == e),
    decreases ops.len(),
{
    let init = ops.drop_last();
    let before = tree_steps(t, init);
    tree_steps_sorted(t, init);
    if k < init.len() {
        assert(init[k] == ops[k]);
        assert forall|j: int| k < j < init.len() implies match #[trigger] init[j] {
            TreeOpView::SetEntry { path: p, .. } => p != path,
            TreeOpView::Remove { path: p } => p != path,
        } by {
            assert(init[j] == ops[j]);
        }
        last_operation_on_a_path_counts(t, init, k, path, e);
        assert(ops[ops.len() - 1] == ops.last());
    }
    match ops.last() {
        TreeOpView::SetEntry { path: p, entry } => set_file_is_in_the_tree(
            before,
            p,
            entry,
            path,
            e,
        ),
        TreeOpView::Remove { path: p } => removed_file_is_gone(before, p, path, e),
    }
}

/// Operations leave the paths that none of them is about.
pub proof fn operations_leave_other_paths(
    t: TreeView,
    ops: Seq<TreeOpView>,
    path: Seq<char>,
    e: EntryView,
)
    requires
        tree_sorted(t),
        forall|j: int|
            0 <= j < ops.len() ==> match #[trigger] ops[j] {
                TreeOpView::SetEntry { path: p, .. } => p != path,
                TreeOpView::Remove { path: p } => p != path,
            },
    ensures
        tree_steps(t, ops).contains((path, e)) <==> t.contains((path, e)),
    decreases ops.len(),
{
    if ops.len() > 0 {
        let init = ops.drop_last();
        let before = tree_steps(t, init);
        assert forall|j: int| 0 <= j < init.len() implies match #[trigger] init[j] {
            TreeOpView::SetEntry { path: p, .. } => p != path,
            TreeOpView::Remove { path: p } => p != path,
        } by {
            assert(init[j] == ops[j]);
        }
        tree_steps_sorted(t, init);
        operations_leave_other_paths(t, init, path, e);
        assert(ops[ops.len() - 1] == ops.last());
        match ops.last() {
            TreeOpView::SetEntry { path: p, entry } => set_file_is_in_the_tree(
                before,
                p,
                entry,
                path,
                e,
            ),
            TreeOpView::Remove { path: p } => removed_file_is_gone(before, p, path, e),
        }
    }
}

/// The tree operations that a state's operation stands for.
pub proof fn operations_on_trees(path: Seq<char>, entry: EntryView, ops: Seq<TreeOpView>)
    ensures
        tree_ops_of(OperationView::TreeSet { path, entry }) matches Some(l) && l.len() == 1 && l[0]
            == (TreeOpView::SetEntry { path, entry }),
        tree_ops_of(OperationView::TreeRemove { path }) matches Some(l) && l.len() == 1 && l[0]
            == (TreeOpView::Remove { path }),
        tree_ops_of(OperationView::TreeBatch { ops }) == Some(ops),
        tree_ops_of(OperationView::TreeDeltaSnapshot(ops)) == Some(ops),
{
}

/// A listing gives, in order, just the files whose paths start with the bytes of the prefix.
pub proof fn listing_filters_by_prefix(t: TreeView, prefix: Seq<char>)
    ensures
        with_prefix(t, prefix) == t.filter(
            |f: FileView|
                encode_utf8(prefix).len() <= encode_utf8(f.0).len() && forall|i: int|
                    0 <= i < encode_utf8(prefix).len() ==> #[trigger] encode_utf8(f.0)[i]
                        == encode_utf8(prefix)[i],
        ),
    decreases t.len(),
{
    let p = |f: FileView|
        encode_utf8(prefix).len() <= encode_utf8(f.0).len() && forall|i: int|
            0 <= i < encode_utf8(prefix).len() ==> #[trigger] encode_utf8(f.0)[i] == encode_utf8(
                prefix,
            )[i];
    reveal(Seq::filter);
    if t.len() > 0 {
        listing_filters_by_prefix(t.drop_last(), prefix);
        let a = encode_utf8(prefix);
        let b = encode_utf8(t.last().0);
        if a.is_prefix_of(b) {
            assert forall|i: int| 0 <= i < a.len() implies #[trigger] b[i] == a[i] by {
                assert(b.subrange(0, a.len() as int)[i] == b[i]);
            }
        }
        if p(t.last()) {
            assert(a =~= b.subrange(0, a.len() as int));
        }
    } else {
        assert(t.filter(p) =~= with_prefix(t, prefix));
    }
}

/// A difference tells of every path what became of it, by what the two trees hold there.
pub proof fn diff_tells_what_became_of_a_path(
    a: TreeView,
    b: TreeView,
    changes: Seq<TreeChangeView>,
    path: Seq<char>,
    x: EntryView,
    y: EntryView,
)
    requires
        tree_sorted(a),
        tree_sorted(b),
        is_diff(a, b, changes),
    ensures
        changes.contains(TreeChangeView::Added { path, entry: y }) <==> (b.contains((path, y))
            && forall|z: EntryView| !(#[trigger] a.contains((path, z)))),
        changes.contains(TreeChangeView::Removed { path, entry: x }) <==> (a.contains((path, x))
            && forall|z: EntryView| !(#[trigger] b.contains((path, z)))),
        changes.contains(
            TreeChangeView::Modified { path, old_entry: x, new_entry: y },
        ) <==> (a.contains((path, x)) && b.contains((path, y)) && x != y),
{
    assert forall|z: EntryView| #[trigger]
        a.contains((path, z)) == (tree_lookup(a, path) == Some(z)) by {
        listing_agrees_with_lookup(a, path, z);
    }
    assert forall|z: EntryView| #[trigger]
        b.contains((path, z)) == (tree_lookup(b, path) == Some(z)) by {
        listing_agrees_with_lookup(b, path, z);
    }
    if let Some(u) = tree_lookup(a, path) {
        assert(a.contains((path, u)));
    }
    if let Some(u) = tree_lookup(b, path) {
        assert(b.contains((path, u)));
    }
    let added = TreeChangeView::Added { path, entry: y };
    let removed = TreeChangeView::Removed { path, entry: x };
    let modified = TreeChangeView::Modified { path, old_entry: x, new_entry: y };
    assert forall|c: TreeChangeView| c.path() == path implies (#[trigger] changes.contains(c)
        <==> change_at(a, b, path) == Some(c)) by {
        if changes.contains(c) {
            let i = choose|i: int| 0 <= i < changes.len() && changes[i] == c;
            assert(change_at(a, b, changes[i].path()) == Some(changes[i]));
        }
        if change_at(a, b, path) == Some(c) {
            let i = choose|i: int|
                0 <= i < changes.len() && #[trigger] changes[i] == change_at(a, b, path)->0;
            assert(changes[i] == c);
        }
    }
    assert(added.path() == path && removed.path() == path && modified.path() == path);
    assert(changes.contains(added) <==> change_at(a, b, path) == Some(added));
    assert(changes.contains(removed) <==> change_at(a, b, path) == Some(removed));
    assert(changes.contains(modified) <==> change_at(a, b, path) == Some(modified));
}

/// A path is refused just if it is empty, starts with a slash, holds a null byte, or has a
/// component of one or two dots: alone, at its start, at its end or between slashes.
pub proof fn refused_paths(path: Seq<char>)
    ensures
        ({
            let b = encode_utf8(path);
            valid_tree_path(path) <==> {
                &&& b.len() > 0
                &&& b[0] != 47
                &&& forall|i: int| 0 <= i < b.len() ==> #[trigger] b[i] != 0
                &&& forall|i: int|
                    0 <= i < b.len() && #[trigger] b[i] == 46 && (i == 0 || b[i - 1] == 47) ==> !(i
                        + 1 == b.len() || b[i + 1] == 47 || (b[i + 1] == 46 && (i + 2 == b.len()
                        || b[i + 2] == 47)))
            }
        }),
{
    let b = encode_utf8(path);
    assert(b.contains(0u8) <==> exists|i: int| 0 <= i < b.len() && #[trigger] b[i] == 0);
    if has_dot_component(b) {
        let (i, j) = choose|i: int, j: int| #[trigger]
            component_at(b, i, j) && (b.subrange(i, j) == seq![46u8] || b.subrange(i, j) == seq![
                46u8,
                46u8,
            ]);
        let c = b.subrange(i, j);
        assert(c.len() == j - i);
        assert(c[0] == b[i]);
        assert(b[i] == 46);
        if c.len() == 2 {
            assert(c[1] == b[i + 1]);
        }
    }
    assert forall|i: int|
        0 <= i < b.len() && #[trigger] b[i] == 46 && (i == 0 || b[i - 1] == 47) && (i + 1 == b.len()
            || b[i + 1] == 47 || (b[i + 1] == 46 && (i + 2 == b.len() || b[i + 2]
            == 47))) implies has_dot_component(b) by {
        if i + 1 == b.len() || b[i + 1] == 47 {
            assert(component_at(b, i, i + 1));
            assert(b.subrange(i, i + 1) =~= seq![46u8]);
        } else {
            assert(component_at(b, i, i + 2));
            assert(b.subrange(i, i + 2) =~= seq![46u8, 46u8]);
        }
    }
}

/// Operations are refused for the first path among them that names no file, and not at all
/// where every path does.
pub proof fn first_invalid_path_is_told(ops: Seq<TreeOpView>)
    ensures
        match first_invalid(ops) {
            None => forall|i: int|
                0 <= i < ops.len() ==> valid_tree_path((#[trigger] ops[i]).path()),
            Some(p) => exists|k: int|
                0 <= k < ops.len() && (#[trigger] ops[k]).path() == p && !valid_tree_path(p)
                    && forall|i: int| 0 <= i < k ==> valid_tree_path((#[trigger] ops[i]).path()),
        },
    decreases ops.len(),
{
    if ops.len() > 0 {
        let init = ops.drop_last();
        first_invalid_path_is_told(init);
        assert(ops[ops.len() - 1] == ops.last());
        if let Some(p) = first_invalid(init) {
            let k = choose|k: int|
                0 <= k < init.len() && (#[trigger] init[k]).path() == p && !valid_tree_path(p)
                    && forall|i: int| 0 <= i < k ==> valid_tree_path((#[trigger] init[i]).path());
            assert(ops[k] == init[k]);
            assert forall|i: int| 0 <= i < k implies valid_tree_path(
                (#[trigger] ops[i]).path(),
            ) by {
                assert(init[i] == ops[i]);
            }
        } else {
            assert forall|i: int| 0 <= i < init.len() implies valid_tree_path(
                (#[trigger] ops[i]).path(),
            ) by {
                assert(init[i] == ops[i]);
            }
        }
    }
}

/// An entry is written with the hash of its blob, its size and its mode.
pub proof fn entries_are_written_whole(e: EntryView)
    ensures
        entry_members(e).len() == 3,
        entry_members(e)[0] == ("blob_hash"@, json_quoted(e.blob_hash)),
        entry_members(e)[1] == ("size"@, decimal_bytes(e.size as nat)),
        entry_members(e)[2] == ("mode"@, decimal_bytes(e.mode as nat)),
{
}

/// A difference lists its changes by ascending path, one for each path that changed.
pub proof fn diff_is_in_the_order_of_paths(
    a: TreeView,
    b: TreeView,
    changes: Seq<TreeChangeView>,
    i: int,
    j: int,
)
    requires
        is_diff(a, b, changes),
        0 <= i < j < changes.len(),
    ensures
        text_before(changes[i].path(), changes[j].path()),
        changes[i].path() != changes[j].path(),
{
    text_order_total(changes[i].path(), changes[j].path());
}

/// The path of an operation or a change is the one it names.
pub proof fn paths_are_named(path: Seq<char>, x: EntryView, y: EntryView)
    ensures
        (TreeOpView::SetEntry { path, entry: x }).path() == path,
        (TreeOpView::Remove { path }).path() == path,
        (TreeChangeView::Added { path, entry: x }).path() == path,
        (TreeChangeView::Removed { path, entry: x }).path() == path,
        (TreeChangeView::Modified { path, old_entry: x, new_entry: y }).path() == path,
{
}

} // verus!
