//! Laws of state chains: what snapshots and later updates leave unchanged.
use crate::error::ErrorView;
use crate::json::{all_plain, array_text, json_items};
use crate::records::codec::{record_at, record_survives_append};
use crate::state::chain::{chain, edited_since, is_delta, is_full, kept, link_at, until, update_at, value_of, ChainView, LinkView, TableView};
use crate::state::operations::{holds_tree, is_item, item_text, items_allow, items_step, items_text, models, models_tree, reads_items, reads_tree, redacted, run_items, run_trees, runs, runs_tree, tree_model_text, tree_ops_of, tree_value, whole_value, ItemOp, TreeModel};
use crate::state::walks::{put_older, touches, tree_delta};
use crate::tree::{tree_extensional, tree_lookup, tree_remove_meaning, tree_set_meaning, tree_sorted, tree_steps, tree_steps_sorted, tree_text, TreeView};
use crate::types::{EntryView, OperationView, TreeOpView};
use vstd::prelude::*;

verus! {

/// Whether every link reads.
pub open spec fn readable(c: ChainView) -> bool {
    forall|i: int| 0 <= i < c.len() ==> (#[trigger] c[i]) is Ok
}

/// The operations of a chain, newest first.
pub open spec fn ops_of(c: ChainView) -> Seq<OperationView> {
    c.map_values(|l: Result<LinkView, ErrorView>| l->Ok_0.update.operation)
}

/// The operations that make up the value, newest first.
pub open spec fn kept_ops(ops: Seq<OperationView>, hit: bool) -> Seq<OperationView>
    decreases ops.len(),
{
    if ops.len() == 0 {
        Seq::empty()
    } else if is_full(ops[0]) {
        seq![ops[0]]
    } else if is_delta(ops[0]) || !hit {
        seq![ops[0]] + kept_ops(ops.skip(1), hit || is_delta(ops[0]))
    } else {
        kept_ops(ops.skip(1), hit)
    }
}

pub proof fn lemma_kept_ops(c: ChainView, hit: bool)
    requires
        readable(c),
    ensures
        kept(c, hit) == Ok::<Seq<OperationView>, ErrorView>(kept_ops(ops_of(c), hit)),
    decreases c.len(),
{
    if c.len() > 0 {
        let rest = c.skip(1);
        assert forall|i: int| 0 <= i < rest.len() implies (#[trigger] rest[i]) is Ok by {
            assert(rest[i] == c[i + 1]);
        }
        assert(ops_of(rest) =~= ops_of(c).skip(1));
        assert(c[0] is Ok);
        assert(ops_of(c)[0] == c[0]->Ok_0.update.operation);
        lemma_kept_ops(rest, hit);
        lemma_kept_ops(rest, true);
    }
}

/// What is kept of operations holds one behind the last snapshot that a delta snapshot cannot
/// track just where the operations do.
pub proof fn lemma_kept_edited(ops: Seq<OperationView>)
    ensures
        edited_since(kept_ops(ops, false)) == edited_since(ops),
    decreases ops.len(),
{
    reveal_with_fuel(edited_since, 2);
    if ops.len() > 0 {
        lemma_kept_edited(ops.skip(1));
        if !is_full(ops[0]) && !is_delta(ops[0]) {
            let k = kept_ops(ops, false);
            assert(k.skip(1) =~= kept_ops(ops.skip(1), false));
        }
    }
}

/// In a faithful chain without such an operation nothing but appends stands behind the last
/// snapshot.
pub proof fn lemma_unedited(ops: Seq<OperationView>)
    requires
        faithful_items(ops),
        !edited_since(ops),
    ensures
        only_appends_since(ops),
    decreases ops.len(),
{
    if ops.len() > 0 && !is_full(ops[0]) && !is_delta(ops[0]) {
        lemma_unedited(ops.skip(1));
    }
}

/// A readable chain stays one without its newest link.
pub proof fn lemma_rest_readable(c: ChainView)
    requires
        readable(c),
        c.len() > 0,
    ensures
        readable(c.skip(1)),
        ops_of(c.skip(1)) == ops_of(c).skip(1),
        c[0] is Ok,
        ops_of(c)[0] == c[0]->Ok_0.update.operation,
        ops_of(c).len() == c.len(),
{
    let rest = c.skip(1);
    assert forall|i: int| 0 <= i < rest.len() implies (#[trigger] rest[i]) is Ok by {
        assert(rest[i] == c[i + 1]);
    }
    assert(ops_of(rest) =~= ops_of(c).skip(1));
    assert(c[0] is Ok);
}

/// The items after all single updates of a chain; snapshots add nothing.
pub open spec fn direct_items(ops: Seq<OperationView>) -> Seq<Seq<u8>>
    decreases ops.len(),
{
    if ops.len() == 0 {
        Seq::empty()
    } else {
        items_after(direct_items(ops.skip(1)), ops[0])
    }
}

/// The value after all single updates of a chain of an array state: a value that was set
/// stands as it was given, and every other update writes the items anew. A full snapshot
/// changes nothing; a delta snapshot writes the items.
pub open spec fn direct_text(ops: Seq<OperationView>) -> Seq<u8>
    decreases ops.len(),
{
    if ops.len() == 0 {
        Seq::empty()
    } else if is_full(ops[0]) {
        direct_text(ops.skip(1))
    } else {
        match whole_value(ops[0]) {
            Some(v) => v,
            None => array_text(direct_items(ops)),
        }
    }
}

/// Whether a value is an array of items without fractions.
pub open spec fn is_array(v: Seq<u8>) -> bool {
    v.len() > 0 && json_items(v) is Ok && all_plain(json_items(v)->Ok_0)
}

/// Whether an operation appends, edits or redacts items without fractions, or sets an array
/// of them.
pub open spec fn is_item_op(op: OperationView) -> bool {
    match op {
        OperationView::Append(v) => is_item(v),
        OperationView::Edit { index, new_value } => is_item(new_value),
        OperationView::Redact { .. } => true,
        _ => whole_value(op) matches Some(v) && is_array(v),
    }
}

/// The items after an operation.
pub open spec fn items_after(items: Seq<Seq<u8>>, op: OperationView) -> Seq<Seq<u8>> {
    match op {
        OperationView::Append(v) => items.push(item_text(v)),
        OperationView::Edit { index, new_value } => if index < items.len() {
            items.update(index as int, item_text(new_value))
        } else {
            items
        },
        OperationView::Redact { start, end } => redacted(items, start as nat, end as nat),
        _ => match whole_value(op) {
            Some(v) => json_items(v)->Ok_0,
            None => items,
        },
    }
}

/// The value after an operation on items: what is set stands as it was given, else the
/// items are written anew.
pub open spec fn text_after(items: Seq<Seq<u8>>, op: OperationView) -> Seq<u8> {
    match whole_value(op) {
        Some(v) => v,
        None => array_text(items_after(items, op)),
    }
}

/// The items appended since the last snapshot.
pub open spec fn appended_since(ops: Seq<OperationView>) -> Seq<Seq<u8>>
    decreases ops.len(),
{
    if ops.len() == 0 || is_full(ops[0]) || is_delta(ops[0]) {
        Seq::empty()
    } else {
        match ops[0] {
            OperationView::Append(v) => appended_since(ops.skip(1)).push(item_text(v)),
            _ => appended_since(ops.skip(1)),
        }
    }
}

/// Whether nothing but appends stands behind the last snapshot.
pub open spec fn only_appends_since(ops: Seq<OperationView>) -> bool
    decreases ops.len(),
{
    ops.len() == 0 || is_full(ops[0]) || is_delta(ops[0]) || (ops[0] is Append
        && only_appends_since(ops.skip(1)))
}

/// The items at the last snapshot.
pub open spec fn items_at_snapshot(ops: Seq<OperationView>) -> Seq<Seq<u8>>
    decreases ops.len(),
{
    if ops.len() == 0 {
        Seq::empty()
    } else if is_full(ops[0]) || is_delta(ops[0]) {
        direct_items(ops)
    } else {
        items_at_snapshot(ops.skip(1))
    }
}

/// Whether a chain of an array state is faithful: it sets arrays, appends, edits and redacts,
/// and what it edits exists; a full snapshot holds the value at its place, and a delta
/// snapshot the items appended since the snapshot before, with nothing but appends in
/// between.
pub open spec fn faithful_items(ops: Seq<OperationView>) -> bool
    decreases ops.len(),
{
    ops.len() == 0 || {
        let rest = ops.skip(1);
        &&& faithful_items(rest)
        &&& match ops[0] {
            OperationView::Append(v) => is_item(v),
            OperationView::Redact { .. } => true,
            OperationView::Edit { index, new_value } => is_item(new_value) && index
                < direct_items(rest).len(),
            OperationView::Snapshot(v) => rest.len() > 0 && v == direct_text(rest),
            OperationView::DeltaSnapshot(v) => v == array_text(appended_since(rest))
                && only_appends_since(rest),
            _ => whole_value(ops[0]) matches Some(v) && is_array(v),
        }
    }
}

/// What a kept operation of a faithful chain does to the items.
spec fn item_model(ops: Seq<OperationView>) -> ItemOp
    recommends
        ops.len() > 0,
{
    let rest = ops.skip(1);
    match ops[0] {
        OperationView::Append(v) => ItemOp::Append(item_text(v)),
        OperationView::Redact { start, end } => ItemOp::Redact { start, end },
        OperationView::Edit { index, new_value } => ItemOp::Edit {
            index,
            value: item_text(new_value),
        },
        OperationView::Snapshot(v) => ItemOp::Full { text: v, items: direct_items(rest) },
        OperationView::DeltaSnapshot(_) => ItemOp::More(appended_since(rest)),
        _ => ItemOp::Full { text: whole_value(ops[0])->0, items: direct_items(ops) },
    }
}

/// What the kept operations do to the items, oldest first.
spec fn kept_models(ops: Seq<OperationView>, hit: bool) -> Seq<ItemOp>
    decreases ops.len(),
{
    if ops.len() == 0 {
        Seq::empty()
    } else if is_full(ops[0]) {
        seq![item_model(ops)]
    } else if is_delta(ops[0]) || !hit {
        kept_models(ops.skip(1), hit || is_delta(ops[0])).push(item_model(ops))
    } else {
        kept_models(ops.skip(1), hit)
    }
}

pub proof fn lemma_direct_plain(ops: Seq<OperationView>)
    requires
        faithful_items(ops),
    ensures
        all_plain(direct_items(ops)),
        all_plain(appended_since(ops)),
        ops.len() > 0 ==> direct_text(ops).len() > 0 && reads_items(
            direct_text(ops),
            direct_items(ops),
        ),
    decreases ops.len(),
{
    if ops.len() > 0 {
        let rest = ops.skip(1);
        lemma_direct_plain(rest);
        let before = direct_items(rest);
        match ops[0] {
            OperationView::Append(v) => {
                crate::state::operations::lemma_items_step_plain(
                    before,
                    ops[0],
                    ItemOp::Append(item_text(v)),
                );
                crate::state::operations::lemma_items_step_plain(
                    appended_since(rest),
                    ops[0],
                    ItemOp::Append(item_text(v)),
                );
            },
            OperationView::Redact { start, end } => {
                crate::state::operations::lemma_items_step_plain(
                    before,
                    ops[0],
                    ItemOp::Redact { start, end },
                );
            },
            OperationView::Edit { index, new_value } => {
                crate::state::operations::lemma_items_step_plain(
                    before,
                    ops[0],
                    ItemOp::Edit { index, value: item_text(new_value) },
                );
            },
            _ => {},
        }
    }
}

pub proof fn lemma_appends_only(ops: Seq<OperationView>)
    requires
        only_appends_since(ops),
    ensures
        direct_items(ops) == items_at_snapshot(ops) + appended_since(ops),
    decreases ops.len(),
{
    if ops.len() == 0 || is_full(ops[0]) || is_delta(ops[0]) {
        assert(direct_items(ops) =~= items_at_snapshot(ops) + appended_since(ops));
    } else {
        lemma_appends_only(ops.skip(1));
        assert(direct_items(ops) =~= items_at_snapshot(ops) + appended_since(ops));
    }
}

proof fn lemma_kept_models(ops: Seq<OperationView>, hit: bool)
    requires
        faithful_items(ops),
    ensures
        runs(kept_ops(ops, hit).reverse(), kept_models(ops, hit)),
        run_items(kept_models(ops, hit)) == (if hit {
            items_at_snapshot(ops)
        } else {
            direct_items(ops)
        }),
        ops.len() > 0 && !hit ==> kept_models(ops, hit).len() > 0 && items_text(
            kept_models(ops, hit),
        ) == direct_text(ops),
    decreases ops.len(),
{
    let k = kept_ops(ops, hit).reverse();
    let ms = kept_models(ops, hit);
    if ops.len() > 0 {
        let rest = ops.skip(1);
        lemma_direct_plain(rest);
        if is_full(ops[0]) {
            assert(k =~= seq![ops[0]]);
            assert(ms =~= seq![item_model(ops)]);
            assert(ms.drop_last() =~= Seq::empty());
            assert forall|i: int| 0 <= i < ms.len() implies items_allow(
                run_items(#[trigger] ms.take(i)),
                ms[i],
            ) by {}
        } else if is_delta(ops[0]) || !hit {
            let h = hit || is_delta(ops[0]);
            lemma_kept_models(rest, h);
            let older = kept_models(rest, h);
            let kr = kept_ops(rest, h).reverse();
            assert(k =~= kr.push(ops[0]));
            assert(ms.drop_last() =~= older);
            assert forall|i: int| 0 <= i < k.len() implies #[trigger] models(k[i], ms[i]) by {
                if i < kr.len() {
                    assert(models(kr[i], older[i]));
                }
            }
            if is_delta(ops[0]) {
                lemma_appends_only(rest);
            }
            assert forall|i: int| 0 <= i < ms.len() implies items_allow(
                run_items(#[trigger] ms.take(i)),
                ms[i],
            ) by {
                if i < older.len() {
                    assert(ms.take(i) =~= older.take(i));
                    assert(items_allow(run_items(older.take(i)), older[i]));
                } else {
                    assert(ms.take(i) =~= older);
                }
            }
            assert(run_items(ms) == items_step(run_items(older), item_model(ops)));
        } else {
            lemma_kept_models(rest, hit);
        }
    } else {
        assert(k =~= Seq::empty());
    }
}

/// Reconstruction matches direct application: what the chain of an array state gives, with
/// all the shortcuts that snapshots allow, is what its single updates make one after the
/// other.
pub proof fn reconstruction_matches_direct_items(c: ChainView)
    requires
        readable(c),
        faithful_items(ops_of(c)),
        c.len() > 0,
    ensures
        exists|ops: Seq<OperationView>, ms: Seq<ItemOp>|
            kept(c, false) == Ok::<Seq<OperationView>, ErrorView>(ops) && #[trigger] runs(
                ops.reverse(),
                ms,
            ) && items_text(ms) == direct_text(ops_of(c)) && run_items(ms)
                == direct_items(ops_of(c)),
{
    let ops = ops_of(c);
    lemma_kept_ops(c, false);
    lemma_kept_models(ops, false);
    assert(ops.len() == c.len());
    assert(runs(kept_ops(ops, false).reverse(), kept_models(ops, false)));
}

/// What operations leave at a path: an entry, nothing, or what was there before.
pub open spec fn effect(ops: Seq<TreeOpView>, q: Seq<char>) -> Option<Option<EntryView>>
    decreases ops.len(),
{
    if ops.len() == 0 {
        None
    } else if ops.last().path() == q {
        match ops.last() {
            TreeOpView::SetEntry { entry, .. } => Some(Some(entry)),
            TreeOpView::Remove { .. } => Some(None),
        }
    } else {
        effect(ops.drop_last(), q)
    }
}

/// The first of two effects that there is.
pub open spec fn either(
    a: Option<Option<EntryView>>,
    b: Option<Option<EntryView>>,
) -> Option<Option<EntryView>> {
    if a is Some {
        a
    } else {
        b
    }
}

/// Operations change a tree just where they have an effect.
pub proof fn tree_steps_meaning(t: TreeView, ops: Seq<TreeOpView>, q: Seq<char>)
    requires
        tree_sorted(t),
    ensures
        tree_lookup(tree_steps(t, ops), q) == (match effect(ops, q) {
            Some(e) => e,
            None => tree_lookup(t, q),
        }),
    decreases ops.len(),
{
    if ops.len() > 0 {
        let init = ops.drop_last();
        tree_steps_meaning(t, init, q);
        tree_steps_sorted(t, init);
        let before = tree_steps(t, init);
        match ops.last() {
            TreeOpView::SetEntry { path, entry } => tree_set_meaning(before, path, entry, q),
            TreeOpView::Remove { path } => tree_remove_meaning(before, path, q),
        }
    }
}

proof fn lemma_effect_concat(a: Seq<TreeOpView>, b: Seq<TreeOpView>, q: Seq<char>)
    ensures
        effect(a + b, q) == either(effect(b, q), effect(a, q)),
    decreases b.len(),
{
    if b.len() == 0 {
        assert(a + b =~= a);
    } else {
        assert((a + b).drop_last() =~= a + b.drop_last());
        lemma_effect_concat(a, b.drop_last(), q);
    }
}

proof fn lemma_touched(ops: Seq<TreeOpView>, q: Seq<char>)
    ensures
        touches(ops, q) <==> effect(ops, q) is Some,
    decreases ops.len(),
{
    if ops.len() > 0 {
        let init = ops.drop_last();
        lemma_touched(init, q);
        if touches(ops, q) && ops.last().path() != q {
            let i = choose|i: int| 0 <= i < ops.len() && ops[i].path() == q;
            assert(init[i] == ops[i]);
        }
        if touches(init, q) {
            let i = choose|i: int| 0 <= i < init.len() && init[i].path() == q;
            assert(ops[i] == init[i]);
        }
        assert(ops[ops.len() - 1] == ops.last());
    }
}

proof fn lemma_put_older(older: Seq<TreeOpView>, ops: Seq<TreeOpView>, q: Seq<char>)
    ensures
        effect(put_older(older, ops), q) == either(effect(ops, q), effect(older, q)),
    decreases older.len(),
{
    if older.len() > 0 {
        let op = older.last();
        let init = older.drop_last();
        if touches(ops, op.path()) {
            lemma_put_older(init, ops, q);
            lemma_touched(ops, q);
        } else {
            lemma_put_older(init, seq![op] + ops, q);
            lemma_effect_concat(seq![op], ops, q);
            reveal_with_fuel(effect, 2);
            assert(seq![op].drop_last() =~= Seq::empty());
        }
    }
}

/// The tree after all single updates of a chain; snapshots add nothing.
pub open spec fn direct_tree(ops: Seq<OperationView>) -> TreeView
    decreases ops.len(),
{
    if ops.len() == 0 {
        Seq::empty()
    } else {
        let before = direct_tree(ops.skip(1));
        if is_full(ops[0]) || is_delta(ops[0]) {
            before
        } else {
            tree_after(before, ops[0])
        }
    }
}

/// The tree after an operation.
pub open spec fn tree_after(t: TreeView, op: OperationView) -> TreeView {
    match (whole_value(op), tree_ops_of(op)) {
        (Some(v), _) => tree_value(v)->Ok_0,
        (None, Some(steps)) => tree_steps(t, steps),
        (None, None) => t,
    }
}

/// Whether an operation is one on the files of a tree state: it sets or removes some, or
/// sets a value that reads as a tree.
pub open spec fn is_tree_step(op: OperationView) -> bool {
    match whole_value(op) {
        Some(v) => reads_tree(v),
        None => op is TreeSet || op is TreeRemove || op is TreeBatch,
    }
}

/// The value that a chain of a tree state makes: what was set or snapshotted last, or the
/// text of the tree.
pub open spec fn direct_tree_text(ops: Seq<OperationView>) -> Seq<u8> {
    if ops.len() == 0 {
        Seq::empty()
    } else {
        match (ops[0], whole_value(ops[0])) {
            (OperationView::Snapshot(v), _) => v,
            (_, Some(v)) => v,
            _ => tree_text(direct_tree(ops)),
        }
    }
}

/// The tree at the last snapshot.
pub open spec fn tree_at_snapshot(ops: Seq<OperationView>) -> TreeView
    decreases ops.len(),
{
    if ops.len() == 0 {
        Seq::empty()
    } else if is_full(ops[0]) || is_delta(ops[0]) {
        direct_tree(ops)
    } else {
        tree_at_snapshot(ops.skip(1))
    }
}

/// The operations since the last snapshot, the newest for each path.
pub open spec fn delta_since(ops: Seq<OperationView>, gathered: Seq<TreeOpView>) -> Seq<TreeOpView>
    decreases ops.len(),
{
    if ops.len() == 0 || is_full(ops[0]) || ops[0] is TreeDeltaSnapshot {
        gathered
    } else {
        match tree_ops_of(ops[0]) {
            Some(steps) => delta_since(ops.skip(1), put_older(steps, gathered)),
            None => delta_since(ops.skip(1), gathered),
        }
    }
}

/// Whether a chain of a tree state is faithful: it sets trees, and sets and removes files; a
/// full snapshot holds the tree at its place, and a delta snapshot what was done since the
/// snapshot before, where that was no more than setting and removing files.
pub open spec fn faithful_tree(ops: Seq<OperationView>) -> bool
    decreases ops.len(),
{
    ops.len() == 0 || {
        let rest = ops.skip(1);
        &&& faithful_tree(rest)
        &&& match ops[0] {
            OperationView::Snapshot(v) => holds_tree(v, direct_tree(rest)),
            OperationView::TreeDeltaSnapshot(o) => o == delta_since(rest, Seq::empty())
                && !edited_since(rest),
            op => is_tree_step(op),
        }
    }
}

/// The tree of a faithful chain is sorted, and the value of the chain holds it.
pub proof fn lemma_direct_sorted(ops: Seq<OperationView>)
    requires
        faithful_tree(ops),
    ensures
        tree_sorted(direct_tree(ops)),
        tree_sorted(tree_at_snapshot(ops)),
        holds_tree(direct_tree_text(ops), direct_tree(ops)),
    decreases ops.len(),
{
    if ops.len() > 0 {
        lemma_direct_sorted(ops.skip(1));
        if let Some(steps) = tree_ops_of(ops[0]) {
            tree_steps_sorted(direct_tree(ops.skip(1)), steps);
        }
    }
}

/// What a chain's single updates since the last snapshot leave at a path.
spec fn effect_since(ops: Seq<OperationView>, q: Seq<char>) -> Option<Option<EntryView>>
    decreases ops.len(),
{
    if ops.len() == 0 || is_full(ops[0]) || is_delta(ops[0]) {
        None
    } else {
        match tree_ops_of(ops[0]) {
            Some(steps) => either(effect(steps, q), effect_since(ops.skip(1), q)),
            None => effect_since(ops.skip(1), q),
        }
    }
}

proof fn lemma_since(ops: Seq<OperationView>, gathered: Seq<TreeOpView>, q: Seq<char>)
    requires
        faithful_tree(ops),
        !edited_since(ops),
    ensures
        tree_lookup(direct_tree(ops), q) == (match effect_since(ops, q) {
            Some(e) => e,
            None => tree_lookup(tree_at_snapshot(ops), q),
        }),
        effect(delta_since(ops, gathered), q) == either(effect(gathered, q), effect_since(ops, q)),
    decreases ops.len(),
{
    if ops.len() > 0 && !is_full(ops[0]) && !is_delta(ops[0]) {
        let rest = ops.skip(1);
        let steps = tree_ops_of(ops[0])->0;
        lemma_direct_sorted(rest);
        tree_steps_meaning(direct_tree(rest), steps, q);
        lemma_put_older(steps, gathered, q);
        lemma_since(rest, put_older(steps, gathered), q);
    }
}

/// Doing the gathered operations on the tree of the last snapshot gives the tree.
proof fn lemma_delta_covers(ops: Seq<OperationView>)
    requires
        faithful_tree(ops),
        !edited_since(ops),
    ensures
        tree_steps(tree_at_snapshot(ops), delta_since(ops, Seq::empty())) == direct_tree(ops),
{
    let base = tree_at_snapshot(ops);
    let delta = delta_since(ops, Seq::empty());
    lemma_direct_sorted(ops);
    tree_steps_sorted(base, delta);
    assert forall|q: Seq<char>| #[trigger]
        tree_lookup(tree_steps(base, delta), q) == tree_lookup(direct_tree(ops), q) by {
        tree_steps_meaning(base, delta, q);
        lemma_since(ops, Seq::empty(), q);
        assert(effect(Seq::<TreeOpView>::empty(), q) is None);
    }
    tree_extensional(tree_steps(base, delta), direct_tree(ops));
}

spec fn tree_model(ops: Seq<OperationView>) -> TreeModel {
    match ops[0] {
        OperationView::Snapshot(v) => TreeModel::Full { text: v, tree: direct_tree(ops.skip(1)) },
        op => match whole_value(op) {
            Some(v) => TreeModel::Full { text: v, tree: tree_value(v)->Ok_0 },
            None => TreeModel::Steps(tree_ops_of(op)->0),
        },
    }
}

spec fn kept_tree_models(ops: Seq<OperationView>, hit: bool) -> Seq<TreeModel>
    decreases ops.len(),
{
    if ops.len() == 0 {
        Seq::empty()
    } else if is_full(ops[0]) {
        seq![tree_model(ops)]
    } else if is_delta(ops[0]) || !hit {
        kept_tree_models(ops.skip(1), hit || is_delta(ops[0])).push(tree_model(ops))
    } else {
        kept_tree_models(ops.skip(1), hit)
    }
}

proof fn lemma_kept_tree_models(ops: Seq<OperationView>, hit: bool)
    requires
        faithful_tree(ops),
    ensures
        runs_tree(kept_ops(ops, hit).reverse(), kept_tree_models(ops, hit)),
        run_trees(kept_tree_models(ops, hit)) == (if hit {
            tree_at_snapshot(ops)
        } else {
            direct_tree(ops)
        }),
        !hit ==> tree_model_text(kept_tree_models(ops, hit)) == direct_tree_text(ops),
    decreases ops.len(),
{
    let k = kept_ops(ops, hit).reverse();
    let ms = kept_tree_models(ops, hit);
    if ops.len() > 0 {
        let rest = ops.skip(1);
        lemma_direct_sorted(rest);
        if is_full(ops[0]) {
            assert(k =~= seq![ops[0]]);
        } else if is_delta(ops[0]) || !hit {
            let h = hit || is_delta(ops[0]);
            lemma_kept_tree_models(rest, h);
            let older = kept_tree_models(rest, h);
            let kr = kept_ops(rest, h).reverse();
            assert(k =~= kr.push(ops[0]));
            assert(ms.drop_last() =~= older);
            assert forall|i: int| 0 <= i < k.len() implies #[trigger] models_tree(k[i], ms[i]) by {
                if i < kr.len() {
                    assert(models_tree(kr[i], older[i]));
                }
            }
            if is_delta(ops[0]) {
                lemma_delta_covers(rest);
            }
        } else {
            lemma_kept_tree_models(rest, hit);
        }
    } else {
        assert(k =~= Seq::empty());
    }
}

/// Reconstruction matches direct application: what the chain of a tree state gives, with
/// all the shortcuts that snapshots allow, is the tree that its single updates make one
/// after the other.
pub proof fn reconstruction_matches_direct_tree(c: ChainView)
    requires
        readable(c),
        faithful_tree(ops_of(c)),
        c.len() > 0,
    ensures
        exists|ops: Seq<OperationView>, ms: Seq<TreeModel>|
            kept(c, false) == Ok::<Seq<OperationView>, ErrorView>(ops) && #[trigger] runs_tree(
                ops.reverse(),
                ms,
            ) && tree_model_text(ms) == direct_tree_text(ops_of(c)),
        holds_tree(direct_tree_text(ops_of(c)), direct_tree(ops_of(c))),
{
    let ops = ops_of(c);
    lemma_kept_ops(c, false);
    lemma_kept_tree_models(ops, false);
    lemma_direct_sorted(ops);
    assert(ops.len() == c.len());
    assert(runs_tree(kept_ops(ops, false).reverse(), kept_tree_models(ops, false)));
}

/// On a readable chain a walk gathers the tree operations since the last snapshot.
pub proof fn tree_delta_is_since(c: ChainView, gathered: Seq<TreeOpView>)
    requires
        readable(c),
        faithful_tree(ops_of(c)),
    ensures
        tree_delta(c, gathered) == Ok::<Seq<TreeOpView>, ErrorView>(
            delta_since(ops_of(c), gathered),
        ),
    decreases c.len(),
{
    if c.len() > 0 {
        let rest = c.skip(1);
        assert forall|i: int| 0 <= i < rest.len() implies (#[trigger] rest[i]) is Ok by {
            assert(rest[i] == c[i + 1]);
        }
        assert(ops_of(rest) =~= ops_of(c).skip(1));
        assert(c[0] is Ok);
        let op = ops_of(c)[0];
        assert(op == c[0]->Ok_0.update.operation);
        match tree_ops_of(op) {
            Some(steps) => tree_delta_is_since(rest, put_older(steps, gathered)),
            None => tree_delta_is_since(rest, gathered),
        }
    }
}

/// Compaction preserves the state: a full snapshot of the value leaves the value as it is.
pub proof fn compaction_preserves_value(c: ChainView, l: LinkView, v: Seq<u8>)
    requires
        value_of(c) == Ok::<Seq<u8>, ErrorView>(v),
        l.update.operation == OperationView::Snapshot(v),
    ensures
        value_of(seq![Ok::<LinkView, ErrorView>(l)] + c) == value_of(c),
{
    let more = seq![Ok::<LinkView, ErrorView>(l)] + c;
    let op = OperationView::Snapshot(v);
    assert(more[0] == Ok::<LinkView, ErrorView>(l));
    assert(kept(more, false) == Ok::<Seq<OperationView>, ErrorView>(seq![op]));
    assert(seq![op].reverse() =~= seq![op]);
    assert(seq![op].drop_last() =~= Seq::empty());
    reveal_with_fuel(crate::state::operations::applied_all, 2);
}

/// History is kept: later updates do not change what the state was at a sequence.
pub proof fn history_is_kept(newer: ChainView, c: ChainView, at: crate::types::Sequence)
    requires
        forall|i: int|
            0 <= i < newer.len() ==> (#[trigger] newer[i]) is Ok && newer[i]->Ok_0.sequence.0 > at.0,
        forall|i: int|
            0 <= i < c.len() && (#[trigger] c[i]) is Ok ==> c[i]->Ok_0.sequence.0 <= at.0,
        c.len() > 0,
    ensures
        until(newer + c, Some(at)) == c,
        crate::state::chain::value_until(newer + c, at) == (match value_of(c) {
            Ok(v) => Ok::<Option<Seq<u8>>, ErrorView>(Some(v)),
            Err(e) => Err(e),
        }),
{
    lemma_until_skips(newer, c, at);
    lemma_until_same(c, at);
}

proof fn lemma_until_skips(newer: ChainView, c: ChainView, at: crate::types::Sequence)
    requires
        forall|i: int|
            0 <= i < newer.len() ==> (#[trigger] newer[i]) is Ok && newer[i]->Ok_0.sequence.0 > at.0,
    ensures
        until(newer + c, Some(at)) == until(c, Some(at)),
    decreases newer.len(),
{
    if newer.len() == 0 {
        assert(newer + c =~= c);
    } else {
        assert((newer + c)[0] == newer[0]);
        assert((newer + c).skip(1) =~= newer.skip(1) + c);
        assert forall|i: int| 0 <= i < newer.skip(1).len() implies (#[trigger] newer.skip(1)[i]) is Ok
            && newer.skip(1)[i]->Ok_0.sequence.0 > at.0 by {
            assert(newer.skip(1)[i] == newer[i + 1]);
        }
        lemma_until_skips(newer.skip(1), c, at);
    }
}

pub proof fn lemma_until_same(c: ChainView, at: crate::types::Sequence)
    requires
        forall|i: int|
            0 <= i < c.len() && (#[trigger] c[i]) is Ok ==> c[i]->Ok_0.sequence.0 <= at.0,
    ensures
        until(c, Some(at)) == c,
    decreases c.len(),
{
    if c.len() > 0 {
        assert(c[0] is Ok ==> c[0]->Ok_0.sequence.0 <= at.0);
        assert forall|i: int| 0 <= i < c.skip(1).len() && (#[trigger] c.skip(1)[i]) is Ok implies
            c.skip(1)[i]->Ok_0.sequence.0 <= at.0 by {
            assert(c.skip(1)[i] == c[i + 1]);
        }
        lemma_until_same(c.skip(1), at);
        assert(seq![c[0]] + c.skip(1) =~= c);
    }
}

/// The part of a readable chain up to a sequence is readable.
pub proof fn lemma_until_readable(c: ChainView, at: crate::types::Sequence)
    requires
        readable(c),
    ensures
        readable(until(c, Some(at))),
    decreases c.len(),
{
    if c.len() > 0 {
        lemma_rest_readable(c);
        let rest = c.skip(1);
        lemma_until_readable(rest, at);
        let past = until(c, Some(at));
        if c[0]->Ok_0.sequence.0 <= at.0 {
            assert forall|i: int| 0 <= i < past.len() implies (#[trigger] past[i]) is Ok by {
                if i > 0 {
                    assert(past[i] == until(rest, Some(at))[i - 1]);
                }
            }
        }
    }
}

/// Whether a table gives the same updates as another at all offsets below a bound.
pub open spec fn same_below(t: TableView, t2: TableView, bound: int) -> bool {
    forall|o: u64| o < bound ==> #[trigger] update_at(t2, o) == update_at(t, o)
}

/// Updates added behind a log do not change a chain that reads.
pub proof fn chain_survives_append(
    b: Seq<u8>,
    t: TableView,
    more: Seq<u8>,
    t2: TableView,
    from: Option<u64>,
)
    requires
        same_below(t, t2, b.len() as int),
        readable(chain(b, t, from)),
    ensures
        chain(b + more, t2, from) == chain(b, t, from),
    decreases
            (match from {
                Some(off) => off + 1,
                None => 0,
            }),
{
    if let Some(off) = from {
        let c = chain(b, t, from);
        assert(c[0] is Ok);
        record_survives_append(b, more, off as int);
        lemma_readable_within(b, off as int);
        assert(update_at(t2, off) == update_at(t, off));
        let l = link_at(b, t, off)->Ok_0;
        assert(link_at(b + more, t2, off) == Ok::<LinkView, ErrorView>(l));
        match l.update.prev_update_offset {
            Some(p) if p >= off => {},
            prev => {
                let rest = chain(b, t, prev);
                assert(c =~= seq![Ok::<LinkView, ErrorView>(l)] + rest);
                assert forall|i: int| 0 <= i < rest.len() implies (#[trigger] rest[i]) is Ok by {
                    assert(rest[i] == c[i + 1]);
                }
                chain_survives_append(b, t, more, t2, prev);
            },
        }
    }
}

proof fn lemma_readable_within(b: Seq<u8>, off: int)
    requires
        record_at(b, off) is Ok,
    ensures
        off < b.len(),
{
}

/// Updates added behind a log do not change what a chain gives.
pub proof fn value_survives_append(
    b: Seq<u8>,
    t: TableView,
    more: Seq<u8>,
    t2: TableView,
    from: Option<u64>,
    hit: bool,
)
    requires
        same_below(t, t2, b.len() as int),
        kept(chain(b, t, from), hit) is Ok,
    ensures
        kept(chain(b + more, t2, from), hit) == kept(chain(b, t, from), hit),
    decreases
            (match from {
                Some(off) => off + 1,
                None => 0,
            }),
{
    if let Some(off) = from {
        let c = chain(b, t, from);
        let d = chain(b + more, t2, from);
        assert(c[0] is Ok);
        record_survives_append(b, more, off as int);
        lemma_readable_within(b, off as int);
        assert(update_at(t2, off) == update_at(t, off));
        let l = link_at(b, t, off)->Ok_0;
        assert(link_at(b + more, t2, off) == Ok::<LinkView, ErrorView>(l));
        match l.update.prev_update_offset {
            Some(p) if p >= off => {
                assert(c =~= d);
            },
            prev => {
                assert(c =~= seq![Ok::<LinkView, ErrorView>(l)] + chain(b, t, prev));
                assert(d =~= seq![Ok::<LinkView, ErrorView>(l)] + chain(b + more, t2, prev));
                assert(c.skip(1) =~= chain(b, t, prev));
                assert(d.skip(1) =~= chain(b + more, t2, prev));
                let op = l.update.operation;
                if !is_full(op) {
                    if is_delta(op) || !hit {
                        value_survives_append(b, t, more, t2, prev, hit || is_delta(op));
                    } else {
                        value_survives_append(b, t, more, t2, prev, hit);
                    }
                }
            },
        }
    }
}

} // verus!
