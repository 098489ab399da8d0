//! What the operations of a state chain do to a state's value.
use crate::error::{ErrorView, StoreError};
use crate::json::{all_plain, array_text, json_items, json_members, json_value, member_views, object_text, parse_items, parse_members, parse_value, plain, plain_depth, texts, write_array, write_object};
use crate::order::{sorts_before, text_before, MemberView};
use crate::text::{decimal, decimal_string, joined, same_text};
use crate::tree::{member_named, tree_of, tree_sorted, tree_step, tree_steps, tree_steps_sorted, tree_text, unreadable, TreeState, TreeView};
use crate::types::{views, OperationView, StateOperation, TreeOpView};
use vstd::prelude::*;
use vstd::string::*;

verus! {

/// The items of an array state; a state without a value has none.
pub open spec fn items_of(state: Seq<u8>) -> Result<Seq<Seq<u8>>, ErrorView> {
    if state.len() == 0 {
        Ok(Seq::empty())
    } else {
        match json_items(state) {
            Ok(items) => Ok(items),
            Err(e) => Err(unreadable(e)),
        }
    }
}

/// The tree of a tree state; a state without a value has no files.
pub open spec fn tree_value(state: Seq<u8>) -> Result<TreeView, ErrorView> {
    if state.len() == 0 {
        Ok(Seq::empty())
    } else {
        tree_of(state)
    }
}

/// The members of a structure state; a state without a value has none.
pub open spec fn members_of(state: Seq<u8>) -> Result<Seq<MemberView>, ErrorView> {
    if state.len() == 0 {
        Ok(Seq::empty())
    } else {
        match json_members(state) {
            Ok(ms) => Ok(ms),
            Err(e) => Err(unreadable(e)),
        }
    }
}

/// The items without those from `start` to `end`; what lies beyond the items is ignored.
pub open spec fn redacted(items: Seq<Seq<u8>>, start: nat, end: nat) -> Seq<Seq<u8>> {
    let from = if start < items.len() { start as int } else { items.len() as int };
    let to = if end < items.len() { end as int } else { items.len() as int };
    if from < to {
        items.take(from) + items.skip(to)
    } else {
        items
    }
}

/// The error for an edit beyond the items.
pub open spec fn edit_out_of_bounds(index: usize, len: nat) -> ErrorView {
    ErrorView::InvalidOperation(
        "Edit index "@ + decimal(index as nat) + " out of bounds (len="@ + decimal(len) + ")"@,
    )
}

/// The members with a value set under a name.
pub open spec fn member_put(ms: Seq<MemberView>, name: Seq<char>, value: Seq<u8>) -> Seq<MemberView>
    decreases ms.len(),
{
    if ms.len() == 0 {
        seq![(name, value)]
    } else if ms[0].0 == name {
        seq![(name, value)] + ms.skip(1)
    } else if text_before(name, ms[0].0) {
        seq![(name, value)] + ms
    } else {
        seq![ms[0]] + member_put(ms.skip(1), name, value)
    }
}

/// The tree operations that an operation consists of.
pub open spec fn tree_ops_of(op: OperationView) -> Option<Seq<TreeOpView>> {
    match op {
        OperationView::TreeSet { path, entry } => Some(
            seq![TreeOpView::SetEntry { path, entry }],
        ),
        OperationView::TreeRemove { path } => Some(seq![TreeOpView::Remove { path }]),
        OperationView::TreeBatch { ops } => Some(ops),
        OperationView::TreeDeltaSnapshot(ops) => Some(ops),
        _ => None,
    }
}

/// The value of a state after an operation.
pub open spec fn applied(state: Seq<u8>, op: OperationView) -> Result<Seq<u8>, ErrorView>
    decreases op,
{
    match op {
        OperationView::SetValue(v) => Ok(v),
        OperationView::Snapshot(v) => Ok(v),
        OperationView::Delta { new_value, .. } => Ok(new_value),
        OperationView::Append(v) => match (items_of(state), json_value(v)) {
            (Err(e), _) => Err(e),
            (_, Err(e)) => Err(unreadable(e)),
            (Ok(items), Ok(item)) => Ok(array_text(items.push(item))),
        },
        OperationView::Redact { start, end } => match items_of(state) {
            Err(e) => Err(e),
            Ok(items) => Ok(array_text(redacted(items, start as nat, end as nat))),
        },
        OperationView::Edit { index, new_value } => match (items_of(state), json_value(new_value)) {
            (Err(e), _) => Err(e),
            (Ok(items), value) => if index >= items.len() {
                Err(edit_out_of_bounds(index, items.len()))
            } else {
                match value {
                    Err(e) => Err(unreadable(e)),
                    Ok(item) => Ok(array_text(items.update(index as int, item))),
                }
            },
        },
        OperationView::DeltaSnapshot(data) => match (items_of(state), json_items(data)) {
            (Err(e), _) => Err(e),
            (_, Err(e)) => Err(unreadable(e)),
            (Ok(items), Ok(more)) => Ok(array_text(items + more)),
        },
        OperationView::Field { name, operation } => match members_of(state) {
            Err(e) => Err(e),
            Ok(ms) => match applied(
                (match member_named(ms, name) {
                    Some(t) => t,
                    None => Seq::empty(),
                }),
                *operation,
            ) {
                Err(e) => Err(e),
                Ok(value) => match json_value(value) {
                    Err(e) => Err(unreadable(e)),
                    Ok(t) => Ok(object_text(member_put(ms, name, t))),
                },
            },
        },
        _ => match tree_value(state) {
            Err(e) => Err(e),
            Ok(t) => Ok(tree_text(tree_steps(t, tree_ops_of(op)->0))),
        },
    }
}

/// The value after operations, in order.
pub open spec fn applied_all(state: Seq<u8>, ops: Seq<OperationView>) -> Result<Seq<u8>, ErrorView>
    decreases ops.len(),
{
    if ops.len() == 0 {
        Ok(state)
    } else {
        match applied_all(state, ops.drop_last()) {
            Err(e) => Err(e),
            Ok(v) => applied(v, ops.last()),
        }
    }
}

/// What an operation does to the items of an array state.
pub enum ItemOp {
    Append(Seq<u8>),
    Redact { start: usize, end: usize },
    Edit { index: usize, value: Seq<u8> },
    /// The whole value: its text, and the items that it holds.
    Full { text: Seq<u8>, items: Seq<Seq<u8>> },
    /// Items added since the snapshot before.
    More(Seq<Seq<u8>>),
}

/// The value that an operation puts in place of what was there before; a snapshot puts there
/// what is there already.
pub open spec fn whole_value(op: OperationView) -> Option<Seq<u8>> {
    match op {
        OperationView::SetValue(v) => Some(v),
        OperationView::Delta { new_value, .. } => Some(new_value),
        _ => None,
    }
}

/// The compact text of an item that is given as JSON.
pub open spec fn item_text(v: Seq<u8>) -> Seq<u8> {
    json_value(v)->Ok_0
}

/// Whether an item is given as JSON that holds no fraction.
pub open spec fn is_item(v: Seq<u8>) -> bool {
    json_value(v) is Ok && plain(item_text(v), plain_depth())
}

/// Whether a text is that of an array with these plain items.
pub open spec fn reads_items(text: Seq<u8>, items: Seq<Seq<u8>>) -> bool {
    &&& all_plain(items)
    &&& text == array_text(items) || (text.len() > 0 && json_items(text) == Ok::<
        Seq<Seq<u8>>,
        Seq<char>,
    >(items))
}

/// Whether `m` is what `op` does to the items of an array state.
pub open spec fn models(op: OperationView, m: ItemOp) -> bool {
    match (op, m) {
        (OperationView::Append(v), ItemOp::Append(t)) => is_item(v) && t == item_text(v),
        (OperationView::Redact { start, end }, ItemOp::Redact { start: s, end: e }) => start == s
            && end == e,
        (OperationView::Edit { index, new_value }, ItemOp::Edit { index: i, value }) => index == i
            && is_item(new_value) && value == item_text(new_value),
        (OperationView::DeltaSnapshot(v), ItemOp::More(items)) => v == array_text(items)
            && all_plain(items),
        (_, ItemOp::Full { text, items }) => (op == OperationView::Snapshot(text) || whole_value(op)
            == Some(text)) && reads_items(text, items),
        _ => false,
    }
}

/// The items after an operation.
pub open spec fn items_step(items: Seq<Seq<u8>>, m: ItemOp) -> Seq<Seq<u8>> {
    match m {
        ItemOp::Append(t) => items.push(t),
        ItemOp::Redact { start, end } => redacted(items, start as nat, end as nat),
        ItemOp::Edit { index, value } => if index < items.len() {
            items.update(index as int, value)
        } else {
            items
        },
        ItemOp::Full { items: x, .. } => x,
        ItemOp::More(x) => items + x,
    }
}

/// The text of the items after an operation.
pub open spec fn step_text(items: Seq<Seq<u8>>, m: ItemOp) -> Seq<u8> {
    match m {
        ItemOp::Full { text, .. } => text,
        _ => array_text(items_step(items, m)),
    }
}

/// Whether an operation applies to the items: an edit needs the item it replaces.
pub open spec fn items_allow(items: Seq<Seq<u8>>, m: ItemOp) -> bool {
    match m {
        ItemOp::Edit { index, .. } => index < items.len(),
        _ => true,
    }
}

/// Whether a state holds these items.
pub open spec fn holds_items(state: Seq<u8>, items: Seq<Seq<u8>>) -> bool {
    reads_items(state, items) || (state.len() == 0 && items.len() == 0)
}

/// Whether a state holds this tree.
pub open spec fn holds_tree(state: Seq<u8>, t: TreeView) -> bool {
    &&& tree_sorted(t)
    &&& state == tree_text(t) || tree_value(state) == Ok::<TreeView, ErrorView>(t)
}

/// Whether a value reads as a tree.
pub open spec fn reads_tree(v: Seq<u8>) -> bool {
    tree_value(v) matches Ok(t) && tree_sorted(t)
}

/// Plain items stay plain.
pub proof fn lemma_items_step_plain(items: Seq<Seq<u8>>, op: OperationView, m: ItemOp)
    requires
        all_plain(items),
        models(op, m),
    ensures
        all_plain(items_step(items, m)),
{
    let r = items_step(items, m);
    assert forall|i: int| 0 <= i < r.len() implies plain(#[trigger] r[i], plain_depth()) by {
        match m {
            ItemOp::Append(t) => {
                if i < items.len() {
                    assert(r[i] == items[i]);
                }
            },
            ItemOp::Redact { start, end } => {
                let from = if start < items.len() { start as int } else { items.len() as int };
                let to = if end < items.len() { end as int } else { items.len() as int };
                if from < to {
                    if i < from {
                        assert(r[i] == items[i]);
                    } else {
                        assert(r[i] == items[i - from + to]);
                    }
                }
            },
            ItemOp::Edit { index, value } => {
                if i != index {
                    assert(r[i] == items[i]);
                }
            },
            ItemOp::Full { text, items: x } => {},
            ItemOp::More(x) => {
                if i < items.len() {
                    assert(r[i] == items[i]);
                } else {
                    assert(r[i] == x[i - items.len()]);
                }
            },
        }
    }
}

pub(crate) fn read_items(state: &Vec<u8>) -> (r: Result<Vec<Vec<u8>>, StoreError>)
    ensures
        match r {
            Ok(v) => items_of(state@) == Ok::<Seq<Seq<u8>>, ErrorView>(texts(v@)),
            Err(e) => items_of(state@) == Err::<Seq<Seq<u8>>, ErrorView>(e@),
        },
        forall|items: Seq<Seq<u8>>| #[trigger]
            holds_items(state@, items) ==> r is Ok && texts(r->Ok_0@) == items,
{
    if state.len() == 0 {
        let none: Vec<Vec<u8>> = Vec::new();
        assert(texts(none@) =~= Seq::empty());
        proof {
            assert forall|items: Seq<Seq<u8>>| #[trigger] holds_items(state@, items) implies texts(
                none@,
            ) == items by {
                assert(array_text(items).len() > 0);
                assert(items =~= Seq::empty());
            }
        }
        return Ok(none);
    }
    match parse_items(state.as_slice()) {
        Ok(v) => Ok(v),
        Err(e) => Err(StoreError::Deserialization(e)),
    }
}

/// The tree that a state holds.
pub fn read_tree(state: &Vec<u8>) -> (r: Result<TreeState, StoreError>)
    ensures
        match r {
            Ok(t) => tree_value(state@) == Ok::<TreeView, ErrorView>(t@) && tree_sorted(t@),
            Err(e) => tree_value(state@) == Err::<TreeView, ErrorView>(e@),
        },
        forall|t: TreeView| #[trigger] holds_tree(state@, t) ==> r is Ok && r->Ok_0@ == t,
{
    if state.len() == 0 {
        proof {
            assert forall|t: TreeView| #[trigger] holds_tree(state@, t) implies t
                == TreeView::empty() by {
                assert(tree_text(t).len() > 0);
                assert(t =~= TreeView::empty());
            }
        }
        return Ok(TreeState::new());
    }
    TreeState::from_json(state.as_slice())
}

fn read_members(state: &Vec<u8>) -> (r: Result<Vec<(String, Vec<u8>)>, StoreError>)
    ensures
        match r {
            Ok(v) => members_of(state@) == Ok::<Seq<MemberView>, ErrorView>(member_views(v@)),
            Err(e) => members_of(state@) == Err::<Seq<MemberView>, ErrorView>(e@),
        },
{
    if state.len() == 0 {
        let none: Vec<(String, Vec<u8>)> = Vec::new();
        assert(member_views(none@) =~= Seq::empty());
        return Ok(none);
    }
    match parse_members(state.as_slice()) {
        Ok(v) => Ok(v),
        Err(e) => Err(StoreError::Deserialization(e)),
    }
}

pub(crate) fn read_value(data: &Vec<u8>) -> (r: Result<Vec<u8>, StoreError>)
    ensures
        match r {
            Ok(v) => json_value(data@) == Ok::<Seq<u8>, Seq<char>>(v@),
            Err(e) => json_value(data@) is Err && e@ == unreadable(json_value(data@)->Err_0),
        },
        plain(data@, plain_depth()) ==> r is Ok && r->Ok_0@ == data@,
{
    match parse_value(data.as_slice()) {
        Ok(v) => Ok(v),
        Err(e) => Err(StoreError::Deserialization(e)),
    }
}

/// Removes the items from `start` to `end`.
pub(crate) fn redact_items(items: &mut Vec<Vec<u8>>, start: usize, end: usize)
    ensures
        texts(final(items)@) == redacted(texts(old(items)@), start as nat, end as nat),
{
    let n: usize = items.len();
    let from: usize = if start < n {
        start
    } else {
        n
    };
    let to: usize = if end < n {
        end
    } else {
        n
    };
    let ghost all = texts(items@);
    if from < to {
        let mut tail = items.split_off(to);
        items.truncate(from);
        items.append(&mut tail);
        assert(texts(items@) =~= all.take(from as int) + all.skip(to as int));
    }
}

fn put_member(ms: &mut Vec<(String, Vec<u8>)>, name: &str, value: Vec<u8>)
    ensures
        member_views(final(ms)@) == member_put(member_views(old(ms)@), name@, value@),
{
    let ghost all = member_views(ms@);
    let mut i: usize = 0;
    assert(all.skip(0) =~= all);
    assert(all.take(0) + member_put(all, name@, value@) =~= member_put(all, name@, value@));
    while i < ms.len() && !same_text(ms[i].0.as_str(), name) && !sorts_before(
        name,
        ms[i].0.as_str(),
    )
        invariant
            i <= ms@.len(),
            all == member_views(ms@),
            member_put(all, name@, value@) == all.take(i as int) + member_put(
                all.skip(i as int),
                name@,
                value@,
            ),
        decreases ms@.len() - i,
    {
        proof {
            let rest = all.skip(i as int);
            assert(rest[0] == all[i as int]);
            assert(rest.skip(1) =~= all.skip(i + 1));
            assert(all.take(i + 1) =~= all.take(i as int).push(all[i as int]));
            assert(all.take(i as int) + (seq![rest[0]] + member_put(all.skip(i + 1), name@, value@))
                =~= all.take(i + 1) + member_put(all.skip(i + 1), name@, value@));
        }
        i += 1;
    }
    let ghost rest = all.skip(i as int);
    let ghost put = (name@, value@);
    let item = (name.to_owned(), value);
    if i < ms.len() && same_text(ms[i].0.as_str(), name) {
        assert(rest[0] == all[i as int]);
        ms.set(i, item);
        assert(member_views(ms@) =~= all.update(i as int, put));
        assert(all.update(i as int, put) =~= all.take(i as int) + (seq![put] + rest.skip(1)));
    } else {
        if i < ms.len() {
            assert(rest[0] == all[i as int]);
        }
        ms.insert(i, item);
        assert(member_views(ms@) =~= all.insert(i as int, put));
        proof {
            if i < all.len() {
                assert(all.insert(i as int, put) =~= all.take(i as int) + (seq![put] + rest));
            } else {
                assert(all.insert(i as int, put) =~= all.take(i as int) + seq![put]);
            }
        }
    }
}

fn find_value(ms: &Vec<(String, Vec<u8>)>, name: &str) -> (r: Vec<u8>)
    ensures
        r@ == (match member_named(member_views(ms@), name@) {
            Some(t) => t,
            None => Seq::empty(),
        }),
{
    let ghost all = member_views(ms@);
    let mut i: usize = ms.len();
    assert(all.take(i as int) =~= all);
    while i > 0
        invariant
            i <= ms@.len(),
            all == member_views(ms@),
            member_named(all, name@) == member_named(all.take(i as int), name@),
        decreases i,
    {
        assert(all.take(i as int).drop_last() =~= all.take(i - 1));
        if same_text(ms[i - 1].0.as_str(), name) {
            return crate::bytes::copied(&ms[i - 1].1);
        }
        i -= 1;
    }
    Vec::new()
}

/// Applies an operation to the value of a state.
///
/// An array of plain items becomes the array of the items after the operation, and the
/// text of a tree becomes the text of the tree after it.
pub fn apply_operation(state: Vec<u8>, op: StateOperation) -> (r: Result<Vec<u8>, StoreError>)
    ensures
        match r {
            Ok(v) => applied(state@, op@) == Ok::<Seq<u8>, ErrorView>(v@),
            Err(e) => applied(state@, op@) == Err::<Seq<u8>, ErrorView>(e@),
        },
        forall|items: Seq<Seq<u8>>, m: ItemOp|
            #![trigger holds_items(state@, items), models(op@, m)]
            holds_items(state@, items) && models(op@, m) && items_allow(items, m) ==> r is Ok
                && r->Ok_0@ == step_text(items, m),
        forall|t: TreeView| #[trigger]
            holds_tree(state@, t) && tree_ops_of(op@) is Some ==> r is Ok && r->Ok_0@ == tree_text(
                tree_steps(t, tree_ops_of(op@)->0),
            ),
    decreases op,
{
    match op {
        StateOperation::SetValue(v) => Ok(v),
        StateOperation::Snapshot(v) => Ok(v),
        StateOperation::Delta { old_hash, new_value } => Ok(new_value),
        StateOperation::Append(v) => {
            let mut items = match read_items(&state) {
                Ok(items) => items,
                Err(e) => return Err(e),
            };
            let item = match read_value(&v) {
                Ok(item) => item,
                Err(e) => return Err(e),
            };
            let ghost before = texts(items@);
            let ghost t = item@;
            items.push(item);
            assert(texts(items@) =~= before.push(t));
            Ok(write_array(&items))
        },
        StateOperation::Redact { start, end } => {
            let mut items = match read_items(&state) {
                Ok(items) => items,
                Err(e) => return Err(e),
            };
            redact_items(&mut items, start, end);
            Ok(write_array(&items))
        },
        StateOperation::Edit { index, new_value } => {
            let mut items = match read_items(&state) {
                Ok(items) => items,
                Err(e) => return Err(e),
            };
            if index >= items.len() {
                return Err(out_of_bounds(index, items.len()));
            }
            let item = match read_value(&new_value) {
                Ok(item) => item,
                Err(e) => return Err(e),
            };
            let ghost before = texts(items@);
            let ghost t = item@;
            items.set(index, item);
            assert(texts(items@) =~= before.update(index as int, t));
            Ok(write_array(&items))
        },
        StateOperation::DeltaSnapshot(data) => {
            let mut items = match read_items(&state) {
                Ok(items) => items,
                Err(e) => return Err(e),
            };
            let mut more = match parse_items(data.as_slice()) {
                Ok(more) => more,
                Err(e) => return Err(StoreError::Deserialization(e)),
            };
            let ghost a = texts(items@);
            let ghost b = texts(more@);
            items.append(&mut more);
            assert(texts(items@) =~= a + b);
            Ok(write_array(&items))
        },
        StateOperation::TreeSet { path, entry } => {
            let mut tree = match read_tree(&state) {
                Ok(t) => t,
                Err(e) => return Err(e),
            };
            let ghost before = tree@;
            let ghost one = TreeOpView::SetEntry { path: path@, entry: entry@ };
            tree.set(path, entry);
            proof {
                lemma_one_step(before, one);
            }
            Ok(tree.to_json())
        },
        StateOperation::TreeRemove { path } => {
            let mut tree = match read_tree(&state) {
                Ok(t) => t,
                Err(e) => return Err(e),
            };
            let ghost before = tree@;
            tree.remove(path.as_str());
            proof {
                lemma_one_step(before, TreeOpView::Remove { path: path@ });
            }
            Ok(tree.to_json())
        },
        StateOperation::TreeBatch { ops } => {
            let mut tree = match read_tree(&state) {
                Ok(t) => t,
                Err(e) => return Err(e),
            };
            tree.steps(&ops);
            Ok(tree.to_json())
        },
        StateOperation::TreeDeltaSnapshot(ops) => {
            let mut tree = match read_tree(&state) {
                Ok(t) => t,
                Err(e) => return Err(e),
            };
            tree.steps(&ops);
            Ok(tree.to_json())
        },
        StateOperation::Field { name, operation } => {
            let mut ms = match read_members(&state) {
                Ok(ms) => ms,
                Err(e) => return Err(e),
            };
            let current = find_value(&ms, name.as_str());
            let value = match apply_operation(current, *operation) {
                Ok(v) => v,
                Err(e) => return Err(e),
            };
            let text = match read_value(&value) {
                Ok(t) => t,
                Err(e) => return Err(e),
            };
            put_member(&mut ms, name.as_str(), text);
            Ok(write_object(&ms))
        },
    }
}

proof fn lemma_one_step(t: TreeView, op: TreeOpView)
    ensures
        tree_steps(t, seq![op]) == tree_step(t, op),
{
    assert(seq![op].drop_last() =~= Seq::empty());
    assert(tree_steps(t, seq![op].drop_last()) == t);
}

/// The error for an edit beyond the items.
pub fn out_of_bounds(index: usize, len: usize) -> (e: StoreError)
    ensures
        e@ == edit_out_of_bounds(index, len as nat),
{
    let mut text = joined("Edit index ", decimal_string(index as u64).as_str());
    text.append(" out of bounds (len=");
    text.append(decimal_string(len as u64).as_str());
    text.append(")");
    StoreError::InvalidOperation(text)
}

/// Applies operations in order, starting from a state without a value.
///
/// Where the operations act on plain items, or on a tree, the outcome is the text of what
/// they make of them.
pub fn apply_all(ops: &Vec<StateOperation>) -> (r: Result<Vec<u8>, StoreError>)
    ensures
        match r {
            Ok(v) => applied_all(Seq::empty(), views(ops@)) == Ok::<Seq<u8>, ErrorView>(v@),
            Err(e) => applied_all(Seq::empty(), views(ops@)) == Err::<Seq<u8>, ErrorView>(e@),
        },
        forall|ms: Seq<ItemOp>| #[trigger]
            runs(views(ops@), ms) ==> r is Ok && r->Ok_0@ == items_text(ms),
        forall|ms: Seq<TreeModel>| #[trigger]
            runs_tree(views(ops@), ms) ==> r is Ok && r->Ok_0@ == tree_model_text(ms),
{
    let ghost all = views(ops@);
    let mut state: Vec<u8> = Vec::new();
    let mut i: usize = 0;
    assert(all.take(0) =~= Seq::empty());
    assert(state@ =~= Seq::<u8>::empty());
    while i < ops.len()
        invariant
            i <= ops@.len(),
            all == views(ops@),
            applied_all(Seq::empty(), all.take(i as int)) == Ok::<Seq<u8>, ErrorView>(state@),
            forall|ms: Seq<ItemOp>| #[trigger]
                runs(all, ms) ==> state@ == items_text(ms.take(i as int)),
            forall|ms: Seq<TreeModel>| #[trigger]
                runs_tree(all, ms) ==> state@ == tree_model_text(ms.take(i as int)),
        decreases ops@.len() - i,
    {
        let op = ops[i].clone();
        let ghost before = state@;
        proof {
            assert(all.take(i + 1).drop_last() =~= all.take(i as int));
            assert(all.take(i + 1).last() == op@);
            lemma_applied_stop(all, i + 1);
        }
        let next = apply_operation(state, op);
        proof {
            assert forall|ms: Seq<ItemOp>| #[trigger] runs(all, ms) implies next is Ok
                && next->Ok_0@ == items_text(ms.take(i + 1)) by {
                let items = run_items(ms.take(i as int));
                assert(models(all[i as int], ms[i as int]));
                assert(ms.take(i + 1).drop_last() =~= ms.take(i as int));
                lemma_run_held(all, ms, i as int);
                assert(holds_items(before, items));
                assert(items_allow(items, ms[i as int]));
            }
            assert forall|ms: Seq<TreeModel>| #[trigger] runs_tree(all, ms) implies next is Ok
                && next->Ok_0@ == tree_model_text(ms.take(i + 1)) by {
                assert(models_tree(all[i as int], ms[i as int]));
                assert(ms.take(i + 1).drop_last() =~= ms.take(i as int));
                lemma_run_holds(all, ms, i as int);
                assert(holds_tree(before, run_trees(ms.take(i as int))));
            }
        }
        match next {
            Ok(v) => {
                state = v;
            },
            Err(e) => {
                return Err(e);
            },
        }
        i += 1;
    }
    proof {
        assert(all.take(i as int) =~= all);
        assert forall|ms: Seq<ItemOp>| #[trigger] runs(all, ms) implies state@ == items_text(
            ms,
        ) by {
            assert(ms.take(i as int) =~= ms);
        }
        assert forall|ms: Seq<TreeModel>| #[trigger] runs_tree(all, ms) implies state@
            == tree_model_text(ms) by {
            assert(ms.take(i as int) =~= ms);
        }
    }
    Ok(state)
}

/// The items after operations on items, from none.
pub open spec fn run_items(ms: Seq<ItemOp>) -> Seq<Seq<u8>>
    decreases ms.len(),
{
    if ms.len() == 0 {
        Seq::empty()
    } else {
        items_step(run_items(ms.drop_last()), ms.last())
    }
}

/// The value after operations on items: nothing before the first.
pub open spec fn items_text(ms: Seq<ItemOp>) -> Seq<u8> {
    if ms.len() == 0 {
        Seq::empty()
    } else {
        step_text(run_items(ms.drop_last()), ms.last())
    }
}

/// Whether `ms` is what the operations do to items, each where it applies.
pub open spec fn runs(ops: Seq<OperationView>, ms: Seq<ItemOp>) -> bool {
    &&& ops.len() == ms.len()
    &&& forall|i: int| 0 <= i < ops.len() ==> #[trigger] models(ops[i], ms[i])
    &&& forall|i: int|
        0 <= i < ms.len() ==> items_allow(run_items(#[trigger] ms.take(i)), ms[i])
}

proof fn lemma_run_held(ops: Seq<OperationView>, ms: Seq<ItemOp>, n: int)
    requires
        runs(ops, ms),
        0 <= n <= ms.len(),
    ensures
        all_plain(run_items(ms.take(n))),
        holds_items(items_text(ms.take(n)), run_items(ms.take(n))),
    decreases n,
{
    if n > 0 {
        lemma_run_held(ops, ms, n - 1);
        assert(ms.take(n).drop_last() =~= ms.take(n - 1));
        assert(models(ops[n - 1], ms[n - 1]));
        lemma_items_step_plain(run_items(ms.take(n - 1)), ops[n - 1], ms[n - 1]);
    }
}

/// What an operation does to a tree.
pub enum TreeModel {
    Steps(Seq<TreeOpView>),
    /// The whole tree, with its text.
    Full { text: Seq<u8>, tree: TreeView },
}

/// Whether `m` is what `op` does to a tree.
pub open spec fn models_tree(op: OperationView, m: TreeModel) -> bool {
    match m {
        TreeModel::Steps(ops) => tree_ops_of(op) == Some(ops),
        TreeModel::Full { text, tree } => holds_tree(text, tree) && (op == OperationView::Snapshot(
            text,
        ) || whole_value(op) == Some(text)),
    }
}

/// The tree after operations on trees, from the empty tree.
pub open spec fn run_trees(ms: Seq<TreeModel>) -> TreeView
    decreases ms.len(),
{
    if ms.len() == 0 {
        Seq::empty()
    } else {
        match ms.last() {
            TreeModel::Steps(ops) => tree_steps(run_trees(ms.drop_last()), ops),
            TreeModel::Full { tree, .. } => tree,
        }
    }
}

/// The value after operations on trees: nothing before the first.
pub open spec fn tree_model_text(ms: Seq<TreeModel>) -> Seq<u8> {
    if ms.len() == 0 {
        Seq::empty()
    } else {
        match ms.last() {
            TreeModel::Steps(_) => tree_text(run_trees(ms)),
            TreeModel::Full { text, .. } => text,
        }
    }
}

/// Whether `ms` is what the operations do to trees.
pub open spec fn runs_tree(ops: Seq<OperationView>, ms: Seq<TreeModel>) -> bool {
    &&& ops.len() == ms.len()
    &&& forall|i: int| 0 <= i < ops.len() ==> #[trigger] models_tree(ops[i], ms[i])
}

proof fn lemma_run_holds(ops: Seq<OperationView>, ms: Seq<TreeModel>, n: int)
    requires
        runs_tree(ops, ms),
        0 <= n <= ms.len(),
    ensures
        holds_tree(tree_model_text(ms.take(n)), run_trees(ms.take(n))),
    decreases n,
{
    if n > 0 {
        lemma_run_holds(ops, ms, n - 1);
        assert(ms.take(n).drop_last() =~= ms.take(n - 1));
        assert(models_tree(ops[n - 1], ms[n - 1]));
        if let TreeModel::Steps(steps) = ms[n - 1] {
            tree_steps_sorted(run_trees(ms.take(n - 1)), steps);
        }
    }
}

proof fn lemma_applied_stop(ops: Seq<OperationView>, n: int)
    requires
        0 <= n <= ops.len(),
    ensures
        applied_all(Seq::empty(), ops.take(n)) is Err ==> applied_all(Seq::empty(), ops)
            == applied_all(Seq::empty(), ops.take(n)),
    decreases ops.len() - n,
{
    if n < ops.len() {
        lemma_applied_stop(ops, n + 1);
        assert(ops.take(n + 1).drop_last() =~= ops.take(n));
    } else {
        assert(ops.take(n) =~= ops);
    }
}

} // verus!
