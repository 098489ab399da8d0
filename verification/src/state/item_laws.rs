//! Laws of operations on a value: which items and members they change, and which they leave.
use crate::error::ErrorView;
use crate::json::{array_text, json_items, json_value};
use crate::order::{text_before, text_order_total, text_order_transitive, MemberView};
use crate::state::laws::{items_after, text_after};
use crate::state::operations::{applied, applied_all, edit_out_of_bounds, items_of, items_step, member_put, redacted, ItemOp};
use crate::state::walks::{item_list, item_list_step};
use crate::tree::member_named;
use crate::types::OperationView;
use vstd::prelude::*;

verus! {

/// A redaction takes out just the items from `start` up to `end`: those before stay where
/// they are and those behind move up. So one that starts at the first item keeps exactly
/// the items from `end` on.
pub proof fn redaction_takes_out_a_range(
    state: Seq<u8>,
    items: Seq<Seq<u8>>,
    start: usize,
    end: usize,
    left: Seq<Seq<u8>>,
)
    requires
        items_of(state) == Ok::<Seq<Seq<u8>>, ErrorView>(items),
        start < end <= items.len(),
        left.len() == items.len() - (end - start),
        forall|i: int| 0 <= i < start ==> #[trigger] left[i] == items[i],
        forall|i: int| start <= i < left.len() ==> #[trigger] left[i] == items[i + (end - start)],
    ensures
        redacted(items, start as nat, end as nat) == left,
        applied(state, OperationView::Redact { start, end }) == Ok::<Seq<u8>, ErrorView>(
            array_text(left),
        ),
        items_after(items, OperationView::Redact { start, end }) == left,
        text_after(items, OperationView::Redact { start, end }) == array_text(left),
        items_step(items, ItemOp::Redact { start, end }) == left,
        item_list_step(items, OperationView::Redact { start, end }) == Ok::<
            Seq<Seq<u8>>,
            ErrorView,
        >(left),
{
    assert(redacted(items, start as nat, end as nat) =~= left);
}

/// A redaction beyond the last item leaves just the items before its start.
pub proof fn redaction_ends_with_the_items(
    state: Seq<u8>,
    items: Seq<Seq<u8>>,
    start: usize,
    end: usize,
    left: Seq<Seq<u8>>,
)
    requires
        items_of(state) == Ok::<Seq<Seq<u8>>, ErrorView>(items),
        start < items.len() <= end,
        left.len() == start,
        forall|i: int| 0 <= i < start ==> #[trigger] left[i] == items[i],
    ensures
        redacted(items, start as nat, end as nat) == left,
        applied(state, OperationView::Redact { start, end }) == Ok::<Seq<u8>, ErrorView>(
            array_text(left),
        ),
        items_after(items, OperationView::Redact { start, end }) == left,
        text_after(items, OperationView::Redact { start, end }) == array_text(left),
        items_step(items, ItemOp::Redact { start, end }) == left,
        item_list_step(items, OperationView::Redact { start, end }) == Ok::<
            Seq<Seq<u8>>,
            ErrorView,
        >(left),
{
    assert(redacted(items, start as nat, end as nat) =~= left);
}

/// A redaction of no items leaves all of them.
pub proof fn empty_redaction_changes_nothing(
    state: Seq<u8>,
    items: Seq<Seq<u8>>,
    start: usize,
    end: usize,
)
    requires
        items_of(state) == Ok::<Seq<Seq<u8>>, ErrorView>(items),
        end <= start || items.len() <= start,
    ensures
        redacted(items, start as nat, end as nat) == items,
        applied(state, OperationView::Redact { start, end }) == Ok::<Seq<u8>, ErrorView>(
            array_text(items),
        ),
        items_after(items, OperationView::Redact { start, end }) == items,
        text_after(items, OperationView::Redact { start, end }) == array_text(items),
        items_step(items, ItemOp::Redact { start, end }) == items,
        item_list_step(items, OperationView::Redact { start, end }) == Ok::<
            Seq<Seq<u8>>,
            ErrorView,
        >(items),
{
}

/// An append puts the item behind all others, which stay where they are.
pub proof fn append_puts_the_item_last(
    state: Seq<u8>,
    items: Seq<Seq<u8>>,
    value: Seq<u8>,
    item: Seq<u8>,
    longer: Seq<Seq<u8>>,
)
    requires
        items_of(state) == Ok::<Seq<Seq<u8>>, ErrorView>(items),
        json_value(value) == Ok::<Seq<u8>, Seq<char>>(item),
        longer.len() == items.len() + 1,
        longer[items.len() as int] == item,
        forall|i: int| 0 <= i < items.len() ==> #[trigger] longer[i] == items[i],
    ensures
        applied(state, OperationView::Append(value)) == Ok::<Seq<u8>, ErrorView>(
            array_text(longer),
        ),
        items_after(items, OperationView::Append(value)) == longer,
        text_after(items, OperationView::Append(value)) == array_text(longer),
        items_step(items, ItemOp::Append(item)) == longer,
        item_list_step(items, OperationView::Append(value)) == Ok::<Seq<Seq<u8>>, ErrorView>(
            longer,
        ),
{
    assert(items.push(item) =~= longer);
}

/// An edit replaces the item at its index and leaves every other item as it is.
pub proof fn edit_replaces_one_item(
    state: Seq<u8>,
    items: Seq<Seq<u8>>,
    index: usize,
    value: Seq<u8>,
    item: Seq<u8>,
    edited: Seq<Seq<u8>>,
)
    requires
        items_of(state) == Ok::<Seq<Seq<u8>>, ErrorView>(items),
        json_value(value) == Ok::<Seq<u8>, Seq<char>>(item),
        index < items.len(),
        edited.len() == items.len(),
        edited[index as int] == item,
        forall|i: int| 0 <= i < items.len() && i != index ==> #[trigger] edited[i] == items[i],
    ensures
        applied(state, OperationView::Edit { index, new_value: value }) == Ok::<
            Seq<u8>,
            ErrorView,
        >(array_text(edited)),
        items_after(items, OperationView::Edit { index, new_value: value }) == edited,
        text_after(items, OperationView::Edit { index, new_value: value }) == array_text(edited),
        items_step(items, ItemOp::Edit { index, value: item }) == edited,
        item_list_step(items, OperationView::Edit { index, new_value: value }) == Ok::<
            Seq<Seq<u8>>,
            ErrorView,
        >(edited),
{
    assert(items.update(index as int, item) =~= edited);
}

/// An edit beyond the last item is refused, with the index and the number of items.
pub proof fn edit_beyond_the_items_is_refused(
    state: Seq<u8>,
    items: Seq<Seq<u8>>,
    index: usize,
    value: Seq<u8>,
)
    requires
        items_of(state) == Ok::<Seq<Seq<u8>>, ErrorView>(items),
        index >= items.len(),
    ensures
        applied(state, OperationView::Edit { index, new_value: value }) == Err::<
            Seq<u8>,
            ErrorView,
        >(edit_out_of_bounds(index, items.len())),
        applied(state, OperationView::Edit { index, new_value: value }) matches Err(
            ErrorView::InvalidOperation(_),
        ),
        items_after(items, OperationView::Edit { index, new_value: value }) == items,
{
}

/// A delta snapshot adds its items, in order, behind those before it.
pub proof fn delta_adds_its_items(
    state: Seq<u8>,
    items: Seq<Seq<u8>>,
    data: Seq<u8>,
    more: Seq<Seq<u8>>,
    longer: Seq<Seq<u8>>,
)
    requires
        items_of(state) == Ok::<Seq<Seq<u8>>, ErrorView>(items),
        json_items(data) == Ok::<Seq<Seq<u8>>, Seq<char>>(more),
        longer.len() == items.len() + more.len(),
        forall|i: int| 0 <= i < items.len() ==> #[trigger] longer[i] == items[i],
        forall|i: int|
            items.len() <= i < longer.len() ==> #[trigger] longer[i] == more[i - items.len()],
    ensures
        applied(state, OperationView::DeltaSnapshot(data)) == Ok::<Seq<u8>, ErrorView>(
            array_text(longer),
        ),
        items_step(items, ItemOp::More(more)) == longer,
        item_list_step(items, OperationView::DeltaSnapshot(data)) == Ok::<
            Seq<Seq<u8>>,
            ErrorView,
        >(longer),
{
    assert(items + more =~= longer);
}

/// What is set, or kept in a full snapshot, is the value whatever stood there before.
pub proof fn set_value_replaces_all(
    state: Seq<u8>,
    old_hash: Seq<u8>,
    value: Seq<u8>,
)
    ensures
        applied(state, OperationView::SetValue(value)) == Ok::<Seq<u8>, ErrorView>(value),
        applied(state, OperationView::Snapshot(value)) == Ok::<Seq<u8>, ErrorView>(value),
        applied(state, OperationView::Delta { old_hash, new_value: value }) == Ok::<
            Seq<u8>,
            ErrorView,
        >(value),
{
}

/// What operations make is what the last of them makes of what those before it made; none
/// leave the value as it is. What fails stays failed.
pub proof fn operations_apply_in_order(
    state: Seq<u8>,
    ops: Seq<OperationView>,
    op: OperationView,
    value: Seq<u8>,
)
    ensures
        applied_all(state, Seq::empty()) == Ok::<Seq<u8>, ErrorView>(state),
        applied_all(state, ops) == Ok::<Seq<u8>, ErrorView>(value) ==> applied_all(
            state,
            ops.push(op),
        ) == applied(value, op),
        applied_all(state, ops) matches Err(e) ==> applied_all(state, ops.push(op)) == Err::<
            Seq<u8>,
            ErrorView,
        >(e),
        item_list(Seq::empty()) == Ok::<Seq<Seq<u8>>, ErrorView>(Seq::empty()),
        item_list(ops) matches Ok(items) ==> item_list(ops.push(op)) == item_list_step(items, op),
        item_list(ops) matches Err(e) ==> item_list(ops.push(op)) == Err::<
            Seq<Seq<u8>>,
            ErrorView,
        >(e),
{
    assert(ops.push(op).drop_last() =~= ops);
}

/// Whether members stand in the order of their names, none twice.
pub open spec fn members_sorted(ms: Seq<MemberView>) -> bool {
    forall|i: int, j: int|
        0 <= i < j < ms.len() ==> text_before((#[trigger] ms[i]).0, (#[trigger] ms[j]).0)
}

proof fn lemma_named_from_front(ms: Seq<MemberView>, name: Seq<char>)
    requires
        members_sorted(ms),
        ms.len() > 0,
    ensures
        member_named(ms, name) == (if ms[0].0 == name {
            Some(ms[0].1)
        } else {
            member_named(ms.skip(1), name)
        }),
        members_sorted(ms.skip(1)),
    decreases ms.len(),
{
    let rest = ms.skip(1);
    assert forall|i: int, j: int| 0 <= i < j < rest.len() implies text_before(
        (#[trigger] rest[i]).0,
        (#[trigger] rest[j]).0,
    ) by {
        assert(rest[i] == ms[i + 1] && rest[j] == ms[j + 1]);
    }
    if ms.len() > 1 {
        let init = ms.drop_last();
        assert(members_sorted(init)) by {
            assert forall|i: int, j: int| 0 <= i < j < init.len() implies text_before(
                (#[trigger] init[i]).0,
                (#[trigger] init[j]).0,
            ) by {
                assert(init[i] == ms[i] && init[j] == ms[j]);
            }
        }
        lemma_named_from_front(init, name);
        assert(init.skip(1) =~= rest.drop_last());
        assert(rest.last() == ms.last());
        assert(ms.last() == ms[ms.len() - 1]);
        assert(text_before(ms[0].0, ms[ms.len() - 1].0));
        text_order_total(ms[0].0, ms.last().0);
    } else {
        assert(ms.drop_last() =~= Seq::empty());
        assert(rest =~= Seq::empty());
    }
}

proof fn lemma_named_among(ms: Seq<MemberView>, name: Seq<char>)
    ensures
        member_named(ms, name) is Some ==> exists|i: int|
            0 <= i < ms.len() && (#[trigger] ms[i]).0 == name,
    decreases ms.len(),
{
    if ms.len() > 0 {
        lemma_named_among(ms.drop_last(), name);
        assert(ms[ms.len() - 1] == ms.last());
        if ms.last().0 != name && member_named(ms, name) is Some {
            let i = choose|i: int|
                0 <= i < ms.drop_last().len() && (#[trigger] ms.drop_last()[i]).0 == name;
            assert(ms[i].0 == name);
        }
    }
}

/// A member that is put is found under its name, every other member stays as it was, and
/// the members stay in order.
pub proof fn put_member_is_found(
    ms: Seq<MemberView>,
    name: Seq<char>,
    value: Seq<u8>,
    other: Seq<char>,
)
    requires
        members_sorted(ms),
    ensures
        member_named(member_put(ms, name, value), name) == Some(value),
        other != name ==> member_named(member_put(ms, name, value), other) == member_named(
            ms,
            other,
        ),
        members_sorted(member_put(ms, name, value)),
        member_put(ms, name, value).len() == ms.len() + (if member_named(ms, name) is Some {
            0int
        } else {
            1
        }),
        forall|i: int|
            0 <= i < member_put(ms, name, value).len() ==> (#[trigger] member_put(
                ms,
                name,
                value,
            )[i]).0 == name || exists|j: int|
                0 <= j < ms.len() && (#[trigger] ms[j]).0 == member_put(ms, name, value)[i].0,
    decreases ms.len(),
{
    let put = member_put(ms, name, value);
    if ms.len() == 0 {
        assert(put.drop_last() =~= Seq::empty());
        assert(ms =~= Seq::empty());
    } else {
        let rest = ms.skip(1);
        lemma_named_from_front(ms, name);
        lemma_named_from_front(ms, other);
        text_order_total(name, ms[0].0);
        assert(forall|i: int| 0 <= i < rest.len() ==> #[trigger] rest[i] == ms[i + 1]);
        if ms[0].0 == name {
            assert forall|i: int, j: int| 0 <= i < j < put.len() implies text_before(
                (#[trigger] put[i]).0,
                (#[trigger] put[j]).0,
            ) by {
                assert(put[i].0 == ms[i].0 && put[j].0 == ms[j].0);
            }
            assert(put.skip(1) =~= rest);
            lemma_named_from_front(put, name);
            lemma_named_from_front(put, other);
            assert forall|i: int| 0 <= i < put.len() implies (#[trigger] put[i]).0 == name || exists|
                j: int,
            |
                0 <= j < ms.len() && (#[trigger] ms[j]).0 == put[i].0 by {
                assert(ms[i].0 == put[i].0);
            }
        } else if text_before(name, ms[0].0) {
            assert forall|i: int, j: int| 0 <= i < j < put.len() implies text_before(
                (#[trigger] put[i]).0,
                (#[trigger] put[j]).0,
            ) by {
                assert(put[j] == ms[j - 1]);
                if i > 0 {
                    assert(put[i] == ms[i - 1]);
                } else if j > 1 {
                    text_order_transitive(name, ms[0].0, ms[j - 1].0);
                }
            }
            assert(put.skip(1) =~= ms);
            lemma_named_from_front(put, name);
            lemma_named_from_front(put, other);
            if member_named(ms, name) is Some {
                lemma_named_among(ms, name);
                let i = choose|i: int| 0 <= i < ms.len() && (#[trigger] ms[i]).0 == name;
                if i > 0 {
                    assert(text_before(ms[0].0, ms[i].0));
                }
                assert(false);
            }
            assert forall|i: int| 0 <= i < put.len() implies (#[trigger] put[i]).0 == name || exists|
                j: int,
            |
                0 <= j < ms.len() && (#[trigger] ms[j]).0 == put[i].0 by {
                if i > 0 {
                    assert(ms[i - 1].0 == put[i].0);
                }
            }
        } else {
            put_member_is_found(rest, name, value, other);
            let tail = member_put(rest, name, value);
            assert(put.skip(1) =~= tail);
            assert forall|i: int| 0 <= i < tail.len() implies text_before(
                ms[0].0,
                (#[trigger] tail[i]).0,
            ) by {
                if tail[i].0 != name {
                    let j = choose|j: int|
                        0 <= j < rest.len() && (#[trigger] rest[j]).0 == tail[i].0;
                    assert(rest[j] == ms[j + 1]);
                    assert(text_before(ms[0].0, ms[j + 1].0));
                }
            }
            assert forall|i: int, j: int| 0 <= i < j < put.len() implies text_before(
                (#[trigger] put[i]).0,
                (#[trigger] put[j]).0,
            ) by {
                assert(put[j] == tail[j - 1]);
                if i > 0 {
                    assert(put[i] == tail[i - 1]);
                }
            }
            lemma_named_from_front(put, name);
            lemma_named_from_front(put, other);
            assert forall|i: int| 0 <= i < put.len() implies (#[trigger] put[i]).0 == name || exists|
                j: int,
            |
                0 <= j < ms.len() && (#[trigger] ms[j]).0 == put[i].0 by {
                if i > 0 {
                    assert(put[i] == tail[i - 1]);
                    if tail[i - 1].0 != name {
                        let j = choose|j: int|
                            0 <= j < rest.len() && (#[trigger] rest[j]).0 == tail[i - 1].0;
                        assert(ms[j + 1].0 == put[i].0);
                    }
                } else {
                    assert(ms[0].0 == put[0].0);
                }
            }
        }
    }
}

/// A walk over the items passes over an edit beyond them.
pub proof fn walk_passes_over_missing_items(items: Seq<Seq<u8>>, index: usize, value: Seq<u8>)
    requires
        index >= items.len(),
    ensures
        item_list_step(items, OperationView::Edit { index, new_value: value }) == Ok::<
            Seq<Seq<u8>>,
            ErrorView,
        >(items),
        items_step(items, ItemOp::Edit { index, value }) == items,
{
}

/// What does not read as JSON is refused: a value that is no array cannot be appended to,
/// edited or redacted, and an item that is no JSON is neither appended nor put in place of
/// another.
pub proof fn unreadable_values_are_refused(
    state: Seq<u8>,
    items: Seq<Seq<u8>>,
    value: Seq<u8>,
    index: usize,
    end: usize,
    e: Seq<char>,
)
    ensures
        items_of(state) matches Err(x) ==> {
            &&& applied(state, OperationView::Append(value)) == Err::<Seq<u8>, ErrorView>(x)
            &&& applied(state, OperationView::Edit { index, new_value: value }) == Err::<
                Seq<u8>,
                ErrorView,
            >(x)
            &&& applied(state, OperationView::Redact { start: index, end }) == Err::<
                Seq<u8>,
                ErrorView,
            >(x)
        },
        items_of(state) == Ok::<Seq<Seq<u8>>, ErrorView>(items) && json_value(value) == Err::<
            Seq<u8>,
            Seq<char>,
        >(e) ==> {
            &&& applied(state, OperationView::Append(value)) == Err::<Seq<u8>, ErrorView>(
                ErrorView::Deserialization(e),
            )
            &&& index < items.len() ==> applied(
                state,
                OperationView::Edit { index, new_value: value },
            ) == Err::<Seq<u8>, ErrorView>(ErrorView::Deserialization(e))
        },
{
}

} // verus!
