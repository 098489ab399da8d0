//! Laws of subscriptions: who is sent what, and in which order it is taken.
use crate::json::{array_text, json_items, json_value};
use crate::subscriptions::manager::{each_hears_what_it_wants, lemma_place, lemma_place_update, place_of, SubscribersView, SubscriptionView};
use crate::subscriptions::snapshot::{is_part, length_from, SnapshotPart};
use crate::subscriptions::types::{branch_summary, summary_of, wants, BranchSummaryView, DropReason, EventView, FilterView, SubscriptionId, SummaryView};
use crate::types::{BranchView, RecordView, Sequence};
use vstd::prelude::*;

verus! {

/// A filter lets records through by their type, state changes by the state, and branch
/// events by the branch, each kind only where it is asked for; a filter that names none
/// lets all through. That a subscriber has caught up, or was dropped, it is told in any case.
pub proof fn filters_go_by_kind_and_name(
    f: FilterView,
    record: SummaryView,
    snapshot: EventView,
    delta: EventView,
    created: BranchSummaryView,
    name: Seq<char>,
    head: Sequence,
    reason: DropReason,
)
    requires
        snapshot is StateSnapshot,
        delta is StateDelta,
    ensures
        wants(f, EventView::Record { record }) <==> f.include_records && (f.record_types is None
            || f.record_types->0.contains(record.record_type)),
        wants(f, snapshot) <==> f.include_state_changes && (f.state_ids is None
            || f.state_ids->0.contains(snapshot->StateSnapshot_state_id)),
        wants(f, delta) <==> f.include_state_changes && (f.state_ids is None
            || f.state_ids->0.contains(delta->StateDelta_state_id)),
        wants(f, EventView::BranchHead { branch: name, head }) <==> f.include_branch_events && (
        f.branch is None || f.branch->0 == name),
        wants(f, EventView::BranchCreated { branch: created }) <==> f.include_branch_events && (
        f.branch is None || f.branch->0 == created.name),
        wants(f, EventView::BranchDeleted { name }) <==> f.include_branch_events && (f.branch is None
            || f.branch->0 == name),
        wants(f, EventView::CaughtUp),
        wants(f, EventView::Dropped { reason }),
{
}

/// An event waits, behind those that wait already, for a subscriber who is live, wants it
/// and has room.
pub proof fn event_reaches_who_wants_it(
    s: SubscribersView,
    id: SubscriptionId,
    x: SubscriptionView,
    e: EventView,
)
    requires
        s.wf(),
        s.get(id) == Some(x),
    ensures
        x.caught_up && wants(x.config.filter, e) && x.queue.len() < x.config.buffer_size
            ==> s.broadcast(e).get(id) == Some(
            SubscriptionView { queue: x.queue.push(e), ..x },
        ),
        x.caught_up && wants(x.config.filter, e) && x.queue.len() >= x.config.buffer_size
            ==> s.broadcast(e).get(id) is None,
        !x.caught_up || !wants(x.config.filter, e) ==> s.broadcast(e).get(id) == Some(x),
{
    each_hears_what_it_wants(s, id, e);
}

/// A subscriber is found by its id, and what is found has it.
pub proof fn subscribers_are_found(s: SubscribersView, id: SubscriptionId, x: SubscriptionView)
    requires
        s.wf(),
    ensures
        s.get(id) == Some(x) <==> s.list.contains(x) && x.id == id,
        s.get(id) is None <==> forall|i: int| 0 <= i < s.list.len() ==> (#[trigger] s.list[i]).id != id,
{
    lemma_place(s.list, id);
    if s.list.contains(x) && x.id == id {
        let i = choose|i: int| 0 <= i < s.list.len() && s.list[i] == x;
        let k = place_of(s.list, id)->0;
        if i != k {
            assert(s.list[i].id == s.list[k].id);
            if i < k {
                assert(s.list[i].id != s.list[k].id);
            } else {
                assert(s.list[k].id != s.list[i].id);
            }
        }
    }
}

/// Events are taken in the order in which they came, and only from the subscriber who takes
/// them.
pub proof fn events_are_taken_in_order(
    s: SubscribersView,
    id: SubscriptionId,
    x: SubscriptionView,
    other: SubscriptionId,
)
    requires
        s.get(id) == Some(x),
    ensures
        x.queue.len() > 0 ==> s.taken(id).get(id) == Some(
            SubscriptionView { queue: x.queue.subrange(1, x.queue.len() as int), ..x },
        ),
        x.queue.len() == 0 ==> s.taken(id) == s,
        other != id ==> s.taken(id).get(other) == s.get(other),
{
    lemma_place(s.list, id);
    lemma_place(s.list, other);
    if x.queue.len() > 0 {
        let i = place_of(s.list, id)->0;
        let next = SubscriptionView { queue: x.queue.skip(1), ..x };
        lemma_place_update(s.list, i, next, id);
        lemma_place_update(s.list, i, next, other);
        assert(x.queue.skip(1) =~= x.queue.subrange(1, x.queue.len() as int));
    }
}

/// An event that is sent to one subscriber waits for it behind the others, if there is room,
/// and reaches nobody else.
pub proof fn sent_event_waits_for_one(
    s: SubscribersView,
    id: SubscriptionId,
    x: SubscriptionView,
    e: EventView,
    other: SubscriptionId,
)
    requires
        s.get(id) == Some(x),
        x.queue.len() < x.config.buffer_size,
    ensures
        s.sent(id, e).get(id) == Some(SubscriptionView { queue: x.queue.push(e), ..x }),
        other != id ==> s.sent(id, e).get(other) == s.get(other),
        s.live(id).get(id) == Some(
            SubscriptionView { queue: x.queue.push(EventView::CaughtUp), caught_up: true, ..x },
        ),
        other != id ==> s.live(id).get(other) == s.get(other),
{
    lemma_place(s.list, id);
    lemma_place(s.list, other);
    let i = place_of(s.list, id)->0;
    let next = x.given(e);
    lemma_place_update(s.list, i, next, id);
    lemma_place_update(s.list, i, next, other);
    let told = x.given(EventView::CaughtUp);
    lemma_place_update(s.list, i, told, id);
    lemma_place_update(s.list, i, told, other);
    let list = s.list.update(i, told);
    let up = SubscriptionView { caught_up: true, ..told };
    lemma_place_update(list, i, up, id);
    lemma_place_update(list, i, up, other);
}

/// A record is summed up with all its fields; its payload is left out only beyond the
/// threshold.
pub proof fn summaries_keep_fields(r: RecordView, threshold: nat, b: BranchView, parent: Option<Seq<char>>)
    ensures
        ({
            let x = summary_of(r, threshold);
            &&& x.id == r.id
            &&& x.sequence == r.sequence
            &&& x.branch == r.branch
            &&& x.record_type == r.record_type
            &&& x.timestamp == r.timestamp
            &&& x.payload_size == r.payload.len()
            &&& x.caused_by == r.caused_by
            &&& x.linked_to == r.linked_to
            &&& r.payload.len() <= threshold ==> x.payload == Some(r.payload)
            &&& r.payload.len() > threshold ==> x.payload is None
        }),
        ({
            let x = branch_summary(b, parent);
            x.id == b.id && x.name == b.name && x.head == b.head && x.parent == parent
        }),
{
}

/// The length of the items from an index on is that of each of them together.
pub proof fn lemma_length(items: Seq<Seq<u8>>, at: int)
    requires
        0 <= at <= items.len(),
    ensures
        length_from(items, at) == items.skip(at).fold_left(
            0nat,
            |n: nat, item: Seq<u8>| n + item.len(),
        ),
{
    lemma_fold_sums(items.skip(at));
    lemma_length_sums(items, at);
}

/// The total length of texts.
spec fn total(items: Seq<Seq<u8>>) -> nat
    decreases items.len(),
{
    if items.len() == 0 {
        0
    } else {
        total(items.drop_last()) + items.last().len()
    }
}

proof fn lemma_fold_sums(items: Seq<Seq<u8>>)
    ensures
        items.fold_left(0nat, |n: nat, item: Seq<u8>| n + item.len()) == total(items),
    decreases items.len(),
{
    reveal(Seq::fold_left);
    if items.len() > 0 {
        lemma_fold_sums(items.drop_last());
    }
}

proof fn lemma_total_front(items: Seq<Seq<u8>>)
    requires
        items.len() > 0,
    ensures
        total(items) == items[0].len() + total(items.skip(1)),
    decreases items.len(),
{
    if items.len() > 1 {
        lemma_total_front(items.drop_last());
        assert(items.drop_last().skip(1) =~= items.skip(1).drop_last());
        assert(items.skip(1).last() == items.last());
    } else {
        reveal_with_fuel(total, 2);
        assert(items.drop_last() =~= Seq::empty());
        assert(items.skip(1) =~= Seq::empty());
    }
}

proof fn lemma_length_sums(items: Seq<Seq<u8>>, at: int)
    requires
        0 <= at <= items.len(),
    ensures
        length_from(items, at) == total(items.skip(at)),
    decreases items.len() - at,
{
    if at < items.len() {
        lemma_length_sums(items, at + 1);
        lemma_total_front(items.skip(at));
        assert(items.skip(at).skip(1) =~= items.skip(at + 1));
    }
}

/// A value that is not larger than the limit is sent whole. Of a larger array the last items
/// are sent, in order: as many as fit into the limit, and not one more would.
pub proof fn large_arrays_are_cut_at_the_front(
    data: Seq<u8>,
    limit: nat,
    part: SnapshotPart,
    items: Seq<Seq<u8>>,
)
    requires
        is_part(data, limit, part),
    ensures
        data.len() <= limit && json_value(data) is Ok ==> part.data@ == json_value(data)->Ok_0
            && !part.truncated,
        data.len() > limit && json_items(data) == Ok::<Seq<Seq<u8>>, Seq<char>>(items) ==> {
            &&& part.truncated
            &&& part.total_length matches Some(n) && n == items.len()
            &&& part.from_index matches Some(at) && at <= items.len() && part.data@ == array_text(
                items.subrange(at as int, items.len() as int),
            ) && items.subrange(at as int, items.len() as int).fold_left(
                0nat,
                |n: nat, item: Seq<u8>| n + item.len(),
            ) <= limit && (at > 0 ==> items.subrange(at - 1, items.len() as int).fold_left(
                0nat,
                |n: nat, item: Seq<u8>| n + item.len(),
            ) > limit)
        },
{
    if data.len() > limit && json_items(data) == Ok::<Seq<Seq<u8>>, Seq<char>>(items) {
        let at = part.from_index->0 as int;
        assert(items.skip(at) =~= items.subrange(at, items.len() as int));
        lemma_length(items, at);
        if at > 0 {
            lemma_length(items, at - 1);
            assert(items.skip(at - 1) =~= items.subrange(at - 1, items.len() as int));
        }
    }
}

} // verus!
