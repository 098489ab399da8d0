//! Laws of catch-up: what is sent to a subscriber before it goes live.
use crate::error::ErrorView;
use crate::records::log::records_from;
use crate::store::catch_up::{catch_up_events, caught_up, record_events, sent_in_turn, snapshot_event, snapshot_events, starting_value, wanted_states, EventList};
use crate::store::model::{state_value, state_value_at};
use crate::store::records::start_of;
use crate::store::StoreView;
use crate::subscriptions::manager::{place_of, SubscribersView, SubscriptionView};
use crate::subscriptions::types::{EventView, SubscriptionId};
use crate::types::{BranchId, RecordView, Sequence};
use vstd::prelude::*;

verus! {

proof fn lemma_place(list: Seq<SubscriptionView>, id: SubscriptionId, x: SubscriptionView)
    requires
        place_of(list, id) is Some,
        x.id == id,
    ensures
        0 <= place_of(list, id)->0 < list.len(),
        list[place_of(list, id)->0].id == id,
        place_of(list.update(place_of(list, id)->0, x), id) == place_of(list, id),
    decreases list.len(),
{
    let i = place_of(list, id)->0;
    if list.last().id != id {
        lemma_place(list.drop_last(), id, x);
        assert(list.drop_last()[i] == list[i]);
        assert(list.update(i, x).drop_last() =~= list.drop_last().update(i, x));
        assert(list.update(i, x).last() == list.last());
    } else {
        assert(list.update(i, x).last() == x);
    }
}

proof fn lemma_sent(subs: SubscribersView, id: SubscriptionId, s: SubscriptionView, e: EventView)
    requires
        subs.get(id) == Some(s),
        s.has_room(),
    ensures
        subs.sent(id, e).get(id) == Some(SubscriptionView { queue: s.queue.push(e), ..s }),
{
    lemma_place(subs.list, id, SubscriptionView { id, ..s });
    lemma_place(subs.list, id, s.given(e));
}

proof fn lemma_sent_in_turn(
    subs: SubscribersView,
    id: SubscriptionId,
    list: EventList,
    s: SubscriptionView,
    events: Seq<EventView>,
)
    requires
        subs.get(id) == Some(s),
        sent_in_turn(subs, id, list).1 is None,
        events.len() == list.len(),
        forall|i: int|
            0 <= i < list.len() && #[trigger] list[i] is Ok ==> events[i] == list[i]->Ok_0,
    ensures
        forall|i: int| 0 <= i < list.len() ==> #[trigger] list[i] is Ok,
        sent_in_turn(subs, id, list).0.get(id) == Some(
            SubscriptionView { queue: s.queue + events, ..s },
        ),
    decreases list.len(),
{
    if list.len() == 0 {
        assert(s.queue + events =~= s.queue);
    } else {
        let event = list[0]->Ok_0;
        assert(list[0] is Ok);
        lemma_sent(subs, id, s, event);
        let next = SubscriptionView { queue: s.queue.push(event), ..s };
        let rest = list.skip(1);
        assert forall|i: int| 0 <= i < rest.len() && #[trigger] rest[i] is Ok implies events.skip(
            1,
        )[i] == rest[i]->Ok_0 by {
            assert(rest[i] == list[i + 1]);
            assert(list[i + 1] is Ok);
        }
        lemma_sent_in_turn(subs.sent(id, event), id, rest, next, events.skip(1));
        assert(next.queue + events.skip(1) =~= s.queue + events);
        assert forall|i: int| 0 <= i < list.len() implies #[trigger] list[i] is Ok by {
            if i > 0 {
                assert(rest[i - 1] is Ok);
            }
        }
    }
}

proof fn lemma_filter_front<A>(items: Seq<A>, p: spec_fn(A) -> bool)
    requires
        items.len() > 0,
    ensures
        items.filter(p) == (if p(items[0]) {
            seq![items[0]] + items.skip(1).filter(p)
        } else {
            items.skip(1).filter(p)
        }),
{
    let head = seq![items[0]];
    assert(items =~= head + items.skip(1));
    Seq::filter_distributes_over_add(head, items.skip(1), p);
    reveal(Seq::filter);
    assert(head.drop_last() =~= Seq::empty());
    assert(head.drop_last().filter(p) =~= Seq::empty());
    assert(head.filter(p) =~= (if p(items[0]) {
        head
    } else {
        Seq::empty()
    }));
    assert(items.filter(p) =~= (if p(items[0]) {
        seq![items[0]] + items.skip(1).filter(p)
    } else {
        items.skip(1).filter(p)
    }));
}

proof fn lemma_snapshots(
    s: StoreView,
    ids: Seq<Seq<char>>,
    from: Sequence,
    limit: nat,
    p: spec_fn(Seq<char>) -> bool,
)
    requires
        forall|i: int|
            0 <= i < snapshot_events(s, ids, from, limit).len() ==> (#[trigger] snapshot_events(
                s,
                ids,
                from,
                limit,
            )[i]) is Ok,
        forall|x: Seq<char>| #[trigger] p(x) == (starting_value(s, x, from) matches Ok(Some(_))),
    ensures
        ({
            let list = snapshot_events(s, ids, from, limit);
            let valued = ids.filter(p);
            &&& list.len() == valued.len()
            &&& forall|i: int|
                0 <= i < list.len() ==> (starting_value(s, valued[i], from) matches Ok(
                    Some((v, q)),
                ) && #[trigger] list[i] == Ok::<EventView, ErrorView>(
                    snapshot_event(valued[i], v, q, limit),
                ))
        }),
        forall|k: int| 0 <= k < ids.len() ==> starting_value(s, #[trigger] ids[k], from) is Ok,
    decreases ids.len(),
{
    let list = snapshot_events(s, ids, from, limit);
    if ids.len() == 0 {
        reveal(Seq::filter);
        assert(ids.filter(p).len() == 0);
    } else {
        lemma_filter_front(ids, p);
        let rest = snapshot_events(s, ids.skip(1), from, limit);
        let valued = ids.filter(p);
        assert(p(ids[0]) == (starting_value(s, ids[0], from) matches Ok(Some(_))));
        if starting_value(s, ids[0], from) is Err {
            assert(list[0] is Err);
            assert(false);
        }
        assert forall|i: int| 0 <= i < rest.len() implies (#[trigger] rest[i]) is Ok by {
            if p(ids[0]) {
                assert(list[i + 1] == rest[i]);
            } else {
                assert(list[i] == rest[i]);
            }
        }
        lemma_snapshots(s, ids.skip(1), from, limit, p);
        assert forall|k: int| 0 <= k < ids.len() implies starting_value(
            s,
            #[trigger] ids[k],
            from,
        ) is Ok by {
            if k > 0 {
                assert(ids.skip(1)[k - 1] == ids[k]);
            }
        }
        assert forall|i: int| 0 <= i < list.len() implies (starting_value(
            s,
            valued[i],
            from,
        ) matches Ok(Some((v, q))) && #[trigger] list[i] == Ok::<EventView, ErrorView>(
            snapshot_event(valued[i], v, q, limit),
        )) by {
            if p(ids[0]) {
                if i > 0 {
                    assert(list[i] == rest[i - 1]);
                    assert(valued[i] == ids.skip(1).filter(p)[i - 1]);
                }
            } else {
                assert(list[i] == rest[i]);
            }
        }
    }
}

proof fn lemma_records(
    records: Seq<Result<(u64, RecordView), ErrorView>>,
    branch: BranchId,
    from: Sequence,
    types: Option<Seq<Seq<char>>>,
    p: spec_fn(Result<(u64, RecordView), ErrorView>) -> bool,
)
    requires
        forall|i: int|
            0 <= i < record_events(records, branch, from, types).len() ==> (
            #[trigger] record_events(records, branch, from, types)[i]) is Ok,
        forall|x: Result<(u64, RecordView), ErrorView>| #[trigger]
            p(x) == (x matches Ok((_, r)) && r.branch == branch && from.0 <= r.sequence.0 && (
            types is None || types->0.contains(r.record_type))),
    ensures
        ({
            let list = record_events(records, branch, from, types);
            let chosen = records.filter(p);
            &&& list.len() == chosen.len()
            &&& forall|i: int|
                0 <= i < list.len() ==> (chosen[i] matches Ok((_, r)) && (#[trigger] list[i] matches Ok(
                    EventView::Record { record },
                ) && record.id == r.id && record.sequence == r.sequence && record.branch == r.branch
                    && record.record_type == r.record_type && record.timestamp == r.timestamp
                    && record.payload_size == r.payload.len() && record.caused_by == r.caused_by
                    && record.linked_to == r.linked_to && (record.payload matches Some(x) ==> x
                    == r.payload)))
        }),
        forall|i: int| 0 <= i < records.len() ==> (#[trigger] records[i]) is Ok,
    decreases records.len(),
{
    let list = record_events(records, branch, from, types);
    if records.len() == 0 {
        reveal(Seq::filter);
        assert(records.filter(p).len() == 0);
    } else {
        lemma_filter_front(records, p);
        let rest = record_events(records.skip(1), branch, from, types);
        let chosen = records.filter(p);
        let keep = p(records[0]);
        if records[0] is Err {
            assert(list[0] is Err);
            assert(false);
        }
        assert forall|i: int| 0 <= i < rest.len() implies (#[trigger] rest[i]) is Ok by {
            if keep {
                assert(list[i + 1] == rest[i]);
            } else {
                assert(list[i] == rest[i]);
            }
        }
        lemma_records(records.skip(1), branch, from, types, p);
        assert forall|i: int| 0 <= i < records.len() implies (#[trigger] records[i]) is Ok by {
            if i > 0 {
                assert(records.skip(1)[i - 1] is Ok);
            }
        }
        assert forall|i: int| 0 <= i < list.len() implies (chosen[i] matches Ok((_, r)) && (
        #[trigger] list[i] matches Ok(EventView::Record { record }) && record.id == r.id
            && record.sequence == r.sequence && record.branch == r.branch && record.record_type
            == r.record_type && record.timestamp == r.timestamp && record.payload_size
            == r.payload.len() && record.caused_by == r.caused_by && record.linked_to
            == r.linked_to && (record.payload matches Some(x) ==> x == r.payload))) by {
            if keep {
                if i > 0 {
                    assert(list[i] == rest[i - 1]);
                    assert(chosen[i] == records.skip(1).filter(p)[i - 1]);
                }
            } else {
                assert(list[i] == rest[i]);
            }
        }
    }
}

proof fn lemma_live(subs: SubscribersView, id: SubscriptionId, s: SubscriptionView)
    requires
        subs.get(id) == Some(s),
        s.has_room(),
    ensures
        subs.live(id).get(id) == Some(
            SubscriptionView { queue: s.queue.push(EventView::CaughtUp), caught_up: true, ..s },
        ),
{
    lemma_sent(subs, id, s, EventView::CaughtUp);
    lemma_place(subs.list, id, SubscriptionView { id, ..s });
    let next = subs.sent(id, EventView::CaughtUp);
    let now = next.get(id)->0;
    lemma_place(next.list, id, SubscriptionView { caught_up: true, ..now });
}

/// A subscriber that catches up from a sequence is sent, behind what waits for it already,
/// first a snapshot of every state it asks for that has a value, in order, then every record
/// of the current branch from that sequence on that is of one of its types, then that it has
/// caught up. The states it asks for are those it lists, or all that are registered if it
/// lists none. Of a state it is sent the value at that sequence, or the current one if there
/// was none then. All of these states and records then read.
pub proof fn catch_up_sends_the_past(
    s: StoreView,
    id: SubscriptionId,
    sub: SubscriptionView,
    from: Sequence,
    ids: Seq<Seq<char>>,
) -> (r: (Seq<EventView>, Seq<EventView>))
    requires
        s.subscribers.get(id) == Some(sub),
        sub.config.from_sequence == Some(from),
        caught_up(s, id).1 is None,
        match sub.config.filter.state_ids {
            Some(l) => ids == l,
            None => ids.len() == s.states.strategies.len() && forall|k: int|
                0 <= k < ids.len() ==> #[trigger] ids[k] == s.states.strategies[k].0,
        },
    ensures
        caught_up(s, id).0.get(id) == Some(
            SubscriptionView {
                queue: sub.queue + r.0 + r.1 + seq![EventView::CaughtUp],
                caught_up: true,
                ..sub
            },
        ),
        !sub.config.filter.include_state_changes ==> r.0.len() == 0,
        sub.config.filter.include_state_changes ==> ({
            let b = s.branches.current_branch()->0;
            let valued = ids.filter(
                |x: Seq<char>|
                    match state_value_at(s, b.id, x, from) {
                        Ok(Some(_)) => true,
                        Ok(None) => state_value(s, b.id, x) matches Ok(Some(_)),
                        Err(_) => false,
                    },
            );
            &&& r.0.len() == valued.len()
            &&& forall|i: int|
                0 <= i < valued.len() ==> (#[trigger] r.0[i] matches EventView::StateSnapshot {
                    state_id,
                    sequence,
                    total_bytes,
                    ..
                } && state_id == valued[i] && (match state_value_at(s, b.id, valued[i], from) {
                    Ok(Some(v)) => sequence == from && total_bytes == v.len(),
                    _ => sequence == b.head && total_bytes == state_value(
                        s,
                        b.id,
                        valued[i],
                    )->Ok_0->0.len(),
                }))
        }),
        sub.config.filter.include_state_changes ==> forall|k: int|
            0 <= k < ids.len() ==> match state_value_at(
                s,
                s.branches.current_branch()->0.id,
                #[trigger] ids[k],
                from,
            ) {
                Ok(Some(_)) => true,
                Ok(None) => state_value(s, s.branches.current_branch()->0.id, ids[k]) is Ok,
                Err(_) => false,
            },
        sub.config.filter.include_records ==> forall|i: int|
            0 <= i < records_from(s.log.bytes, start_of(s, from) as int).len() ==> (
            #[trigger] records_from(s.log.bytes, start_of(s, from) as int)[i]) is Ok,
        !sub.config.filter.include_records ==> r.1.len() == 0,
        sub.config.filter.include_records ==> ({
            let b = s.branches.current_branch()->0;
            let types = sub.config.filter.record_types;
            let chosen = records_from(s.log.bytes, start_of(s, from) as int).filter(
                |x: Result<(u64, RecordView), ErrorView>|
                    x matches Ok((_, r)) && r.branch == b.id && from.0 <= r.sequence.0 && (
                    types is None || types->0.contains(r.record_type)),
            );
            &&& r.1.len() == chosen.len()
            &&& forall|i: int|
                0 <= i < chosen.len() ==> (chosen[i] matches Ok((_, x)) && (
                #[trigger] r.1[i] matches EventView::Record { record } && record.id == x.id
                    && record.sequence == x.sequence && record.branch == x.branch
                    && record.record_type == x.record_type && record.timestamp == x.timestamp
                    && record.payload_size == x.payload.len() && record.caused_by == x.caused_by
                    && record.linked_to == x.linked_to && (record.payload matches Some(y) ==> y
                    == x.payload)))
        }),
{
    let f = sub.config.filter;
    let limit = sub.config.max_snapshot_bytes as nat;
    let b = s.branches.current_branch()->0;
    let types = f.record_types;
    assert(wanted_states(s, f) =~= ids);
    let snapshots = if f.include_state_changes {
        snapshot_events(s, ids, from, limit)
    } else {
        Seq::empty()
    };
    let all = records_from(s.log.bytes, start_of(s, from) as int);
    let records = if f.include_records {
        record_events(all, b.id, from, types)
    } else {
        Seq::empty()
    };
    let list = catch_up_events(s, sub.config, from);
    assert(list == snapshots + records);
    let first = Seq::new(snapshots.len(), |i: int| snapshots[i]->Ok_0);
    let second = Seq::new(records.len(), |i: int| records[i]->Ok_0);
    lemma_sent_in_turn(s.subscribers, id, list, sub, first + second);
    let told = sent_in_turn(s.subscribers, id, list).0;
    let x = told.get(id)->0;
    lemma_live(told, id, x);
    assert(x.queue.push(EventView::CaughtUp) =~= sub.queue + first + second + seq![
        EventView::CaughtUp,
    ]);
    assert forall|i: int| 0 <= i < snapshots.len() implies #[trigger] snapshots[i] is Ok by {
        assert(list[i] == snapshots[i]);
    }
    assert forall|i: int| 0 <= i < records.len() implies #[trigger] records[i] is Ok by {
        assert(list[snapshots.len() + i] == records[i]);
    }
    if f.include_state_changes {
        let p = |x: Seq<char>|
            match state_value_at(s, b.id, x, from) {
                Ok(Some(_)) => true,
                Ok(None) => state_value(s, b.id, x) matches Ok(Some(_)),
                Err(_) => false,
            };
        lemma_snapshots(s, ids, from, limit, p);
        let valued = ids.filter(p);
        assert forall|i: int| 0 <= i < valued.len() implies (
        #[trigger] first[i] matches EventView::StateSnapshot {
            state_id,
            sequence,
            total_bytes,
            ..
        } && state_id == valued[i] && (match state_value_at(s, b.id, valued[i], from) {
            Ok(Some(v)) => sequence == from && total_bytes == v.len(),
            _ => sequence == b.head && total_bytes == state_value(
                s,
                b.id,
                valued[i],
            )->Ok_0->0.len(),
        })) by {
            assert(snapshots[i] is Ok);
        }
    }
    if f.include_records {
        let p = |x: Result<(u64, RecordView), ErrorView>|
            x matches Ok((_, r)) && r.branch == b.id && from.0 <= r.sequence.0 && (types is None
                || types->0.contains(r.record_type));
        lemma_records(all, b.id, from, types, p);
        assert forall|i: int| 0 <= i < records.len() implies #[trigger] second[i]
            == records[i]->Ok_0 by {
            assert(records[i] is Ok);
        }
    }
    (first, second)
}

/// A subscriber that asks for state changes and lists no states is sent a snapshot of every
/// registered state that has a value.
pub proof fn every_registered_state_is_sent(
    s: StoreView,
    id: SubscriptionId,
    sub: SubscriptionView,
    from: Sequence,
    k: int,
)
    requires
        s.subscribers.get(id) == Some(sub),
        sub.config.from_sequence == Some(from),
        sub.config.filter.include_state_changes,
        sub.config.filter.state_ids is None,
        caught_up(s, id).1 is None,
        0 <= k < s.states.strategies.len(),
        ({
            let b = s.branches.current_branch()->0;
            ||| state_value_at(s, b.id, s.states.strategies[k].0, from) matches Ok(Some(_))
            ||| state_value_at(s, b.id, s.states.strategies[k].0, from) matches Ok(None)
                && state_value(s, b.id, s.states.strategies[k].0) matches Ok(Some(_))
        }),
    ensures
        caught_up(s, id).0.get(id) matches Some(after) && exists|i: int|
            sub.queue.len() <= i < after.queue.len() && (
            #[trigger] after.queue[i] matches EventView::StateSnapshot { state_id, .. } && state_id
                == s.states.strategies[k].0),
{
    let ids = Seq::new(s.states.strategies.len(), |k: int| s.states.strategies[k].0);
    let (first, second) = catch_up_sends_the_past(s, id, sub, from, ids);
    let b = s.branches.current_branch()->0;
    let p = |x: Seq<char>|
        match state_value_at(s, b.id, x, from) {
            Ok(Some(_)) => true,
            Ok(None) => state_value(s, b.id, x) matches Ok(Some(_)),
            Err(_) => false,
        };
    let valued = ids.filter(p);
    assert(p(ids[k]));
    ids.lemma_filter_contains(p, k);
    let j = choose|j: int| 0 <= j < valued.len() && valued[j] == ids[k];
    assert(first[j] is StateSnapshot);
    let after = caught_up(s, id).0.get(id)->0;
    assert(after.queue[sub.queue.len() + j] == first[j]);
}

/// A subscriber that starts at no sequence is sent nothing of the past: only that it has
/// caught up.
pub proof fn without_a_start_nothing_is_sent(s: StoreView, id: SubscriptionId, sub: SubscriptionView)
    requires
        s.subscribers.get(id) == Some(sub),
        sub.config.from_sequence is None,
        caught_up(s, id).1 is None,
    ensures
        caught_up(s, id).0.get(id) == Some(
            SubscriptionView {
                queue: sub.queue.push(EventView::CaughtUp),
                caught_up: true,
                ..sub
            },
        ),
{
    lemma_live(s.subscribers, id, sub);
}

proof fn lemma_room_for_all(
    subs: SubscribersView,
    id: SubscriptionId,
    list: EventList,
    s: SubscriptionView,
)
    requires
        subs.get(id) == Some(s),
        forall|i: int| 0 <= i < list.len() ==> #[trigger] list[i] is Ok,
        s.queue.len() + list.len() <= s.config.buffer_size,
    ensures
        sent_in_turn(subs, id, list).1 is None,
    decreases list.len(),
{
    if list.len() > 0 {
        assert(list[0] is Ok);
        let event = list[0]->Ok_0;
        lemma_sent(subs, id, s, event);
        let rest = list.skip(1);
        assert forall|i: int| 0 <= i < rest.len() implies #[trigger] rest[i] is Ok by {
            assert(list[i + 1] is Ok);
        }
        lemma_room_for_all(
            subs.sent(id, event),
            id,
            rest,
            SubscriptionView { queue: s.queue.push(event), ..s },
        );
    }
}

proof fn lemma_snapshots_read(s: StoreView, ids: Seq<Seq<char>>, from: Sequence, limit: nat)
    requires
        forall|k: int| 0 <= k < ids.len() ==> starting_value(s, #[trigger] ids[k], from) is Ok,
    ensures
        snapshot_events(s, ids, from, limit).len() <= ids.len(),
        forall|i: int|
            0 <= i < snapshot_events(s, ids, from, limit).len() ==> (#[trigger] snapshot_events(
                s,
                ids,
                from,
                limit,
            )[i]) is Ok,
    decreases ids.len(),
{
    if ids.len() > 0 {
        let rest = ids.skip(1);
        assert forall|k: int| 0 <= k < rest.len() implies starting_value(
            s,
            #[trigger] rest[k],
            from,
        ) is Ok by {
            assert(rest[k] == ids[k + 1]);
        }
        lemma_snapshots_read(s, rest, from, limit);
        let list = snapshot_events(s, ids, from, limit);
        let tail = snapshot_events(s, rest, from, limit);
        assert(starting_value(s, ids[0], from) is Ok);
        assert forall|i: int| 0 <= i < list.len() implies (#[trigger] list[i]) is Ok by {
            if starting_value(s, ids[0], from) matches Ok(Some(_)) {
                if i > 0 {
                    assert(list[i] == tail[i - 1]);
                }
            } else {
                assert(list[i] == tail[i]);
            }
        }
    }
}

proof fn lemma_records_read(
    records: Seq<Result<(u64, RecordView), ErrorView>>,
    branch: BranchId,
    from: Sequence,
    types: Option<Seq<Seq<char>>>,
)
    requires
        forall|i: int| 0 <= i < records.len() ==> (#[trigger] records[i]) is Ok,
    ensures
        record_events(records, branch, from, types).len() <= records.len(),
        forall|i: int|
            0 <= i < record_events(records, branch, from, types).len() ==> (
            #[trigger] record_events(records, branch, from, types)[i]) is Ok,
    decreases records.len(),
{
    if records.len() > 0 {
        let rest = records.skip(1);
        assert forall|i: int| 0 <= i < rest.len() implies (#[trigger] rest[i]) is Ok by {
            assert(rest[i] == records[i + 1]);
        }
        lemma_records_read(rest, branch, from, types);
        let list = record_events(records, branch, from, types);
        let tail = record_events(rest, branch, from, types);
        assert(records[0] is Ok);
        assert forall|i: int| 0 <= i < list.len() implies (#[trigger] list[i]) is Ok by {
            if list.len() > tail.len() {
                if i > 0 {
                    assert(list[i] == tail[i - 1]);
                }
            } else {
                assert(list[i] == tail[i]);
            }
        }
    }
}

/// Catching up succeeds where the states that are asked for and the records read, and the
/// subscriber has room for all that it can be sent.
pub proof fn catch_up_succeeds_with_room(
    s: StoreView,
    id: SubscriptionId,
    sub: SubscriptionView,
    from: Sequence,
    ids: Seq<Seq<char>>,
)
    requires
        s.subscribers.get(id) == Some(sub),
        sub.config.from_sequence == Some(from),
        match sub.config.filter.state_ids {
            Some(l) => ids == l,
            None => ids.len() == s.states.strategies.len() && forall|k: int|
                0 <= k < ids.len() ==> #[trigger] ids[k] == s.states.strategies[k].0,
        },
        s.branches.current_branch() is Some,
        forall|k: int|
            0 <= k < ids.len() ==> match state_value_at(
                s,
                s.branches.current_branch()->0.id,
                #[trigger] ids[k],
                from,
            ) {
                Ok(Some(_)) => true,
                Ok(None) => state_value(s, s.branches.current_branch()->0.id, ids[k]) is Ok,
                Err(_) => false,
            },
        forall|i: int|
            0 <= i < records_from(s.log.bytes, start_of(s, from) as int).len() ==> (
            #[trigger] records_from(s.log.bytes, start_of(s, from) as int)[i]) is Ok,
        sub.queue.len() + ids.len() + records_from(s.log.bytes, start_of(s, from) as int).len() + 1
            <= sub.config.buffer_size,
    ensures
        caught_up(s, id).1 is None,
{
    let f = sub.config.filter;
    let limit = sub.config.max_snapshot_bytes as nat;
    let b = s.branches.current_branch()->0;
    let all = records_from(s.log.bytes, start_of(s, from) as int);
    assert(wanted_states(s, f) =~= ids);
    let list = catch_up_events(s, sub.config, from);
    lemma_snapshots_read(s, ids, from, limit);
    lemma_records_read(all, b.id, from, f.record_types);
    let snapshots = if f.include_state_changes {
        snapshot_events(s, ids, from, limit)
    } else {
        Seq::empty()
    };
    let records = if f.include_records {
        record_events(all, b.id, from, f.record_types)
    } else {
        Seq::empty()
    };
    assert(list == snapshots + records);
    assert forall|i: int| 0 <= i < list.len() implies #[trigger] list[i] is Ok by {
        if i < snapshots.len() {
            assert(list[i] == snapshots[i]);
        } else {
            assert(list[i] == records[i - snapshots.len()]);
        }
    }
    lemma_room_for_all(s.subscribers, id, list, sub);
    lemma_sent_in_turn(
        s.subscribers,
        id,
        list,
        sub,
        Seq::new(list.len(), |i: int| list[i]->Ok_0),
    );
}

/// Catching up an id that no subscriber has fails, as does catching up where the buffer is
/// full.
pub proof fn catch_up_needs_a_subscriber_with_room(s: StoreView, id: SubscriptionId)
    requires
        s.subscribers.get(id) matches Some(sub) ==> sub.config.from_sequence is None
            && sub.queue.len() >= sub.config.buffer_size,
    ensures
        caught_up(s, id).1 == Some(ErrorView::SubscriptionDropped),
{
}

proof fn lemma_no_room(
    subs: SubscribersView,
    id: SubscriptionId,
    list: EventList,
    s: SubscriptionView,
)
    requires
        subs.wf(),
        subs.get(id) == Some(s),
        forall|i: int| 0 <= i < list.len() ==> #[trigger] list[i] is Ok,
        s.queue.len() + list.len() > s.config.buffer_size,
        s.queue.len() <= s.config.buffer_size,
    ensures
        sent_in_turn(subs, id, list).1 == Some(ErrorView::SubscriptionDropped),
        sent_in_turn(subs, id, list).0.get(id) is None,
    decreases list.len(),
{
    assert(list[0] is Ok);
    let event = list[0]->Ok_0;
    lemma_place(subs.list, id, SubscriptionView { id, ..s });
    let i = place_of(subs.list, id)->0;
    if s.has_room() {
        lemma_sent(subs, id, s, event);
        let next = subs.sent(id, event);
        let rest = list.skip(1);
        assert forall|k: int| 0 <= k < rest.len() implies #[trigger] rest[k] is Ok by {
            assert(list[k + 1] is Ok);
        }
        assert forall|a: int, b: int| 0 <= a < b < next.list.len() implies (
        #[trigger] next.list[a]).id != (#[trigger] next.list[b]).id by {
            assert(subs.list[a].id != subs.list[b].id);
        }
        assert forall|a: int| 0 <= a < next.list.len() implies (#[trigger] next.list[a]).id.0
            < next.next_id by {
            assert(subs.list[a].id.0 < subs.next_id);
        }
        lemma_no_room(next, id, rest, SubscriptionView { queue: s.queue.push(event), ..s });
    } else {
        let left = subs.list.remove(i);
        crate::subscriptions::manager::lemma_place(left, id);
        assert forall|k: int| 0 <= k < left.len() implies (#[trigger] left[k]).id != id by {
            if k < i {
                assert(left[k] == subs.list[k]);
                assert(subs.list[k].id != subs.list[i].id);
            } else {
                assert(left[k] == subs.list[k + 1]);
                assert(subs.list[i].id != subs.list[k + 1].id);
            }
        }
    }
}

/// A subscriber that has no room for all it is to be sent is dropped.
pub proof fn catch_up_without_room_drops(
    s: StoreView,
    id: SubscriptionId,
    sub: SubscriptionView,
    from: Sequence,
)
    requires
        s.subscribers.wf(),
        s.subscribers.get(id) == Some(sub),
        sub.config.from_sequence == Some(from),
        s.branches.current_branch() is Some,
        forall|i: int|
            0 <= i < catch_up_events(s, sub.config, from).len() ==> #[trigger] catch_up_events(
                s,
                sub.config,
                from,
            )[i] is Ok,
        sub.queue.len() <= sub.config.buffer_size,
        sub.queue.len() + catch_up_events(s, sub.config, from).len() > sub.config.buffer_size,
    ensures
        caught_up(s, id).1 == Some(ErrorView::SubscriptionDropped),
        caught_up(s, id).0.get(id) is None,
{
    lemma_no_room(s.subscribers, id, catch_up_events(s, sub.config, from), sub);
}

} // verus!
