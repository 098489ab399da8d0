//! Catch-up: what happened before a subscriber goes live is sent to it.
use crate::branches::manager::current_missing;
use crate::error::{ErrorView, StoreError};
use crate::json::{array_text, json_items, json_value};
use crate::records::log::records_from;
use crate::store::compaction::registered;
use crate::store::model::{same_but_cache, state_value, state_value_at};
use crate::store::records::start_of;
use crate::store::{Store, StoreView};
use crate::subscriptions::manager::SubscribersView;
use crate::subscriptions::snapshot::{fits_from, is_part, length_from, null_text, snapshot_part, SnapshotPart};
use crate::subscriptions::types::{lets_through, passes, summary_of, ConfigView, EventView, FilterView, RecordSummary, StoreEvent, SubscriptionFilter, SubscriptionId, PAYLOAD_THRESHOLD};
use crate::types::{views, BranchId, RecordView, Sequence};
use vstd::prelude::*;
use vstd::string::*;

verus! {

/// What is to be sent, in order. An error ends it.
pub type EventList = Seq<Result<EventView, ErrorView>>;

/// The value of a state that a subscriber starts with, and its sequence: that at the
/// starting sequence, or the current one if the state did not exist then.
pub open spec fn starting_value(s: StoreView, id: Seq<char>, from: Sequence) -> Result<
    Option<(Seq<u8>, Sequence)>,
    ErrorView,
> {
    let b = s.branches.current_branch()->0;
    match state_value_at(s, b.id, id, from) {
        Err(e) => Err(e),
        Ok(Some(v)) => Ok(Some((v, from))),
        Ok(None) => match state_value(s, b.id, id) {
            Err(e) => Err(e),
            Ok(Some(v)) => Ok(Some((v, b.head))),
            Ok(None) => Ok(None),
        },
    }
}

/// The index from which on items fit into a limit.
pub open spec fn cut_index(items: Seq<Seq<u8>>, limit: nat) -> int {
    choose|at: int| fits_from(items, limit, at)
}

/// The event for the value of a state: what does not fit into the limit is cut.
pub open spec fn snapshot_event(id: Seq<char>, v: Seq<u8>, sequence: Sequence, limit: nat) -> EventView {
    if v.len() <= limit {
        EventView::StateSnapshot {
            state_id: id,
            data: match json_value(v) {
                Ok(t) => t,
                Err(_) => null_text(),
            },
            sequence,
            truncated: false,
            total_bytes: v.len(),
            from_index: None,
            total_length: None,
        }
    } else {
        match json_items(v) {
            Ok(items) => EventView::StateSnapshot {
                state_id: id,
                data: array_text(items.skip(cut_index(items, limit))),
                sequence,
                truncated: true,
                total_bytes: v.len(),
                from_index: Some(cut_index(items, limit) as usize),
                total_length: Some(items.len() as usize),
            },
            Err(_) => EventView::StateSnapshot {
                state_id: id,
                data: null_text(),
                sequence,
                truncated: true,
                total_bytes: v.len(),
                from_index: None,
                total_length: None,
            },
        }
    }
}

/// The snapshots of some states.
pub open spec fn snapshot_events(s: StoreView, ids: Seq<Seq<char>>, from: Sequence, limit: nat) -> EventList
    decreases ids.len(),
{
    if ids.len() == 0 {
        Seq::empty()
    } else {
        let rest = snapshot_events(s, ids.skip(1), from, limit);
        match starting_value(s, ids[0], from) {
            Err(e) => seq![Err(e)],
            Ok(None) => rest,
            Ok(Some((v, sequence))) => seq![
                Ok::<EventView, ErrorView>(snapshot_event(ids[0], v, sequence, limit)),
            ] + rest,
        }
    }
}

/// The events for records of a branch, from a sequence on, that are of the given types.
pub open spec fn record_events(
    records: Seq<Result<(u64, RecordView), ErrorView>>,
    branch: BranchId,
    from: Sequence,
    types: Option<Seq<Seq<char>>>,
) -> EventList
    decreases records.len(),
{
    if records.len() == 0 {
        Seq::empty()
    } else {
        let rest = record_events(records.skip(1), branch, from, types);
        match records[0] {
            Err(e) => seq![Err(e)],
            Ok((_, r)) => if r.branch == branch && r.sequence.0 >= from.0 && lets_through(
                types,
                r.record_type,
            ) {
                seq![
                    Ok::<EventView, ErrorView>(
                        EventView::Record { record: summary_of(r, PAYLOAD_THRESHOLD as nat) },
                    ),
                ] + rest
            } else {
                rest
            },
        }
    }
}

/// The states that a subscriber wants snapshots of.
pub open spec fn wanted_states(s: StoreView, f: FilterView) -> Seq<Seq<char>> {
    match f.state_ids {
        Some(ids) => ids,
        None => registered(s),
    }
}

/// All that is sent to a subscriber who starts at a sequence.
pub open spec fn catch_up_events(s: StoreView, c: ConfigView, from: Sequence) -> EventList {
    let snapshots = if c.filter.include_state_changes {
        snapshot_events(s, wanted_states(s, c.filter), from, c.max_snapshot_bytes as nat)
    } else {
        Seq::empty()
    };
    let records = if c.filter.include_records {
        record_events(
            records_from(s.log.bytes, start_of(s, from) as int),
            s.branches.current_branch()->0.id,
            from,
            c.filter.record_types,
        )
    } else {
        Seq::empty()
    };
    snapshots + records
}

/// The subscribers once events were sent to one of them, and the error that ended it, if
/// any: one of the list, or that there was no room.
pub open spec fn sent_in_turn(subs: SubscribersView, id: SubscriptionId, list: EventList) -> (
    SubscribersView,
    Option<ErrorView>,
)
    decreases list.len(),
{
    if list.len() == 0 {
        (subs, None)
    } else {
        match list[0] {
            Err(e) => (subs, Some(e)),
            Ok(event) => if subs.get(id) matches Some(s) && s.has_room() {
                sent_in_turn(subs.sent(id, event), id, list.skip(1))
            } else {
                (subs.sent(id, event), Some(ErrorView::SubscriptionDropped))
            },
        }
    }
}

/// What a subscriber that catches up does to the subscribers, and the error, if any.
pub open spec fn caught_up(s: StoreView, id: SubscriptionId) -> (
    SubscribersView,
    Option<ErrorView>,
) {
    match s.subscribers.get(id) {
        None => (s.subscribers, Some(ErrorView::SubscriptionDropped)),
        Some(sub) => {
            let (subs, error) = match sub.config.from_sequence {
                None => (s.subscribers, None),
                Some(from) => if (sub.config.filter.include_state_changes && wanted_states(
                    s,
                    sub.config.filter,
                ).len() > 0 || sub.config.filter.include_records)
                    && s.branches.current_branch() is None {
                    (s.subscribers, Some(current_missing(s.branches.current)))
                } else {
                    sent_in_turn(s.subscribers, id, catch_up_events(s, sub.config, from))
                },
            };
            match error {
                Some(e) => (subs, Some(e)),
                None => (
                    subs.live(id),
                    if subs.get(id) matches Some(x) && x.has_room() {
                        None
                    } else {
                        Some(ErrorView::SubscriptionDropped)
                    },
                ),
            }
        },
    }
}

proof fn lemma_length_down(items: Seq<Seq<u8>>, a: int, b: int)
    requires
        0 <= a <= b,
    ensures
        length_from(items, a) >= length_from(items, b),
    decreases b - a,
{
    if a < b {
        lemma_length_down(items, a + 1, b);
    }
}

/// There is just one index from which on as many items as possible fit.
pub proof fn lemma_cut_unique(items: Seq<Seq<u8>>, limit: nat, at: int)
    requires
        fits_from(items, limit, at),
    ensures
        cut_index(items, limit) == at,
{
    let c = cut_index(items, limit);
    assert(fits_from(items, limit, c));
    if c < at {
        lemma_length_down(items, c, at - 1);
    } else if at < c {
        lemma_length_down(items, at, c - 1);
    }
}

proof fn lemma_part_event(id: Seq<char>, v: Seq<u8>, sequence: Sequence, limit: nat, part: SnapshotPart)
    requires
        is_part(v, limit, part),
    ensures
        snapshot_event(id, v, sequence, limit) == (EventView::StateSnapshot {
            state_id: id,
            data: part.data@,
            sequence,
            truncated: part.truncated,
            total_bytes: v.len(),
            from_index: part.from_index,
            total_length: part.total_length,
        }),
{
    if v.len() > limit {
        if let Ok(items) = json_items(v) {
            lemma_cut_unique(items, limit, part.from_index->0 as int);
        }
    }
}

/// What is cached plays no part in what is sent.
proof fn lemma_same_start(s: StoreView, t: StoreView, id: Seq<char>, from: Sequence)
    requires
        same_but_cache(s, StoreView { subscribers: s.subscribers, ..t }),
    ensures
        starting_value(t, id, from) == starting_value(s, id, from),
        start_of(t, from) == start_of(s, from),
{
}

proof fn lemma_first(list: EventList, rest: EventList, event: EventView)
    ensures
        (seq![Ok::<EventView, ErrorView>(event)] + list + rest)[0] == Ok::<EventView, ErrorView>(
            event,
        ),
        (seq![Ok::<EventView, ErrorView>(event)] + list + rest).skip(1) == list + rest,
        (seq![Ok::<EventView, ErrorView>(event)] + list + rest).len() > 0,
{
    assert((seq![Ok::<EventView, ErrorView>(event)] + list + rest).skip(1) =~= list + rest);
}

fn copy_list(list: &Option<Vec<String>>) -> (r: Option<Vec<String>>)
    ensures
        crate::subscriptions::types::list_view(r) == crate::subscriptions::types::list_view(*list),
{
    match list {
        None => None,
        Some(l) => {
            let mut out: Vec<String> = Vec::new();
            let mut i: usize = 0;
            while i < l.len()
                invariant
                    i <= l@.len(),
                    out@.len() == i,
                    forall|j: int| 0 <= j < i ==> (#[trigger] out@[j])@ == l@[j]@,
                decreases l@.len() - i,
            {
                out.push(l[i].clone());
                i += 1;
            }
            assert(views(out@) =~= views(l@));
            Some(out)
        },
    }
}

impl Store {
    /// The value of a state that a subscriber starts with, and its sequence.
    fn start_value(&mut self, state_id: &str, from: Sequence) -> (r: Result<
        Option<(Vec<u8>, Sequence)>,
        StoreError,
    >)
        requires
            old(self).wf(),
        ensures
            final(self).wf(),
            same_but_cache(old(self)@, final(self)@),
            match old(self)@.branches.current_branch() {
                None => r matches Err(e) && e@ == current_missing(old(self)@.branches.current),
                Some(_) => match starting_value(old(self)@, state_id@, from) {
                    Err(e) => r matches Err(x) && x@ == e,
                    Ok(None) => r matches Ok(None),
                    Ok(Some((v, sequence))) => r matches Ok(Some(x)) && x.0@ == v && x.1
                        == sequence,
                },
            },
    {
        match self.get_state_at(state_id, from) {
            Err(e) => Err(e),
            Ok(Some(v)) => Ok(Some((v, from))),
            Ok(None) => match self.get_state(state_id) {
                Err(e) => Err(e),
                Ok(None) => Ok(None),
                Ok(Some(v)) => match self.branches.current_branch() {
                    Ok(b) => Ok(Some((v, b.head))),
                    Err(e) => Err(e),
                },
            },
        }
    }

    fn send_snapshots(
        &mut self,
        id: SubscriptionId,
        ids: &Vec<String>,
        from: Sequence,
        limit: usize,
        Ghost(rest): Ghost<EventList>,
    ) -> (r: Result<(), StoreError>)
        requires
            old(self).wf(),
        ensures
            final(self).wf(),
            same_but_cache(
                old(self)@,
                (StoreView { subscribers: old(self)@.subscribers, ..final(self)@ }),
            ),
            old(self)@.branches.current_branch() is None && ids@.len() > 0 ==> (r matches Err(e)
                && e@ == current_missing(old(self)@.branches.current) && final(self)@.subscribers
                == old(self)@.subscribers),
            old(self)@.branches.current_branch() is None && ids@.len() == 0 ==> r is Ok && final(self)@.subscribers == old(self)@.subscribers,
            old(self)@.branches.current_branch() is Some ==> ({
                let all = sent_in_turn(
                    old(self)@.subscribers,
                    id,
                    snapshot_events(old(self)@, views(ids@), from, limit as nat) + rest,
                );
                match r {
                    Ok(_) => all == sent_in_turn(final(self)@.subscribers, id, rest),
                    Err(e) => all == (final(self)@.subscribers, Some(e@)),
                }
            }),
    {
        let ghost s = self@;
        let ghost names = views(ids@);
        let ghost all = sent_in_turn(
            s.subscribers,
            id,
            snapshot_events(s, names, from, limit as nat) + rest,
        );
        let mut i: usize = 0;
        assert(names.skip(0) =~= names);
        while i < ids.len()
            invariant
                self.wf(),
                s == old(self)@,
                names == views(ids@),
                i <= ids@.len(),
                same_but_cache(s, (StoreView { subscribers: s.subscribers, ..self@ })),
                all == sent_in_turn(
                    s.subscribers,
                    id,
                    snapshot_events(s, names, from, limit as nat) + rest,
                ),
                s.branches.current_branch() is None ==> i == 0 && self@.subscribers
                    == s.subscribers,
                s.branches.current_branch() is Some ==> all == sent_in_turn(
                    self@.subscribers,
                    id,
                    snapshot_events(s, names.skip(i as int), from, limit as nat) + rest,
                ),
            decreases ids@.len() - i,
        {
            let ghost here = names.skip(i as int);
            let ghost later = snapshot_events(s, names.skip(i + 1), from, limit as nat);
            proof {
                assert(here[0] == ids@[i as int]@);
                assert(here.skip(1) =~= names.skip(i + 1));
                lemma_same_start(s, self@, ids@[i as int]@, from);
            }
            let found = match self.start_value(ids[i].as_str(), from) {
                Ok(found) => found,
                Err(e) => {
                    proof {
                        if s.branches.current_branch() is Some {
                            assert((seq![Err::<EventView, ErrorView>(e@)] + rest)[0] == Err::<
                                EventView,
                                ErrorView,
                            >(e@));
                        }
                    }
                    return Err(e);
                },
            };
            if let Some((value, sequence)) = found {
                let part = snapshot_part(value.as_slice(), limit);
                proof {
                    lemma_part_event(ids@[i as int]@, value@, sequence, limit as nat, part);
                }
                let event = StoreEvent::StateSnapshot {
                    state_id: ids[i].clone(),
                    data: part.data,
                    sequence,
                    truncated: part.truncated,
                    total_bytes: value.len(),
                    from_index: part.from_index,
                    total_length: part.total_length,
                };
                proof {
                    lemma_first(later, rest, event@);
                }
                if !self.subscriptions.send_to(id, event) {
                    return Err(StoreError::SubscriptionDropped);
                }
            }
            i += 1;
        }
        proof {
            assert(names.skip(i as int) =~= Seq::empty());
            assert(Seq::<Result<EventView, ErrorView>>::empty() + rest =~= rest);
        }
        Ok(())
    }

    fn send_records(
        &mut self,
        id: SubscriptionId,
        types: &Option<Vec<String>>,
        from: Sequence,
    ) -> (r: Result<(), StoreError>)
        requires
            old(self).wf(),
        ensures
            final(self).wf(),
            final(self)@ == (StoreView { subscribers: final(self)@.subscribers, ..old(self)@ }),
            match old(self)@.branches.current_branch() {
                None => r matches Err(e) && e@ == current_missing(old(self)@.branches.current)
                    && final(self)@ == old(self)@,
                Some(b) => sent_in_turn(
                    old(self)@.subscribers,
                    id,
                    record_events(
                        records_from(
                            old(self)@.log.bytes,
                            start_of(old(self)@, from) as int,
                        ),
                        b.id,
                        from,
                        crate::subscriptions::types::list_view(*types),
                    ),
                ) == (final(self)@.subscribers, (match r {
                    Ok(_) => None,
                    Err(e) => Some(e@),
                })),
            },
    {
        let ghost s = self@;
        let branch = match self.branches.current_branch() {
            Ok(b) => b,
            Err(e) => return Err(e),
        };
        let ghost wanted = crate::subscriptions::types::list_view(*types);
        let start: u64 = self.first_offset(branch.id, from);
        let ghost bytes = s.log.bytes;
        let ghost all = sent_in_turn(
            s.subscribers,
            id,
            record_events(records_from(bytes, start as int), branch.id, from, wanted),
        );
        let mut it = self.log.iter_from(start);
        loop
            invariant
                self.wf(),
                s == old(self)@,
                bytes == s.log.bytes,
                self@ == (StoreView { subscribers: self@.subscribers, ..s }),
                it.log() == s.log,
                it.end() == bytes.len(),
                s.branches.current_branch() == Some(branch@),
                start == start_of(s, from),
                wanted == crate::subscriptions::types::list_view(*types),
                all == sent_in_turn(
                    s.subscribers,
                    id,
                    record_events(records_from(bytes, start as int), branch.id, from, wanted),
                ),
                all == sent_in_turn(
                    self@.subscribers,
                    id,
                    record_events(records_from(bytes, it.offset() as int), branch.id, from, wanted),
                ),
            decreases
                    (if it.offset() <= bytes.len() {
                        bytes.len() - it.offset()
                    } else {
                        0
                    }),
        {
            let ghost here = records_from(bytes, it.offset() as int);
            match it.next() {
                None => {
                    return Ok(());
                },
                Some(Err(e)) => {
                    assert(here[0] == Err::<(u64, RecordView), ErrorView>(e@));
                    return Err(e);
                },
                Some(Ok((offset, record))) => {
                    let ghost next = records_from(bytes, it.offset() as int);
                    proof {
                        assert(here[0] == Ok::<(u64, RecordView), ErrorView>((offset, record@)));
                        assert(here.skip(1) =~= next);
                    }
                    if record.branch.0 == branch.id.0 && record.sequence.0 >= from.0 && passes(
                        types,
                        record.record_type.as_str(),
                    ) {
                        let event = StoreEvent::Record {
                            record: RecordSummary::from_record(&record, PAYLOAD_THRESHOLD),
                        };
                        proof {
                            let later = record_events(next, branch.id, from, wanted);
                            lemma_first(later, Seq::empty(), event@);
                            assert(later + Seq::<Result<EventView, ErrorView>>::empty() =~= later);
                            assert(seq![Ok::<EventView, ErrorView>(event@)] + later + Seq::<
                                Result<EventView, ErrorView>,
                            >::empty() =~= seq![Ok::<EventView, ErrorView>(event@)] + later);
                        }
                        if !self.subscriptions.send_to(id, event) {
                            return Err(StoreError::SubscriptionDropped);
                        }
                    }
                },
            }
        }
    }

    /// Perform catch-up for a subscription.
    ///
    /// If `from_sequence` is set in the config, this replays:
    /// 1. State snapshots for subscribed states at the starting sequence
    /// 2. Historical records matching the filter from that sequence
    ///
    /// After catch-up completes, the subscription is marked as caught up and will receive
    /// live events.
    pub fn catch_up_subscription(&mut self, id: SubscriptionId) -> (r: Result<(), StoreError>)
        requires
            old(self).wf(),
        ensures
            final(self).wf(),
            same_but_cache(
                old(self)@,
                (StoreView { subscribers: old(self)@.subscribers, ..final(self)@ }),
            ),
            caught_up(old(self)@, id) == (final(self)@.subscribers, (match r {
                Ok(_) => None,
                Err(e) => Some(e@),
            })),
    {
        let ghost s = self@;
        let (filter, from_sequence, limit) = match self.subscriptions.get_config(id) {
            None => return Err(StoreError::SubscriptionDropped),
            Some(c) => (
                SubscriptionFilter {
                    record_types: copy_list(&c.filter.record_types),
                    branch: None,
                    state_ids: copy_list(&c.filter.state_ids),
                    include_records: c.filter.include_records,
                    include_state_changes: c.filter.include_state_changes,
                    include_branch_events: c.filter.include_branch_events,
                },
                c.from_sequence,
                c.max_snapshot_bytes,
            ),
        };
        let ghost config = s.subscribers.get(id)->0.config;
        let from: Sequence = match from_sequence {
            Some(from) => from,
            None => return self.subscriptions.mark_caught_up(id),
        };
        let ghost records = if config.filter.include_records {
            record_events(
                records_from(s.log.bytes, start_of(s, from) as int),
                s.branches.current_branch()->0.id,
                from,
                config.filter.record_types,
            )
        } else {
            Seq::empty()
        };
        if filter.include_state_changes {
            let ids: Vec<String> = match filter.state_ids {
                Some(ids) => ids,
                None => self.state.state_ids(),
            };
            assert(views(ids@) == wanted_states(s, config.filter));
            match self.send_snapshots(id, &ids, from, limit, Ghost(records)) {
                Ok(_) => {},
                Err(e) => return Err(e),
            }
        } else {
            assert(Seq::<Result<EventView, ErrorView>>::empty() + records =~= records);
        }
        let ghost mid = self@;
        proof {
            lemma_same_start(s, mid, Seq::empty(), from);
        }
        if filter.include_records {
            match self.send_records(id, &filter.record_types, from) {
                Ok(_) => {},
                Err(e) => return Err(e),
            }
        }
        self.subscriptions.mark_caught_up(id)
    }
}

} // verus!
