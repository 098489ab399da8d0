//! The subscribers of a store.
use crate::error::{ErrorView, StoreError};
use crate::subscriptions::types::{branch_summary, wants, BranchSummary, ConfigView, EventView, RecordSummary, StoreEvent, SubscriptionConfig, SubscriptionId, PAYLOAD_THRESHOLD};
use crate::types::{opt_view, views, Branch, Record, Sequence, StateOperation};
use vstd::prelude::*;
use vstd::string::*;

verus! {

/// A subscriber: what it asks for, and the events that wait for it.
#[derive(Debug)]
pub struct Subscription {
    pub id: SubscriptionId,
    pub config: SubscriptionConfig,
    pub caught_up: bool,
    pub queue: Vec<StoreEvent>,
}

/// A subscriber as a mathematical value.
pub struct SubscriptionView {
    pub id: SubscriptionId,
    pub config: ConfigView,
    pub caught_up: bool,
    pub queue: Seq<EventView>,
}

impl View for Subscription {
    type V = SubscriptionView;

    open spec fn view(&self) -> SubscriptionView {
        SubscriptionView {
            id: self.id,
            config: self.config@,
            caught_up: self.caught_up,
            queue: views(self.queue@),
        }
    }
}

impl SubscriptionView {
    /// Whether there is room for another event.
    pub open spec fn has_room(self) -> bool {
        self.queue.len() < self.config.buffer_size
    }

    /// The subscriber with another event waiting.
    pub open spec fn given(self, e: EventView) -> SubscriptionView {
        SubscriptionView { queue: self.queue.push(e), ..self }
    }
}

/// All subscribers as mathematical values.
pub struct SubscribersView {
    pub list: Seq<SubscriptionView>,
    pub next_id: u64,
}

/// Where a subscriber stands in a list.
pub open spec fn place_of(list: Seq<SubscriptionView>, id: SubscriptionId) -> Option<int>
    decreases list.len(),
{
    if list.len() == 0 {
        None
    } else if list.last().id == id {
        Some(list.len() - 1)
    } else {
        place_of(list.drop_last(), id)
    }
}

/// The subscribers once an event was sent to those who are live and want it. Who has no
/// room for it is dropped.
pub open spec fn after_event(list: Seq<SubscriptionView>, e: EventView) -> Seq<SubscriptionView>
    decreases list.len(),
{
    if list.len() == 0 {
        list
    } else {
        let before = after_event(list.drop_last(), e);
        let s = list.last();
        if !(s.caught_up && wants(s.config.filter, e)) {
            before.push(s)
        } else if s.has_room() {
            before.push(s.given(e))
        } else {
            before
        }
    }
}

impl SubscribersView {
    /// Whether ids were handed out once each.
    pub open spec fn wf(self) -> bool {
        &&& forall|i: int, j: int|
            0 <= i < j < self.list.len() ==> (#[trigger] self.list[i]).id != (
            #[trigger] self.list[j]).id
        &&& forall|i: int| 0 <= i < self.list.len() ==> (#[trigger] self.list[i]).id.0 < self.next_id
    }

    /// The subscriber with an id.
    pub open spec fn get(self, id: SubscriptionId) -> Option<SubscriptionView> {
        match place_of(self.list, id) {
            Some(i) => Some(self.list[i]),
            None => None,
        }
    }

    /// The subscribers once an event was sent to all who want it.
    pub open spec fn broadcast(self, e: EventView) -> SubscribersView {
        SubscribersView { list: after_event(self.list, e), ..self }
    }

    /// The subscribers once an event was sent to one of them, who is dropped if there is
    /// no room for it.
    pub open spec fn sent(self, id: SubscriptionId, e: EventView) -> SubscribersView {
        match place_of(self.list, id) {
            Some(i) => if self.list[i].has_room() {
                SubscribersView { list: self.list.update(i, self.list[i].given(e)), ..self }
            } else {
                SubscribersView { list: self.list.remove(i), ..self }
            },
            None => self,
        }
    }

    /// The subscribers once the first event that waits for one of them was taken.
    pub open spec fn taken(self, id: SubscriptionId) -> SubscribersView {
        match place_of(self.list, id) {
            Some(i) if self.list[i].queue.len() > 0 => {
                let s = self.list[i];
                let next = SubscriptionView { queue: s.queue.skip(1), ..s };
                SubscribersView { list: self.list.update(i, next), ..self }
            },
            _ => self,
        }
    }

    /// The subscribers once one of them went live.
    pub open spec fn live(self, id: SubscriptionId) -> SubscribersView {
        let next = self.sent(id, EventView::CaughtUp);
        match place_of(next.list, id) {
            Some(i) => SubscribersView {
                list: next.list.update(
                    i,
                    SubscriptionView { caught_up: true, ..next.list[i] },
                ),
                ..next
            },
            None => next,
        }
    }
}

/// Manages the subscribers of a store.
pub struct SubscriptionManager {
    list: Vec<Subscription>,
    next_id: u64,
}

impl View for SubscriptionManager {
    type V = SubscribersView;

    closed spec fn view(&self) -> SubscribersView {
        SubscribersView { list: views(self.list@), next_id: self.next_id }
    }
}

impl SubscriptionManager {
    /// No subscribers.
    pub fn new() -> (m: Self)
        ensures
            m@.list == Seq::<SubscriptionView>::empty(),
            m@.next_id == 1,
            m@.wf(),
    {
        let m = SubscriptionManager { list: Vec::new(), next_id: 1 };
        assert(m@.list =~= Seq::empty());
        m
    }

    /// Adds a subscriber, who hears of nothing until it has caught up. Returns its id.
    pub fn subscribe(&mut self, config: SubscriptionConfig) -> (id: SubscriptionId)
        requires
            old(self)@.wf(),
            old(self)@.next_id < u64::MAX,
        ensures
            final(self)@.wf(),
            id.0 == old(self)@.next_id,
            final(self)@.next_id == old(self)@.next_id + 1,
            final(self)@.list == old(self)@.list.push(
                SubscriptionView {
                    id,
                    config: config@,
                    caught_up: false,
                    queue: Seq::empty(),
                },
            ),
    {
        let id = SubscriptionId(self.next_id);
        let ghost before = self@;
        let s = Subscription { id, config, caught_up: false, queue: Vec::new() };
        let ghost item = s@;
        self.next_id = self.next_id + 1;
        self.list.push(s);
        proof {
            assert(item.queue =~= Seq::empty());
            assert(self@.list =~= before.list.push(item));
            assert forall|i: int, j: int| 0 <= i < j < self@.list.len() implies (
            #[trigger] self@.list[i]).id != (#[trigger] self@.list[j]).id by {
                assert(self@.list[i] == before.list[i]);
                if j < before.list.len() {
                    assert(self@.list[j] == before.list[j]);
                }
            }
            assert forall|i: int| 0 <= i < self@.list.len() implies (#[trigger] self@.list[i]).id.0
                < self@.next_id by {
                if i < before.list.len() {
                    assert(self@.list[i] == before.list[i]);
                }
            }
        }
        id
    }

    fn find(&self, id: SubscriptionId) -> (r: Option<usize>)
        ensures
            match r {
                Some(i) => i < self.list@.len() && place_of(self@.list, id) == Some(i as int)
                    && self@.list[i as int] == self.list@[i as int]@ && self@.list[i as int].id
                    == id,
                None => place_of(self@.list, id) is None,
            },
    {
        let ghost all = views(self.list@);
        let mut i: usize = self.list.len();
        assert(all.take(all.len() as int) =~= all);
        while i > 0
            invariant
                all == views(self.list@),
                i <= self.list@.len(),
                place_of(all, id) == place_of(all.take(i as int), id),
            decreases i,
        {
            assert(all.take(i as int).drop_last() =~= all.take(i - 1));
            assert(all.take(i as int).last() == self.list@[i - 1]@);
            if self.list[i - 1].id.0 == id.0 {
                return Some(i - 1);
            }
            i -= 1;
        }
        None
    }

    /// Unsubscribe and clean up.
    pub fn unsubscribe(&mut self, id: SubscriptionId)
        requires
            old(self)@.wf(),
        ensures
            final(self)@.wf(),
            final(self)@.next_id == old(self)@.next_id,
            final(self)@.list == (match place_of(old(self)@.list, id) {
                Some(i) => old(self)@.list.remove(i),
                None => old(self)@.list,
            }),
    {
        let ghost before = self@;
        if let Some(i) = self.find(id) {
            self.list.remove(i);
            proof {
                assert(self@.list =~= before.list.remove(i as int));
                lemma_removed(before, i as int);
            }
        }
    }

    /// Get the number of active subscriptions.
    pub fn subscription_count(&self) -> (n: usize)
        ensures
            n == self@.list.len(),
    {
        self.list.len()
    }

    /// What a subscriber asks for.
    pub fn get_config(&self, id: SubscriptionId) -> (r: Option<&SubscriptionConfig>)
        ensures
            match r {
                Some(c) => self@.get(id) matches Some(s) && s.config == c@,
                None => self@.get(id) is None,
            },
    {
        match self.find(id) {
            Some(i) => Some(&self.list[i].config),
            None => None,
        }
    }

    fn give(&mut self, i: usize, event: StoreEvent)
        requires
            i < old(self).list@.len(),
        ensures
            final(self)@.next_id == old(self)@.next_id,
            final(self)@.list == old(self)@.list.update(
                i as int,
                old(self)@.list[i as int].given(event@),
            ),
    {
        let ghost before = self@;
        let mut s = self.list.remove(i);
        let ghost q = views(s.queue@);
        s.queue.push(event);
        assert(views(s.queue@) =~= q.push(event@));
        self.list.insert(i, s);
        assert(self@.list =~= before.list.update(i as int, before.list[i as int].given(event@)));
    }

    /// Sends an event to one subscriber. Returns whether it could be sent: a subscriber
    /// without room is dropped.
    pub fn send_to(&mut self, id: SubscriptionId, event: StoreEvent) -> (r: bool)
        requires
            old(self)@.wf(),
        ensures
            final(self)@.wf(),
            final(self)@ == old(self)@.sent(id, event@),
            r == (old(self)@.get(id) matches Some(s) && s.has_room()),
    {
        let ghost before = self@;
        match self.find(id) {
            None => false,
            Some(i) => {
                if self.list[i].queue.len() < self.list[i].config.buffer_size {
                    self.give(i, event);
                    proof {
                        lemma_updated(before, i as int, before.list[i as int].given(event@));
                    }
                    true
                } else {
                    self.list.remove(i);
                    proof {
                        assert(self@.list =~= before.list.remove(i as int));
                        lemma_removed(before, i as int);
                    }
                    false
                }
            },
        }
    }

    /// Mark a subscription as caught up: it is told so, and hears of what happens from now
    /// on.
    pub fn mark_caught_up(&mut self, id: SubscriptionId) -> (r: Result<(), StoreError>)
        requires
            old(self)@.wf(),
        ensures
            final(self)@.wf(),
            final(self)@ == old(self)@.live(id),
            match r {
                Ok(_) => old(self)@.get(id) matches Some(s) && s.has_room(),
                Err(e) => e@ == ErrorView::SubscriptionDropped && !(old(self)@.get(id) matches Some(
                    s,
                ) && s.has_room()),
            },
    {
        let ghost before = self@;
        if !self.send_to(id, StoreEvent::CaughtUp) {
            proof {
                lemma_gone(before, id, EventView::CaughtUp);
            }
            return Err(StoreError::SubscriptionDropped);
        }
        let ghost mid = self@;
        match self.find(id) {
            None => {
                proof {
                    let i = place_of(before.list, id)->Some_0;
                    lemma_place(before.list, id);
                    let upd = before.list.update(i, before.list[i].given(EventView::CaughtUp));
                    lemma_place_update(before.list, i, before.list[i].given(EventView::CaughtUp), id);
                }
                Err(StoreError::SubscriptionDropped)
            },
            Some(i) => {
                let mut s = self.list.remove(i);
                s.caught_up = true;
                self.list.insert(i, s);
                proof {
                    let to = SubscriptionView { caught_up: true, ..mid.list[i as int] };
                    assert(self@.list =~= mid.list.update(i as int, to));
                    lemma_updated(mid, i as int, to);
                }
                Ok(())
            },
        }
    }

    /// Sends an event to all who are live and want it. Who has no room for it is dropped.
    pub fn broadcast(&mut self, event: StoreEvent)
        requires
            old(self)@.wf(),
        ensures
            final(self)@.wf(),
            final(self)@ == old(self)@.broadcast(event@),
    {
        let ghost start = self@.list;
        let ghost mut done: int = 0;
        let mut i: usize = 0;
        assert(start.take(0) =~= Seq::empty());
        assert(start.skip(0) =~= start);
        assert(after_event(start.take(0), event@) + start.skip(0) =~= start);
        while i < self.list.len()
            invariant
                0 <= done <= start.len(),
                i == after_event(start.take(done), event@).len(),
                self@.list == after_event(start.take(done), event@) + start.skip(done),
                self@.next_id == old(self)@.next_id,
                self.list@.len() == self@.list.len(),
            decreases self.list@.len() - i,
        {
            let ghost before = self@.list;
            let ghost sent = after_event(start.take(done), event@);
            proof {
                assert(done < start.len()) by {
                    if done >= start.len() {
                        assert(start.skip(done).len() == 0);
                    }
                }
                assert(before[i as int] == start[done]);
                assert(self.list@[i as int]@ == start[done]);
                assert(start.take(done + 1).drop_last() =~= start.take(done));
                assert(start.take(done + 1).last() == start[done]);
            }
            if self.list[i].caught_up && self.list[i].config.filter.matches_event(&event) {
                if self.list[i].queue.len() < self.list[i].config.buffer_size {
                    let copy = event.clone();
                    self.give(i, copy);
                    proof {
                        let s = start[done].given(event@);
                        assert(self@.list =~= sent.push(s) + start.skip(done + 1));
                        done = done + 1;
                    }
                    i += 1;
                } else {
                    self.list.remove(i);
                    proof {
                        assert(self@.list =~= before.remove(i as int));
                        assert(before.remove(i as int) =~= sent + start.skip(done + 1));
                        done = done + 1;
                    }
                }
            } else {
                proof {
                    assert(self@.list =~= sent.push(start[done]) + start.skip(done + 1));
                    done = done + 1;
                }
                i += 1;
            }
        }
        proof {
            assert(done == start.len()) by {
                if done < start.len() {
                    assert(start.skip(done).len() > 0);
                }
            }
            assert(start.take(done) =~= start);
            assert(start.skip(done) =~= Seq::empty());
            assert(self@.list =~= after_event(start, event@));
            lemma_after_event(start, event@);
            let now = self@.list;
            assert forall|a: int, b: int| 0 <= a < b < now.len() implies (#[trigger] now[a]).id != (
            #[trigger] now[b]).id by {
                lemma_order_kept(old(self)@, event@, a, b);
            }
            assert forall|a: int| 0 <= a < now.len() implies (#[trigger] now[a]).id.0
                < self@.next_id by {
                let k = choose|k: int| 0 <= k < start.len() && (#[trigger] start[k]).id == now[a].id;
                assert(start[k].id.0 < old(self)@.next_id);
            }
        }
    }

    /// Tells of a record.
    pub fn broadcast_record(&mut self, record: &Record)
        requires
            old(self)@.wf(),
        ensures
            final(self)@.wf(),
            final(self)@ == old(self)@.broadcast(
                EventView::Record {
                    record: crate::subscriptions::types::summary_of(
                        record@,
                        PAYLOAD_THRESHOLD as nat,
                    ),
                },
            ),
    {
        self.broadcast(
            StoreEvent::Record { record: RecordSummary::from_record(record, PAYLOAD_THRESHOLD) },
        );
    }

    /// Tells of the head of a branch.
    pub fn broadcast_branch_head(&mut self, branch: &str, head: Sequence)
        requires
            old(self)@.wf(),
        ensures
            final(self)@.wf(),
            final(self)@ == old(self)@.broadcast(EventView::BranchHead { branch: branch@, head }),
    {
        self.broadcast(StoreEvent::BranchHead { branch: branch.to_owned(), head });
    }

    /// Tells of a change of a state.
    pub fn broadcast_state_delta(
        &mut self,
        state_id: &str,
        operation: StateOperation,
        sequence: Sequence,
    )
        requires
            old(self)@.wf(),
        ensures
            final(self)@.wf(),
            final(self)@ == old(self)@.broadcast(
                EventView::StateDelta { state_id: state_id@, operation: operation@, sequence },
            ),
    {
        self.broadcast(
            StoreEvent::StateDelta { state_id: state_id.to_owned(), operation, sequence },
        );
    }

    /// Tells of a new branch.
    pub fn broadcast_branch_created(&mut self, branch: &Branch, parent: Option<String>)
        requires
            old(self)@.wf(),
        ensures
            final(self)@.wf(),
            final(self)@ == old(self)@.broadcast(
                EventView::BranchCreated { branch: branch_summary(branch@, opt_view(parent)) },
            ),
    {
        self.broadcast(
            StoreEvent::BranchCreated {
                branch: BranchSummary {
                    id: branch.id,
                    name: branch.name.clone(),
                    head: branch.head,
                    parent,
                },
            },
        );
    }

    /// Tells of a deleted branch.
    pub fn broadcast_branch_deleted(&mut self, name: &str)
        requires
            old(self)@.wf(),
        ensures
            final(self)@.wf(),
            final(self)@ == old(self)@.broadcast(EventView::BranchDeleted { name: name@ }),
    {
        self.broadcast(StoreEvent::BranchDeleted { name: name.to_owned() });
    }

    /// Takes the next event that waits for a subscriber. Who is not there any more was
    /// dropped or has unsubscribed.
    pub fn next_event(&mut self, id: SubscriptionId) -> (r: Result<Option<StoreEvent>, StoreError>)
        requires
            old(self)@.wf(),
        ensures
            final(self)@.wf(),
            final(self)@ == old(self)@.taken(id),
            match old(self)@.get(id) {
                None => r matches Err(e) && e@ == ErrorView::SubscriptionDropped,
                Some(s) => if s.queue.len() == 0 {
                    r matches Ok(None)
                } else {
                    r matches Ok(Some(e)) && e@ == s.queue[0]
                },
            },
    {
        let ghost before = self@;
        match self.find(id) {
            None => Err(StoreError::SubscriptionDropped),
            Some(i) => {
                if self.list[i].queue.len() == 0 {
                    return Ok(None);
                }
                let mut s = self.list.remove(i);
                let ghost q = views(s.queue@);
                let event = s.queue.remove(0);
                assert(views(s.queue@) =~= q.skip(1));
                self.list.insert(i, s);
                proof {
                    let old_s = before.list[i as int];
                    let to = SubscriptionView { queue: old_s.queue.skip(1), ..old_s };
                    assert(self@.list =~= before.list.update(i as int, to));
                    lemma_updated(before, i as int, to);
                }
                Ok(Some(event))
            },
        }
    }
}

proof fn lemma_removed(s: SubscribersView, i: int)
    requires
        s.wf(),
        0 <= i < s.list.len(),
    ensures
        (SubscribersView { list: s.list.remove(i), ..s }).wf(),
{
    let rest = s.list.remove(i);
    assert forall|a: int, b: int| 0 <= a < b < rest.len() implies (#[trigger] rest[a]).id != (
    #[trigger] rest[b]).id by {
        let p = if a < i { a } else { a + 1 };
        let q = if b < i { b } else { b + 1 };
        assert(rest[a] == s.list[p] && rest[b] == s.list[q]);
    }
    assert forall|a: int| 0 <= a < rest.len() implies (#[trigger] rest[a]).id.0 < s.next_id by {
        let p = if a < i { a } else { a + 1 };
        assert(rest[a] == s.list[p]);
    }
}

proof fn lemma_updated(s: SubscribersView, i: int, to: SubscriptionView)
    requires
        s.wf(),
        0 <= i < s.list.len(),
        to.id == s.list[i].id,
    ensures
        (SubscribersView { list: s.list.update(i, to), ..s }).wf(),
{
    let list = s.list.update(i, to);
    assert forall|a: int, b: int| 0 <= a < b < list.len() implies (#[trigger] list[a]).id != (
    #[trigger] list[b]).id by {
        assert(list[a].id == s.list[a].id && list[b].id == s.list[b].id);
    }
    assert forall|a: int| 0 <= a < list.len() implies (#[trigger] list[a]).id.0 < s.next_id by {
        assert(list[a].id == s.list[a].id);
    }
}

pub proof fn lemma_place(list: Seq<SubscriptionView>, id: SubscriptionId)
    ensures
        match place_of(list, id) {
            Some(i) => 0 <= i < list.len() && list[i].id == id,
            None => forall|i: int| 0 <= i < list.len() ==> (#[trigger] list[i]).id != id,
        },
    decreases list.len(),
{
    if list.len() > 0 {
        lemma_place(list.drop_last(), id);
        assert(list[list.len() - 1] == list.last());
        if list.last().id != id && place_of(list.drop_last(), id) is None {
            assert forall|i: int| 0 <= i < list.len() implies (#[trigger] list[i]).id != id by {
                if i < list.len() - 1 {
                    assert(list.drop_last()[i] == list[i]);
                }
            }
        }
    }
}

pub proof fn lemma_place_update(
    list: Seq<SubscriptionView>,
    i: int,
    to: SubscriptionView,
    id: SubscriptionId,
)
    requires
        0 <= i < list.len(),
        to.id == list[i].id,
    ensures
        place_of(list.update(i, to), id) == place_of(list, id),
    decreases list.len(),
{
    let u = list.update(i, to);
    if i == list.len() - 1 {
        assert(u.drop_last() =~= list.drop_last());
    } else {
        assert(u.drop_last() =~= list.drop_last().update(i, to));
        lemma_place_update(list.drop_last(), i, to, id);
        assert(u.last() == list.last());
    }
}

proof fn lemma_gone(s: SubscribersView, id: SubscriptionId, e: EventView)
    requires
        s.wf(),
        !(s.get(id) matches Some(x) && x.has_room()),
    ensures
        place_of(s.sent(id, e).list, id) is None,
{
    lemma_place(s.list, id);
    let after = s.sent(id, e).list;
    lemma_place(after, id);
    if let Some(i) = place_of(s.list, id) {
        assert forall|a: int| 0 <= a < after.len() implies (#[trigger] after[a]).id != id by {
            let p = if a < i { a } else { a + 1 };
            assert(after[a] == s.list[p]);
            if p < i {
                assert(s.list[p].id != s.list[i].id);
            } else {
                assert(s.list[i].id != s.list[p].id);
            }
        }
    }
}

/// Who is left after an event was there before it.
proof fn lemma_after_event(list: Seq<SubscriptionView>, e: EventView)
    ensures
        forall|a: int|
            0 <= a < after_event(list, e).len() ==> exists|k: int|
                0 <= k < list.len() && (#[trigger] list[k]).id == (#[trigger] after_event(
                    list,
                    e,
                )[a]).id,
    decreases list.len(),
{
    if list.len() > 0 {
        let init = list.drop_last();
        lemma_after_event(init, e);
        let before = after_event(init, e);
        let after = after_event(list, e);
        assert forall|a: int| 0 <= a < after.len() implies exists|k: int|
            0 <= k < list.len() && (#[trigger] list[k]).id == (#[trigger] after[a]).id by {
            if a < before.len() {
                assert(after[a] == before[a]);
                let k = choose|k: int| 0 <= k < init.len() && (#[trigger] init[k]).id == before[a].id;
                assert(list[k] == init[k]);
            } else {
                assert(list[list.len() - 1].id == after[a].id);
            }
        }
    }
}

/// The subscribers with the ids of those that an event leaves are in the order as before.
proof fn lemma_order_kept(s: SubscribersView, e: EventView, a: int, b: int)
    requires
        s.wf(),
        0 <= a < b < after_event(s.list, e).len(),
    ensures
        after_event(s.list, e)[a].id != after_event(s.list, e)[b].id,
    decreases s.list.len(),
{
    let list = s.list;
    let init = list.drop_last();
    let before = after_event(init, e);
    let after = after_event(list, e);
    let si = SubscribersView { list: init, ..s };
    assert forall|i: int, j: int| 0 <= i < j < init.len() implies (#[trigger] init[i]).id != (
    #[trigger] init[j]).id by {
        assert(init[i] == list[i] && init[j] == list[j]);
    }
    assert forall|i: int| 0 <= i < init.len() implies (#[trigger] init[i]).id.0 < s.next_id by {
        assert(init[i] == list[i]);
    }
    if b < before.len() {
        lemma_order_kept(si, e, a, b);
        assert(after[a] == before[a] && after[b] == before[b]);
    } else {
        assert(after[b].id == list.last().id);
        assert(after[a] == before[a]);
        lemma_after_event(init, e);
        let k = choose|k: int| 0 <= k < init.len() && (#[trigger] init[k]).id == before[a].id;
        assert(init[k] == list[k]);
        assert(list[k].id != list[list.len() - 1].id);
    }
}

/// What becomes of a subscriber when an event is sent to all.
pub open spec fn heard(s: SubscriptionView, e: EventView) -> Option<SubscriptionView> {
    if !(s.caught_up && wants(s.config.filter, e)) {
        Some(s)
    } else if s.has_room() {
        Some(s.given(e))
    } else {
        None
    }
}

/// Each hears what it wants: an event waits, behind those that wait already, for every
/// subscriber who is live, wants it and has room; who has no room is dropped, and everyone
/// else is as before.
pub proof fn each_hears_what_it_wants(s: SubscribersView, id: SubscriptionId, e: EventView)
    requires
        s.wf(),
    ensures
        s.broadcast(e).get(id) == (match s.get(id) {
            Some(x) => heard(x, e),
            None => None,
        }),
    decreases s.list.len(),
{
    let list = s.list;
    if list.len() > 0 {
        let init = list.drop_last();
        let si = SubscribersView { list: init, ..s };
        assert forall|i: int, j: int| 0 <= i < j < init.len() implies (#[trigger] init[i]).id != (
        #[trigger] init[j]).id by {
            assert(init[i] == list[i] && init[j] == list[j]);
        }
        assert forall|i: int| 0 <= i < init.len() implies (#[trigger] init[i]).id.0 < s.next_id by {
            assert(init[i] == list[i]);
        }
        each_hears_what_it_wants(si, id, e);
        let before = after_event(init, e);
        let after = after_event(list, e);
        lemma_place(init, id);
        lemma_place(before, id);
        if heard(list.last(), e) is Some {
            assert(after.drop_last() =~= before);
        } else if list.last().id == id {
            if let Some(i) = place_of(init, id) {
                assert(list[i].id != list[list.len() - 1].id);
            }
        }
    }
}

/// Who unsubscribed hears of nothing any more.
pub proof fn unsubscribed_hears_nothing(s: SubscribersView, id: SubscriptionId, e: EventView)
    requires
        s.wf(),
        s.get(id) is None,
    ensures
        s.broadcast(e).get(id) is None,
{
    each_hears_what_it_wants(s, id, e);
}

} // verus!
