//! Events, and what a subscriber asks for.
use crate::bytes::copied;
use crate::text::same_text;
use crate::types::{opt_view, views, BranchId, BranchView, OperationView, Record, RecordId, RecordView, Sequence, StateOperation, Timestamp};
use vstd::prelude::*;
use vstd::string::*;

verus! {

/// Unique identifier for a subscription.
#[derive(Clone, Copy, Debug, PartialEq, Eq, Structural)]
pub struct SubscriptionId(pub u64);

/// Filter criteria for subscriptions.
#[derive(Debug)]
pub struct SubscriptionFilter {
    /// Filter by record types (None = all).
    pub record_types: Option<Vec<String>>,
    /// Filter branch events by branch name.
    pub branch: Option<String>,
    /// Subscribe to specific state IDs (None = all).
    pub state_ids: Option<Vec<String>>,
    /// Include record events.
    pub include_records: bool,
    /// Include state change events.
    pub include_state_changes: bool,
    /// Include branch events.
    pub include_branch_events: bool,
}

/// A filter as a mathematical value.
pub struct FilterView {
    pub record_types: Option<Seq<Seq<char>>>,
    pub branch: Option<Seq<char>>,
    pub state_ids: Option<Seq<Seq<char>>>,
    pub include_records: bool,
    pub include_state_changes: bool,
    pub include_branch_events: bool,
}

/// The texts of an optional list.
pub open spec fn list_view(v: Option<Vec<String>>) -> Option<Seq<Seq<char>>> {
    match v {
        Some(l) => Some(views(l@)),
        None => None,
    }
}

impl View for SubscriptionFilter {
    type V = FilterView;

    open spec fn view(&self) -> FilterView {
        FilterView {
            record_types: list_view(self.record_types),
            branch: opt_view(self.branch),
            state_ids: list_view(self.state_ids),
            include_records: self.include_records,
            include_state_changes: self.include_state_changes,
            include_branch_events: self.include_branch_events,
        }
    }
}

/// Whether an optional list lets a text through.
pub open spec fn lets_through(list: Option<Seq<Seq<char>>>, text: Seq<char>) -> bool {
    match list {
        Some(l) => l.contains(text),
        None => true,
    }
}

/// Whether a list of strings holds a text.
pub fn contains_text(list: &[String], text: &str) -> (r: bool)
    ensures
        r == views(list@).contains(text@),
{
    let ghost all = views(list@);
    let mut i: usize = 0;
    while i < list.len()
        invariant
            all == views(list@),
            i <= list@.len(),
            forall|j: int| 0 <= j < i ==> #[trigger] all[j] != text@,
        decreases list@.len() - i,
    {
        assert(all[i as int] == list@[i as int]@);
        if same_text(list[i].as_str(), text) {
            return true;
        }
        i += 1;
    }
    false
}

/// Whether an optional list lets a text through.
pub fn passes(list: &Option<Vec<String>>, text: &str) -> (r: bool)
    ensures
        r == lets_through(list_view(*list), text@),
{
    match list {
        Some(l) => contains_text(l.as_slice(), text),
        None => true,
    }
}

impl SubscriptionFilter {
    /// A filter that lets nothing through.
    pub fn none() -> (f: Self)
        ensures
            f@ == (FilterView {
                record_types: None,
                branch: None,
                state_ids: None,
                include_records: false,
                include_state_changes: false,
                include_branch_events: false,
            }),
    {
        SubscriptionFilter {
            record_types: None,
            branch: None,
            state_ids: None,
            include_records: false,
            include_state_changes: false,
            include_branch_events: false,
        }
    }

    /// A filter for all records.
    pub fn records() -> (f: Self)
        ensures
            f@ == (FilterView {
                record_types: None,
                branch: None,
                state_ids: None,
                include_records: true,
                include_state_changes: false,
                include_branch_events: false,
            }),
    {
        SubscriptionFilter { include_records: true, ..SubscriptionFilter::none() }
    }

    /// A filter for records of the given types.
    pub fn record_types(types: Vec<String>) -> (f: Self)
        ensures
            f@ == (FilterView {
                record_types: Some(views(types@)),
                branch: None,
                state_ids: None,
                include_records: true,
                include_state_changes: false,
                include_branch_events: false,
            }),
    {
        SubscriptionFilter {
            record_types: Some(types),
            include_records: true,
            ..SubscriptionFilter::none()
        }
    }

    /// A filter that lets everything through.
    pub fn all() -> (f: Self)
        ensures
            f@ == (FilterView {
                record_types: None,
                branch: None,
                state_ids: None,
                include_records: true,
                include_state_changes: true,
                include_branch_events: true,
            }),
    {
        SubscriptionFilter {
            record_types: None,
            branch: None,
            state_ids: None,
            include_records: true,
            include_state_changes: true,
            include_branch_events: true,
        }
    }

    /// A filter for changes of the given states.
    pub fn states(ids: Vec<String>) -> (f: Self)
        ensures
            f@ == (FilterView {
                record_types: None,
                branch: None,
                state_ids: Some(views(ids@)),
                include_records: false,
                include_state_changes: true,
                include_branch_events: false,
            }),
    {
        SubscriptionFilter {
            state_ids: Some(ids),
            include_state_changes: true,
            ..SubscriptionFilter::none()
        }
    }

    /// A filter for branch events.
    pub fn branches() -> (f: Self)
        ensures
            f@ == (FilterView {
                record_types: None,
                branch: None,
                state_ids: None,
                include_records: false,
                include_state_changes: false,
                include_branch_events: true,
            }),
    {
        SubscriptionFilter { include_branch_events: true, ..SubscriptionFilter::none() }
    }
}

/// Default number of events that a queue holds.
pub const DEFAULT_BUFFER_SIZE: usize = 1000;

/// Default limit for the bytes of a state snapshot.
pub const DEFAULT_MAX_SNAPSHOT_BYTES: usize = 10 * 1024 * 1024;

/// Payloads up to this size are sent along with a record.
pub const PAYLOAD_THRESHOLD: usize = 4096;

/// Configuration for creating a subscription.
#[derive(Debug)]
pub struct SubscriptionConfig {
    /// Max buffered events before dropping subscriber.
    pub buffer_size: usize,
    /// Max bytes for state snapshots.
    pub max_snapshot_bytes: usize,
    /// Starting sequence for catch-up (None = live only).
    pub from_sequence: Option<Sequence>,
    /// Filter criteria.
    pub filter: SubscriptionFilter,
}

/// A configuration as a mathematical value.
pub struct ConfigView {
    pub buffer_size: usize,
    pub max_snapshot_bytes: usize,
    pub from_sequence: Option<Sequence>,
    pub filter: FilterView,
}

impl View for SubscriptionConfig {
    type V = ConfigView;

    open spec fn view(&self) -> ConfigView {
        ConfigView {
            buffer_size: self.buffer_size,
            max_snapshot_bytes: self.max_snapshot_bytes,
            from_sequence: self.from_sequence,
            filter: self.filter@,
        }
    }
}

impl Default for SubscriptionConfig {
    fn default() -> (c: Self)
        ensures
            c.buffer_size == DEFAULT_BUFFER_SIZE,
            c.max_snapshot_bytes == DEFAULT_MAX_SNAPSHOT_BYTES,
            c.from_sequence is None,
            c.filter@ == (FilterView {
                record_types: None,
                branch: None,
                state_ids: None,
                include_records: false,
                include_state_changes: false,
                include_branch_events: false,
            }),
    {
        SubscriptionConfig {
            buffer_size: DEFAULT_BUFFER_SIZE,
            max_snapshot_bytes: DEFAULT_MAX_SNAPSHOT_BYTES,
            from_sequence: None,
            filter: SubscriptionFilter::none(),
        }
    }
}

/// A record as subscribers see it: a large payload is left out.
#[derive(Debug)]
pub struct RecordSummary {
    pub id: RecordId,
    pub sequence: Sequence,
    pub branch: BranchId,
    pub record_type: String,
    pub timestamp: Timestamp,
    pub payload: Option<Vec<u8>>,
    pub payload_size: usize,
    pub caused_by: Vec<RecordId>,
    pub linked_to: Vec<RecordId>,
}

/// A record summary as a mathematical value.
pub struct SummaryView {
    pub id: RecordId,
    pub sequence: Sequence,
    pub branch: BranchId,
    pub record_type: Seq<char>,
    pub timestamp: Timestamp,
    pub payload: Option<Seq<u8>>,
    pub payload_size: nat,
    pub caused_by: Seq<RecordId>,
    pub linked_to: Seq<RecordId>,
}

impl View for RecordSummary {
    type V = SummaryView;

    open spec fn view(&self) -> SummaryView {
        SummaryView {
            id: self.id,
            sequence: self.sequence,
            branch: self.branch,
            record_type: self.record_type@,
            timestamp: self.timestamp,
            payload: opt_view(self.payload),
            payload_size: self.payload_size as nat,
            caused_by: self.caused_by@,
            linked_to: self.linked_to@,
        }
    }
}

/// The summary of a record.
pub open spec fn summary_of(r: RecordView, threshold: nat) -> SummaryView {
    SummaryView {
        id: r.id,
        sequence: r.sequence,
        branch: r.branch,
        record_type: r.record_type,
        timestamp: r.timestamp,
        payload: if r.payload.len() <= threshold {
            Some(r.payload)
        } else {
            None
        },
        payload_size: r.payload.len(),
        caused_by: r.caused_by,
        linked_to: r.linked_to,
    }
}

impl RecordSummary {
    /// The summary of a record: its payload is sent along up to the threshold.
    pub fn from_record(record: &Record, payload_threshold: usize) -> (s: Self)
        ensures
            s@ == summary_of(record@, payload_threshold as nat),
    {
        RecordSummary {
            id: record.id,
            sequence: record.sequence,
            branch: record.branch,
            record_type: record.record_type.clone(),
            timestamp: record.timestamp,
            payload: if record.payload.len() <= payload_threshold {
                Some(copied(&record.payload))
            } else {
                None
            },
            payload_size: record.payload.len(),
            caused_by: copied(&record.caused_by),
            linked_to: copied(&record.linked_to),
        }
    }
}

impl Clone for RecordSummary {
    fn clone(&self) -> (r: Self)
        ensures
            r@ == self@,
    {
        RecordSummary {
            id: self.id,
            sequence: self.sequence,
            branch: self.branch,
            record_type: self.record_type.clone(),
            timestamp: self.timestamp,
            payload: match &self.payload {
                Some(p) => Some(copied(p)),
                None => None,
            },
            payload_size: self.payload_size,
            caused_by: copied(&self.caused_by),
            linked_to: copied(&self.linked_to),
        }
    }
}

/// A branch as subscribers see it.
#[derive(Debug)]
pub struct BranchSummary {
    pub id: BranchId,
    pub name: String,
    pub head: Sequence,
    pub parent: Option<String>,
}

/// A branch summary as a mathematical value.
pub struct BranchSummaryView {
    pub id: BranchId,
    pub name: Seq<char>,
    pub head: Sequence,
    pub parent: Option<Seq<char>>,
}

impl View for BranchSummary {
    type V = BranchSummaryView;

    open spec fn view(&self) -> BranchSummaryView {
        BranchSummaryView {
            id: self.id,
            name: self.name@,
            head: self.head,
            parent: opt_view(self.parent),
        }
    }
}

impl Clone for BranchSummary {
    fn clone(&self) -> (r: Self)
        ensures
            r@ == self@,
    {
        BranchSummary {
            id: self.id,
            name: self.name.clone(),
            head: self.head,
            parent: match &self.parent {
                Some(p) => Some(p.clone()),
                None => None,
            },
        }
    }
}

/// The summary of a branch.
pub open spec fn branch_summary(b: BranchView, parent: Option<Seq<char>>) -> BranchSummaryView {
    BranchSummaryView { id: b.id, name: b.name, head: b.head, parent }
}

/// Why a subscriber was dropped.
#[derive(Clone, Copy, Debug, PartialEq, Eq, Structural)]
pub enum DropReason {
    /// The queue of the subscriber was full.
    BufferOverflow,
}

/// An event of a store.
#[allow(inconsistent_fields)]
#[derive(Debug)]
pub enum StoreEvent {
    /// A record was appended.
    Record { record: RecordSummary },
    /// The value of a state, or the end of it. The data is JSON.
    StateSnapshot {
        state_id: String,
        data: Vec<u8>,
        sequence: Sequence,
        truncated: bool,
        total_bytes: usize,
        from_index: Option<usize>,
        total_length: Option<usize>,
    },
    /// A state was changed.
    StateDelta { state_id: String, operation: StateOperation, sequence: Sequence },
    /// The head of a branch moved.
    BranchHead { branch: String, head: Sequence },
    /// A branch was created.
    BranchCreated { branch: BranchSummary },
    /// A branch was deleted.
    BranchDeleted { name: String },
    /// All that happened before the subscription went live was sent.
    CaughtUp,
    /// The subscriber was dropped.
    Dropped { reason: DropReason },
}

/// An event as a mathematical value.
#[allow(inconsistent_fields)]
pub enum EventView {
    Record { record: SummaryView },
    StateSnapshot {
        state_id: Seq<char>,
        data: Seq<u8>,
        sequence: Sequence,
        truncated: bool,
        total_bytes: nat,
        from_index: Option<usize>,
        total_length: Option<usize>,
    },
    StateDelta { state_id: Seq<char>, operation: OperationView, sequence: Sequence },
    BranchHead { branch: Seq<char>, head: Sequence },
    BranchCreated { branch: BranchSummaryView },
    BranchDeleted { name: Seq<char> },
    CaughtUp,
    Dropped { reason: DropReason },
}

impl View for StoreEvent {
    type V = EventView;

    open spec fn view(&self) -> EventView {
        match *self {
            StoreEvent::Record { record } => EventView::Record { record: record@ },
            StoreEvent::StateSnapshot {
                state_id,
                data,
                sequence,
                truncated,
                total_bytes,
                from_index,
                total_length,
            } => EventView::StateSnapshot {
                state_id: state_id@,
                data: data@,
                sequence,
                truncated,
                total_bytes: total_bytes as nat,
                from_index,
                total_length,
            },
            StoreEvent::StateDelta { state_id, operation, sequence } => EventView::StateDelta {
                state_id: state_id@,
                operation: operation@,
                sequence,
            },
            StoreEvent::BranchHead { branch, head } => EventView::BranchHead {
                branch: branch@,
                head,
            },
            StoreEvent::BranchCreated { branch } => EventView::BranchCreated { branch: branch@ },
            StoreEvent::BranchDeleted { name } => EventView::BranchDeleted { name: name@ },
            StoreEvent::CaughtUp => EventView::CaughtUp,
            StoreEvent::Dropped { reason } => EventView::Dropped { reason },
        }
    }
}

impl Clone for StoreEvent {
    fn clone(&self) -> (r: Self)
        ensures
            r@ == self@,
    {
        match self {
            StoreEvent::Record { record } => StoreEvent::Record { record: record.clone() },
            StoreEvent::StateSnapshot {
                state_id,
                data,
                sequence,
                truncated,
                total_bytes,
                from_index,
                total_length,
            } => StoreEvent::StateSnapshot {
                state_id: state_id.clone(),
                data: copied(data),
                sequence: *sequence,
                truncated: *truncated,
                total_bytes: *total_bytes,
                from_index: *from_index,
                total_length: *total_length,
            },
            StoreEvent::StateDelta { state_id, operation, sequence } => StoreEvent::StateDelta {
                state_id: state_id.clone(),
                operation: operation.clone(),
                sequence: *sequence,
            },
            StoreEvent::BranchHead { branch, head } => StoreEvent::BranchHead {
                branch: branch.clone(),
                head: *head,
            },
            StoreEvent::BranchCreated { branch } => StoreEvent::BranchCreated {
                branch: branch.clone(),
            },
            StoreEvent::BranchDeleted { name } => StoreEvent::BranchDeleted { name: name.clone() },
            StoreEvent::CaughtUp => StoreEvent::CaughtUp,
            StoreEvent::Dropped { reason } => StoreEvent::Dropped { reason: *reason },
        }
    }
}

/// Whether a filter lets an event through.
pub open spec fn wants(f: FilterView, e: EventView) -> bool {
    match e {
        EventView::Record { record } => f.include_records && lets_through(
            f.record_types,
            record.record_type,
        ),
        EventView::StateSnapshot { state_id, .. } => f.include_state_changes && lets_through(
            f.state_ids,
            state_id,
        ),
        EventView::StateDelta { state_id, .. } => f.include_state_changes && lets_through(
            f.state_ids,
            state_id,
        ),
        EventView::BranchHead { branch, .. } => f.include_branch_events && names_branch(f, branch),
        EventView::BranchCreated { branch } => f.include_branch_events && names_branch(
            f,
            branch.name,
        ),
        EventView::BranchDeleted { name } => f.include_branch_events && names_branch(f, name),
        EventView::CaughtUp => true,
        EventView::Dropped { .. } => true,
    }
}

/// Whether a filter names a branch, or none at all.
pub open spec fn names_branch(f: FilterView, name: Seq<char>) -> bool {
    f.branch is None || f.branch == Some(name)
}

impl SubscriptionFilter {
    fn is_for_branch(&self, name: &str) -> (r: bool)
        ensures
            r == names_branch(self@, name@),
    {
        match &self.branch {
            None => true,
            Some(b) => same_text(b.as_str(), name),
        }
    }

    /// Whether this filter lets an event through.
    pub fn matches_event(&self, event: &StoreEvent) -> (r: bool)
        ensures
            r == wants(self@, event@),
    {
        match event {
            StoreEvent::Record { record } => self.include_records && passes(
                &self.record_types,
                record.record_type.as_str(),
            ),
            StoreEvent::StateSnapshot { state_id, .. } => self.include_state_changes && passes(
                &self.state_ids,
                state_id.as_str(),
            ),
            StoreEvent::StateDelta { state_id, .. } => self.include_state_changes && passes(
                &self.state_ids,
                state_id.as_str(),
            ),
            StoreEvent::BranchHead { branch, .. } => self.include_branch_events
                && self.is_for_branch(branch.as_str()),
            StoreEvent::BranchCreated { branch } => self.include_branch_events
                && self.is_for_branch(branch.name.as_str()),
            StoreEvent::BranchDeleted { name } => self.include_branch_events && self.is_for_branch(
                name.as_str(),
            ),
            StoreEvent::CaughtUp => true,
            StoreEvent::Dropped { .. } => true,
        }
    }
}

} // verus!
