//! How operations change what a store holds.
use crate::branches::manager::{current_missing, with_head, BranchesView};
use crate::error::{ErrorView, StoreError};
use crate::json::array_text;
use crate::records::index::added_record;
use crate::state::chain::{broken_chain, chain, value_of, value_until, ChainView};
use crate::state::manager::{cache_key, head_after, head_at, snapshot_due, strategy_of, SnapshotNeeded, StateIndexView};
use crate::state::operations::edit_out_of_bounds;
use crate::state::walks::{delta_items, tree_delta};
use crate::store::StoreView;
use crate::subscriptions::types::{summary_of, EventView, PAYLOAD_THRESHOLD};
use crate::text::{debug_quoted, decimal};
use crate::types::{BranchId, BranchView, OperationView, RecordId, RecordInputView, RecordView, Sequence, StateUpdateRecord, StrategyView, Timestamp, UpdateView};
use crate::wal::log::{WalOpView, WalView};
use vstd::prelude::*;

verus! {

/// The sequence behind another; the largest stays.
pub open spec fn after(s: Sequence) -> Sequence {
    if s.0 < u64::MAX {
        Sequence((s.0 + 1) as u64)
    } else {
        s
    }
}

/// Whether a write-ahead log went from one value to another by logging and committing an
/// operation, at whatever times.
pub open spec fn logged_and_committed(before: WalView, op: WalOpView, now: WalView) -> bool {
    exists|t1: u64, t2: u64|
        now == #[trigger] before.logged(op, t1).committed(before.next_seq, t2)
}

/// The branches once the head of one moved.
pub open spec fn moved_head(b: BranchesView, id: BranchId, head: Sequence) -> BranchesView {
    BranchesView { branches: with_head(b.branches, id, head), ..b }
}

/// The store once a record was written, indexed, and made the head of its branch.
pub open spec fn with_record(s: StoreView, r: RecordView, wal: WalView) -> StoreView {
    StoreView {
        log: s.log.appended(r),
        added: s.added.push(added_record(s.log.bytes.len() as u64, r)),
        branches: moved_head(s.branches, r.branch, r.sequence),
        wal,
        ..s
    }
}

/// The record that an input makes on a branch.
pub open spec fn next_record(
    s: StoreView,
    input: RecordInputView,
    b: BranchView,
    timestamp: Timestamp,
) -> RecordView {
    input.record(RecordId(s.log.next_id), after(b.head), b.id, timestamp)
}

/// The numbers of record ids.
pub open spec fn raw_ids(ids: Seq<RecordId>) -> Seq<u64> {
    ids.map_values(|id: RecordId| id.0)
}

/// What the write-ahead log notes before a record is appended.
pub open spec fn append_intent(s: StoreView, input: RecordInputView, b: BranchView) -> WalOpView {
    WalOpView::AppendRecord {
        record_type: input.record_type,
        payload: input.payload,
        encoding: crate::records::codec::encoding_byte(input.encoding),
        caused_by: raw_ids(input.caused_by),
        linked_to: raw_ids(input.linked_to),
        branch_id: b.id.0,
        log_fence: s.log.bytes.len() as u64,
    }
}

/// The store once a record was appended and subscribers were told.
pub open spec fn appended(s: StoreView, r: RecordView, b: BranchView, wal: WalView) -> StoreView {
    StoreView {
        subscribers: s.subscribers.broadcast(
            EventView::Record { record: summary_of(r, PAYLOAD_THRESHOLD as nat) },
        ).broadcast(EventView::BranchHead { branch: b.name, head: r.sequence }),
        ..with_record(s, r, wal)
    }
}

/// The update that an operation makes of a state.
pub open spec fn next_update(
    s: StoreView,
    id: Seq<char>,
    op: OperationView,
    b: BranchView,
    timestamp: Timestamp,
) -> UpdateView {
    UpdateView {
        record_id: RecordId(0),
        global_sequence: after(b.head),
        state_id: id,
        prev_update_offset: match head_at(s.states, b.id, id) {
            Some(h) => Some(h.head_offset),
            None => None,
        },
        operation: op,
        timestamp,
    }
}

/// The input that an encoded state update makes.
pub open spec fn update_input(payload: Seq<u8>) -> RecordInputView {
    RecordInputView {
        record_type: "state_update"@,
        payload,
        encoding: crate::types::PayloadEncoding::Raw,
        caused_by: Seq::empty(),
        linked_to: Seq::empty(),
    }
}

/// What the write-ahead log notes before a state update is recorded.
pub open spec fn update_intent(s: StoreView, id: Seq<char>, payload: Seq<u8>, b: BranchView) -> WalOpView {
    WalOpView::UpdateState {
        state_id: id,
        operation_data: payload,
        branch_id: b.id.0,
        log_fence: s.log.bytes.len() as u64,
    }
}

/// The store once a state update was recorded and subscribers were told.
pub open spec fn updated(
    s: StoreView,
    r: RecordView,
    u: UpdateView,
    b: BranchView,
    wal: WalView,
) -> StoreView {
    let offset = s.log.bytes.len() as u64;
    StoreView {
        states: StateIndexView {
            heads: s.states.heads.insert(
                (b.id, u.state_id),
                head_after(head_at(s.states, b.id, u.state_id), offset, u.operation),
            ),
            ..s.states
        },
        cached: crate::cache::without(s.cached, cache_key(b.id, u.state_id)),
        updates: s.updates.push((offset, u)),
        subscribers: s.subscribers.broadcast(
            EventView::StateDelta {
                state_id: u.state_id,
                operation: u.operation,
                sequence: r.sequence,
            },
        ).broadcast(EventView::BranchHead { branch: b.name, head: r.sequence }),
        ..with_record(s, r, wal)
    }
}

/// Whether an encoder can be called for every update.
pub open spec fn encodes<E: Fn(&StateUpdateRecord) -> Result<Vec<u8>, StoreError>>(
    encode: E,
) -> bool {
    forall|u: &StateUpdateRecord| #[trigger] call_requires(encode, (u,))
}

/// Whether an encoder may give a payload for an update.
pub open spec fn encoded<E: Fn(&StateUpdateRecord) -> Result<Vec<u8>, StoreError>>(
    encode: E,
    u: UpdateView,
    payload: Seq<u8>,
) -> bool {
    exists|x: StateUpdateRecord, p: Vec<u8>|
        x@ == u && p@ == payload && #[trigger] call_ensures(encode, (&x,), Ok(p))
}

/// Whether an encoder may fail for an update.
pub open spec fn refused<E: Fn(&StateUpdateRecord) -> Result<Vec<u8>, StoreError>>(
    encode: E,
    u: UpdateView,
    e: ErrorView,
) -> bool {
    exists|x: StateUpdateRecord, err: StoreError|
        x@ == u && err@ == e && #[trigger] call_ensures(encode, (&x,), Err(err))
}

/// The text of a strategy.
pub open spec fn strategy_text(s: StrategyView) -> Seq<char>
    decreases s,
{
    match s {
        StrategyView::Snapshot => "Snapshot"@,
        StrategyView::Delta { snapshot_every } => "Delta { snapshot_every: "@ + decimal(
            snapshot_every as nat,
        ) + " }"@,
        StrategyView::AppendLog { delta_snapshot_every, full_snapshot_every } => "AppendLog"@
            + frequencies_text(delta_snapshot_every, full_snapshot_every),
        StrategyView::Tree { delta_snapshot_every, full_snapshot_every } => "Tree"@
            + frequencies_text(delta_snapshot_every, full_snapshot_every),
        StrategyView::Struct { fields } => "Struct { fields: {"@ + fields_text(fields) + "} }"@,
    }
}

/// The text of the fields of a structure.
pub open spec fn fields_text(fields: Seq<(Seq<char>, StrategyView)>) -> Seq<char>
    decreases fields,
{
    if fields.len() == 0 {
        Seq::empty()
    } else {
        let (name, strategy) = fields.last();
        let before = fields_text(fields.drop_last());
        (if fields.len() == 1 {
            before
        } else {
            before + ", "@
        }) + debug_quoted(name) + ": "@ + strategy_text(fields.last().1)
    }
}

/// The text of snapshot frequencies.
pub open spec fn frequencies_text(delta: u64, full: u64) -> Seq<char> {
    " { delta_snapshot_every: "@ + decimal(delta as nat) + ", full_snapshot_every: "@ + decimal(
        full as nat,
    ) + " }"@
}

/// Why an operation does not go with a strategy.
pub open spec fn strategy_error(id: Seq<char>, strategy: StrategyView, op: OperationView) -> Option<
    ErrorView,
> {
    if (op is Append || op is Edit || op is Redact) && !(strategy is AppendLog) {
        Some(
            ErrorView::InvalidOperation(
                "Append/Edit/Redact operations require AppendLog strategy, state '"@ + id
                    + "' uses "@ + strategy_text(strategy),
            ),
        )
    } else if (op is TreeSet || op is TreeRemove || op is TreeBatch) && !(strategy is Tree) {
        Some(
            ErrorView::InvalidOperation(
                "Tree operations require Tree strategy, state '"@ + id + "' uses "@
                    + strategy_text(strategy),
            ),
        )
    } else {
        None
    }
}

/// The number of items of a state on a branch, as its head counts them.
pub open spec fn counted_items(s: StoreView, branch: BranchId, id: Seq<char>) -> usize {
    match head_at(s.states, branch, id) {
        Some(h) => h.item_count,
        None => 0,
    }
}

/// Why an operation on a state is refused.
pub open spec fn update_error(s: StoreView, id: Seq<char>, op: OperationView) -> Option<ErrorView> {
    match s.branches.current_branch() {
        None => Some(current_missing(s.branches.current)),
        Some(b) => match strategy_of(s.states.strategies, id) {
            None => Some(ErrorView::StateNotRegistered(id)),
            Some(strategy) => match strategy_error(id, strategy, op) {
                Some(e) => Some(e),
                None => match op {
                    OperationView::Edit { index, .. } if index >= counted_items(
                        s,
                        b.id,
                        id,
                    ) => Some(edit_out_of_bounds(index, counted_items(s, b.id, id) as nat)),
                    _ => match head_at(s.states, b.id, id) {
                        Some(h) if h.head_offset >= s.log.bytes.len() => Some(broken_chain()),
                        _ => None,
                    },
                },
            },
        },
    }
}

/// Whether recording an operation led from one store to another with an outcome. A refused
/// operation, or one that does not encode, leaves the store as it was.
pub open spec fn recorded<E: Fn(&StateUpdateRecord) -> Result<Vec<u8>, StoreError>>(
    encode: E,
    s: StoreView,
    id: Seq<char>,
    op: OperationView,
    now: StoreView,
    r: Result<RecordView, ErrorView>,
) -> bool {
    match update_error(s, id, op) {
        Some(e) => r == Err::<RecordView, ErrorView>(e) && now == s,
        None => {
            let b = s.branches.current_branch()->0;
            match r {
                Err(e) => now == s && exists|ts: Timestamp|
                    ts.0 >= s.log.last.0 && #[trigger] refused(
                        encode,
                        next_update(s, id, op, b, ts),
                        e,
                    ),
                Ok(record) => exists|ts: Timestamp, payload: Seq<u8>| #[trigger]
                    recorded_as(encode, s, id, op, now, record, b, ts, payload),
            }
        },
    }
}

/// Whether recording an operation at a time, with a payload, led from one store to another.
pub open spec fn recorded_as<E: Fn(&StateUpdateRecord) -> Result<Vec<u8>, StoreError>>(
    encode: E,
    s: StoreView,
    id: Seq<char>,
    op: OperationView,
    now: StoreView,
    record: RecordView,
    b: BranchView,
    ts: Timestamp,
    payload: Seq<u8>,
) -> bool {
    let u = next_update(s, id, op, b, ts);
    &&& ts.0 >= s.log.last.0
    &&& record.timestamp.0 >= ts.0
    &&& encoded(encode, u, payload)
    &&& record == next_record(s, update_input(payload), b, record.timestamp)
    &&& now == updated(s, record, u, b, now.wal)
    &&& logged_and_committed(s.wal, update_intent(s, id, payload, b), now.wal)
}

/// The chain of a state on a branch.
pub open spec fn chain_of(s: StoreView, branch: BranchId, id: Seq<char>) -> ChainView {
    chain(
        s.log.bytes,
        s.updates,
        match head_at(s.states, branch, id) {
            Some(h) => Some(h.head_offset),
            None => None,
        },
    )
}

/// The value of a state on a branch, if it has one.
pub open spec fn state_value(s: StoreView, branch: BranchId, id: Seq<char>) -> Result<
    Option<Seq<u8>>,
    ErrorView,
> {
    match head_at(s.states, branch, id) {
        None => Ok(None),
        Some(_) => match value_of(chain_of(s, branch, id)) {
            Ok(v) => Ok(Some(v)),
            Err(e) => Err(e),
        },
    }
}

/// The value of a state on a branch at a sequence, if it had one.
pub open spec fn state_value_at(
    s: StoreView,
    branch: BranchId,
    id: Seq<char>,
    at: Sequence,
) -> Result<Option<Seq<u8>>, ErrorView> {
    match head_at(s.states, branch, id) {
        None => Ok(None),
        Some(_) => value_until(chain_of(s, branch, id), at),
    }
}

/// The snapshot that is due for a state on a branch, as the operation that records it.
pub open spec fn due_operation(s: StoreView, branch: BranchId, id: Seq<char>) -> Option<
    Result<OperationView, ErrorView>,
> {
    match snapshot_due(s.states, branch, id) {
        None => None,
        Some(SnapshotNeeded::Full) => Some(
            match state_value(s, branch, id) {
                Ok(Some(v)) => Ok(OperationView::Snapshot(v)),
                Ok(None) => Ok(OperationView::Snapshot(Seq::empty())),
                Err(e) => Err(e),
            },
        ),
        Some(SnapshotNeeded::Delta) => Some(
            if strategy_of(s.states.strategies, id) matches Some(StrategyView::Tree { .. }) {
                match tree_delta(chain_of(s, branch, id), Seq::empty()) {
                    Ok(ops) => Ok(OperationView::TreeDeltaSnapshot(ops)),
                    Err(e) => Err(e),
                }
            } else {
                match delta_items(chain_of(s, branch, id)) {
                    Ok(items) => Ok(OperationView::DeltaSnapshot(array_text(items))),
                    Err(e) => Err(e),
                }
            },
        ),
    }
}

/// Whether two stores differ in what is cached alone.
pub open spec fn same_but_cache(s: StoreView, now: StoreView) -> bool {
    now == (StoreView { cached: now.cached, ..s })
}

/// Whether taking the snapshot that is due led from one store to another with an outcome.
pub open spec fn snapshot_taken<E: Fn(&StateUpdateRecord) -> Result<Vec<u8>, StoreError>>(
    encode: E,
    s: StoreView,
    id: Seq<char>,
    now: StoreView,
    r: Result<Option<RecordView>, ErrorView>,
) -> bool {
    match s.branches.current_branch() {
        None => r == Err::<Option<RecordView>, ErrorView>(current_missing(s.branches.current))
            && now == s,
        Some(b) => match due_operation(s, b.id, id) {
            None => r == Ok::<Option<RecordView>, ErrorView>(None) && now == s,
            Some(Err(e)) => r == Err::<Option<RecordView>, ErrorView>(e) && same_but_cache(s, now),
            Some(Ok(op)) => exists|mid: StoreView| #[trigger]
                same_but_cache(s, mid) && mid.wf() && (match r {
                    Ok(Some(record)) => recorded(encode, mid, id, op, now, Ok(record)),
                    Ok(None) => false,
                    Err(e) => recorded(encode, mid, id, op, now, Err(e)),
                }),
        },
    }
}

/// Whether recording an operation, and taking the snapshot that is due then, led from one
/// store to another with an outcome.
pub open spec fn recorded_with_snapshot<
    E: Fn(&StateUpdateRecord) -> Result<Vec<u8>, StoreError>,
>(
    encode: E,
    s: StoreView,
    id: Seq<char>,
    op: OperationView,
    now: StoreView,
    r: Result<RecordView, ErrorView>,
) -> bool {
    ||| r is Err && recorded(encode, s, id, op, now, r)
    ||| exists|mid: StoreView, record: RecordView|
        #![trigger recorded(encode, s, id, op, mid, Ok(record))]
        recorded(encode, s, id, op, mid, Ok(record)) && mid.wf() && (match r {
            Ok(x) => x == record && exists|taken: Option<RecordView>| #[trigger]
                snapshot_taken(encode, mid, id, now, Ok(taken)),
            Err(e) => snapshot_taken(encode, mid, id, now, Err(e)),
        })
}

} // verus!
