//! Recording state operations, and taking snapshots of states.
use crate::branches::manager::lemma_current;
use crate::error::{ErrorView, StoreError};
use crate::json::{array_text, texts, write_array};
use crate::records::codec::record_bytes;
use crate::state::chain::{out_of_order, table_wf, update_at, TableView};
use crate::state::laws::{appended_since, direct_items, is_tree_step, lemma_direct_plain, only_appends_since, ops_of, same_below, tree_delta_is_since};
use crate::state::manager::{cache_survives_append, cache_valid, entry_valid, snapshot_due, SnapshotNeeded};
use crate::state::operations::{models, out_of_bounds, ItemOp};
use crate::state::walks::{collect_delta_items, collect_tree_delta, delta_items, faithful_chain, tree_delta};
use crate::store::history::{lemma_same_soundness, recording_keeps_sound, sound};
use crate::store::laws::{files_kept, files_updated, is_item_step, items_in, items_in_order, items_kept, items_updated, keeps_items, keeps_tree, payloads_fit, recorded_item_step_keeps_order, recorded_snapshot_keeps_items, recorded_snapshot_keeps_tree, recorded_tree_step_keeps_order, text_in, tree_in_order};
use crate::store::model::{chain_of, due_operation, encoded, encodes, fields_text, frequencies_text, moved_head, next_update, recorded, recorded_as, recorded_with_snapshot, refused, same_but_cache, snapshot_taken, strategy_error, strategy_text, update_error, update_intent, updated};
use crate::store::records::lemma_with_record;
use crate::store::states::lemma_chain_nonempty;
use crate::store::{Store, StoreView};
use crate::text::{debug_string, decimal_string, joined};
use crate::types::{fields_view, views, BranchId, BranchView, OperationView, Record, RecordId, RecordInput, RecordView, StateOperation, StateStrategy, StateUpdateRecord, Timestamp, TreeOp, UpdateView};
use crate::wal::log::{WalOperation, WalView};
use vstd::prelude::*;
use vstd::string::*;

verus! {

fn frequencies_string(delta: u64, full: u64) -> (s: String)
    ensures
        s@ == frequencies_text(delta, full),
{
    let mut s = joined(" { delta_snapshot_every: ", decimal_string(delta).as_str());
    s.append(", full_snapshot_every: ");
    s.append(decimal_string(full).as_str());
    s.append(" }");
    s
}

/// The text of a strategy.
pub fn strategy_string(strategy: &StateStrategy) -> (s: String)
    ensures
        s@ == strategy_text(strategy@),
    decreases strategy,
{
    match strategy {
        StateStrategy::Snapshot => "Snapshot".to_owned(),
        StateStrategy::Delta { snapshot_every } => {
            let mut s = joined(
                "Delta { snapshot_every: ",
                decimal_string(*snapshot_every).as_str(),
            );
            s.append(" }");
            s
        },
        StateStrategy::AppendLog { delta_snapshot_every, full_snapshot_every } => joined(
            "AppendLog",
            frequencies_string(*delta_snapshot_every, *full_snapshot_every).as_str(),
        ),
        StateStrategy::Tree { delta_snapshot_every, full_snapshot_every } => joined(
            "Tree",
            frequencies_string(*delta_snapshot_every, *full_snapshot_every).as_str(),
        ),
        StateStrategy::Struct { fields } => {
            let mut s = "Struct { fields: {".to_owned();
            let mut i: usize = 0;
            assert(fields_view(fields@.take(0)) =~= Seq::empty());
            while i < fields.len()
                invariant
                    i <= fields@.len(),
                    s@ == "Struct { fields: {"@ + fields_text(fields_view(fields@.take(i as int))),
                    decreases_to!(strategy => fields@),
                decreases fields@.len() - i,
            {
                assert(decreases_to!(fields@ => fields@[i as int]));
                let ghost before = s@;
                if i > 0 {
                    s.append(", ");
                }
                s.append(debug_string(fields[i].0.as_str()).as_str());
                s.append(": ");
                s.append(strategy_string(&fields[i].1).as_str());
                proof {
                    let t = fields@.take(i + 1);
                    assert(t.drop_last() =~= fields@.take(i as int));
                    assert(t.last() == fields@[i as int]);
                    lemma_fields_len(fields@.take(i as int));
                    let v = fields_view(t);
                    assert(v.drop_last() =~= fields_view(fields@.take(i as int)));
                    assert(s@ =~= "Struct { fields: {"@ + fields_text(v));
                }
                i += 1;
            }
            assert(fields@.take(i as int) =~= fields@);
            s.append("} }");
            s
        },
    }
}

proof fn lemma_fields_len(fields: Seq<(String, StateStrategy)>)
    ensures
        fields_view(fields).len() == fields.len(),
    decreases fields.len(),
{
    if fields.len() > 0 {
        lemma_fields_len(fields.drop_last());
    }
}

fn mismatch(what: &str, id: &str, strategy: &StateStrategy) -> (e: StoreError)
    ensures
        e@ == ErrorView::InvalidOperation(what@ + id@ + "' uses "@ + strategy_text(strategy@)),
{
    let mut s = joined(what, id);
    s.append("' uses ");
    s.append(strategy_string(strategy).as_str());
    StoreError::InvalidOperation(s)
}

/// Checks that an operation goes with a strategy.
pub fn check_strategy(id: &str, strategy: &StateStrategy, op: &StateOperation) -> (r: Result<
    (),
    StoreError,
>)
    ensures
        match r {
            Ok(_) => strategy_error(id@, strategy@, op@) is None,
            Err(e) => strategy_error(id@, strategy@, op@) == Some(e@),
        },
{
    match op {
        StateOperation::Append(_) | StateOperation::Edit { .. } | StateOperation::Redact { .. } => {
            match strategy {
                StateStrategy::AppendLog { .. } => Ok(()),
                _ => Err(
                    mismatch(
                        "Append/Edit/Redact operations require AppendLog strategy, state '",
                        id,
                        strategy,
                    ),
                ),
            }
        },
        StateOperation::TreeSet { .. } | StateOperation::TreeRemove { .. }
        | StateOperation::TreeBatch { .. } => {
            match strategy {
                StateStrategy::Tree { .. } => Ok(()),
                _ => Err(
                    mismatch("Tree operations require Tree strategy, state '", id, strategy),
                ),
            }
        },
        _ => Ok(()),
    }
}

/// Pushing an update behind all others leaves those before it as they were.
pub proof fn lemma_pushed_update(t: TableView, offset: u64, u: UpdateView)
    ensures
        same_below(t, t.push((offset, u)), offset as int),
        update_at(t.push((offset, u)), offset) == Some(u),
{
    let t2 = t.push((offset, u));
    assert(t2.drop_last() =~= t);
}

/// Recording an update keeps the store well-formed.
proof fn lemma_updated(s: StoreView, r: RecordView, u: UpdateView, b: BranchView, wal: WalView)
    requires
        s.wf(),
        wal.wf(),
        s.log.appended(r).wf(),
        moved_head(s.branches, r.branch, r.sequence).wf(),
        r.branch == b.id,
        updated(s, r, u, b, wal).subscribers.wf(),
        table_wf(s.updates.push((s.log.bytes.len() as u64, u))),
    ensures
        updated(s, r, u, b, wal).wf(),
{
    let t = updated(s, r, u, b, wal);
    let offset = s.log.bytes.len() as u64;
    let more = record_bytes(r);
    lemma_with_record(s, r, wal);
    lemma_pushed_update(s.updates, offset, u);
    cache_survives_append(s.cached, s.log.bytes, s.updates, more, t.updates);
    let key = crate::state::manager::cache_key(b.id, u.state_id);
    crate::cache::lemma_without_subset(s.cached, key);
    assert(cache_valid(t.cached, t.log.bytes, t.updates)) by {
        assert forall|i: int| 0 <= i < t.cached.len() implies #[trigger] entry_valid(
            t.cached[i],
            t.log.bytes,
            t.updates,
        ) by {
            assert(s.cached.contains(t.cached[i]));
            let k = choose|k: int| 0 <= k < s.cached.len() && s.cached[k] == t.cached[i];
            assert(entry_valid(s.cached[k], t.log.bytes, t.updates));
        }
    }
    assert(record_bytes(r).len() > 0);
}

/// Where a delta snapshot of an array state in order is due, nothing but appends followed
/// the last snapshot, and the last update is one.
proof fn lemma_due_keeps(s: StoreView, branch: BranchId, id: Seq<char>)
    requires
        items_in_order(s, branch, id),
        snapshot_due(s.states, branch, id) is Some,
    ensures
        ops_of(chain_of(s, branch, id)).len() > 0,
        snapshot_due(s.states, branch, id) == Some(SnapshotNeeded::Delta) ==> only_appends_since(
            ops_of(chain_of(s, branch, id)),
        ) && text_in(s, branch, id) == array_text(items_in(s, branch, id)),
{
    lemma_chain_nonempty(s, branch, id);
}

impl Store {
    /// Records an operation on a state of the current branch. The operation is checked
    /// against the state's strategy before anything is written.
    pub(crate) fn record_operation<E: Fn(&StateUpdateRecord) -> Result<Vec<u8>, StoreError>>(
        &mut self,
        state_id: &str,
        operation: StateOperation,
        encode: &E,
    ) -> (r: Result<Record, StoreError>)
        requires
            old(self).wf(),
            old(self)@.has_room(1),
            encodes(*encode),
        ensures
            final(self).wf(),
            final(self)@.log.next_id <= old(self)@.log.next_id + 1,
            final(self)@.wal.next_seq <= old(self)@.wal.next_seq + 1,
            recorded(
                *encode,
                old(self)@,
                state_id@,
                operation@,
                final(self)@,
                outcome(r),
            ),
            r is Ok ==> snapshot_counted(
                final(self)@,
                old(self)@.branches.current,
                state_id@,
                operation@,
            ),
            payloads_fit(*encode) && sound(old(self)@) ==> sound(final(self)@),
    {
        let ghost before = self@;
        let branch = match self.branches.current_branch() {
            Ok(b) => b,
            Err(e) => return Err(e),
        };
        let strategy = match self.state.get_strategy(state_id) {
            Some(s) => s,
            None => return Err(StoreError::StateNotRegistered(state_id.to_owned())),
        };
        match check_strategy(state_id, &strategy, &operation) {
            Ok(_) => {},
            Err(e) => return Err(e),
        }
        let head = self.state.get_head(branch.id, state_id);
        if let StateOperation::Edit { index, .. } = &operation {
            let len: usize = match head {
                Some(h) => h.item_count,
                None => 0,
            };
            if *index >= len {
                return Err(out_of_bounds(*index, len));
            }
        }
        let prev_update_offset: Option<u64> = match head {
            Some(h) => Some(h.head_offset),
            None => None,
        };
        if let Some(offset) = prev_update_offset {
            if offset >= self.log.size() {
                return Err(out_of_order());
            }
        }
        assert(update_error(before, state_id@, operation@) is None);
        let next_seq = branch.head.next();
        let timestamp = Timestamp::now_after(self.log.last_timestamp());
        let update = StateUpdateRecord {
            record_id: RecordId(0),
            global_sequence: next_seq,
            state_id: state_id.to_owned(),
            prev_update_offset,
            operation: operation.clone(),
            timestamp,
        };
        let ghost u = next_update(before, state_id@, operation@, branch@, timestamp);
        assert(update@ == u);
        let payload = match encode(&update) {
            Ok(p) => p,
            Err(e) => {
                assert(call_ensures(*encode, (&update,), Err(e)));
                assert(refused(*encode, u, e@));
                return Err(e);
            },
        };
        assert(call_ensures(*encode, (&update,), Ok(payload)));
        assert(encoded(*encode, u, payload@));
        let ghost p = payload@;
        let ghost intent = update_intent(before, state_id@, p, branch@);
        let seq: u64 = self.wal.log(
            WalOperation::UpdateState {
                state_id: state_id.to_owned(),
                operation_data: crate::bytes::copied(&payload),
                branch_id: branch.id.0,
                log_fence: self.log.size(),
            },
        );
        let ghost wal1 = self.wal@;
        let input = RecordInput::raw("state_update", payload);
        let (record, offset) = self.log.append_at(
            input,
            branch.id,
            next_seq,
            Timestamp::now_after(timestamp),
        );
        match self.updates.add(offset, update) {
            Ok(_) => {},
            Err(e) => {
                assert(false);
                return Err(e);
            },
        }
        self.state.record_update(branch.id, state_id, offset, &operation);
        self.index.add(
            record.id,
            branch.id,
            next_seq,
            offset,
            record.record_type.as_str(),
            record.caused_by.as_slice(),
            record.linked_to.as_slice(),
        );
        match self.branches.update_head(branch.id, next_seq) {
            Ok(_) => {},
            Err(e) => {
                assert(false);
                return Err(e);
            },
        }
        self.wal.commit(seq);
        proof {
            let t1 = choose|t1: u64| wal1 == #[trigger] before.wal.logged(intent, t1);
            let t2 = choose|t2: u64| self.wal@ == #[trigger] wal1.committed(seq, t2);
            assert(self.wal@ == before.wal.logged(intent, t1).committed(before.wal.next_seq, t2));
        }
        let ghost done = operation@;
        self.subscriptions.broadcast_state_delta(state_id, operation, next_seq);
        self.subscriptions.broadcast_branch_head(branch.name.as_str(), next_seq);
        proof {
            assert(self@ == updated(before, record@, u, branch@, self@.wal));
            lemma_updated(before, record@, u, branch@, self@.wal);
            assert(recorded_as(
                *encode,
                before,
                state_id@,
                done,
                self@,
                record@,
                branch@,
                timestamp,
                p,
            ));
            if payloads_fit(*encode) && sound(before) {
                recording_keeps_sound(*encode, before, state_id@, done, self@, Ok(record@));
            }
        }
        Ok(record)
    }

    /// The snapshot that is due for a state on the current branch, as the operation that
    /// records it.
    fn due_snapshot(&mut self, branch: BranchId, state_id: &str) -> (r: Result<
        Option<StateOperation>,
        StoreError,
    >)
        requires
            old(self).wf(),
            old(self)@.branches.current_branch() matches Some(b) && b.id == branch,
        ensures
            final(self).wf(),
            same_but_cache(old(self)@, final(self)@),
            due_operation(old(self)@, branch, state_id@) is None ==> final(self)@ == old(self)@,
            match due_operation(old(self)@, branch, state_id@) {
                None => r matches Ok(None),
                Some(Ok(op)) => r matches Ok(Some(x)) && x@ == op,
                Some(Err(e)) => r matches Err(x) && x@ == e,
            },
            items_in_order(old(self)@, branch, state_id@) ==> (r matches Ok(x) && (x matches Some(
                op,
            ) ==> keeps_items(old(self)@, branch, state_id@, op@))),
            tree_in_order(old(self)@, branch, state_id@) ==> (r matches Ok(x) && (x matches Some(
                op,
            ) ==> keeps_tree(old(self)@, branch, state_id@, op@))),
    {
        let ghost s = self@;
        let ghost c = chain_of(s, branch, state_id@);
        proof {
            if tree_in_order(s, branch, state_id@) {
                tree_delta_is_since(c, Seq::empty());
            }
            if items_in_order(s, branch, state_id@) && snapshot_due(s.states, branch, state_id@)
                is Some {
                lemma_due_keeps(s, branch, state_id@);
            }
        }
        match self.state.snapshot_needed(branch, state_id) {
            None => Ok(None),
            Some(SnapshotNeeded::Full) => match self.get_state(state_id) {
                Ok(Some(v)) => Ok(Some(StateOperation::Snapshot(v))),
                Ok(None) => Ok(Some(StateOperation::Snapshot(Vec::new()))),
                Err(e) => Err(e),
            },
            Some(SnapshotNeeded::Delta) => {
                let is_tree: bool = match self.state.get_strategy(state_id) {
                    Some(StateStrategy::Tree { .. }) => true,
                    _ => false,
                };
                if is_tree {
                    match self.compute_tree_delta_ops(branch, state_id) {
                        Ok(ops) => Ok(Some(StateOperation::TreeDeltaSnapshot(ops))),
                        Err(e) => Err(e),
                    }
                } else {
                    match self.compute_delta_items(branch, state_id) {
                        Ok(data) => Ok(Some(StateOperation::DeltaSnapshot(data))),
                        Err(e) => Err(e),
                    }
                }
            },
        }
    }

    /// Compute items added since the last delta or full snapshot.
    fn compute_delta_items(&self, branch: BranchId, state_id: &str) -> (r: Result<
        Vec<u8>,
        StoreError,
    >)
        requires
            self.wf(),
        ensures
            match delta_items(chain_of(self@, branch, state_id@)) {
                Ok(items) => r matches Ok(v) && v@ == array_text(items),
                Err(e) => r matches Err(x) && x@ == e,
            },
            faithful_chain(chain_of(self@, branch, state_id@)) ==> (r matches Ok(v) && v@
                == array_text(appended_since(ops_of(chain_of(self@, branch, state_id@))))),
    {
        match self.state.get_head(branch, state_id) {
            None => {
                let none: Vec<Vec<u8>> = Vec::new();
                proof {
                    assert(texts(none@) =~= Seq::empty());
                    assert(appended_since(ops_of(chain_of(self@, branch, state_id@)))
                        =~= Seq::empty());
                }
                Ok(write_array(&none))
            },
            Some(h) => match collect_delta_items(&self.log, &self.updates, h.head_offset) {
                Ok(items) => Ok(write_array(&items)),
                Err(e) => Err(e),
            },
        }
    }

    /// Compute tree operations since the last delta or full snapshot.
    fn compute_tree_delta_ops(&self, branch: BranchId, state_id: &str) -> (r: Result<
        Vec<TreeOp>,
        StoreError,
    >)
        requires
            self.wf(),
        ensures
            match tree_delta(chain_of(self@, branch, state_id@), Seq::empty()) {
                Ok(ops) => r matches Ok(v) && views(v@) == ops,
                Err(e) => r matches Err(x) && x@ == e,
            },
    {
        match self.state.get_head(branch, state_id) {
            None => {
                let none: Vec<TreeOp> = Vec::new();
                assert(views(none@) =~= Seq::empty());
                Ok(none)
            },
            Some(h) => collect_tree_delta(&self.log, &self.updates, h.head_offset),
        }
    }

    /// Takes the snapshot that is due for a state, if one is.
    pub(crate) fn snapshot_once<E: Fn(&StateUpdateRecord) -> Result<Vec<u8>, StoreError>>(
        &mut self,
        state_id: &str,
        encode: &E,
    ) -> (r: Result<Option<Record>, StoreError>)
        requires
            old(self).wf(),
            old(self)@.has_room(1),
            encodes(*encode),
        ensures
            final(self).wf(),
            final(self)@.log.next_id <= old(self)@.log.next_id + 1,
            final(self)@.wal.next_seq <= old(self)@.wal.next_seq + 1,
            snapshot_taken(*encode, old(self)@, state_id@, final(self)@, outcome_option(r)),
            payloads_fit(*encode) && sound(old(self)@) ==> sound(final(self)@),
            r is Ok ==> items_kept(*encode, old(self)@, state_id@, final(self)@),
            r is Ok ==> files_kept(*encode, old(self)@, state_id@, final(self)@),
    {
        let ghost s = self@;
        let branch = match self.branches.current_branch() {
            Ok(b) => b,
            Err(e) => return Err(e),
        };
        let ghost b = branch.id;
        let op = match self.due_snapshot(branch.id, state_id) {
            Err(e) => {
                proof {
                    lemma_same_soundness(s, self@);
                }
                return Err(e);
            },
            Ok(None) => return Ok(None),
            Ok(Some(op)) => op,
        };
        let ghost mid = self@;
        let ghost due = op@;
        proof {
            lemma_same_chain(s, mid, b, state_id@);
            lemma_same_soundness(s, mid);
        }
        match self.record_operation(state_id, op, encode) {
            Err(e) => {
                assert(same_but_cache(s, mid));
                Err(e)
            },
            Ok(record) => {
                proof {
                    assert(same_but_cache(s, mid));
                    if payloads_fit(*encode) && items_in_order(s, b, state_id@) {
                        let ops = ops_of(chain_of(s, b, state_id@));
                        lemma_direct_plain(ops);
                        assert(due matches OperationView::Snapshot(v) ==> models(
                            due,
                            ItemOp::Full { text: v, items: direct_items(ops) },
                        ));
                        recorded_snapshot_keeps_items(
                            *encode,
                            mid,
                            state_id@,
                            due,
                            self@,
                            record@,
                            branch@,
                        );
                    }
                    if payloads_fit(*encode) && tree_in_order(s, b, state_id@) {
                        recorded_snapshot_keeps_tree(
                            *encode,
                            mid,
                            state_id@,
                            due,
                            self@,
                            record@,
                            branch@,
                        );
                    }
                }
                Ok(Some(record))
            },
        }
    }

    /// Update a state and record it.
    ///
    /// The operation is checked against the state's strategy before it is recorded.
    /// Snapshots are automatically created when thresholds are reached.
    ///
    /// `encode` gives the payload for an update. What it gives is recorded as it is.
    pub fn update_state<E: Fn(&StateUpdateRecord) -> Result<Vec<u8>, StoreError>>(
        &mut self,
        state_id: &str,
        operation: StateOperation,
        encode: &E,
    ) -> (r: Result<Record, StoreError>)
        requires
            old(self).wf(),
            old(self)@.has_room(2),
            encodes(*encode),
        ensures
            final(self).wf(),
            final(self)@.log.next_id <= old(self)@.log.next_id + 2,
            final(self)@.wal.next_seq <= old(self)@.wal.next_seq + 2,
            recorded_with_snapshot(
                *encode,
                old(self)@,
                state_id@,
                operation@,
                final(self)@,
                outcome(r),
            ),
            payloads_fit(*encode) && sound(old(self)@) ==> sound(final(self)@),
            r is Ok ==> items_updated(
                *encode,
                old(self)@,
                state_id@,
                operation@,
                final(self)@,
            ),
            r is Ok ==> files_updated(*encode, old(self)@, state_id@, operation@, final(self)@),
    {
        let ghost s = self@;
        let ghost op = operation@;
        let record = match self.record_operation(state_id, operation, encode) {
            Ok(record) => record,
            Err(e) => return Err(e),
        };
        let ghost mid = self@;
        proof {
            lemma_current(s.branches);
            let b = s.branches.current_branch()->0;
            assert(mid.branches.current == s.branches.current) by {
                let (ts, p) = choose|ts: Timestamp, p: Seq<u8>| #[trigger]
                    recorded_as(*encode, s, state_id@, op, mid, record@, b, ts, p);
            }
            if payloads_fit(*encode) && items_in_order(s, b.id, state_id@) && is_item_step(
                items_in(s, b.id, state_id@),
                op,
            ) {
                recorded_item_step_keeps_order(*encode, s, state_id@, op, mid, record@, b);
            }
            if payloads_fit(*encode) && tree_in_order(s, b.id, state_id@) && is_tree_step(op) {
                recorded_tree_step_keeps_order(*encode, s, state_id@, op, mid, record@, b);
            }
        }
        match self.snapshot_once(state_id, encode) {
            Ok(taken) => {
                proof {
                    assert(recorded(*encode, s, state_id@, op, mid, Ok(record@)));
                    let t = match taken {
                        Some(x) => Some(x@),
                        None => None,
                    };
                    assert(snapshot_taken(*encode, mid, state_id@, self@, Ok(t)));
                }
                Ok(record)
            },
            Err(e) => {
                assert(recorded(*encode, s, state_id@, op, mid, Ok(record@)));
                Err(e)
            },
        }
    }
}

/// The outcome of recording an operation.
pub open spec fn outcome(r: Result<Record, StoreError>) -> Result<RecordView, ErrorView> {
    match r {
        Ok(record) => Ok(record@),
        Err(e) => Err(e@),
    }
}

/// The outcome of taking a snapshot.
pub open spec fn outcome_option(r: Result<Option<Record>, StoreError>) -> Result<
    Option<RecordView>,
    ErrorView,
> {
    match r {
        Ok(Some(record)) => Ok(Some(record@)),
        Ok(None) => Ok(None),
        Err(e) => Err(e@),
    }
}

/// Whether the head of a state counts the items of a whole value that was just recorded.
pub open spec fn snapshot_counted(
    s: StoreView,
    branch: BranchId,
    id: Seq<char>,
    op: OperationView,
) -> bool {
    forall|m: ItemOp| #[trigger]
        models(op, m) ==> (m matches ItemOp::Full { items, .. } ==> s.states.heads[(branch, id)].item_count
            == items.len())
}

/// What is cached plays no part in the chains.
pub proof fn lemma_same_chain(s: StoreView, t: StoreView, branch: BranchId, id: Seq<char>)
    requires
        same_but_cache(s, t),
    ensures
        chain_of(t, branch, id) == chain_of(s, branch, id),
        items_in_order(t, branch, id) == items_in_order(s, branch, id),
        tree_in_order(t, branch, id) == tree_in_order(s, branch, id),
{
}

} // verus!
