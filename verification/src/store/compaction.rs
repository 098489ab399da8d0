//! Snapshots on request, and compaction.
use crate::branches::manager::{current_missing, lemma_current};
use crate::error::{ErrorView, StoreError};
use crate::state::laws::{direct_items, lemma_direct_plain, ops_of};
use crate::state::operations::{models, ItemOp};
use crate::state::walks::{counted, ChainStats};
use crate::store::laws::{files_kept, items_in_order, items_kept, payloads_fit, recorded_snapshot_keeps_items, recorded_snapshot_keeps_tree, text_in, tree_in_order};
use crate::store::model::{chain_of, encodes, recorded, recorded_as, recorded_with_snapshot, same_but_cache, snapshot_taken, state_value};
use crate::store::states::{lemma_chain_nonempty, stats_of};
use crate::store::updates::{lemma_same_chain, outcome, outcome_option};
use crate::store::{Store, StoreView};
use crate::types::{opt_view, views, BranchId, OperationView, Record, RecordView, StateOperation, StateUpdateRecord, StrategyView, Timestamp};
use vstd::prelude::*;
use vstd::string::*;

verus! {

/// Summary of compaction potential across all states. Sums stop at the largest number.
#[derive(Clone, Copy, Debug)]
pub struct CompactionSummary {
    /// Total number of state operations across all states.
    pub total_operations: u64,
    /// Operations that could be skipped after compaction.
    pub compactable_operations: u64,
    /// Total bytes used by state operations.
    pub total_bytes: u64,
    /// Bytes that could be reclaimed (logically) after compaction.
    pub compactable_bytes: u64,
    /// Number of states that would benefit from compaction.
    pub states_needing_compaction: usize,
}

/// The summary of no states.
pub open spec fn empty_summary() -> CompactionSummary {
    CompactionSummary {
        total_operations: 0,
        compactable_operations: 0,
        total_bytes: 0,
        compactable_bytes: 0,
        states_needing_compaction: 0,
    }
}

/// The sum of two counts.
pub open spec fn plus(a: u64, b: u64) -> u64 {
    counted((a + b) as nat)
}

/// The summary with the statistics of another state. Without a full snapshot all operations
/// but one are compactable.
pub open spec fn with_stats(c: CompactionSummary, s: ChainStats) -> CompactionSummary {
    let total = CompactionSummary {
        total_operations: plus(c.total_operations, s.total_operations),
        total_bytes: plus(c.total_bytes, s.total_bytes),
        ..c
    };
    if s.has_full_snapshot {
        CompactionSummary {
            compactable_operations: plus(
                c.compactable_operations,
                s.operations_before_snapshot,
            ),
            compactable_bytes: plus(c.compactable_bytes, s.bytes_before_snapshot),
            ..total
        }
    } else if s.total_operations > 1 {
        CompactionSummary {
            compactable_operations: plus(
                c.compactable_operations,
                (s.total_operations - 1) as u64,
            ),
            states_needing_compaction: (c.states_needing_compaction + 1) as usize,
            ..total
        }
    } else {
        total
    }
}

/// The summary of some states on a branch.
pub open spec fn summary_of_states(s: StoreView, branch: BranchId, ids: Seq<Seq<char>>) -> Result<
    CompactionSummary,
    ErrorView,
>
    decreases ids.len(),
{
    if ids.len() == 0 {
        Ok(empty_summary())
    } else {
        match summary_of_states(s, branch, ids.drop_last()) {
            Err(e) => Err(e),
            Ok(c) => match stats_of(s, branch, ids.last()) {
                None => Ok(c),
                Some(Err(e)) => Err(e),
                Some(Ok(stats)) => Ok(with_stats(c, stats)),
            },
        }
    }
}

/// The ids of the registered states, in the order of registration.
pub open spec fn registered(s: StoreView) -> Seq<Seq<char>> {
    s.states.strategies.map_values(|e: (Seq<char>, StrategyView)| e.0)
}

/// Whether compacting a state led from one store to another with an outcome.
#[verifier::opaque]
pub open spec fn compacted<E: Fn(&StateUpdateRecord) -> Result<Vec<u8>, StoreError>>(
    encode: E,
    s: StoreView,
    id: Seq<char>,
    now: StoreView,
    r: Result<Option<RecordView>, ErrorView>,
) -> bool {
    match s.branches.current_branch() {
        None => r == Err::<Option<RecordView>, ErrorView>(current_missing(s.branches.current))
            && same_but_cache(s, now),
        Some(b) => match state_value(s, b.id, id) {
            Err(e) => r == Err::<Option<RecordView>, ErrorView>(e) && same_but_cache(s, now),
            Ok(None) => r == Ok::<Option<RecordView>, ErrorView>(None) && same_but_cache(s, now),
            Ok(Some(v)) => exists|mid: StoreView| #[trigger]
                same_but_cache(s, mid) && mid.wf() && recorded_with_snapshot(
                    encode,
                    mid,
                    id,
                    OperationView::Snapshot(v),
                    now,
                    match r {
                        Ok(x) => Ok(x->0),
                        Err(e) => Err(e),
                    },
                ) && (r is Ok ==> r->Ok_0 is Some),
        },
    }
}

/// How many outcomes there are a record in.
pub open spec fn records_in(rs: Seq<Option<RecordView>>) -> nat
    decreases rs.len(),
{
    if rs.len() == 0 {
        0
    } else {
        records_in(rs.drop_last()) + (if rs.last() is Some {
            1nat
        } else {
            0nat
        })
    }
}

/// Whether compacting states one after the other leads from store to store with the given
/// outcomes.
pub open spec fn compacted_in_turn<E: Fn(&StateUpdateRecord) -> Result<Vec<u8>, StoreError>>(
    encode: E,
    ids: Seq<Seq<char>>,
    stores: Seq<StoreView>,
    rs: Seq<Option<RecordView>>,
) -> bool {
    &&& stores.len() == ids.len() + 1
    &&& rs.len() == ids.len()
    &&& forall|i: int|
        0 <= i < ids.len() ==> #[trigger] compacted(
            encode,
            stores[i],
            ids[i],
            stores[i + 1],
            Ok(rs[i]),
        )
}

/// Whether compacting states one after the other led from one store to another, `n` of them
/// having a value.
pub open spec fn all_compacted<E: Fn(&StateUpdateRecord) -> Result<Vec<u8>, StoreError>>(
    encode: E,
    s: StoreView,
    ids: Seq<Seq<char>>,
    now: StoreView,
    n: nat,
) -> bool {
    exists|stores: Seq<StoreView>, rs: Seq<Option<RecordView>>| #[trigger]
        compacted_in_turn(encode, ids, stores, rs) && stores[0] == s && stores.last() == now && n
            == records_in(rs)
}

impl Store {
    /// Create a snapshot if needed, returning the record if one was created.
    ///
    /// For AppendLog strategy:
    /// - Delta snapshots contain items added since the last delta/full snapshot
    /// - Full snapshots contain the entire state
    ///
    /// Recording the snapshot may make another one due, which is taken as well.
    pub fn create_snapshot_if_needed<E: Fn(&StateUpdateRecord) -> Result<Vec<u8>, StoreError>>(
        &mut self,
        state_id: &str,
        encode: &E,
    ) -> (r: Result<Option<Record>, StoreError>)
        requires
            old(self).wf(),
            old(self)@.has_room(2),
            encodes(*encode),
        ensures
            final(self).wf(),
            exists|mid: StoreView, first: Result<Option<RecordView>, ErrorView>|
                #[trigger] snapshot_taken(*encode, old(self)@, state_id@, mid, first) && mid.wf() && (
                match first {
                    Ok(Some(record)) => {
                        match r {
                            Ok(x) => outcome_option(r) == first && exists|second: Option<RecordView>|
                                #[trigger] snapshot_taken(
                                    *encode,
                                    mid,
                                    state_id@,
                                    final(self)@,
                                    Ok(second),
                                ),
                            Err(e) => snapshot_taken(
                                *encode,
                                mid,
                                state_id@,
                                final(self)@,
                                Err(e@),
                            ),
                        }
                    },
                    _ => outcome_option(r) == first && final(self)@ == mid,
                }),
            r is Ok ==> items_kept(*encode, old(self)@, state_id@, final(self)@),
            r is Ok ==> files_kept(*encode, old(self)@, state_id@, final(self)@),
    {
        let ghost s = self@;
        let record = match self.snapshot_once(state_id, encode) {
            Ok(Some(record)) => record,
            Ok(None) => {
                assert(snapshot_taken(*encode, s, state_id@, self@, Ok(None)));
                return Ok(None);
            },
            Err(e) => {
                assert(snapshot_taken(*encode, s, state_id@, self@, Err(e@)));
                return Err(e);
            },
        };
        let ghost mid = self@;
        assert(snapshot_taken(*encode, s, state_id@, mid, Ok(Some(record@))));
        proof {
            lemma_taken_current(*encode, s, state_id@, mid, Ok(Some(record@)));
        }
        match self.snapshot_once(state_id, encode) {
            Ok(second) => {
                proof {
                    let x = match second {
                        Some(x) => Some(x@),
                        None => None,
                    };
                    assert(snapshot_taken(*encode, mid, state_id@, self@, Ok(x)));
                }
                Ok(Some(record))
            },
            Err(e) => Err(e),
        }
    }

    /// Compact a state by creating a full snapshot.
    ///
    /// This doesn't delete old records (append-only log), but the new snapshot allows
    /// reconstruction to skip all previous operations. Returns the snapshot record if
    /// created, or None if the state doesn't exist.
    pub fn compact_state<E: Fn(&StateUpdateRecord) -> Result<Vec<u8>, StoreError>>(
        &mut self,
        state_id: &str,
        encode: &E,
    ) -> (r: Result<Option<Record>, StoreError>)
        requires
            old(self).wf(),
            old(self)@.has_room(2),
            encodes(*encode),
        ensures
            final(self).wf(),
            final(self)@.log.next_id <= old(self)@.log.next_id + 2,
            final(self)@.wal.next_seq <= old(self)@.wal.next_seq + 2,
            compacted(*encode, old(self)@, state_id@, final(self)@, outcome_option(r)),
            r is Ok ==> items_kept(*encode, old(self)@, state_id@, final(self)@),
            r is Ok ==> files_kept(*encode, old(self)@, state_id@, final(self)@),
    {
        let ghost s = self@;
        proof {
            lemma_current(s.branches);
            reveal(compacted);
        }
        let ghost b = s.branches.current;
        let current = match self.get_state(state_id) {
            Ok(Some(v)) => v,
            Ok(None) => {
                proof {
                    lemma_same_chain(s, self@, b, state_id@);
                }
                return Ok(None);
            },
            Err(e) => return Err(e),
        };
        let ghost mid = self@;
        let ghost op = OperationView::Snapshot(current@);
        proof {
            lemma_same_chain(s, mid, b, state_id@);
        }
        let record = match self.record_operation(
            state_id,
            StateOperation::Snapshot(current),
            encode,
        ) {
            Ok(record) => record,
            Err(e) => {
                assert(same_but_cache(s, mid));
                return Err(e);
            },
        };
        let ghost next = self@;
        proof {
            let br = mid.branches.current_branch()->0;
            assert(next.branches.current == b) by {
                let (ts, p) = choose|ts: Timestamp, p: Seq<u8>| #[trigger]
                    recorded_as(*encode, mid, state_id@, op, next, record@, br, ts, p);
            }
            if payloads_fit(*encode) && items_in_order(s, b, state_id@) {
                let ops = ops_of(chain_of(s, b, state_id@));
                lemma_chain_nonempty(s, b, state_id@);
                lemma_direct_plain(ops);
                assert(current@ == text_in(s, b, state_id@));
                assert(models(op, ItemOp::Full { text: current@, items: direct_items(ops) }));
                recorded_snapshot_keeps_items(
                    *encode,
                    mid,
                    state_id@,
                    op,
                    next,
                    record@,
                    br,
                );
            }
            if payloads_fit(*encode) && tree_in_order(s, b, state_id@) {
                recorded_snapshot_keeps_tree(*encode, mid, state_id@, op, next, record@, br);
            }
        }
        match self.snapshot_once(state_id, encode) {
            Ok(taken) => {
                proof {
                    assert(recorded(*encode, mid, state_id@, op, next, Ok(record@)));
                    let t = match taken {
                        Some(x) => Some(x@),
                        None => None,
                    };
                    assert(snapshot_taken(*encode, next, state_id@, self@, Ok(t)));
                    assert(same_but_cache(s, mid));
                }
                Ok(Some(record))
            },
            Err(e) => {
                assert(recorded(*encode, mid, state_id@, op, next, Ok(record@)));
                assert(same_but_cache(s, mid));
                Err(e)
            },
        }
    }

    /// Compact all states by creating full snapshots.
    ///
    /// Returns the number of states compacted.
    pub fn compact_all_states<E: Fn(&StateUpdateRecord) -> Result<Vec<u8>, StoreError>>(
        &mut self,
        encode: &E,
    ) -> (r: Result<usize, StoreError>)
        requires
            old(self).wf(),
            old(self)@.has_room(2 * old(self)@.states.strategies.len()),
            encodes(*encode),
        ensures
            final(self).wf(),
            match r {
                Ok(n) => all_compacted(
                    *encode,
                    old(self)@,
                    registered(old(self)@),
                    final(self)@,
                    n as nat,
                ),
                Err(e) => exists|k: int, mid: StoreView, m: nat|
                    #![trigger all_compacted(*encode, old(self)@, registered(old(self)@).take(k), mid, m)]
                    0 <= k < registered(old(self)@).len() && all_compacted(
                        *encode,
                        old(self)@,
                        registered(old(self)@).take(k),
                        mid,
                        m,
                    ) && compacted(
                        *encode,
                        mid,
                        registered(old(self)@)[k],
                        final(self)@,
                        Err(e@),
                    ),
            },
    {
        let ghost s = self@;
        let ids = self.state.state_ids();
        let ghost all = registered(s);
        let mut done: usize = 0;
        let mut i: usize = 0;
        assert(all.take(0) =~= Seq::empty());
        assert(views(ids@) == all);
        proof {
            assert(compacted_in_turn(*encode, all.take(0), seq![s], Seq::empty()));
        }
        while i < ids.len()
            invariant
                self.wf(),
                s == old(self)@,
                encodes(*encode),
                all == registered(s),
                views(ids@) == all,
                i <= ids@.len(),
                done <= i,
                s.has_room(2 * all.len()),
                self@.log.next_id <= s.log.next_id + 2 * i,
                self@.wal.next_seq <= s.wal.next_seq + 2 * i,
                all_compacted(*encode, s, all.take(i as int), self@, done as nat),
            decreases ids@.len() - i,
        {
            let ghost mid = self@;
            assert(all[i as int] == ids@[i as int]@);
            match self.compact_state(ids[i].as_str(), encode) {
                Ok(r) => {
                    proof {
                        lemma_next_compacted(
                            *encode,
                            s,
                            all,
                            i as int,
                            mid,
                            done as nat,
                            self@,
                            opt_view(r),
                        );
                    }
                    if r.is_some() {
                        done += 1;
                    }
                },
                Err(e) => {
                    assert(all_compacted(*encode, s, all.take(i as int), mid, done as nat));
                    return Err(e);
                },
            }
            i += 1;
        }
        assert(all.take(i as int) =~= all);
        Ok(done)
    }

    /// Get compaction summary for all states.
    ///
    /// Returns total operations and bytes that could be skipped after compaction.
    pub fn get_compaction_summary(&self) -> (r: Result<CompactionSummary, StoreError>)
        requires
            self.wf(),
        ensures
            match r {
                Ok(c) => summary_of_store(self@) == Ok::<CompactionSummary, ErrorView>(c),
                Err(e) => summary_of_store(self@) == Err::<CompactionSummary, ErrorView>(e@),
            },
    {
        let ids = self.state.state_ids();
        let ghost all = registered(self@);
        let mut c = CompactionSummary {
            total_operations: 0,
            compactable_operations: 0,
            total_bytes: 0,
            compactable_bytes: 0,
            states_needing_compaction: 0,
        };
        let mut i: usize = 0;
        assert(all.take(0) =~= Seq::empty());
        assert(views(ids@) == all);
        proof {
            lemma_current(self@.branches);
        }
        let ghost b = self@.branches.current;
        while i < ids.len()
            invariant
                self.wf(),
                all == registered(self@),
                views(ids@) == all,
                b == self@.branches.current,
                self@.branches.current_branch() matches Some(x) ==> x.id == b,
                i <= ids@.len(),
                i > 0 ==> self@.branches.current_branch() is Some,
                c.states_needing_compaction <= i,
                summary_of_states(self@, b, all.take(i as int)) == Ok::<
                    CompactionSummary,
                    ErrorView,
                >(c),
            decreases ids@.len() - i,
        {
            proof {
                assert(all.take(i + 1).drop_last() =~= all.take(i as int));
                assert(all.take(i + 1).last() == ids@[i as int]@);
            }
            match self.get_chain_stats(ids[i].as_str()) {
                Err(e) => {
                    proof {
                        if self@.branches.current_branch() is Some {
                            lemma_summary_error(self@, b, all, i + 1, e@);
                        }
                    }
                    return Err(e);
                },
                Ok(None) => {},
                Ok(Some(stats)) => {
                    let ghost before = c;
                    c.total_operations = c.total_operations.saturating_add(stats.total_operations);
                    c.total_bytes = c.total_bytes.saturating_add(stats.total_bytes);
                    if stats.has_full_snapshot {
                        c.compactable_operations = c.compactable_operations.saturating_add(
                            stats.operations_before_snapshot,
                        );
                        c.compactable_bytes = c.compactable_bytes.saturating_add(
                            stats.bytes_before_snapshot,
                        );
                    } else if stats.total_operations > 1 {
                        c.compactable_operations = c.compactable_operations.saturating_add(
                            stats.total_operations - 1,
                        );
                        c.states_needing_compaction = c.states_needing_compaction + 1;
                    }
                    assert(c == with_stats(before, stats));
                },
            }
            i += 1;
        }
        assert(all.take(i as int) =~= all);
        Ok(c)
    }
}

proof fn lemma_next_compacted<E: Fn(&StateUpdateRecord) -> Result<Vec<u8>, StoreError>>(
    encode: E,
    s: StoreView,
    ids: Seq<Seq<char>>,
    i: int,
    mid: StoreView,
    m: nat,
    now: StoreView,
    r: Option<RecordView>,
)
    requires
        0 <= i < ids.len(),
        all_compacted(encode, s, ids.take(i), mid, m),
        compacted(encode, mid, ids[i], now, Ok(r)),
    ensures
        all_compacted(
            encode,
            s,
            ids.take(i + 1),
            now,
            m + (if r is Some {
                1nat
            } else {
                0nat
            }),
        ),
{
    let next = ids.take(i + 1);
    let (stores, rs) = choose|stores: Seq<StoreView>, rs: Seq<Option<RecordView>>| #[trigger]
        compacted_in_turn(encode, ids.take(i), stores, rs) && stores[0] == s && stores.last()
            == mid && m == records_in(rs);
    let stores2 = stores.push(now);
    let rs2 = rs.push(r);
    assert(rs2.drop_last() =~= rs);
    assert forall|k: int| 0 <= k < next.len() implies #[trigger] compacted(
        encode,
        stores2[k],
        next[k],
        stores2[k + 1],
        Ok(rs2[k]),
    ) by {
        if k < i {
            assert(compacted(encode, stores[k], ids.take(i)[k], stores[k + 1], Ok(rs[k])));
        }
    }
    assert(compacted_in_turn(encode, next, stores2, rs2));
}

/// The summary of all states of a store. The current branch is asked for where there are
/// states.
pub open spec fn summary_of_store(s: StoreView) -> Result<CompactionSummary, ErrorView> {
    if s.states.strategies.len() > 0 && s.branches.current_branch() is None {
        Err(current_missing(s.branches.current))
    } else {
        summary_of_states(s, s.branches.current, registered(s))
    }
}

proof fn lemma_summary_error(
    s: StoreView,
    branch: BranchId,
    ids: Seq<Seq<char>>,
    n: int,
    e: ErrorView,
)
    requires
        0 <= n <= ids.len(),
        summary_of_states(s, branch, ids.take(n)) == Err::<CompactionSummary, ErrorView>(e),
    ensures
        summary_of_states(s, branch, ids) == Err::<CompactionSummary, ErrorView>(e),
    decreases ids.len() - n,
{
    if n == ids.len() {
        assert(ids.take(n) =~= ids);
    } else {
        assert(ids.take(n + 1).drop_last() =~= ids.take(n));
        lemma_summary_error(s, branch, ids, n + 1, e);
    }
}

/// Taking a snapshot leaves the current branch current.
proof fn lemma_taken_current<E: Fn(&StateUpdateRecord) -> Result<Vec<u8>, StoreError>>(
    encode: E,
    s: StoreView,
    id: Seq<char>,
    now: StoreView,
    r: Result<Option<RecordView>, ErrorView>,
)
    requires
        snapshot_taken(encode, s, id, now, r),
    ensures
        now.branches.current == s.branches.current,
{
    if let Some(b) = s.branches.current_branch() {
        if let Some(Ok(op)) = crate::store::model::due_operation(s, b.id, id) {
            let mid = choose|mid: StoreView| #[trigger]
                same_but_cache(s, mid) && (match r {
                    Ok(Some(record)) => recorded(encode, mid, id, op, now, Ok(record)),
                    Ok(None) => false,
                    Err(e) => recorded(encode, mid, id, op, now, Err(e)),
                });
            if let Ok(Some(record)) = r {
                let br = mid.branches.current_branch()->0;
                let (ts, p) = choose|ts: Timestamp, p: Seq<u8>| #[trigger]
                    recorded_as(encode, mid, id, op, now, record, br, ts, p);
            }
        }
    }
}

} // verus!
