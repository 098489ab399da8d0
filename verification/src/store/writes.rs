//! Laws of writing: what appending, updating and branching put into a store, and what they
//! leave as it is.
use crate::branches::laws::{heads_are_independent, new_branch_is_fresh};
use crate::branches::manager::{by_id, by_name, create_error, delete_error, new_branch, BranchesView};
use crate::cache::{cached, without};
use crate::error::ErrorView;
use crate::records::codec::record_bytes;
use crate::records::index::{effects_of, ids_of_type, links_of};
use crate::records::laws::{effects_are_those_caused, links_are_those_linking};
use crate::state::chain::{edited_since, kept, newest, until};
use crate::state::head_laws::strategies_are_found;
use crate::state::manager::{cache_key, head_at, strategy_of, HeadsView};
use crate::state::walks::ChainStats;
use crate::store::branching::{heads_at, name_error, parent_of, with_branch_deleted, with_new_branch};
use crate::store::compaction::{records_in, summary_of_states, with_stats, CompactionSummary};
use crate::store::model::{after, append_intent, appended, chain_of, logged_and_committed, next_record, next_update, state_value_at, strategy_error, update_error, update_input, updated};
use crate::store::states::{item_count_of, stats_of};
use crate::store::StoreView;
use crate::subscriptions::types::EventView;
use crate::types::{BranchId, BranchView, OperationView, PayloadEncoding, RecordId, RecordInputView, RecordView, Sequence, StrategyView, Timestamp};
use crate::wal::log::{WalEntryStatus, WalOpView, WalView};
use vstd::prelude::*;

verus! {

/// A record gets the next id and the sequence behind the head of its branch, and holds what
/// was given.
pub proof fn record_is_as_given(s: StoreView, input: RecordInputView, b: BranchView, ts: Timestamp)
    requires
        b.head.0 < u64::MAX,
    ensures
        ({
            let r = next_record(s, input, b, ts);
            &&& r.id.0 == s.log.next_id
            &&& r.sequence.0 == b.head.0 + 1
            &&& r.branch == b.id
            &&& r.timestamp == ts
            &&& r.record_type == input.record_type
            &&& r.payload == input.payload
            &&& r.encoding == input.encoding
            &&& r.caused_by == input.caused_by
            &&& r.linked_to == input.linked_to
        }),
{
}

/// An appended record stands at the end of the log and comes last among those of its type;
/// it is an effect of every record that caused it, and links to every record it names. Its
/// branch moves to it, and no other does; states and blobs stay.
pub proof fn append_adds_one_record(
    s: StoreView,
    r: RecordView,
    b: BranchView,
    wal: WalView,
    x: RecordId,
    other: BranchId,
)
    requires
        s.log.next_id < u64::MAX,
    ensures
        ({
            let now = appended(s, r, b, wal);
            &&& now.log.bytes == s.log.bytes + record_bytes(r)
            &&& now.log.next_id == s.log.next_id + 1
            &&& r.caused_by.contains(x) ==> effects_of(now.added, x).contains(r.id)
            &&& r.linked_to.contains(x) ==> links_of(now.added, x).contains(r.id)
            &&& ids_of_type(now.added, r.record_type).len() == ids_of_type(
                s.added,
                r.record_type,
            ).len() + 1
            &&& ids_of_type(now.added, r.record_type).last() == r.id
            &&& by_id(s.branches.branches, r.branch) matches Some(c) ==> by_id(
                now.branches.branches,
                r.branch,
            ) == Some(BranchView { head: r.sequence, ..c })
            &&& other != r.branch ==> by_id(now.branches.branches, other) == by_id(
                s.branches.branches,
                other,
            )
            &&& now.branches.current == s.branches.current
            &&& now.states == s.states
            &&& now.updates == s.updates
            &&& now.blobs == s.blobs
        }),
{
    let now = appended(s, r, b, wal);
    let k = s.added.len() as int;
    assert(now.added[k].id == r.id);
    effects_are_those_caused(now.added, x, r.id);
    links_are_those_linking(now.added, x, r.id);
    assert(now.added.drop_last() =~= s.added);
    heads_are_independent(s.branches.branches, r.branch, r.sequence, other);
}

/// Subscribers are told of an appended record, then of the new head of its branch.
pub proof fn append_tells_subscribers(s: StoreView, r: RecordView, b: BranchView, wal: WalView)
    ensures
        exists|e: EventView|
            appended(s, r, b, wal).subscribers == #[trigger] s.subscribers.broadcast(e).broadcast(
                EventView::BranchHead { branch: b.name, head: r.sequence },
            ) && (e matches EventView::Record { record } && record.id == r.id && record.sequence
                == r.sequence && record.branch == r.branch && record.record_type == r.record_type
                && record.payload_size == r.payload.len() && (record.payload == if r.payload.len()
                <= 4096 {
                Some(r.payload)
            } else {
                None
            })),
{
    let e = EventView::Record {
        record: crate::subscriptions::types::summary_of(
            r,
            crate::subscriptions::types::PAYLOAD_THRESHOLD as nat,
        ),
    };
    assert(appended(s, r, b, wal).subscribers == s.subscribers.broadcast(e).broadcast(
        EventView::BranchHead { branch: b.name, head: r.sequence },
    ));
}

proof fn lemma_cached_without(entries: crate::cache::EntriesView, key: Seq<u8>, other: Seq<u8>)
    ensures
        cached(without(entries, key), key) is None,
        other != key ==> cached(without(entries, key), other) == cached(entries, other),
    decreases entries.len(),
{
    if entries.len() > 0 {
        let init = entries.drop_last();
        lemma_cached_without(init, key, other);
        let w = without(init, key);
        assert(w.push(entries.last()).drop_last() =~= w);
    }
}

/// A state update moves the head of its state on its branch to the new record, which follows
/// the head before it, and no other head; the value that was cached is forgotten, and no
/// other. Subscribers are told of the operation, then of the new head of the branch.
pub proof fn update_moves_one_head(
    s: StoreView,
    id: Seq<char>,
    op: OperationView,
    b: BranchView,
    ts: Timestamp,
    r: RecordView,
    wal: WalView,
    branch: BranchId,
    other: Seq<char>,
)
    requires
        s.log.bytes.len() <= u64::MAX,
        b.head.0 < u64::MAX,
    ensures
        ({
            let u = next_update(s, id, op, b, ts);
            let now = updated(s, r, u, b, wal);
            &&& u.state_id == id
            &&& u.operation == op
            &&& u.global_sequence.0 == b.head.0 + 1
            &&& s.states.heads.contains_key((b.id, id)) ==> u.prev_update_offset == Some(
                s.states.heads[(b.id, id)].head_offset,
            )
            &&& !s.states.heads.contains_key((b.id, id)) ==> u.prev_update_offset is None
            &&& now.log.bytes == s.log.bytes + record_bytes(r)
            &&& now.states.heads.contains_key((b.id, id)) && now.states.heads[(
                b.id,
                id,
            )].head_offset == s.log.bytes.len()
            &&& (branch, other) != (b.id, id) ==> head_at(now.states, branch, other) == head_at(
                s.states,
                branch,
                other,
            )
            &&& now.states.strategies == s.states.strategies
            &&& now.updates.len() == s.updates.len() + 1
            &&& now.updates.last() == (s.log.bytes.len() as u64, u)
            &&& forall|i: int| 0 <= i < s.updates.len() ==> #[trigger] now.updates[i] == s.updates[i]
            &&& cached(now.cached, cache_key(b.id, id)) is None
            &&& cache_key(branch, other) != cache_key(b.id, id) ==> cached(
                now.cached,
                cache_key(branch, other),
            ) == cached(s.cached, cache_key(branch, other))
            &&& now.blobs == s.blobs
            &&& now.subscribers == s.subscribers.broadcast(
                EventView::StateDelta { state_id: id, operation: op, sequence: r.sequence },
            ).broadcast(EventView::BranchHead { branch: b.name, head: r.sequence })
        }),
{
    broadcast use vstd::map::group_map_axioms;

    lemma_cached_without(s.cached, cache_key(b.id, id), cache_key(branch, other));
}

/// A state update is recorded under a type of its own, as raw data without links.
pub proof fn update_records_are_marked(payload: Seq<u8>)
    ensures
        update_input(payload).record_type == "state_update"@,
        update_input(payload).payload == payload,
        update_input(payload).encoding == PayloadEncoding::Raw,
        update_input(payload).caused_by.len() == 0,
        update_input(payload).linked_to.len() == 0,
{
}

/// Items are appended, edited and redacted only in append logs, and files are set and
/// removed only in trees; everything else goes with every strategy.
pub proof fn operations_need_their_strategy(id: Seq<char>, strategy: StrategyView, op: OperationView)
    ensures
        op is Append || op is Edit || op is Redact ==> (strategy_error(id, strategy, op) is None
            <==> strategy is AppendLog),
        op is TreeSet || op is TreeRemove || op is TreeBatch ==> (strategy_error(
            id,
            strategy,
            op,
        ) is None <==> strategy is Tree),
        op is SetValue || op is Snapshot || op is Delta || op is DeltaSnapshot
            || op is TreeDeltaSnapshot || op is Field ==> strategy_error(id, strategy, op) is None,
        strategy_error(id, strategy, op) is Some ==> strategy_error(id, strategy, op)->0
            is InvalidOperation,
{
}

/// When an operation on a state is accepted: there is a current branch, the state is
/// registered with a strategy that the operation goes with, an edit is of an item that
/// exists, and the chain so far lies within the log.
pub proof fn accepted_operations(s: StoreView, id: Seq<char>, op: OperationView, k: int)
    requires
        0 <= k < s.states.strategies.len(),
        s.states.strategies[k].0 == id,
        forall|i: int|
            k < i < s.states.strategies.len() ==> (#[trigger] s.states.strategies[i]).0 != id,
        s.branches.current_branch() is Some,
    ensures
        ({
            let b = s.branches.current_branch()->0;
            update_error(s, id, op) is None <==> {
                &&& op is Append || op is Edit || op is Redact
                    ==> s.states.strategies[k].1 is AppendLog
                &&& op is TreeSet || op is TreeRemove || op is TreeBatch
                    ==> s.states.strategies[k].1 is Tree
                &&& op matches OperationView::Edit { index, .. } ==> (head_at(
                    s.states,
                    b.id,
                    id,
                ) matches Some(h) && index < h.item_count)
                &&& head_at(s.states, b.id, id) matches Some(h) ==> h.head_offset
                    < s.log.bytes.len()
            }
        }),
{
    strategies_are_found(s.states.strategies, id, k);
}

/// An operation on a state that is not registered is refused.
pub proof fn unregistered_states_are_refused(s: StoreView, id: Seq<char>, op: OperationView)
    requires
        forall|i: int|
            0 <= i < s.states.strategies.len() ==> (#[trigger] s.states.strategies[i]).0 != id,
        s.branches.current_branch() is Some,
    ensures
        update_error(s, id, op) == Some(ErrorView::StateNotRegistered(id)),
{
    strategies_are_found(s.states.strategies, id, 0);
}

/// Logging and committing leaves two more entries: the operation, and that it was done.
pub proof fn committed_operation_leaves_two_entries(before: WalView, op: WalOpView, now: WalView)
    requires
        logged_and_committed(before, op, now),
        before.next_seq < u64::MAX,
    ensures
        now.next_seq == before.next_seq + 1,
        now.entries.len() == before.entries.len() + 2,
        forall|i: int| 0 <= i < before.entries.len() ==> #[trigger] now.entries[i] == before.entries[i],
        ({
            let n = before.entries.len() as int;
            &&& now.entries[n].operation == op
            &&& now.entries[n].seq == before.next_seq
            &&& now.entries[n].status == WalEntryStatus::Pending
            &&& now.entries[n + 1].operation == WalOpView::CommitMarker
            &&& now.entries[n + 1].seq == before.next_seq
            &&& now.entries[n + 1].status == WalEntryStatus::Committed
        }),
{
    let (t1, t2) = choose|t1: u64, t2: u64|
        now == #[trigger] before.logged(op, t1).committed(before.next_seq, t2);
}

/// The log notes of an append all that is needed to do it again.
pub proof fn append_is_noted_in_full(s: StoreView, input: RecordInputView, b: BranchView)
    ensures
        append_intent(s, input, b) matches WalOpView::AppendRecord {
            record_type,
            payload,
            encoding,
            caused_by,
            linked_to,
            branch_id,
            log_fence,
        } && record_type == input.record_type && payload == input.payload && branch_id == b.id.0
            && log_fence == s.log.bytes.len() as u64 && caused_by.len() == input.caused_by.len()
            && linked_to.len() == input.linked_to.len() && (forall|i: int|
            0 <= i < caused_by.len() ==> #[trigger] caused_by[i] == input.caused_by[i].0) && (forall|
            i: int,
        |
            0 <= i < linked_to.len() ==> #[trigger] linked_to[i] == input.linked_to[i].0)
            && encoding == (match input.encoding {
            PayloadEncoding::Json => 0u8,
            PayloadEncoding::MessagePack => 1u8,
            PayloadEncoding::Raw => 2u8,
        }),
{
}

/// A new branch stands at the sequence at which it leaves its parent, under the next id.
pub proof fn new_branch_stands_where_it_leaves(
    v: BranchesView,
    name: Seq<char>,
    parent: BranchId,
    at: Sequence,
    created: Timestamp,
)
    ensures
        ({
            let b = new_branch(v, name, parent, at, created);
            &&& b.id.0 == v.next_id
            &&& b.name == name
            &&& b.head == at
            &&& b.parent == Some(parent)
            &&& b.branch_point == Some(at)
            &&& b.created == created
        }),
{
}

/// Making a branch adds it and changes no other branch, state or record; subscribers are
/// told its name, head and parent.
pub proof fn branching_adds_one_branch(s: StoreView, b: BranchView, parent: Option<Seq<char>>, other: Seq<char>)
    requires
        s.branches.wf(),
        b.id.0 == s.branches.next_id,
        s.branches.next_id < u64::MAX,
    ensures
        ({
            let now = with_new_branch(s, b, parent);
            &&& by_name(now.branches.branches, b.name) == Some(b)
            &&& other != b.name ==> by_name(now.branches.branches, other) == by_name(
                s.branches.branches,
                other,
            )
            &&& now.branches.branches.len() == s.branches.branches.len() + 1
            &&& now.branches.next_id == s.branches.next_id + 1
            &&& now.branches.current == s.branches.current
            &&& now.log == s.log
            &&& now.added == s.added
            &&& now.states == s.states
            &&& now.updates == s.updates
            &&& now.subscribers == s.subscribers.broadcast(
                EventView::BranchCreated {
                    branch: crate::subscriptions::types::BranchSummaryView {
                        id: b.id,
                        name: b.name,
                        head: b.head,
                        parent,
                    },
                },
            )
        }),
{
    assert(b.id == BranchId(s.branches.next_id));
    new_branch_is_fresh(s.branches, b, other);
}

/// Deleting a branch takes it out, and no other; subscribers are told its name.
pub proof fn deletion_takes_out_the_branch(s: StoreView, name: Seq<char>, b: BranchView)
    ensures
        ({
            let now = with_branch_deleted(s, name);
            &&& now.branches.branches.contains(b) <==> s.branches.branches.contains(b) && b.name
                != name
            &&& now.branches.current == s.branches.current
            &&& now.log == s.log
            &&& now.states == s.states
            &&& now.subscribers == s.subscribers.broadcast(EventView::BranchDeleted { name })
        }),
{
    crate::branches::laws::lemma_left(s.branches.branches, name, b);
}

/// Which names are refused: those that a branch has, and that no branch has where one is to
/// be made from it or deleted; main and the current branch are not deleted.
pub proof fn names_are_checked(s: StoreView, name: Seq<char>, from: Seq<char>)
    requires
        s.branches.wf(),
    ensures
        name_error(s, name) is None <==> name.len() > 0 && forall|i: int|
            0 <= i < s.branches.branches.len() ==> (#[trigger] s.branches.branches[i]).name != name,
        parent_of(s, Some(from)) is Ok <==> exists|i: int|
            0 <= i < s.branches.branches.len() && (#[trigger] s.branches.branches[i]).name == from,
        parent_of(s, Some(from)) matches Ok(p) ==> p.name == from && s.branches.branches.contains(
            p,
        ),
        parent_of(s, None) matches Ok(p) ==> p.id == s.branches.current
            && s.branches.branches.contains(p),
        create_error(s.branches, name, from) is None <==> (forall|i: int|
            0 <= i < s.branches.branches.len() ==> (#[trigger] s.branches.branches[i]).name != name)
            && exists|i: int|
            0 <= i < s.branches.branches.len() && (#[trigger] s.branches.branches[i]).name == from,
        delete_error(s.branches, name) is None <==> name != "main"@ && exists|i: int|
            0 <= i < s.branches.branches.len() && (#[trigger] s.branches.branches[i]).name == name
                && s.branches.branches[i].id != s.branches.current,
{
    let bs = s.branches.branches;
    crate::branches::manager::lemma_found(bs, name, s.branches.current);
    crate::branches::manager::lemma_found(bs, from, s.branches.current);
    if exists|i: int| 0 <= i < bs.len() && (#[trigger] bs[i]).name == name {
        let i = choose|i: int| 0 <= i < bs.len() && (#[trigger] bs[i]).name == name;
        crate::branches::manager::lemma_branch_at(s.branches, i);
        assert forall|j: int| 0 <= j < bs.len() && (#[trigger] bs[j]).name == name implies j
            == i by {
            if j < i {
                assert(bs[j].name != bs[i].name);
            } else if i < j {
                assert(bs[i].name != bs[j].name);
            }
        }
    }
}

/// A branch that is made at a sequence starts each state where its parent had it then, with
/// the number of its items and fresh counts; a state that did not exist then it has not.
pub proof fn heads_are_taken_from_the_past(
    s: StoreView,
    heads: HeadsView,
    from: BranchId,
    at: Sequence,
    ids: Seq<Seq<char>>,
    to: BranchId,
    k: int,
    branch: BranchId,
    other: Seq<char>,
)
    requires
        heads_at(s, heads, from, at, ids, to) is Ok,
        0 <= k < ids.len(),
    ensures
        ({
            let now = heads_at(s, heads, from, at, ids, to)->Ok_0;
            let past = until(chain_of(s, from, ids[k]), Some(at));
            &&& state_value_at(s, from, ids[k], at) matches Ok(Some(_)) ==> now.contains_key(
                (to, ids[k]),
            ) && ({
                let h = now[(to, ids[k])];
                &&& h.head_offset == newest(past)->0
                &&& h.item_count == item_count_of(
                    state_value_at(s, from, ids[k], at)->Ok_0->0,
                    strategy_of(s.states.strategies, ids[k]) matches Some(StrategyView::Tree { .. }),
                ) as usize
                &&& h.ops_since_delta_snapshot == 0
                &&& h.delta_snapshots_since_full == 0
                &&& h.last_full_snapshot_offset is None
                &&& h.last_delta_snapshot_offset is None
                &&& h.has_non_append_since_snapshot == edited_since(kept(past, false)->Ok_0)
            })
            &&& state_value_at(s, from, ids[k], at) matches Ok(None) ==> (now.contains_key(
                (to, ids[k]),
            ) <==> heads.contains_key((to, ids[k])))
            &&& branch != to || !ids.contains(other) ==> (now.contains_key((branch, other))
                <==> heads.contains_key((branch, other))) && (heads.contains_key((branch, other))
                ==> now[(branch, other)] == heads[(branch, other)])
        }),
    decreases ids.len(),
{
    broadcast use vstd::map::group_map_axioms;

    let init = ids.drop_last();
    let last = ids.last();
    assert(ids[ids.len() - 1] == last);
    assert(ids.contains(last));
    if init.contains(other) {
        let i = choose|i: int| 0 <= i < init.len() && init[i] == other;
        assert(ids[i] == other);
    }
    if k < init.len() {
        assert(init[k] == ids[k]);
        heads_are_taken_from_the_past(s, heads, from, at, init, to, k, branch, other);
    } else if init.len() > 0 {
        heads_are_taken_from_the_past(s, heads, from, at, init, to, 0, branch, other);
        if init.contains(last) {
            let i = choose|i: int| 0 <= i < init.len() && init[i] == last;
            heads_are_taken_from_the_past(s, heads, from, at, init, to, i, to, last);
        } else {
            heads_are_taken_from_the_past(s, heads, from, at, init, to, 0, to, last);
        }
    }
}

/// A summary of states adds up what is counted of each: all operations and bytes; of a state
/// with a full snapshot what is before it, else all operations but one, and that it needs
/// compaction.
pub proof fn summaries_add_up(c: CompactionSummary, x: ChainStats)
    requires
        c.total_operations + x.total_operations <= u64::MAX,
        c.total_bytes + x.total_bytes <= u64::MAX,
        c.compactable_operations + x.operations_before_snapshot <= u64::MAX,
        c.compactable_operations + x.total_operations <= u64::MAX,
        c.compactable_bytes + x.bytes_before_snapshot <= u64::MAX,
        c.states_needing_compaction < usize::MAX,
    ensures
        ({
            let now = with_stats(c, x);
            let lacks = !x.has_full_snapshot && x.total_operations > 1;
            &&& now.total_operations == c.total_operations + x.total_operations
            &&& now.total_bytes == c.total_bytes + x.total_bytes
            &&& now.compactable_operations == c.compactable_operations + (
            if x.has_full_snapshot {
                x.operations_before_snapshot as int
            } else if x.total_operations > 1 {
                x.total_operations - 1
            } else {
                0
            })
            &&& now.compactable_bytes == c.compactable_bytes + (if x.has_full_snapshot {
                x.bytes_before_snapshot as int
            } else {
                0
            })
            &&& now.states_needing_compaction == c.states_needing_compaction + (if lacks {
                1int
            } else {
                0
            })
        }),
{
}

/// A summary counts every state of the list that has a chain, and stops at one that does not
/// read.
pub proof fn every_state_is_summed_up(
    s: StoreView,
    branch: BranchId,
    ids: Seq<Seq<char>>,
    id: Seq<char>,
    c: CompactionSummary,
)
    requires
        summary_of_states(s, branch, ids) == Ok::<CompactionSummary, ErrorView>(c),
    ensures
        ({
            let longer = summary_of_states(s, branch, ids.push(id));
            &&& !s.states.heads.contains_key((branch, id)) ==> longer == Ok::<
                CompactionSummary,
                ErrorView,
            >(c)
            &&& stats_of(s, branch, id) matches Some(Ok(x)) ==> longer == Ok::<
                CompactionSummary,
                ErrorView,
            >(with_stats(c, x))
            &&& stats_of(s, branch, id) matches Some(Err(e)) ==> longer == Err::<
                CompactionSummary,
                ErrorView,
            >(e)
            &&& stats_of(s, branch, id) is Some <==> s.states.heads.contains_key((branch, id))
        }),
        ({
            let none = summary_of_states(s, branch, Seq::empty());
            none matches Ok(x) && x.total_operations == 0 && x.compactable_operations == 0
                && x.total_bytes == 0 && x.compactable_bytes == 0 && x.states_needing_compaction
                == 0
        }),
{
    assert(ids.push(id).drop_last() =~= ids);
}

/// As many states count as compacted as gave a record.
pub proof fn compacted_states_are_counted(rs: Seq<Option<RecordView>>)
    ensures
        records_in(rs) == rs.filter(|r: Option<RecordView>| r is Some).len(),
    decreases rs.len(),
{
    reveal(Seq::filter);
    if rs.len() > 0 {
        compacted_states_are_counted(rs.drop_last());
    }
}

/// The sequence behind another is the next one, and the largest stays.
pub proof fn sequences_are_numbered_on(s: Sequence)
    ensures
        s.0 < u64::MAX ==> after(s).0 == s.0 + 1,
        s.0 == u64::MAX ==> after(s) == s,
{
}

} // verus!
