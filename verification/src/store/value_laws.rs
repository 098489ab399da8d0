//! Laws of values: what an update makes of the value of a state, whatever its kind, and
//! which snapshot is taken of it.
use crate::error::{ErrorView, StoreError};
use crate::json::{array_text, json_items, json_members, json_value, object_text};
use crate::order::MemberView;
use crate::records::codec::record_bytes;
use crate::state::chain::{kept, value_of, ChainView, LinkView};
use crate::state::laws::{items_after, readable, text_after, tree_after};
use crate::state::manager::{head_at, snapshot_due, SnapshotNeeded};
use crate::state::operations::{applied, applied_all, items_of, member_put, members_of, tree_value};
use crate::store::catch_up::{lemma_cut_unique, snapshot_event, starting_value};
use crate::store::laws::{payloads_fit, recorded_operation_extends_chain, tied};
use crate::store::compaction::{all_compacted, compacted, compacted_in_turn, records_in, registered, summary_of_states, summary_of_store};
use crate::store::model::{chain_of, due_operation, encoded, recorded, recorded_as, recorded_with_snapshot, same_but_cache, snapshot_taken, state_value, state_value_at};
use crate::store::states::tail_value;
use crate::store::writes::compacted_states_are_counted;
use crate::store::StoreView;
use crate::store::trees::tree_in_value;
use crate::subscriptions::laws::lemma_length;
use crate::subscriptions::snapshot::fits_from;
use crate::subscriptions::types::EventView;
use crate::tree::{listing_agrees_with_lookup, member_named, tree_extensional, tree_lookup, tree_of, tree_sorted, tree_steps, tree_steps_sorted, tree_text, TreeView};
use crate::tree_laws::{removed_file_is_gone, set_file_is_in_the_tree};
use crate::types::{BranchId, BranchView, EntryView, OperationView, RecordView, Sequence, StateUpdateRecord, Timestamp, TreeOpView};
use vstd::prelude::*;
use vstd::string::*;

verus! {

proof fn lemma_applied_last(ops: Seq<OperationView>, op: OperationView)
    ensures
        applied_all(Seq::empty(), (seq![op] + ops).reverse()) == (match applied_all(
            Seq::empty(),
            ops.reverse(),
        ) {
            Ok(v) => applied(v, op),
            Err(e) => Err(e),
        }),
{
    let all = (seq![op] + ops).reverse();
    assert(all.drop_last() =~= ops.reverse());
    assert(all.last() == op);
}

/// The newest update is applied to the value that the updates before it make; a full
/// snapshot is the value itself; without updates there is no value yet.
pub proof fn newest_update_applies_last(c: ChainView, l: LinkView)
    ensures
        ({
            let op = l.update.operation;
            let longer = seq![Ok::<LinkView, ErrorView>(l)] + c;
            &&& !(op is Snapshot || op is DeltaSnapshot || op is TreeDeltaSnapshot) ==> value_of(
                longer,
            ) == (match value_of(c) {
                Ok(v) => applied(v, op),
                Err(e) => Err(e),
            })
            &&& op matches OperationView::Snapshot(v) ==> value_of(longer) == Ok::<
                Seq<u8>,
                ErrorView,
            >(v)
        }),
        value_of(Seq::empty()) == Ok::<Seq<u8>, ErrorView>(Seq::empty()),
{
    let op = l.update.operation;
    let longer = seq![Ok::<LinkView, ErrorView>(l)] + c;
    assert(longer[0] == Ok::<LinkView, ErrorView>(l));
    assert(longer.skip(1) =~= c);
    let none = Seq::<OperationView>::empty();
    assert(none.reverse() =~= none);
    if op is Snapshot {
        lemma_applied_last(none, op);
        assert(seq![op] + none =~= seq![op]);
    } else if !(op is DeltaSnapshot || op is TreeDeltaSnapshot) {
        if let Ok(ops) = kept(c, false) {
            lemma_applied_last(ops, op);
        }
    }
}

/// Once an operation was recorded, the value of the state is what the operation makes of the
/// value before it. So a value that was set is read back.
pub proof fn recorded_operation_makes_the_value<
    E: Fn(&StateUpdateRecord) -> Result<Vec<u8>, StoreError>,
>(
    encode: E,
    s: StoreView,
    id: Seq<char>,
    op: OperationView,
    now: StoreView,
    r: RecordView,
    b: BranchView,
)
    requires
        tied(s),
        payloads_fit(encode),
        s.branches.current_branch() == Some(b),
        recorded(encode, s, id, op, now, Ok(r)),
        readable(chain_of(s, b.id, id)),
        !(op is DeltaSnapshot || op is TreeDeltaSnapshot),
    ensures
        ({
            let before = match state_value(s, b.id, id) {
                Ok(Some(v)) => Ok(v),
                Ok(None) => Ok(Seq::empty()),
                Err(e) => Err(e),
            };
            state_value(now, b.id, id) == (match (before, op) {
                (_, OperationView::Snapshot(v)) => Ok(Some(v)),
                (Err(e), _) => Err(e),
                (Ok(v), _) => match applied(v, op) {
                    Ok(w) => Ok(Some(w)),
                    Err(e) => Err(e),
                },
            })
        }),
        op matches OperationView::SetValue(v) ==> (state_value(s, b.id, id) is Ok ==> state_value(
            now,
            b.id,
            id,
        ) == Ok::<Option<Seq<u8>>, ErrorView>(Some(v))),
{
    recorded_operation_extends_chain(encode, s, id, op, now, r, b);
    let c = chain_of(now, b.id, id);
    let d = chain_of(s, b.id, id);
    assert(c[0] is Ok);
    let l = c[0]->Ok_0;
    assert(c =~= seq![Ok::<LinkView, ErrorView>(l)] + d);
    assert(crate::state::laws::ops_of(c)[0] == l.update.operation);
    newest_update_applies_last(d, l);
    if head_at(s.states, b.id, id) is None {
        assert(d.len() == 0);
        assert(d =~= Seq::empty());
    }
}

/// Setting a value gives the state its items.
pub proof fn set_value_gives_the_items(
    items: Seq<Seq<u8>>,
    value: Seq<u8>,
    old_hash: Seq<u8>,
    given: Seq<Seq<u8>>,
)
    requires
        json_items(value) == Ok::<Seq<Seq<u8>>, Seq<char>>(given),
    ensures
        items_after(items, OperationView::SetValue(value)) == given,
        text_after(items, OperationView::SetValue(value)) == value,
        items_after(items, OperationView::Delta { old_hash, new_value: value }) == given,
        text_after(items, OperationView::Delta { old_hash, new_value: value }) == value,
{
}

/// The tree of a state after an operation has a file that was set, lacks one that was
/// removed, and keeps all others.
pub proof fn operation_changes_one_file(
    t: TreeView,
    path: Seq<char>,
    entry: EntryView,
    q: Seq<char>,
    e: EntryView,
)
    requires
        tree_sorted(t),
    ensures
        tree_after(t, OperationView::TreeSet { path, entry }).contains((q, e)) <==> (if q == path {
            e == entry
        } else {
            t.contains((q, e))
        }),
        tree_after(t, OperationView::TreeRemove { path }).contains((q, e)) <==> q != path
            && t.contains((q, e)),
{
    set_file_is_in_the_tree(t, path, entry, q, e);
    removed_file_is_gone(t, path, q, e);
    let set = seq![TreeOpView::SetEntry { path, entry }];
    let remove = seq![TreeOpView::Remove { path }];
    reveal_with_fuel(tree_steps, 2);
    assert(set.drop_last() =~= Seq::empty());
    assert(remove.drop_last() =~= Seq::empty());
}

proof fn lemma_same_files(a: TreeView, b: TreeView)
    requires
        tree_sorted(a),
        tree_sorted(b),
        forall|q: Seq<char>, e: EntryView| #[trigger] a.contains((q, e)) <==> b.contains((q, e)),
    ensures
        a == b,
{
    assert forall|q: Seq<char>| #[trigger] tree_lookup(a, q) == tree_lookup(b, q) by {
        if let Some(e) = tree_lookup(a, q) {
            listing_agrees_with_lookup(a, q, e);
            listing_agrees_with_lookup(b, q, e);
            assert(a.contains((q, e)));
        }
        if let Some(e) = tree_lookup(b, q) {
            listing_agrees_with_lookup(a, q, e);
            listing_agrees_with_lookup(b, q, e);
            assert(a.contains((q, e)));
        }
    }
    tree_extensional(a, b);
}

/// Setting a file in a value that is a tree gives the text of the tree with that file.
pub proof fn set_file_is_written(
    state: Seq<u8>,
    t: TreeView,
    path: Seq<char>,
    entry: EntryView,
    now: TreeView,
)
    requires
        tree_value(state) == Ok::<TreeView, ErrorView>(t),
        tree_sorted(t),
        tree_sorted(now),
        forall|q: Seq<char>, e: EntryView| #[trigger]
            now.contains((q, e)) <==> (if q == path {
                e == entry
            } else {
                t.contains((q, e))
            }),
    ensures
        applied(state, OperationView::TreeSet { path, entry }) == Ok::<Seq<u8>, ErrorView>(
            tree_text(now),
        ),
{
    let ops = seq![TreeOpView::SetEntry { path, entry }];
    let r = tree_steps(t, ops);
    tree_steps_sorted(t, ops);
    assert forall|q: Seq<char>, e: EntryView| #[trigger]
        now.contains((q, e)) <==> r.contains((q, e)) by {
        operation_changes_one_file(t, path, entry, q, e);
    }
    lemma_same_files(now, r);
}

/// Removing a file from a value that is a tree gives the text of the tree without it.
pub proof fn removed_file_is_not_written(
    state: Seq<u8>,
    t: TreeView,
    path: Seq<char>,
    entry: EntryView,
    now: TreeView,
)
    requires
        tree_value(state) == Ok::<TreeView, ErrorView>(t),
        tree_sorted(t),
        tree_sorted(now),
        forall|q: Seq<char>, e: EntryView| #[trigger]
            now.contains((q, e)) <==> q != path && t.contains((q, e)),
    ensures
        applied(state, OperationView::TreeRemove { path }) == Ok::<Seq<u8>, ErrorView>(
            tree_text(now),
        ),
{
    let ops = seq![TreeOpView::Remove { path }];
    let r = tree_steps(t, ops);
    tree_steps_sorted(t, ops);
    assert forall|q: Seq<char>, e: EntryView| #[trigger]
        now.contains((q, e)) <==> r.contains((q, e)) by {
        operation_changes_one_file(t, path, entry, q, e);
    }
    lemma_same_files(now, r);
}

/// A snapshot is taken just if one is due: a full one of the value, or a delta one of what
/// came since the last snapshot.
pub proof fn due_snapshot_is_taken(s: StoreView, branch: BranchId, id: Seq<char>)
    ensures
        due_operation(s, branch, id) is None <==> snapshot_due(s.states, branch, id) is None,
        due_operation(s, branch, id) matches Some(Ok(op)) ==> {
            &&& op is Snapshot <==> snapshot_due(s.states, branch, id) == Some(SnapshotNeeded::Full)
            &&& op is DeltaSnapshot || op is TreeDeltaSnapshot <==> snapshot_due(
                s.states,
                branch,
                id,
            ) == Some(SnapshotNeeded::Delta)
            &&& op matches OperationView::Snapshot(v) ==> state_value(s, branch, id) == Ok::<
                Option<Seq<u8>>,
                ErrorView,
            >(Some(v)) || (state_value(s, branch, id) matches Ok(None) && v.len() == 0)
        },
{
}

/// A snapshot event holds the whole value where it is not larger than the limit; in any case
/// it tells the state, the sequence and the size of the value.
pub proof fn snapshot_event_holds_the_value(
    id: Seq<char>,
    v: Seq<u8>,
    at: Sequence,
    limit: nat,
    text: Seq<u8>,
)
    requires
        json_value(v) == Ok::<Seq<u8>, Seq<char>>(text),
    ensures
        snapshot_event(id, v, at, limit) matches EventView::StateSnapshot {
            state_id,
            data,
            sequence,
            truncated,
            total_bytes,
            from_index,
            total_length,
        } && state_id == id && sequence == at && total_bytes == v.len() && (truncated <==> v.len()
            > limit) && (v.len() <= limit ==> data == text && from_index is None
            && total_length is None),
{
}

/// A subscriber starts with the value at its sequence, or with the current one where there
/// was none then.
pub proof fn starting_value_is_of_the_sequence(
    s: StoreView,
    id: Seq<char>,
    from: Sequence,
    b: BranchView,
    v: Seq<u8>,
)
    requires
        s.branches.current_branch() == Some(b),
    ensures
        state_value_at(s, b.id, id, from) == Ok::<Option<Seq<u8>>, ErrorView>(Some(v))
            ==> starting_value(s, id, from) == Ok::<Option<(Seq<u8>, Sequence)>, ErrorView>(
            Some((v, from)),
        ),
        state_value_at(s, b.id, id, from) == Ok::<Option<Seq<u8>>, ErrorView>(None) && state_value(
            s,
            b.id,
            id,
        ) == Ok::<Option<Seq<u8>>, ErrorView>(Some(v)) ==> starting_value(s, id, from) == Ok::<
            Option<(Seq<u8>, Sequence)>,
            ErrorView,
        >(Some((v, b.head))),
        state_value_at(s, b.id, id, from) == Ok::<Option<Seq<u8>>, ErrorView>(None) && state_value(
            s,
            b.id,
            id,
        ) == Ok::<Option<Seq<u8>>, ErrorView>(None) ==> starting_value(s, id, from) == Ok::<
            Option<(Seq<u8>, Sequence)>,
            ErrorView,
        >(None),
{
}

/// A tail of no items is an array without items; one of at least all items is the whole
/// value.
pub proof fn tails_at_the_ends(v: Seq<u8>, c: ChainView, n: nat, count: nat)
    ensures
        tail_value(Ok(Some(v)), c, n, 0) == Ok::<Seq<u8>, ErrorView>(array_text(Seq::empty())),
        count >= n && count > 0 ==> tail_value(Ok(Some(v)), c, n, count) == Ok::<
            Seq<u8>,
            ErrorView,
        >(v),
{
}

/// A recorded operation is a record of its own: the next one on the current branch, marked as
/// a state update, with what the encoder gave for the update.
pub proof fn recorded_operation_is_a_record<
    E: Fn(&StateUpdateRecord) -> Result<Vec<u8>, StoreError>,
>(
    encode: E,
    s: StoreView,
    id: Seq<char>,
    op: OperationView,
    now: StoreView,
    r: RecordView,
    b: BranchView,
)
    requires
        s.branches.current_branch() == Some(b),
        recorded(encode, s, id, op, now, Ok(r)),
        b.head.0 < u64::MAX,
        s.log.next_id < u64::MAX,
    ensures
        r.id.0 == s.log.next_id,
        r.branch == b.id,
        r.sequence.0 == b.head.0 + 1,
        r.record_type == "state_update"@,
        r.caused_by.len() == 0,
        r.linked_to.len() == 0,
        now.log.bytes == s.log.bytes + record_bytes(r),
        now.log.next_id == s.log.next_id + 1,
        now.updates.len() == s.updates.len() + 1,
        now.updates.last().1.operation == op,
        now.updates.last().1.state_id == id,
        encoded(encode, now.updates.last().1, r.payload),
        now.states.heads.contains_key((b.id, id)),
        now.states.heads[(b.id, id)].head_offset == s.log.bytes.len() as u64,
{
    let (ts, p) = choose|ts: Timestamp, p: Seq<u8>| #[trigger]
        recorded_as(encode, s, id, op, now, r, b, ts, p);
}

/// A refused operation leaves the store as it was.
pub proof fn refused_operation_changes_nothing<
    E: Fn(&StateUpdateRecord) -> Result<Vec<u8>, StoreError>,
>(
    encode: E,
    s: StoreView,
    id: Seq<char>,
    op: OperationView,
    now: StoreView,
    e: ErrorView,
)
    requires
        recorded(encode, s, id, op, now, Err(e)),
    ensures
        now == s,
{
}

/// An update records its operation first; only then the snapshot that is due is taken.
pub proof fn update_records_its_operation<
    E: Fn(&StateUpdateRecord) -> Result<Vec<u8>, StoreError>,
>(
    encode: E,
    s: StoreView,
    id: Seq<char>,
    op: OperationView,
    now: StoreView,
    r: RecordView,
)
    requires
        recorded_with_snapshot(encode, s, id, op, now, Ok(r)),
    ensures
        exists|mid: StoreView, taken: Option<RecordView>|
            #[trigger] recorded(encode, s, id, op, mid, Ok(r)) && #[trigger] snapshot_taken(
                encode,
                mid,
                id,
                now,
                Ok(taken),
            ),
{
    let (mid, record) = choose|mid: StoreView, record: RecordView|
        #![trigger recorded(encode, s, id, op, mid, Ok(record))]
        recorded(encode, s, id, op, mid, Ok(record)) && mid.wf() && r == record && exists|
            taken: Option<RecordView>,
        | #[trigger]
            snapshot_taken(encode, mid, id, now, Ok(taken));
    let taken = choose|taken: Option<RecordView>| #[trigger]
        snapshot_taken(encode, mid, id, now, Ok(taken));
    assert(recorded(encode, s, id, op, mid, Ok(r)));
}

/// A snapshot is recorded just if one is due; else nothing changes.
pub proof fn snapshots_are_taken_when_due<
    E: Fn(&StateUpdateRecord) -> Result<Vec<u8>, StoreError>,
>(
    encode: E,
    s: StoreView,
    id: Seq<char>,
    now: StoreView,
    r: Option<RecordView>,
    b: BranchView,
)
    requires
        snapshot_taken(encode, s, id, now, Ok(r)),
        s.branches.current_branch() == Some(b),
    ensures
        r is Some <==> snapshot_due(s.states, b.id, id) is Some,
        r is None ==> now == s,
        r matches Some(record) ==> exists|mid: StoreView, op: OperationView|
            same_but_cache(s, mid) && due_operation(s, b.id, id) == Some(Ok::<OperationView, ErrorView>(op))
                && #[trigger] recorded(encode, mid, id, op, now, Ok(record)),
{
    if let Some(record) = r {
        let op = due_operation(s, b.id, id)->0->Ok_0;
        let mid = choose|mid: StoreView| #[trigger]
            same_but_cache(s, mid) && mid.wf() && recorded(encode, mid, id, op, now, Ok(record));
        assert(recorded(encode, mid, id, op, now, Ok(record)));
    }
}

/// Compacting a state records a full snapshot of its value, whatever stands in its chain;
/// only a state without a value is left as it is.
pub proof fn compaction_records_the_value<
    E: Fn(&StateUpdateRecord) -> Result<Vec<u8>, StoreError>,
>(
    encode: E,
    s: StoreView,
    id: Seq<char>,
    now: StoreView,
    r: Option<RecordView>,
    b: BranchView,
)
    requires
        compacted(encode, s, id, now, Ok(r)),
        s.branches.current_branch() == Some(b),
    ensures
        r is None <==> state_value(s, b.id, id) == Ok::<Option<Seq<u8>>, ErrorView>(None),
        r is None ==> same_but_cache(s, now),
        r matches Some(record) ==> state_value(s, b.id, id) matches Ok(Some(v)) && exists|
            mid: StoreView,
            then: StoreView,
        |
            same_but_cache(s, mid) && #[trigger] recorded(
                encode,
                mid,
                id,
                OperationView::Snapshot(v),
                then,
                Ok(record),
            ),
{
    reveal(compacted);
    if let Ok(Some(v)) = state_value(s, b.id, id) {
        let record = r->0;
        let op = OperationView::Snapshot(v);
        let mid = choose|mid: StoreView| #[trigger]
            same_but_cache(s, mid) && mid.wf() && recorded_with_snapshot(
                encode,
                mid,
                id,
                op,
                now,
                Ok(record),
            );
        update_records_its_operation(encode, mid, id, op, now, record);
        let (x, taken) = choose|x: StoreView, taken: Option<RecordView>|
            #[trigger] recorded(encode, mid, id, op, x, Ok(record)) && #[trigger] snapshot_taken(
                encode,
                x,
                id,
                now,
                Ok(taken),
            );
        assert(recorded(encode, mid, id, op, x, Ok(record)));
    }
}

/// A summary of the store is one of all registered states on the current branch.
pub proof fn summary_is_of_all_states(s: StoreView, ids: Seq<Seq<char>>)
    requires
        ids.len() == s.states.strategies.len(),
        forall|k: int| 0 <= k < ids.len() ==> #[trigger] ids[k] == s.states.strategies[k].0,
        s.branches.current_branch() is Some,
    ensures
        summary_of_store(s) == summary_of_states(s, s.branches.current, ids),
{
    assert(registered(s) =~= ids);
}

/// A snapshot event of an array that is larger than the limit holds the last items, as many
/// as fit, and tells from which item on they are and how many there are in all.
pub proof fn large_snapshot_event_holds_the_end(
    id: Seq<char>,
    v: Seq<u8>,
    sequence: Sequence,
    limit: nat,
    items: Seq<Seq<u8>>,
    at: usize,
)
    requires
        v.len() > limit,
        json_items(v) == Ok::<Seq<Seq<u8>>, Seq<char>>(items),
        at <= items.len() <= usize::MAX,
        items.skip(at as int).fold_left(0nat, |n: nat, item: Seq<u8>| n + item.len()) <= limit,
        at > 0 ==> items.skip(at - 1).fold_left(0nat, |n: nat, item: Seq<u8>| n + item.len())
            > limit,
    ensures
        snapshot_event(id, v, sequence, limit) == (EventView::StateSnapshot {
            state_id: id,
            data: array_text(items.subrange(at as int, items.len() as int)),
            sequence,
            truncated: true,
            total_bytes: v.len(),
            from_index: Some(at),
            total_length: Some(items.len() as usize),
        }),
{
    lemma_length(items, at as int);
    if at > 0 {
        lemma_length(items, at - 1);
    }
    assert(fits_from(items, limit, at as int));
    lemma_cut_unique(items, limit, at as int);
    assert(items.skip(at as int) =~= items.subrange(at as int, items.len() as int));
}

/// A state without a value is an empty array, tree or structure; else its text is read.
pub proof fn no_value_is_empty(state: Seq<u8>)
    ensures
        items_of(Seq::empty()) == Ok::<Seq<Seq<u8>>, ErrorView>(Seq::empty()),
        tree_value(Seq::empty()) == Ok::<TreeView, ErrorView>(Seq::empty()),
        tree_in_value(None) == Ok::<TreeView, ErrorView>(Seq::empty()),
        members_of(Seq::empty()) == Ok::<Seq<MemberView>, ErrorView>(Seq::empty()),
        state.len() > 0 && json_items(state) is Ok ==> items_of(state) == Ok::<
            Seq<Seq<u8>>,
            ErrorView,
        >(json_items(state)->Ok_0),
        state.len() > 0 && json_items(state) is Err ==> items_of(state) is Err,
        state.len() > 0 ==> tree_value(state) == tree_of(state),
        tree_in_value(Some(state)) == tree_value(state),
        state.len() > 0 && json_members(state) is Ok ==> members_of(state) == Ok::<
            Seq<MemberView>,
            ErrorView,
        >(json_members(state)->Ok_0),
{
}

/// An operation on a field changes the value of that member as it would change a state of
/// its own, and puts it in place of the old one.
pub proof fn field_operation_changes_its_member(
    state: Seq<u8>,
    ms: Seq<MemberView>,
    name: Seq<char>,
    operation: OperationView,
    before: Seq<u8>,
    value: Seq<u8>,
    text: Seq<u8>,
)
    requires
        members_of(state) == Ok::<Seq<MemberView>, ErrorView>(ms),
        member_named(ms, name) == Some(before) || (member_named(ms, name) is None && before.len()
            == 0),
        applied(before, operation) == Ok::<Seq<u8>, ErrorView>(value),
        json_value(value) == Ok::<Seq<u8>, Seq<char>>(text),
    ensures
        applied(
            state,
            OperationView::Field { name, operation: Box::new(operation) },
        ) == Ok::<Seq<u8>, ErrorView>(object_text(member_put(ms, name, text))),
{
    assert(member_named(ms, name) is None ==> before =~= Seq::empty());
}

/// Compacting states compacts every one of them, one after the other.
pub proof fn every_state_is_compacted<
    E: Fn(&StateUpdateRecord) -> Result<Vec<u8>, StoreError>,
>(
    encode: E,
    s: StoreView,
    ids: Seq<Seq<char>>,
    now: StoreView,
    n: nat,
) -> (r: (Seq<StoreView>, Seq<Option<RecordView>>))
    requires
        all_compacted(encode, s, ids, now, n),
    ensures
        r.0.len() == ids.len() + 1,
        r.1.len() == ids.len(),
        r.0[0] == s,
        r.0[ids.len() as int] == now,
        forall|i: int|
            0 <= i < ids.len() ==> #[trigger] compacted(encode, r.0[i], ids[i], r.0[i + 1], Ok(r.1[i])),
        n == r.1.filter(|x: Option<RecordView>| x is Some).len(),
{
    let (stores, rs) = choose|stores: Seq<StoreView>, rs: Seq<Option<RecordView>>| #[trigger]
        compacted_in_turn(encode, ids, stores, rs) && stores[0] == s && stores.last() == now && n
            == records_in(rs);
    compacted_states_are_counted(rs);
    (stores, rs)
}

/// A snapshot event of a value that is no JSON holds null; so does one of a large value that
/// is no array.
pub proof fn unreadable_snapshot_holds_null(
    id: Seq<char>,
    v: Seq<u8>,
    at: Sequence,
    limit: nat,
)
    ensures
        v.len() <= limit && json_value(v) is Err || v.len() > limit && json_items(v) is Err ==> (
        snapshot_event(id, v, at, limit) matches EventView::StateSnapshot {
            state_id,
            data,
            sequence,
            truncated,
            total_bytes,
            from_index,
            total_length,
        } && state_id == id && sequence == at && total_bytes == v.len() && (truncated <==> v.len()
            > limit) && data == "null".spec_bytes() && from_index is None
            && total_length is None),
{
}

} // verus!
