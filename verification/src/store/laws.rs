//! Laws of a store: what recording operations and taking snapshots does to the values of
//! states, and what it leaves alone.
use crate::error::{ErrorView, StoreError};
use crate::format::record_log::MAX_PAYLOAD_SIZE;
use crate::json::array_text;
use crate::records::codec::{fits, record_at, record_bytes, record_round_trip};
use crate::state::chain::{chain, edited_since, is_delta, is_full, lemma_chain_step, link_at, table_wf, until, ChainView, LinkView};
use crate::state::laws::{appended_since, chain_survives_append, compaction_preserves_value, delta_since, direct_items, direct_text, direct_tree, direct_tree_text, faithful_items, faithful_tree, is_item_op, is_tree_step, items_after, lemma_rest_readable, lemma_until_same, only_appends_since, ops_of, readable, same_below, text_after, tree_after, value_survives_append};
use crate::state::manager::{head_after, head_at, item_count_follows_items, strategy_of};
use crate::state::operations::holds_tree;
use crate::state::walks::{before_snapshot, chain_stats, counted, full_link, has_full};
use crate::store::model::{chain_of, due_operation, encoded, next_update, recorded, recorded_as, same_but_cache, snapshot_taken, state_value, state_value_at, update_error};
use crate::store::updates::lemma_pushed_update;
use crate::store::StoreView;
use crate::tree::TreeView;
use crate::types::{BranchId, BranchView, OperationView, RecordView, Sequence, StateUpdateRecord, StrategyView, Timestamp, UpdateView};
use vstd::prelude::*;
use vstd::string::*;
use vstd::utf8::{encode_utf8, is_ascii_chars, is_ascii_chars_encode_utf8};

verus! {

/// Whether an encoder gives payloads within the limit of a record.
pub open spec fn payloads_fit<E: Fn(&StateUpdateRecord) -> Result<Vec<u8>, StoreError>>(
    encode: E,
) -> bool {
    forall|u: UpdateView, p: Seq<u8>| #[trigger]
        encoded(encode, u, p) ==> p.len() <= MAX_PAYLOAD_SIZE
}

/// Whether an array state on a branch is in order: its chain reads and is faithful, and its
/// head tells how many items there are, whether something other than an append stands
/// behind the last snapshot, and whether anything does.
pub open spec fn items_in_order(s: StoreView, branch: BranchId, id: Seq<char>) -> bool {
    let c = chain_of(s, branch, id);
    let ops = ops_of(c);
    &&& strategy_of(s.states.strategies, id) matches Some(
        StrategyView::AppendLog { delta_snapshot_every, full_snapshot_every },
    ) && delta_snapshot_every > 0
    &&& readable(c)
    &&& faithful_items(ops)
    &&& head_at(s.states, branch, id) matches Some(h) ==> {
        &&& !h.has_non_append_since_snapshot ==> only_appends_since(ops)
        &&& h.ops_since_delta_snapshot > 0 ==> !is_full(ops[0]) && !is_delta(ops[0])
        &&& h.item_count == direct_items(ops).len()
    }
}

/// The items of an array state on a branch.
pub open spec fn items_in(s: StoreView, branch: BranchId, id: Seq<char>) -> Seq<Seq<u8>> {
    direct_items(ops_of(chain_of(s, branch, id)))
}

/// The value of an array state on a branch.
pub open spec fn text_in(s: StoreView, branch: BranchId, id: Seq<char>) -> Seq<u8> {
    direct_text(ops_of(chain_of(s, branch, id)))
}

/// Whether a tree state on a branch is in order: its chain reads and is faithful, and its
/// head tells whether something other than setting and removing files stands behind the
/// last snapshot.
pub open spec fn tree_in_order(s: StoreView, branch: BranchId, id: Seq<char>) -> bool {
    let c = chain_of(s, branch, id);
    &&& strategy_of(s.states.strategies, id) matches Some(StrategyView::Tree { .. })
    &&& readable(c)
    &&& faithful_tree(ops_of(c))
    &&& head_at(s.states, branch, id) matches Some(h) ==> (!h.has_non_append_since_snapshot
        ==> !edited_since(ops_of(c)))
}

/// The tree of a tree state on a branch.
pub open spec fn tree_in(s: StoreView, branch: BranchId, id: Seq<char>) -> TreeView {
    direct_tree(ops_of(chain_of(s, branch, id)))
}

/// The value of a tree state on a branch.
pub open spec fn tree_text_in(s: StoreView, branch: BranchId, id: Seq<char>) -> Seq<u8> {
    direct_tree_text(ops_of(chain_of(s, branch, id)))
}

/// Whether an operation is one on the items of an array state that leaves them countable.
pub open spec fn is_item_step(items: Seq<Seq<u8>>, op: OperationView) -> bool {
    is_item_op(op) && items_after(items, op).len() <= usize::MAX
}

/// Whether an update of a state on the current branch did to its items what the operation
/// does: an array state in order stays in order, with the items and the value that the
/// operation makes.
pub open spec fn items_updated<E: Fn(&StateUpdateRecord) -> Result<Vec<u8>, StoreError>>(
    encode: E,
    s: StoreView,
    id: Seq<char>,
    op: OperationView,
    now: StoreView,
) -> bool {
    let b = s.branches.current;
    let items = items_in(s, b, id);
    payloads_fit(encode) && items_in_order(s, b, id) && is_item_step(items, op) ==> {
        &&& items_in_order(now, b, id)
        &&& items_in(now, b, id) == items_after(items, op)
        &&& text_in(now, b, id) == text_after(items, op)
    }
}

/// Whether a state on the current branch kept its items: an array state in order stays in
/// order, with the same items and the same value.
pub open spec fn items_kept<E: Fn(&StateUpdateRecord) -> Result<Vec<u8>, StoreError>>(
    encode: E,
    s: StoreView,
    id: Seq<char>,
    now: StoreView,
) -> bool {
    let b = s.branches.current;
    payloads_fit(encode) && items_in_order(s, b, id) ==> {
        &&& items_in_order(now, b, id)
        &&& items_in(now, b, id) == items_in(s, b, id)
        &&& text_in(now, b, id) == text_in(s, b, id)
    }
}

/// Whether an update of a state on the current branch did to its files what the operation
/// does: a tree state in order stays in order, with the tree that the operation makes.
pub open spec fn files_updated<E: Fn(&StateUpdateRecord) -> Result<Vec<u8>, StoreError>>(
    encode: E,
    s: StoreView,
    id: Seq<char>,
    op: OperationView,
    now: StoreView,
) -> bool {
    let b = s.branches.current;
    payloads_fit(encode) && tree_in_order(s, b, id) && is_tree_step(op) ==> tree_in_order(
        now,
        b,
        id,
    ) && tree_in(now, b, id) == tree_after(tree_in(s, b, id), op)
}

/// Whether a state on the current branch kept its files: a tree state in order stays in
/// order, with the same tree.
pub open spec fn files_kept<E: Fn(&StateUpdateRecord) -> Result<Vec<u8>, StoreError>>(
    encode: E,
    s: StoreView,
    id: Seq<char>,
    now: StoreView,
) -> bool {
    let b = s.branches.current;
    payloads_fit(encode) && tree_in_order(s, b, id) ==> tree_in_order(now, b, id) && tree_in(
        now,
        b,
        id,
    ) == tree_in(s, b, id)
}

/// Whether the updates of a store lie within its log.
pub open spec fn tied(s: StoreView) -> bool {
    &&& s.log.wf()
    &&& table_wf(s.updates)
    &&& s.updates.len() > 0 ==> s.updates.last().0 < s.log.bytes.len()
}

/// Whether no link of a chain is newer than a sequence.
pub open spec fn none_newer(c: ChainView, at: Sequence) -> bool {
    forall|i: int|
        0 <= i < c.len() && (#[trigger] c[i]) is Ok ==> c[i]->Ok_0.sequence.0 <= at.0
}

/// The record of a state update fits if its payload does.
pub proof fn lemma_update_fits(r: RecordView)
    requires
        r.record_type == "state_update"@,
        r.payload.len() <= MAX_PAYLOAD_SIZE,
        r.caused_by.len() == 0,
        r.linked_to.len() == 0,
    ensures
        fits(r),
{
    reveal_strlit("state_update");
    assert(is_ascii_chars("state_update"@));
    is_ascii_chars_encode_utf8("state_update"@);
}

/// A recorded operation is the newest link of its state's chain; the chain behind it is as
/// it was.
pub proof fn recorded_operation_extends_chain<
    E: Fn(&StateUpdateRecord) -> Result<Vec<u8>, StoreError>,
>(
    encode: E,
    s: StoreView,
    id: Seq<char>,
    op: OperationView,
    now: StoreView,
    r: RecordView,
    b: BranchView,
)
    requires
        tied(s),
        payloads_fit(encode),
        s.branches.current_branch() == Some(b),
        recorded(encode, s, id, op, now, Ok(r)),
        readable(chain_of(s, b.id, id)),
    ensures
        ({
            let c = chain_of(now, b.id, id);
            &&& readable(c)
            &&& c.skip(1) == chain_of(s, b.id, id)
            &&& c.len() == chain_of(s, b.id, id).len() + 1
            &&& ops_of(c).skip(1) == ops_of(chain_of(s, b.id, id))
            &&& ops_of(c)[0] == op
            &&& c[0]->Ok_0.sequence == r.sequence
            &&& ops_of(c).len() == c.len()
            &&& now.states.strategies == s.states.strategies
            &&& now.branches.current == s.branches.current
            &&& head_at(now.states, b.id, id) == Some(
                head_after(head_at(s.states, b.id, id), s.log.bytes.len() as u64, op),
            )
        }),
{
    let (ts, p) = choose|ts: Timestamp, p: Seq<u8>| #[trigger]
        recorded_as(encode, s, id, op, now, r, b, ts, p);
    let u = next_update(s, id, op, b, ts);
    let offset = s.log.bytes.len() as u64;
    let more = record_bytes(r);
    lemma_update_fits(r);
    record_round_trip(s.log.bytes, r, Seq::empty());
    assert(s.log.bytes + more + Seq::<u8>::empty() =~= s.log.bytes + more);
    lemma_pushed_update(s.updates, offset, u);
    let prev = u.prev_update_offset;
    assert(update_error(s, id, op) is None);
    chain_survives_append(s.log.bytes, s.updates, more, now.updates, prev);
    lemma_chain_step(now.log.bytes, now.updates, offset);
    let l = LinkView { offset, sequence: r.sequence, size: r.payload.len(), update: u };
    assert(link_at(now.log.bytes, now.updates, offset) == Ok::<LinkView, ErrorView>(l));
    let c = chain_of(now, b.id, id);
    let d = chain_of(s, b.id, id);
    assert(c == seq![Ok::<LinkView, ErrorView>(l)] + d);
    assert forall|i: int| 0 <= i < c.len() implies (#[trigger] c[i]) is Ok by {
        if i > 0 {
            assert(c[i] == d[i - 1]);
        }
    }
    lemma_rest_readable(c);
    assert(c.skip(1) =~= d);
}

/// A recorded operation on the items of an array state in order leaves it in order, with
/// the items that the operation makes.
pub proof fn recorded_item_step_keeps_order<
    E: Fn(&StateUpdateRecord) -> Result<Vec<u8>, StoreError>,
>(
    encode: E,
    s: StoreView,
    id: Seq<char>,
    op: OperationView,
    now: StoreView,
    r: RecordView,
    b: BranchView,
)
    requires
        s.wf(),
        payloads_fit(encode),
        s.branches.current_branch() == Some(b),
        recorded(encode, s, id, op, now, Ok(r)),
        items_in_order(s, b.id, id),
        is_item_step(items_in(s, b.id, id), op),
    ensures
        items_in_order(now, b.id, id),
        items_in(now, b.id, id) == items_after(items_in(s, b.id, id), op),
        text_in(now, b.id, id) == text_after(items_in(s, b.id, id), op),
{
    recorded_operation_extends_chain(encode, s, id, op, now, r, b);
    let rest = ops_of(chain_of(s, b.id, id));
    let ops = ops_of(chain_of(now, b.id, id));
    let items = direct_items(rest);
    assert(update_error(s, id, op) is None);
    if head_at(s.states, b.id, id) is None {
        assert(rest.len() == 0);
        assert(items.len() == 0);
    }
    item_count_follows_items(items, head_at(s.states, b.id, id), s.log.bytes.len() as u64, op);
    let h = head_at(now.states, b.id, id)->0;
    reveal_with_fuel(only_appends_since, 2);
    assert(!h.has_non_append_since_snapshot ==> only_appends_since(ops));
}

/// Whether an operation is a snapshot that leaves the items and the value of an array state
/// as they are: it holds the value, or the items appended since the last snapshot where
/// nothing but appends followed it.
pub open spec fn keeps_items(s: StoreView, branch: BranchId, id: Seq<char>, op: OperationView) -> bool {
    let ops = ops_of(chain_of(s, branch, id));
    ||| ops.len() > 0 && op == OperationView::Snapshot(text_in(s, branch, id))
    ||| op == OperationView::DeltaSnapshot(array_text(appended_since(ops))) && only_appends_since(
        ops,
    ) && text_in(s, branch, id) == array_text(items_in(s, branch, id))
}

/// A recorded snapshot of an array state in order leaves it in order with the same items and
/// the same value.
pub proof fn recorded_snapshot_keeps_items<
    E: Fn(&StateUpdateRecord) -> Result<Vec<u8>, StoreError>,
>(
    encode: E,
    s: StoreView,
    id: Seq<char>,
    op: OperationView,
    now: StoreView,
    r: RecordView,
    b: BranchView,
)
    requires
        s.wf(),
        payloads_fit(encode),
        s.branches.current_branch() == Some(b),
        recorded(encode, s, id, op, now, Ok(r)),
        items_in_order(s, b.id, id),
        keeps_items(s, b.id, id, op),
        op is Snapshot ==> now.states.heads[(b.id, id)].item_count == items_in(s, b.id, id).len(),
    ensures
        items_in_order(now, b.id, id),
        items_in(now, b.id, id) == items_in(s, b.id, id),
        text_in(now, b.id, id) == text_in(s, b.id, id),
{
    recorded_operation_extends_chain(encode, s, id, op, now, r, b);
    let rest = ops_of(chain_of(s, b.id, id));
    let ops = ops_of(chain_of(now, b.id, id));
    if head_at(s.states, b.id, id) is None {
        assert(rest.len() == 0);
    }
    let h = head_at(now.states, b.id, id)->0;
    assert(faithful_items(ops));
    assert(only_appends_since(ops));
    assert(direct_items(ops) == direct_items(rest));
    assert(h.item_count == direct_items(ops).len());
}

/// Compaction keeps the value of every state whose chain reads, in order or not, and lets all
/// operations before it be skipped: a full snapshot of the value, once recorded, leaves the
/// value, and stands before the whole chain.
pub proof fn recorded_snapshot_keeps_value<
    E: Fn(&StateUpdateRecord) -> Result<Vec<u8>, StoreError>,
>(
    encode: E,
    s: StoreView,
    id: Seq<char>,
    v: Seq<u8>,
    now: StoreView,
    r: RecordView,
    b: BranchView,
)
    requires
        tied(s),
        payloads_fit(encode),
        s.branches.current_branch() == Some(b),
        recorded(encode, s, id, OperationView::Snapshot(v), now, Ok(r)),
        readable(chain_of(s, b.id, id)),
        state_value(s, b.id, id) == Ok::<Option<Seq<u8>>, ErrorView>(Some(v)),
    ensures
        state_value(now, b.id, id) == state_value(s, b.id, id),
        before_snapshot(chain_of(now, b.id, id)) == chain_of(s, b.id, id),
        has_full(chain_of(now, b.id, id)),
        chain_stats(chain_of(now, b.id, id)) matches Ok(x) && x.total_operations == counted(
            chain_of(s, b.id, id).len() + 1,
        ) && x.operations_before_snapshot == counted(chain_of(s, b.id, id).len())
            && x.has_full_snapshot,
{
    let op = OperationView::Snapshot(v);
    recorded_operation_extends_chain(encode, s, id, op, now, r, b);
    let c = chain_of(s, b.id, id);
    let d = chain_of(now, b.id, id);
    lemma_rest_readable(d);
    let l = d[0]->Ok_0;
    assert(d =~= seq![Ok::<LinkView, ErrorView>(l)] + c);
    compaction_preserves_value(c, l, v);
    assert(full_link(d[0]));
    assert(d.last() is Ok);
}

/// A recorded operation on the files of a tree state in order leaves it in order, with the
/// tree that the operation makes.
pub proof fn recorded_tree_step_keeps_order<
    E: Fn(&StateUpdateRecord) -> Result<Vec<u8>, StoreError>,
>(
    encode: E,
    s: StoreView,
    id: Seq<char>,
    op: OperationView,
    now: StoreView,
    r: RecordView,
    b: BranchView,
)
    requires
        s.wf(),
        payloads_fit(encode),
        s.branches.current_branch() == Some(b),
        recorded(encode, s, id, op, now, Ok(r)),
        tree_in_order(s, b.id, id),
        is_tree_step(op),
    ensures
        tree_in_order(now, b.id, id),
        tree_in(now, b.id, id) == tree_after(tree_in(s, b.id, id), op),
{
    recorded_operation_extends_chain(encode, s, id, op, now, r, b);
    let rest = ops_of(chain_of(s, b.id, id));
    if head_at(s.states, b.id, id) is None {
        assert(rest.len() == 0);
    }
    let ops = ops_of(chain_of(now, b.id, id));
    reveal_with_fuel(edited_since, 2);
    assert(!(head_at(now.states, b.id, id)->0).has_non_append_since_snapshot ==> !edited_since(ops));
}

/// Whether an operation is a snapshot of a tree state, or of what was done since the last
/// snapshot where that was no more than setting and removing files.
pub open spec fn keeps_tree(s: StoreView, branch: BranchId, id: Seq<char>, op: OperationView) -> bool {
    let ops = ops_of(chain_of(s, branch, id));
    ||| op matches OperationView::Snapshot(v) && holds_tree(v, tree_in(s, branch, id))
    ||| op == OperationView::TreeDeltaSnapshot(delta_since(ops, Seq::empty())) && !edited_since(ops)
}

/// A recorded snapshot of a tree state in order, or of what was done since the last
/// snapshot, leaves it in order with the same tree.
pub proof fn recorded_snapshot_keeps_tree<
    E: Fn(&StateUpdateRecord) -> Result<Vec<u8>, StoreError>,
>(
    encode: E,
    s: StoreView,
    id: Seq<char>,
    op: OperationView,
    now: StoreView,
    r: RecordView,
    b: BranchView,
)
    requires
        s.wf(),
        payloads_fit(encode),
        s.branches.current_branch() == Some(b),
        recorded(encode, s, id, op, now, Ok(r)),
        tree_in_order(s, b.id, id),
        keeps_tree(s, b.id, id, op),
    ensures
        tree_in_order(now, b.id, id),
        tree_in(now, b.id, id) == tree_in(s, b.id, id),
{
    recorded_operation_extends_chain(encode, s, id, op, now, r, b);
}

/// Branches are isolated, and so are states: an operation recorded on one state of the
/// current branch leaves the values of all others, and of that state on other branches, as
/// they were.
pub proof fn recorded_operation_is_local<
    E: Fn(&StateUpdateRecord) -> Result<Vec<u8>, StoreError>,
>(
    encode: E,
    s: StoreView,
    id: Seq<char>,
    op: OperationView,
    now: StoreView,
    r: Result<RecordView, ErrorView>,
    branch: BranchId,
    other: Seq<char>,
)
    requires
        s.wf(),
        recorded(encode, s, id, op, now, r),
        branch != s.branches.current || other != id,
        state_value(s, branch, other) is Ok,
    ensures
        state_value(now, branch, other) == state_value(s, branch, other),
        head_at(now.states, branch, other) == head_at(s.states, branch, other),
{
    if r is Ok {
        let record = r->Ok_0;
        let b = s.branches.current_branch()->0;
        crate::branches::manager::lemma_current(s.branches);
        let (ts, p) = choose|ts: Timestamp, p: Seq<u8>| #[trigger]
            recorded_as(encode, s, id, op, now, record, b, ts, p);
        let u = next_update(s, id, op, b, ts);
        let offset = s.log.bytes.len() as u64;
        lemma_pushed_update(s.updates, offset, u);
        if let Some(h) = head_at(s.states, branch, other) {
            value_survives_append(
                s.log.bytes,
                s.updates,
                record_bytes(record),
                now.updates,
                Some(h.head_offset),
                false,
            );
        }
    }
}

/// Whether what an array state was at a sequence is in order.
pub open spec fn past_items_in_order(
    s: StoreView,
    branch: BranchId,
    id: Seq<char>,
    at: Sequence,
) -> bool {
    let past = until(chain_of(s, branch, id), Some(at));
    readable(past) && faithful_items(ops_of(past)) && past.len() > 0
}

/// The value that an array state had at a sequence.
pub open spec fn past_text(s: StoreView, branch: BranchId, id: Seq<char>, at: Sequence) -> Seq<u8> {
    direct_text(ops_of(until(chain_of(s, branch, id), Some(at))))
}

/// The items that an array state had at a sequence.
pub open spec fn past_items(
    s: StoreView,
    branch: BranchId,
    id: Seq<char>,
    at: Sequence,
) -> Seq<Seq<u8>> {
    direct_items(ops_of(until(chain_of(s, branch, id), Some(at))))
}

/// Whether what a tree state was at a sequence is in order.
pub open spec fn past_tree_in_order(
    s: StoreView,
    branch: BranchId,
    id: Seq<char>,
    at: Sequence,
) -> bool {
    let past = until(chain_of(s, branch, id), Some(at));
    readable(past) && faithful_tree(ops_of(past)) && past.len() > 0
}

/// The value that a tree state had at a sequence.
pub open spec fn past_tree_text(
    s: StoreView,
    branch: BranchId,
    id: Seq<char>,
    at: Sequence,
) -> Seq<u8> {
    direct_tree_text(ops_of(until(chain_of(s, branch, id), Some(at))))
}

/// The tree that a tree state had at a sequence.
pub open spec fn past_tree(
    s: StoreView,
    branch: BranchId,
    id: Seq<char>,
    at: Sequence,
) -> TreeView {
    direct_tree(ops_of(until(chain_of(s, branch, id), Some(at))))
}

/// History is kept: an operation recorded on a state does not change what it was at earlier
/// sequences.
pub proof fn recorded_operation_keeps_past<
    E: Fn(&StateUpdateRecord) -> Result<Vec<u8>, StoreError>,
>(
    encode: E,
    s: StoreView,
    id: Seq<char>,
    op: OperationView,
    now: StoreView,
    r: RecordView,
    b: BranchView,
    at: Sequence,
)
    requires
        tied(s),
        payloads_fit(encode),
        s.branches.current_branch() == Some(b),
        recorded(encode, s, id, op, now, Ok(r)),
        readable(chain_of(s, b.id, id)),
        at.0 < r.sequence.0,
    ensures
        until(chain_of(now, b.id, id), Some(at)) == until(chain_of(s, b.id, id), Some(at)),
        state_value_at(now, b.id, id, at) == state_value_at(s, b.id, id, at),
{
    recorded_operation_extends_chain(encode, s, id, op, now, r, b);
    let c = chain_of(now, b.id, id);
    let d = chain_of(s, b.id, id);
    assert(c[0] is Ok);
    assert(until(c, Some(at)) == until(d, Some(at)));
    if head_at(s.states, b.id, id) is None {
        assert(d.len() == 0);
    }
}

/// Right after an operation was recorded, what the state was at the operation's sequence is
/// what it is now; and no update of the state is newer than that.
pub proof fn recorded_operation_is_the_newest<
    E: Fn(&StateUpdateRecord) -> Result<Vec<u8>, StoreError>,
>(
    encode: E,
    s: StoreView,
    id: Seq<char>,
    op: OperationView,
    now: StoreView,
    r: RecordView,
    b: BranchView,
)
    requires
        tied(s),
        payloads_fit(encode),
        s.branches.current_branch() == Some(b),
        recorded(encode, s, id, op, now, Ok(r)),
        readable(chain_of(s, b.id, id)),
        none_newer(chain_of(s, b.id, id), b.head),
    ensures
        until(chain_of(now, b.id, id), Some(r.sequence)) == chain_of(now, b.id, id),
        state_value_at(now, b.id, id, r.sequence) == state_value(now, b.id, id),
        none_newer(chain_of(now, b.id, id), r.sequence),
{
    recorded_operation_extends_chain(encode, s, id, op, now, r, b);
    let c = chain_of(now, b.id, id);
    let d = chain_of(s, b.id, id);
    assert forall|i: int| 0 <= i < c.len() && (#[trigger] c[i]) is Ok implies c[i]->Ok_0.sequence.0
        <= r.sequence.0 by {
        if i > 0 {
            assert(c[i] == c.skip(1)[i - 1]);
            assert(d[i - 1] is Ok);
        }
    }
    lemma_until_same(c, r.sequence);
}

pub proof fn lemma_tied_after<E: Fn(&StateUpdateRecord) -> Result<Vec<u8>, StoreError>>(
    encode: E,
    s: StoreView,
    id: Seq<char>,
    op: OperationView,
    now: StoreView,
    r: RecordView,
    b: BranchView,
)
    requires
        tied(s),
        s.branches.current_branch() == Some(b),
        recorded(encode, s, id, op, now, Ok(r)),
        now.log.wf(),
    ensures
        tied(now),
        now.branches.current_branch() matches Some(after) && after.id == b.id && after.head
            == r.sequence,
        r.sequence == crate::store::model::after(b.head),
{
    let (ts, p) = choose|ts: Timestamp, p: Seq<u8>| #[trigger]
        recorded_as(encode, s, id, op, now, r, b, ts, p);
    let u = next_update(s, id, op, b, ts);
    let offset = s.log.bytes.len() as u64;
    lemma_pushed_update(s.updates, offset, u);
    crate::branches::manager::lemma_current(s.branches);
    crate::branches::laws::heads_are_independent(s.branches.branches, b.id, r.sequence, b.id);
}

/// What a state is right after an operation is what it was at that operation's sequence ever
/// since, though a snapshot was taken at once.
proof fn lemma_past_through_snapshot<
    E: Fn(&StateUpdateRecord) -> Result<Vec<u8>, StoreError>,
>(
    encode: E,
    s: StoreView,
    id: Seq<char>,
    op: OperationView,
    mid: StoreView,
    now: StoreView,
    r: RecordView,
    b: BranchView,
    taken: Option<RecordView>,
)
    requires
        tied(s),
        mid.log.wf(),
        payloads_fit(encode),
        s.branches.current_branch() == Some(b),
        b.head.0 + 1 < u64::MAX,
        recorded(encode, s, id, op, mid, Ok(r)),
        snapshot_taken(encode, mid, id, now, Ok(taken)),
        readable(chain_of(s, b.id, id)),
        readable(chain_of(mid, b.id, id)),
        none_newer(chain_of(s, b.id, id), b.head),
    ensures
        until(chain_of(now, b.id, id), Some(r.sequence)) == chain_of(mid, b.id, id),
{
    recorded_operation_is_the_newest(encode, s, id, op, mid, r, b);
    lemma_tied_after(encode, s, id, op, mid, r, b);
    let after = mid.branches.current_branch()->0;
    match due_operation(mid, after.id, id) {
        Some(Ok(snapshot)) => {
            let mid2 = choose|mid2: StoreView| #[trigger]
                same_but_cache(mid, mid2) && mid2.wf() && (match taken {
                    Some(record) => recorded(encode, mid2, id, snapshot, now, Ok(record)),
                    None => false,
                });
            let record = taken->0;
            assert(update_error(mid2, id, snapshot) is None);
            let (ts, p) = choose|ts: Timestamp, p: Seq<u8>| #[trigger]
                recorded_as(encode, mid2, id, snapshot, now, record, after, ts, p);
            assert(record.sequence == crate::store::model::after(after.head));
            assert(chain_of(mid2, b.id, id) == chain_of(mid, b.id, id));
            recorded_operation_keeps_past(
                encode,
                mid2,
                id,
                snapshot,
                now,
                record,
                after,
                r.sequence,
            );
        },
        _ => {},
    }
}

/// The items that an array state had at the sequence of an operation are those that the
/// operation made, whatever snapshot followed.
pub proof fn past_items_are_as_they_were<
    E: Fn(&StateUpdateRecord) -> Result<Vec<u8>, StoreError>,
>(
    encode: E,
    s: StoreView,
    id: Seq<char>,
    op: OperationView,
    mid: StoreView,
    now: StoreView,
    r: RecordView,
    b: BranchView,
    taken: Option<RecordView>,
)
    requires
        s.wf(),
        mid.wf(),
        payloads_fit(encode),
        s.branches.current_branch() == Some(b),
        b.head.0 + 1 < u64::MAX,
        recorded(encode, s, id, op, mid, Ok(r)),
        snapshot_taken(encode, mid, id, now, Ok(taken)),
        items_in_order(s, b.id, id),
        is_item_step(items_in(s, b.id, id), op),
        none_newer(chain_of(s, b.id, id), b.head),
    ensures
        past_items_in_order(now, b.id, id, r.sequence),
        past_items(now, b.id, id, r.sequence) == items_after(items_in(s, b.id, id), op),
        past_text(now, b.id, id, r.sequence) == text_after(items_in(s, b.id, id), op),
{
    recorded_operation_extends_chain(encode, s, id, op, mid, r, b);
    recorded_item_step_keeps_order(encode, s, id, op, mid, r, b);
    lemma_past_through_snapshot(encode, s, id, op, mid, now, r, b, taken);
}

/// The tree that a tree state had at the sequence of an operation is the one that the
/// operation made, whatever snapshot followed.
pub proof fn past_tree_is_as_it_was<
    E: Fn(&StateUpdateRecord) -> Result<Vec<u8>, StoreError>,
>(
    encode: E,
    s: StoreView,
    id: Seq<char>,
    op: OperationView,
    mid: StoreView,
    now: StoreView,
    r: RecordView,
    b: BranchView,
    taken: Option<RecordView>,
)
    requires
        s.wf(),
        mid.wf(),
        payloads_fit(encode),
        s.branches.current_branch() == Some(b),
        b.head.0 + 1 < u64::MAX,
        recorded(encode, s, id, op, mid, Ok(r)),
        snapshot_taken(encode, mid, id, now, Ok(taken)),
        tree_in_order(s, b.id, id),
        is_tree_step(op),
        none_newer(chain_of(s, b.id, id), b.head),
    ensures
        past_tree_in_order(now, b.id, id, r.sequence),
        past_tree(now, b.id, id, r.sequence) == tree_after(tree_in(s, b.id, id), op),
{
    recorded_operation_extends_chain(encode, s, id, op, mid, r, b);
    recorded_tree_step_keeps_order(encode, s, id, op, mid, r, b);
    lemma_past_through_snapshot(encode, s, id, op, mid, now, r, b, taken);
}

/// The past of other states, and of a state on other branches, is kept too.
pub proof fn recorded_operation_leaves_other_pasts<
    E: Fn(&StateUpdateRecord) -> Result<Vec<u8>, StoreError>,
>(
    encode: E,
    s: StoreView,
    id: Seq<char>,
    op: OperationView,
    now: StoreView,
    r: Result<RecordView, ErrorView>,
    branch: BranchId,
    other: Seq<char>,
    at: Sequence,
)
    requires
        tied(s),
        recorded(encode, s, id, op, now, r),
        branch != s.branches.current || other != id,
        readable(chain_of(s, branch, other)),
    ensures
        chain_of(now, branch, other) == chain_of(s, branch, other),
        state_value_at(now, branch, other, at) == state_value_at(s, branch, other, at),
{
    if r is Ok {
        let record = r->Ok_0;
        let b = s.branches.current_branch()->0;
        crate::branches::manager::lemma_current(s.branches);
        let (ts, p) = choose|ts: Timestamp, p: Seq<u8>| #[trigger]
            recorded_as(encode, s, id, op, now, record, b, ts, p);
        let u = next_update(s, id, op, b, ts);
        let offset = s.log.bytes.len() as u64;
        lemma_pushed_update(s.updates, offset, u);
        chain_survives_append(
            s.log.bytes,
            s.updates,
            record_bytes(record),
            now.updates,
            match head_at(s.states, branch, other) {
                Some(h) => Some(h.head_offset),
                None => None,
            },
        );
    }
}

/// An append leaves the values of all states as they were.
pub proof fn append_leaves_states(
    s: StoreView,
    r: RecordView,
    b: BranchView,
    wal: crate::wal::log::WalView,
    branch: BranchId,
    id: Seq<char>,
)
    requires
        s.wf(),
        state_value(s, branch, id) is Ok,
    ensures
        state_value(crate::store::model::appended(s, r, b, wal), branch, id) == state_value(
            s,
            branch,
            id,
        ),
{
    if let Some(h) = head_at(s.states, branch, id) {
        assert(same_below(s.updates, s.updates, s.log.bytes.len() as int));
        value_survives_append(
            s.log.bytes,
            s.updates,
            record_bytes(r),
            s.updates,
            Some(h.head_offset),
            false,
        );
    }
}

/// An appended record is found by its id and at its place on its branch, and reads as it
/// was given out.
pub proof fn appended_record_is_found(
    s: StoreView,
    r: RecordView,
    b: BranchView,
    wal: crate::wal::log::WalView,
)
    requires
        s.wf(),
        fits(r),
    ensures
        ({
            let now = crate::store::model::appended(s, r, b, wal);
            let offset = s.log.bytes.len() as u64;
            &&& crate::records::index::offsets_by_id(now.added).contains_key(r.id.0)
            &&& crate::records::index::offsets_by_id(now.added)[r.id.0] == offset
            &&& crate::records::index::offset_at(now.added, r.branch, r.sequence) == Some(offset)
            &&& record_at(now.log.bytes, offset as int) matches Ok((v, _)) && v == r
        }),
{
    let now = crate::store::model::appended(s, r, b, wal);
    assert(now.added.drop_last() =~= s.added);
    record_round_trip(s.log.bytes, r, Seq::empty());
    assert(s.log.bytes + record_bytes(r) + Seq::<u8>::empty() =~= s.log.bytes + record_bytes(r));
}

} // verus!
