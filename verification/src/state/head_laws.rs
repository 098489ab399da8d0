//! Laws of chain heads and registered states: what a head counts, when a snapshot is due,
//! and how heads pass from one branch to another.
use crate::error::ErrorView;
use crate::state::manager::{cache_key, compaction_stats, head_after, head_at, heads_copied, needed, registration_error, snapshot_due, strategy_of, HeadsView, SnapshotNeeded, StateChainHead, StateIndexView, StrategiesView};
use crate::state::operations::items_of;
use crate::text::decimal_bytes;
use crate::types::{BranchId, OperationView, StrategyView};
use vstd::prelude::*;
use vstd::utf8::*;

verus! {

/// A head tells what was recorded since the last snapshots: a full snapshot starts all
/// counts anew, a delta snapshot starts that of single updates anew and is counted itself,
/// and every other update is counted. What neither appends nor changes files of a tree is
/// remembered.
pub proof fn head_counts_updates(h: StateChainHead, offset: u64, op: OperationView)
    requires
        h.ops_since_delta_snapshot < u64::MAX,
        h.delta_snapshots_since_full < u64::MAX,
    ensures
        ({
            let after = head_after(Some(h), offset, op);
            &&& after.head_offset == offset
            &&& after.ops_since_delta_snapshot == (if op is Snapshot || op is DeltaSnapshot
                || op is TreeDeltaSnapshot {
                0
            } else {
                h.ops_since_delta_snapshot + 1
            })
            &&& after.delta_snapshots_since_full == (if op is Snapshot {
                0
            } else if op is DeltaSnapshot || op is TreeDeltaSnapshot {
                h.delta_snapshots_since_full + 1
            } else {
                h.delta_snapshots_since_full as int
            })
            &&& after.last_full_snapshot_offset == (if op is Snapshot {
                Some(offset)
            } else {
                h.last_full_snapshot_offset
            })
            &&& after.last_delta_snapshot_offset == (if op is Snapshot {
                None
            } else if op is DeltaSnapshot || op is TreeDeltaSnapshot {
                Some(offset)
            } else {
                h.last_delta_snapshot_offset
            })
            &&& op is Snapshot ==> !after.has_non_append_since_snapshot
            &&& op is SetValue || op is Delta || op is Redact || op is Edit || op is Field
                ==> after.has_non_append_since_snapshot
            &&& op is Append || op is TreeSet || op is TreeRemove || op is TreeBatch
                || op is DeltaSnapshot || op is TreeDeltaSnapshot
                ==> after.has_non_append_since_snapshot == h.has_non_append_since_snapshot
        }),
{
}

/// The first update of a state starts its counts.
pub proof fn first_update_starts_counts(offset: u64, op: OperationView)
    ensures
        ({
            let after = head_after(None, offset, op);
            &&& after.head_offset == offset
            &&& !(op is Snapshot || op is DeltaSnapshot || op is TreeDeltaSnapshot)
                ==> after.ops_since_delta_snapshot == 1 && after.delta_snapshots_since_full == 0
                && after.last_full_snapshot_offset is None
                && after.last_delta_snapshot_offset is None
            &&& op is Append ==> after.item_count == 1 && !after.has_non_append_since_snapshot
        }),
{
}

/// When a snapshot is due: for a plain state never; for one kept by deltas every so many
/// updates, a full one; for an append log or a tree a full one after so many delta
/// snapshots, else after so many updates a delta one, or a full one where something else was
/// recorded than a delta can hold.
pub proof fn snapshots_fall_due(h: StateChainHead, every: u64, full_every: u64)
    ensures
        needed(StrategyView::Snapshot, h) is None,
        needed(StrategyView::Delta { snapshot_every: every }, h) == (if every
            <= h.ops_since_delta_snapshot {
            Some(SnapshotNeeded::Full)
        } else {
            None
        }),
        ({
            let a = needed(
                StrategyView::AppendLog {
                    delta_snapshot_every: every,
                    full_snapshot_every: full_every,
                },
                h,
            );
            let t = needed(
                StrategyView::Tree { delta_snapshot_every: every, full_snapshot_every: full_every },
                h,
            );
            &&& a == t
            &&& a is None <==> h.delta_snapshots_since_full < full_every
                && h.ops_since_delta_snapshot < every
            &&& a == Some(SnapshotNeeded::Delta) <==> h.delta_snapshots_since_full < full_every
                && every <= h.ops_since_delta_snapshot && !h.has_non_append_since_snapshot
            &&& a == Some(SnapshotNeeded::Full) <==> h.delta_snapshots_since_full >= full_every || (
            every <= h.ops_since_delta_snapshot && h.has_non_append_since_snapshot)
        }),
{
}

/// A structure gets a full snapshot every hundred updates.
pub proof fn structures_fall_due(strategy: StrategyView, h: StateChainHead)
    requires
        strategy is Struct,
    ensures
        needed(strategy, h) == (if h.ops_since_delta_snapshot < 100 {
            None
        } else {
            Some(SnapshotNeeded::Full)
        }),
{
}

/// A snapshot is due for no state that has no update yet, or that is not registered.
pub proof fn nothing_is_due_without_updates(index: StateIndexView, branch: BranchId, id: Seq<char>)
    requires
        !index.heads.contains_key((branch, id)) || forall|k: int|
            0 <= k < index.strategies.len() ==> (#[trigger] index.strategies[k]).0 != id,
    ensures
        snapshot_due(index, branch, id) is None,
{
    strategies_are_found(index.strategies, id, 0);
}

/// A registered state is found under its id, and no other is.
pub proof fn strategies_are_found(s: StrategiesView, id: Seq<char>, k: int)
    ensures
        strategy_of(s, id) is None <==> forall|i: int|
            0 <= i < s.len() ==> (#[trigger] s[i]).0 != id,
        0 <= k < s.len() && s[k].0 == id && (forall|i: int|
            k < i < s.len() ==> (#[trigger] s[i]).0 != id) ==> strategy_of(s, id) == Some(s[k].1),
    decreases s.len(),
{
    if s.len() > 0 {
        let init = s.drop_last();
        strategies_are_found(init, id, k);
        assert(s[s.len() - 1] == s.last());
        assert(forall|i: int| 0 <= i < init.len() ==> #[trigger] init[i] == s[i]);
        assert(forall|i: int| 0 <= i < init.len() ==> #[trigger] s[i] == init[i]);
    }
}

/// A state is registered just if it has an id that none has yet, and an append log or a tree
/// also asks for snapshots at all.
pub proof fn registration_needs_a_new_id(s: StrategiesView, id: Seq<char>, strategy: StrategyView)
    ensures
        registration_error(s, id, strategy) is None <==> {
            &&& id.len() > 0
            &&& forall|i: int| 0 <= i < s.len() ==> (#[trigger] s[i]).0 != id
            &&& strategy matches StrategyView::AppendLog {
                delta_snapshot_every,
                full_snapshot_every,
            } ==> delta_snapshot_every > 0 && full_snapshot_every > 0
            &&& strategy matches StrategyView::Tree {
                delta_snapshot_every,
                full_snapshot_every,
            } ==> delta_snapshot_every > 0 && full_snapshot_every > 0
        },
        registration_error(s, id, strategy) == Some(ErrorView::StateExists(id)) ==> exists|i: int|
            0 <= i < s.len() && (#[trigger] s[i]).0 == id,
        id.len() > 0 && !(strategy is AppendLog) && !(strategy is Tree) && (exists|i: int|
            0 <= i < s.len() && (#[trigger] s[i]).0 == id) ==> registration_error(s, id, strategy)
            == Some(ErrorView::StateExists(id)),
{
    strategies_are_found(s, id, 0);
}

/// A branch that takes over the heads of another has each of them; it keeps its own for the
/// states that the other has none of, and no further branch changes.
pub proof fn copied_heads_are_taken_over(
    heads: HeadsView,
    from: BranchId,
    to: BranchId,
    branch: BranchId,
    id: Seq<char>,
)
    ensures
        ({
            let after = heads_copied(heads, from, to);
            &&& heads.contains_key((from, id)) ==> after.contains_key((to, id)) && after[(to, id)]
                == heads[(from, id)]
            &&& !heads.contains_key((from, id)) ==> (after.contains_key((to, id))
                <==> heads.contains_key((to, id))) && (heads.contains_key((to, id)) ==> after[(
                to,
                id,
            )] == heads[(to, id)])
            &&& branch != to ==> (after.contains_key((branch, id)) <==> heads.contains_key(
                (branch, id),
            )) && (heads.contains_key((branch, id)) ==> after[(branch, id)] == heads[(branch, id)])
        }),
{
    broadcast use vstd::map::group_map_axioms;

}

/// The statistics of a head: all updates since the last full snapshot, delta snapshots
/// included, and where the last snapshots stand.
pub proof fn statistics_tell_of_the_head(h: StateChainHead)
    requires
        h.ops_since_delta_snapshot + h.delta_snapshots_since_full <= u64::MAX,
    ensures
        compaction_stats(h).ops_since_last_full_snapshot == h.ops_since_delta_snapshot
            + h.delta_snapshots_since_full,
        compaction_stats(h).delta_snapshots_since_full == h.delta_snapshots_since_full,
        compaction_stats(h).last_full_snapshot_offset == h.last_full_snapshot_offset,
        compaction_stats(h).last_delta_snapshot_offset == h.last_delta_snapshot_offset,
{
}

/// The head of a state is the one that is listed for its branch.
pub proof fn heads_are_listed(index: StateIndexView, branch: BranchId, id: Seq<char>)
    ensures
        head_at(index, branch, id) is Some <==> index.heads.contains_key((branch, id)),
        index.heads.contains_key((branch, id)) ==> head_at(index, branch, id)
            == Some(index.heads[(branch, id)]),
{
}

/// A head counts the items of an array: those of a value that is set or snapshotted, one
/// more for an append, less what a redaction takes out, and the same after everything else.
pub proof fn head_counts_items(h: StateChainHead, offset: u64, op: OperationView)
    ensures
        ({
            let n = head_after(Some(h), offset, op).item_count;
            &&& op is Append && h.item_count < usize::MAX ==> n == h.item_count + 1
            &&& op is Edit || op is DeltaSnapshot || op is TreeDeltaSnapshot || op is TreeSet
                || op is TreeRemove || op is TreeBatch || op is Field ==> n == h.item_count
            &&& op matches OperationView::Redact { start, end } ==> n == (if start >= end || start
                >= h.item_count {
                h.item_count as int
            } else if end >= h.item_count {
                start as int
            } else {
                h.item_count - (end - start)
            })
            &&& op matches OperationView::SetValue(v) ==> (items_of(v) matches Ok(items) ==> n
                == items.len() as usize)
            &&& op matches OperationView::Delta { new_value, .. } ==> (items_of(
                new_value,
            ) matches Ok(items) ==> n == items.len() as usize)
            &&& op matches OperationView::Snapshot(v) ==> (items_of(v) matches Ok(items) ==> n
                == items.len() as usize)
        }),
{
}

proof fn lemma_numeral(n: nat)
    ensures
        decimal_bytes(n).len() > 0,
        forall|i: int| 0 <= i < decimal_bytes(n).len() ==> 48 <= #[trigger] decimal_bytes(n)[i] <= 57,
    decreases n,
{
    if n >= 10 {
        lemma_numeral(n / 10);
        let d = decimal_bytes(n);
        let init = decimal_bytes(n / 10);
        assert forall|i: int| 0 <= i < d.len() implies 48 <= #[trigger] d[i] <= 57 by {
            if i < init.len() {
                assert(d[i] == init[i]);
            }
        }
    }
}

proof fn lemma_numerals_differ(a: nat, b: nat)
    requires
        decimal_bytes(a) == decimal_bytes(b),
    ensures
        a == b,
    decreases a,
{
    let x = decimal_bytes(a);
    let y = decimal_bytes(b);
    if a >= 10 {
        lemma_numeral(a / 10);
        assert(x.len() > 1);
        assert(b >= 10);
        assert(x.drop_last() =~= decimal_bytes(a / 10));
        assert(y.drop_last() =~= decimal_bytes(b / 10));
        lemma_numerals_differ(a / 10, b / 10);
        let p = a % 10;
        let q = b % 10;
        assert(x.last() == (48 + p) as u8);
        assert(y.last() == (48 + q) as u8);
        assert(p == q);
        assert(a == 10 * (a / 10) + p && b == 10 * (b / 10) + q);
    } else {
        if b >= 10 {
            lemma_numeral(b / 10);
            assert(y.len() > 1);
        }
        assert(x[0] == (48 + a) as u8);
        assert(y[0] == (48 + b) as u8);
    }
}

/// No two states, nor one state on two branches, share a place in the cache.
pub proof fn cache_keys_tell_apart(
    branch: BranchId,
    id: Seq<char>,
    other_branch: BranchId,
    other: Seq<char>,
)
    requires
        cache_key(branch, id) == cache_key(other_branch, other),
    ensures
        branch == other_branch,
        id == other,
{
    let a = decimal_bytes(branch.0 as nat);
    let b = decimal_bytes(other_branch.0 as nat);
    let k = cache_key(branch, id);
    lemma_numeral(branch.0 as nat);
    lemma_numeral(other_branch.0 as nat);
    assert(k[a.len() as int] == 58);
    assert(k[b.len() as int] == 58);
    if a.len() < b.len() {
        assert(k[a.len() as int] == b[a.len() as int]);
    }
    if b.len() < a.len() {
        assert(k[b.len() as int] == a[b.len() as int]);
    }
    assert(a =~= k.take(a.len() as int));
    assert(b =~= k.take(b.len() as int));
    lemma_numerals_differ(branch.0 as nat, other_branch.0 as nat);
    assert(encode_utf8(id) =~= k.skip(a.len() as int + 1));
    assert(encode_utf8(other) =~= k.skip(b.len() as int + 1));
    encode_utf8_decode_utf8(id);
    encode_utf8_decode_utf8(other);
}

} // verus!
