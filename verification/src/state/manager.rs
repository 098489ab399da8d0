//! State manager: registered states, their chain heads, and a cache of their values.
use crate::bytes::put_slice;
use crate::cache::{cached, lemma_cached_entry, lemma_without_subset, without, Cache, EntriesView};
use crate::error::{invalid_operation, ErrorView, StoreError};
use crate::json::texts;
use crate::records::log::RecordLog;
use crate::state::chain::{chain, is_tracked, models_decide, reconstruct, table_wf, value_of, TableView, UpdateTable};
use crate::state::laws::{is_item_op, items_after, same_below, value_survives_append};
use crate::state::operations::{holds_items, items_of, models, read_items, whole_value, ItemOp};
use crate::state::walks::{chain_stats, count_operations, counted, ChainStats};
use crate::text::{decimal_bytes, push_decimal_bytes, same_text};
use crate::types::{BranchId, OperationView, StateOperation, StateRegistration, StateStrategy, StrategyView};
use vstd::prelude::*;
use vstd::string::*;
use vstd::utf8::encode_utf8;

verus! {

/// Default cache size (number of states).
pub const DEFAULT_CACHE_SIZE: usize = 1000;

/// What type of snapshot is needed for a state.
#[derive(Clone, Copy, Debug, PartialEq, Eq, Structural)]
pub enum SnapshotNeeded {
    /// A delta snapshot (stores items since last delta/full snapshot).
    Delta,
    /// A full snapshot (stores entire state).
    Full,
}

/// Statistics about compaction potential for a state.
#[derive(Clone, Copy, Debug)]
pub struct CompactionStats {
    /// Operations since the last full snapshot.
    pub ops_since_last_full_snapshot: u64,
    /// Offset of the last full snapshot (if any).
    pub last_full_snapshot_offset: Option<u64>,
    /// Offset of the last delta snapshot (if any).
    pub last_delta_snapshot_offset: Option<u64>,
    /// Number of delta snapshots since the last full snapshot.
    pub delta_snapshots_since_full: u64,
}

/// Tracks the chain head for a single state. Counts stop at the largest number.
#[derive(Clone, Copy, Debug)]
pub struct StateChainHead {
    /// File offset of the most recent update record.
    pub head_offset: u64,
    /// Number of operations since last delta snapshot (for AppendLog).
    pub ops_since_delta_snapshot: u64,
    /// Number of delta snapshots since last full snapshot.
    pub delta_snapshots_since_full: u64,
    /// File offset of most recent delta snapshot.
    pub last_delta_snapshot_offset: Option<u64>,
    /// File offset of most recent full snapshot.
    pub last_full_snapshot_offset: Option<u64>,
    /// Whether something other than an append or a tree operation (Set, Edit, Redact) was
    /// recorded since the last snapshot. A full snapshot is then due instead of a delta
    /// snapshot, because delta snapshots can only track those.
    pub has_non_append_since_snapshot: bool,
    /// Current number of items in the state (for O(1) length queries).
    pub item_count: usize,
}

/// A head with fresh accounting.
pub open spec fn fresh_head(offset: u64, item_count: usize) -> StateChainHead {
    StateChainHead {
        head_offset: offset,
        ops_since_delta_snapshot: 0,
        delta_snapshots_since_full: 0,
        last_delta_snapshot_offset: None,
        last_full_snapshot_offset: None,
        has_non_append_since_snapshot: false,
        item_count,
    }
}

/// A head with fresh accounting, that tells whether a delta snapshot could track all that
/// was recorded since the last snapshot.
pub open spec fn taken_over(offset: u64, item_count: usize, edited: bool) -> StateChainHead {
    StateChainHead { has_non_append_since_snapshot: edited, ..fresh_head(offset, item_count) }
}

/// The number of items in a value; `n` where it is no array.
pub open spec fn array_count(v: Seq<u8>, n: usize) -> usize {
    match items_of(v) {
        Ok(items) => items.len() as usize,
        Err(_) => n,
    }
}

/// The item count after an operation.
pub open spec fn count_after(n: usize, op: OperationView) -> usize {
    match op {
        OperationView::Snapshot(data) => array_count(data, n),
        OperationView::Append(_) => if n < usize::MAX {
            (n + 1) as usize
        } else {
            usize::MAX
        },
        OperationView::Redact { start, end } => {
            let from = if start < n { start } else { n };
            let to = if end < n { end } else { n };
            if from < to {
                (n - (to - from)) as usize
            } else {
                n
            }
        },
        _ => match whole_value(op) {
            Some(v) => array_count(v, n),
            None => n,
        },
    }
}

/// The head of a chain after an update at an offset.
pub open spec fn head_after(
    head: Option<StateChainHead>,
    offset: u64,
    op: OperationView,
) -> StateChainHead {
    let h = match head {
        Some(h) => h,
        None => fresh_head(offset, 0),
    };
    let item_count = count_after(h.item_count, op);
    match op {
        OperationView::Snapshot(_) => StateChainHead {
            last_full_snapshot_offset: Some(offset),
            ..fresh_head(offset, item_count)
        },
        OperationView::DeltaSnapshot(_) | OperationView::TreeDeltaSnapshot(_) => StateChainHead {
            head_offset: offset,
            ops_since_delta_snapshot: 0,
            delta_snapshots_since_full: counted((h.delta_snapshots_since_full + 1) as nat),
            last_delta_snapshot_offset: Some(offset),
            item_count,
            ..h
        },
        _ => StateChainHead {
            head_offset: offset,
            ops_since_delta_snapshot: counted((h.ops_since_delta_snapshot + 1) as nat),
            has_non_append_since_snapshot: h.has_non_append_since_snapshot || !is_tracked(op),
            item_count,
            ..h
        },
    }
}

/// The snapshot that a strategy asks for at a head.
pub open spec fn needed(strategy: StrategyView, head: StateChainHead) -> Option<SnapshotNeeded> {
    match strategy {
        StrategyView::Snapshot => None,
        StrategyView::Delta { snapshot_every } => if head.ops_since_delta_snapshot
            >= snapshot_every {
            Some(SnapshotNeeded::Full)
        } else {
            None
        },
        StrategyView::AppendLog { delta_snapshot_every, full_snapshot_every } => if head.delta_snapshots_since_full
            >= full_snapshot_every {
            Some(SnapshotNeeded::Full)
        } else if head.ops_since_delta_snapshot >= delta_snapshot_every {
            if head.has_non_append_since_snapshot {
                Some(SnapshotNeeded::Full)
            } else {
                Some(SnapshotNeeded::Delta)
            }
        } else {
            None
        },
        StrategyView::Tree { delta_snapshot_every, full_snapshot_every } => if head.delta_snapshots_since_full
            >= full_snapshot_every {
            Some(SnapshotNeeded::Full)
        } else if head.ops_since_delta_snapshot >= delta_snapshot_every {
            if head.has_non_append_since_snapshot {
                Some(SnapshotNeeded::Full)
            } else {
                Some(SnapshotNeeded::Delta)
            }
        } else {
            None
        },
        StrategyView::Struct { .. } => if head.ops_since_delta_snapshot >= 100 {
            Some(SnapshotNeeded::Full)
        } else {
            None
        },
    }
}

/// Chain heads by branch and state.
pub type HeadsView = Map<(BranchId, Seq<char>), StateChainHead>;

/// A chain head with its branch and state.
pub type HeadEntry = (BranchId, String, StateChainHead);

/// The heads that entries list, a later entry taking the place of an earlier one.
pub open spec fn heads_of(entries: Seq<HeadEntry>) -> HeadsView
    decreases entries.len(),
{
    if entries.len() == 0 {
        Map::empty()
    } else {
        let e = entries.last();
        heads_of(entries.drop_last()).insert((e.0, e.1@), e.2)
    }
}

/// Registered states with their strategies, in the order of registration.
pub type StrategiesView = Seq<(Seq<char>, StrategyView)>;

/// The strategies that entries list.
pub open spec fn strategies_of(entries: Seq<(String, StateStrategy)>) -> StrategiesView {
    entries.map_values(|e: (String, StateStrategy)| (e.0@, e.1@))
}

/// The strategy of a state.
pub open spec fn strategy_of(s: StrategiesView, id: Seq<char>) -> Option<StrategyView>
    decreases s.len(),
{
    if s.len() == 0 {
        None
    } else if s.last().0 == id {
        Some(s.last().1)
    } else {
        strategy_of(s.drop_last(), id)
    }
}

/// Whether no state is listed twice.
pub open spec fn ids_distinct(s: StrategiesView) -> bool {
    forall|i: int, j: int| 0 <= i < j < s.len() ==> (#[trigger] s[i]).0 != (#[trigger] s[j]).0
}

/// In-memory state index: chain heads and strategies. No head and no state is listed twice.
#[derive(Debug)]
pub struct StateIndex {
    /// Chain heads per branch and state.
    pub heads: Vec<HeadEntry>,
    /// Registered state strategies.
    pub strategies: Vec<(String, StateStrategy)>,
}

/// The state index as a mathematical value.
pub struct StateIndexView {
    pub heads: HeadsView,
    pub strategies: StrategiesView,
}

impl View for StateIndex {
    type V = StateIndexView;

    open spec fn view(&self) -> StateIndexView {
        StateIndexView {
            heads: heads_of(self.heads@),
            strategies: strategies_of(self.strategies@),
        }
    }
}

impl StateIndex {
    /// An index without states.
    pub fn new() -> (r: Self)
        ensures
            r@.heads == HeadsView::empty(),
            r@.strategies == StrategiesView::empty(),
    {
        let r = StateIndex { heads: Vec::new(), strategies: Vec::new() };
        assert(r@.strategies =~= StrategiesView::empty());
        r
    }
}

/// Whether what a cache holds is what the chains give.
pub open spec fn cache_valid(entries: EntriesView, b: Seq<u8>, t: TableView) -> bool {
    forall|i: int| 0 <= i < entries.len() ==> #[trigger] entry_valid(entries[i], b, t)
}

/// Whether a cached value is what the chain from its head gives.
pub open spec fn entry_valid(
    e: (Seq<u8>, crate::cache::CachedView),
    b: Seq<u8>,
    t: TableView,
) -> bool {
    let c = chain(b, t, Some(e.1.0));
    value_of(c) == Ok::<Seq<u8>, ErrorView>(e.1.1) && models_decide(c, Some(e.1.1))
}

/// Updates added behind a log leave a cache valid.
pub proof fn cache_survives_append(
    entries: EntriesView,
    b: Seq<u8>,
    t: TableView,
    more: Seq<u8>,
    t2: TableView,
)
    requires
        cache_valid(entries, b, t),
        same_below(t, t2, b.len() as int),
    ensures
        cache_valid(entries, b + more, t2),
{
    assert forall|i: int| 0 <= i < entries.len() implies #[trigger] entry_valid(
        entries[i],
        b + more,
        t2,
    ) by {
        assert(entry_valid(entries[i], b, t));
        value_survives_append(b, t, more, t2, Some(entries[i].1.0), false);
    }
}

/// The key of a state's value in the cache.
pub open spec fn cache_key(branch: BranchId, id: Seq<char>) -> Seq<u8> {
    decimal_bytes(branch.0 as nat) + seq![58u8] + encode_utf8(id)
}

fn make_cache_key(branch: BranchId, id: &str) -> (r: Vec<u8>)
    ensures
        r@ == cache_key(branch, id@),
{
    let mut key: Vec<u8> = Vec::new();
    push_decimal_bytes(&mut key, branch.0);
    key.push(58);
    put_slice(&mut key, id.as_bytes());
    assert(key@ =~= cache_key(branch, id@));
    key
}

proof fn lemma_heads_push(entries: Seq<HeadEntry>, e: HeadEntry)
    ensures
        heads_of(entries.push(e)) == heads_of(entries).insert((e.0, e.1@), e.2),
{
    assert(entries.push(e).drop_last() =~= entries);
}

/// Replacing the last entry of a branch and state by another of theirs.
proof fn lemma_heads_update(entries: Seq<HeadEntry>, i: int, e: HeadEntry)
    requires
        0 <= i < entries.len(),
        entries[i].0 == e.0,
        entries[i].1@ == e.1@,
        forall|j: int|
            i < j < entries.len() ==> !((#[trigger] entries[j]).0 == e.0 && entries[j].1@ == e.1@),
    ensures
        heads_of(entries.update(i, e)) == heads_of(entries).insert((e.0, e.1@), e.2),
    decreases entries.len(),
{
    let u = entries.update(i, e);
    if i == entries.len() - 1 {
        assert(u.drop_last() =~= entries.drop_last());
        assert(heads_of(u) =~= heads_of(entries).insert((e.0, e.1@), e.2));
    } else {
        assert(u.drop_last() =~= entries.drop_last().update(i, e));
        assert forall|j: int| i < j < entries.drop_last().len() implies !((
        #[trigger] entries.drop_last()[j]).0 == e.0 && entries.drop_last()[j].1@ == e.1@) by {
            assert(entries.drop_last()[j] == entries[j]);
        }
        lemma_heads_update(entries.drop_last(), i, e);
        let l = entries.last();
        assert(entries[entries.len() - 1] == l);
        assert(u.last() == l);
        assert(heads_of(u) =~= heads_of(entries).insert((e.0, e.1@), e.2));
    }
}

/// The place of a branch and state among the heads.
fn find_head(entries: &Vec<HeadEntry>, branch: BranchId, id: &str) -> (r: Option<usize>)
    ensures
        match r {
            Some(i) => {
                &&& i < entries@.len()
                &&& entries@[i as int].0 == branch
                &&& entries@[i as int].1@ == id@
                &&& heads_of(entries@).contains_key((branch, id@))
                &&& heads_of(entries@)[(branch, id@)] == entries@[i as int].2
                &&& forall|j: int|
                    i < j < entries@.len() ==> !((#[trigger] entries@[j]).0 == branch
                        && entries@[j].1@ == id@)
            },
            None => !heads_of(entries@).contains_key((branch, id@)),
        },
{
    let mut i: usize = entries.len();
    assert(entries@.take(i as int) =~= entries@);
    while i > 0
        invariant
            i <= entries@.len(),
            heads_of(entries@).contains_key((branch, id@)) == heads_of(
                entries@.take(i as int),
            ).contains_key((branch, id@)),
            heads_of(entries@).contains_key((branch, id@)) ==> heads_of(entries@)[(branch, id@)]
                == heads_of(entries@.take(i as int))[(branch, id@)],
            forall|j: int|
                i <= j < entries@.len() ==> !((#[trigger] entries@[j]).0 == branch
                    && entries@[j].1@ == id@),
        decreases i,
    {
        assert(entries@.take(i as int).drop_last() =~= entries@.take(i - 1));
        assert(entries@.take(i as int).last() == entries@[i - 1]);
        if entries[i - 1].0.0 == branch.0 && same_text(entries[i - 1].1.as_str(), id) {
            return Some(i - 1);
        }
        i -= 1;
    }
    None
}

fn put_head(entries: &mut Vec<HeadEntry>, branch: BranchId, id: &str, head: StateChainHead)
    ensures
        heads_of(final(entries)@) == heads_of(old(entries)@).insert((branch, id@), head),
{
    match find_head(entries, branch, id) {
        Some(i) => {
            let e = (branch, id.to_owned(), head);
            proof {
                lemma_heads_update(entries@, i as int, e);
            }
            entries.set(i, e);
        },
        None => {
            let e = (branch, id.to_owned(), head);
            proof {
                lemma_heads_push(entries@, e);
            }
            entries.push(e);
        },
    }
}

fn count_array(v: &Vec<u8>, n: usize) -> (r: usize)
    ensures
        r == array_count(v@, n),
        forall|items: Seq<Seq<u8>>| #[trigger] holds_items(v@, items) ==> r == items.len(),
{
    match read_items(v) {
        Ok(items) => {
            assert(texts(items@).len() == items@.len());
            items.len()
        },
        Err(_) => n,
    }
}

/// The head with the counts that an operation leaves.
fn advance_head(head: Option<StateChainHead>, offset: u64, op: &StateOperation) -> (r: StateChainHead)
    ensures
        r == head_after(head, offset, op@),
        forall|m: ItemOp| #[trigger]
            models(op@, m) ==> (m matches ItemOp::Full { items, .. } ==> r.item_count
                == items.len()),
{
    let mut h = match head {
        Some(h) => h,
        None => StateChainHead {
            head_offset: offset,
            ops_since_delta_snapshot: 0,
            delta_snapshots_since_full: 0,
            last_delta_snapshot_offset: None,
            last_full_snapshot_offset: None,
            has_non_append_since_snapshot: false,
            item_count: 0,
        },
    };
    h.head_offset = offset;
    proof {
        assert forall|m: ItemOp| #[trigger] models(op@, m) implies (m matches ItemOp::Full {
            text,
            items,
        } ==> holds_items(text, items)) by {}
    }
    match op {
        StateOperation::Snapshot(data) => {
            h.ops_since_delta_snapshot = 0;
            h.delta_snapshots_since_full = 0;
            h.last_full_snapshot_offset = Some(offset);
            h.last_delta_snapshot_offset = None;
            h.has_non_append_since_snapshot = false;
            h.item_count = count_array(data, h.item_count);
        },
        StateOperation::DeltaSnapshot(_) | StateOperation::TreeDeltaSnapshot(_) => {
            h.ops_since_delta_snapshot = 0;
            h.delta_snapshots_since_full = h.delta_snapshots_since_full.saturating_add(1);
            h.last_delta_snapshot_offset = Some(offset);
        },
        StateOperation::Append(_) => {
            h.ops_since_delta_snapshot = h.ops_since_delta_snapshot.saturating_add(1);
            h.item_count = h.item_count.saturating_add(1);
        },
        StateOperation::Redact { start, end } => {
            h.ops_since_delta_snapshot = h.ops_since_delta_snapshot.saturating_add(1);
            h.has_non_append_since_snapshot = true;
            let n: usize = h.item_count;
            let from: usize = if *start < n {
                *start
            } else {
                n
            };
            let to: usize = if *end < n {
                *end
            } else {
                n
            };
            if from < to {
                h.item_count = n - (to - from);
            }
        },
        StateOperation::SetValue(v) | StateOperation::Delta { new_value: v, .. } => {
            h.ops_since_delta_snapshot = h.ops_since_delta_snapshot.saturating_add(1);
            h.has_non_append_since_snapshot = true;
            h.item_count = count_array(v, h.item_count);
        },
        StateOperation::Edit { .. } | StateOperation::Field { .. } => {
            h.ops_since_delta_snapshot = h.ops_since_delta_snapshot.saturating_add(1);
            h.has_non_append_since_snapshot = true;
        },
        StateOperation::TreeSet { .. } | StateOperation::TreeRemove { .. }
        | StateOperation::TreeBatch { .. } => {
            h.ops_since_delta_snapshot = h.ops_since_delta_snapshot.saturating_add(1);
        },
    }
    h
}

/// The count of items follows the items: where it was right before an operation, it is
/// right after it.
pub proof fn item_count_follows_items(
    items: Seq<Seq<u8>>,
    head: Option<StateChainHead>,
    offset: u64,
    op: OperationView,
)
    requires
        is_item_op(op),
        items_after(items, op).len() <= usize::MAX,
        items.len() == (match head {
            Some(h) => h.item_count as nat,
            None => 0,
        }),
    ensures
        head_after(head, offset, op).item_count == items_after(items, op).len(),
{
}

/// The heads after one branch took over those of another.
pub open spec fn heads_copied(heads: HeadsView, from: BranchId, to: BranchId) -> HeadsView {
    Map::new(
        |k: (BranchId, Seq<char>)|
            heads.contains_key(k) || (k.0 == to && heads.contains_key((from, k.1))),
        |k: (BranchId, Seq<char>)|
            if k.0 == to && heads.contains_key((from, k.1)) {
                heads[(from, k.1)]
            } else {
                heads[k]
            },
    )
}

/// Why a registration is refused.
pub open spec fn registration_error(s: StrategiesView, id: Seq<char>, strategy: StrategyView) -> Option<
    ErrorView,
> {
    if id.len() == 0 {
        Some(ErrorView::InvalidOperation("State ID cannot be empty"@))
    } else if (match strategy {
        StrategyView::AppendLog { delta_snapshot_every, full_snapshot_every } => delta_snapshot_every
            == 0 || full_snapshot_every == 0,
        StrategyView::Tree { delta_snapshot_every, full_snapshot_every } => delta_snapshot_every
            == 0 || full_snapshot_every == 0,
        _ => false,
    }) {
        Some(ErrorView::InvalidOperation("Snapshot frequencies must be > 0"@))
    } else if strategy_of(s, id) is Some {
        Some(ErrorView::StateExists(id))
    } else {
        None
    }
}

/// State manager: handles per-state chains and reconstruction.
pub struct StateManager {
    index: StateIndex,
    cache: Cache,
}

impl StateManager {
    /// The state index.
    pub closed spec fn index(self) -> StateIndexView {
        self.index@
    }

    /// What the cache holds.
    pub closed spec fn cached(self) -> EntriesView {
        self.cache.entries()
    }

    /// How many values the cache holds at most.
    pub closed spec fn cache_capacity(self) -> nat {
        self.cache.capacity()
    }

    /// A state manager without states.
    pub fn new() -> (m: Self)
        ensures
            m.index().heads == HeadsView::empty(),
            m.index().strategies == StrategiesView::empty(),
            m.cached() == EntriesView::empty(),
            m.cache_capacity() == DEFAULT_CACHE_SIZE,
    {
        StateManager::with_cache_size(DEFAULT_CACHE_SIZE)
    }

    /// A state manager without states, with a cache for so many values.
    pub fn with_cache_size(cache_size: usize) -> (m: Self)
        ensures
            m.index().heads == HeadsView::empty(),
            m.index().strategies == StrategiesView::empty(),
            m.cached() == EntriesView::empty(),
            m.cache_capacity() == (if cache_size == 0 {
                1
            } else {
                cache_size as int
            }),
    {
        StateManager { index: StateIndex::new(), cache: Cache::new(cache_size) }
    }

    /// A state manager with the states of an index.
    pub fn load(index: StateIndex) -> (m: Self)
        ensures
            m.index() == index@,
            m.cached() == EntriesView::empty(),
            m.cache_capacity() == DEFAULT_CACHE_SIZE,
    {
        StateManager::load_with_cache_size(index, DEFAULT_CACHE_SIZE)
    }

    /// A state manager with the states of an index and a cache for so many values.
    pub fn load_with_cache_size(index: StateIndex, cache_size: usize) -> (m: Self)
        ensures
            m.index() == index@,
            m.cached() == EntriesView::empty(),
            m.cache_capacity() == (if cache_size == 0 {
                1
            } else {
                cache_size as int
            }),
    {
        StateManager { index, cache: Cache::new(cache_size) }
    }

    /// The index, to be saved.
    pub fn state_index(&self) -> (r: &StateIndex)
        ensures
            r@ == self.index(),
    {
        &self.index
    }

    /// Register a new state with its strategy.
    pub fn register_state(&mut self, registration: StateRegistration) -> (r: Result<(), StoreError>)
        ensures
            final(self).cached() == old(self).cached(),
            final(self).cache_capacity() == old(self).cache_capacity(),
            final(self).index().heads == old(self).index().heads,
            match registration_error(
                old(self).index().strategies,
                registration.id@,
                registration.strategy@,
            ) {
                Some(e) => r matches Err(x) && x@ == e && final(self).index() == old(self).index(),
                None => r is Ok && final(self).index().strategies == old(self).index().strategies.push((registration.id@, registration.strategy@)),
            },
            ids_distinct(old(self).index().strategies) ==> ids_distinct(
                final(self).index().strategies,
            ),
    {
        if registration.id.as_str().is_empty() {
            return Err(invalid_operation("State ID cannot be empty"));
        }
        let zero: bool = match &registration.strategy {
            StateStrategy::AppendLog { delta_snapshot_every, full_snapshot_every } => {
                *delta_snapshot_every == 0 || *full_snapshot_every == 0
            },
            StateStrategy::Tree { delta_snapshot_every, full_snapshot_every } => {
                *delta_snapshot_every == 0 || *full_snapshot_every == 0
            },
            _ => false,
        };
        if zero {
            return Err(invalid_operation("Snapshot frequencies must be > 0"));
        }
        if self.find_strategy(registration.id.as_str()).is_some() {
            return Err(StoreError::StateExists(registration.id));
        }
        let ghost before = self.index@.strategies;
        let ghost item = (registration.id@, registration.strategy@);
        proof {
            lemma_unlisted(before, registration.id@);
        }
        self.index.strategies.push((registration.id, registration.strategy));
        assert(self.index@.strategies =~= before.push(item));
        Ok(())
    }

    fn find_strategy(&self, id: &str) -> (r: Option<usize>)
        ensures
            match r {
                Some(i) => i < self.index.strategies@.len() && strategy_of(
                    self.index().strategies,
                    id@,
                ) == Some(self.index.strategies@[i as int].1@),
                None => strategy_of(self.index().strategies, id@) is None,
            },
    {
        let ghost all = strategies_of(self.index.strategies@);
        let mut i: usize = self.index.strategies.len();
        assert(all.take(i as int) =~= all);
        while i > 0
            invariant
                i <= self.index.strategies@.len(),
                all == strategies_of(self.index.strategies@),
                strategy_of(all, id@) == strategy_of(all.take(i as int), id@),
            decreases i,
        {
            assert(all.take(i as int).drop_last() =~= all.take(i - 1));
            assert(all.take(i as int).last() == (
                self.index.strategies@[i - 1].0@,
                self.index.strategies@[i - 1].1@,
            ));
            if same_text(self.index.strategies[i - 1].0.as_str(), id) {
                return Some(i - 1);
            }
            i -= 1;
        }
        None
    }

    /// Record a state update that stands in the log at an offset.
    pub fn record_update(
        &mut self,
        branch_id: BranchId,
        state_id: &str,
        offset: u64,
        operation: &StateOperation,
    )
        ensures
            final(self).index().strategies == old(self).index().strategies,
            final(self).index().heads == old(self).index().heads.insert(
                (branch_id, state_id@),
                head_after(
                    head_at(old(self).index(), branch_id, state_id@),
                    offset,
                    operation@,
                ),
            ),
            final(self).cached() == without(old(self).cached(), cache_key(branch_id, state_id@)),
            final(self).cache_capacity() == old(self).cache_capacity(),
            forall|m: ItemOp| #[trigger]
                models(operation@, m) ==> (m matches ItemOp::Full { items, .. }
                    ==> final(self).index().heads[(branch_id, state_id@)].item_count
                    == items.len()),
    {
        let current: Option<StateChainHead> = self.get_head(branch_id, state_id);
        let head = advance_head(current, offset, operation);
        put_head(&mut self.index.heads, branch_id, state_id, head);
        let key = make_cache_key(branch_id, state_id);
        self.cache.pop(&key);
    }

    /// Get the current value of a state: what its chain gives. A value is taken from the
    /// cache where it belongs to the current head.
    pub fn get_state(
        &mut self,
        log: &RecordLog,
        updates: &UpdateTable,
        branch_id: BranchId,
        state_id: &str,
    ) -> (r: Result<Option<Vec<u8>>, StoreError>)
        requires
            table_wf(updates@),
            cache_valid(old(self).cached(), log@.bytes, updates@),
        ensures
            final(self).index() == old(self).index(),
            final(self).cache_capacity() == old(self).cache_capacity(),
            cache_valid(final(self).cached(), log@.bytes, updates@),
            match head_at(old(self).index(), branch_id, state_id@) {
                None => r matches Ok(None) && final(self).cached() == old(self).cached(),
                Some(h) => {
                    let c = chain(log@.bytes, updates@, Some(h.head_offset));
                    match r {
                        Ok(Some(v)) => value_of(c) == Ok::<Seq<u8>, ErrorView>(v@)
                            && models_decide(c, Some(v@)),
                        Ok(None) => false,
                        Err(e) => value_of(c) == Err::<Seq<u8>, ErrorView>(e@) && models_decide(
                            c,
                            None,
                        ),
                    }
                },
            },
    {
        let ghost entries = self.cache.entries();
        let head = match self.get_head(branch_id, state_id) {
            Some(h) => h,
            None => return Ok(None),
        };
        let key = make_cache_key(branch_id, state_id);
        let found = self.cache.get(&key);
        proof {
            lemma_cached_entry(entries, key@);
            lemma_without_subset(entries, key@);
            let b = log@.bytes;
            let t = updates@;
            if let Some(v) = cached(entries, key@) {
                let k = choose|k: int| 0 <= k < entries.len() && entries[k] == (key@, v);
                assert(entry_valid(entries[k], b, t));
            }
            let after = self.cache.entries();
            assert forall|i: int| 0 <= i < after.len() implies #[trigger] entry_valid(
                after[i],
                b,
                t,
            ) by {
                if found is Some {
                    let w = without(entries, key@);
                    if i > 0 {
                        assert(after[i] == w[i - 1]);
                        assert(entries.contains(w[i - 1]));
                        let k = choose|k: int| 0 <= k < entries.len() && entries[k] == w[i - 1];
                        assert(entry_valid(entries[k], b, t));
                    }
                } else {
                    assert(entry_valid(entries[i], b, t));
                }
            }
        }
        if let Some((mark, value, _)) = found {
            if mark == head.head_offset {
                return Ok(Some(value));
            }
        }
        let value = match reconstruct(log, updates, head.head_offset) {
            Ok(v) => v,
            Err(e) => return Err(e),
        };
        let ghost held = self.cache.entries();
        let kept_copy = crate::bytes::copied(&value);
        let kind = String::new();
        let ghost put = (key@, (head.head_offset, kept_copy@, kind@));
        let ghost k2 = key@;
        self.cache.put(key, (head.head_offset, kept_copy, kind));
        proof {
            let b = log@.bytes;
            let t = updates@;
            lemma_without_subset(held, k2);
            let all = seq![put] + without(held, k2);
            assert forall|i: int| 0 <= i < all.len() implies #[trigger] entry_valid(all[i], b, t) by {
                let w = without(held, k2);
                if i > 0 {
                    assert(all[i] == w[i - 1]);
                    assert(held.contains(w[i - 1]));
                    let k = choose|k: int| 0 <= k < held.len() && held[k] == w[i - 1];
                    assert(entry_valid(held[k], b, t));
                }
            }
            let after = self.cache.entries();
            assert forall|i: int| 0 <= i < after.len() implies #[trigger] entry_valid(
                after[i],
                b,
                t,
            ) by {
                assert(after[i] == all[i]);
                assert(entry_valid(all[i], b, t));
            }
        }
        Ok(Some(value))
    }

    /// Get the chain head for a state.
    pub fn get_head(&self, branch_id: BranchId, state_id: &str) -> (r: Option<StateChainHead>)
        ensures
            r == head_at(self.index(), branch_id, state_id@),
    {
        match find_head(&self.index.heads, branch_id, state_id) {
            Some(i) => Some(self.index.heads[i].2),
            None => None,
        }
    }

    /// Get the strategy for a state.
    pub fn get_strategy(&self, state_id: &str) -> (r: Option<StateStrategy>)
        ensures
            match r {
                Some(s) => strategy_of(self.index().strategies, state_id@) == Some(s@),
                None => strategy_of(self.index().strategies, state_id@) is None,
            },
    {
        match self.find_strategy(state_id) {
            Some(i) => Some(self.index.strategies[i].1.clone()),
            None => None,
        }
    }

    /// Check what kind of snapshot a state needs (if any).
    pub fn snapshot_needed(&self, branch_id: BranchId, state_id: &str) -> (r: Option<
        SnapshotNeeded,
    >)
        ensures
            r == snapshot_due(self.index(), branch_id, state_id@),
    {
        let head = match self.get_head(branch_id, state_id) {
            Some(h) => h,
            None => return None,
        };
        let i: usize = match self.find_strategy(state_id) {
            Some(i) => i,
            None => return None,
        };
        match &self.index.strategies[i].1 {
            StateStrategy::Snapshot => None,
            StateStrategy::Delta { snapshot_every } => {
                if head.ops_since_delta_snapshot >= *snapshot_every {
                    Some(SnapshotNeeded::Full)
                } else {
                    None
                }
            },
            StateStrategy::AppendLog { delta_snapshot_every, full_snapshot_every } => {
                if head.delta_snapshots_since_full >= *full_snapshot_every {
                    Some(SnapshotNeeded::Full)
                } else if head.ops_since_delta_snapshot >= *delta_snapshot_every {
                    if head.has_non_append_since_snapshot {
                        Some(SnapshotNeeded::Full)
                    } else {
                        Some(SnapshotNeeded::Delta)
                    }
                } else {
                    None
                }
            },
            StateStrategy::Tree { delta_snapshot_every, full_snapshot_every } => {
                if head.delta_snapshots_since_full >= *full_snapshot_every {
                    Some(SnapshotNeeded::Full)
                } else if head.ops_since_delta_snapshot >= *delta_snapshot_every {
                    if head.has_non_append_since_snapshot {
                        Some(SnapshotNeeded::Full)
                    } else {
                        Some(SnapshotNeeded::Delta)
                    }
                } else {
                    None
                }
            },
            StateStrategy::Struct { .. } => {
                if head.ops_since_delta_snapshot >= 100 {
                    Some(SnapshotNeeded::Full)
                } else {
                    None
                }
            },
        }
    }

    /// Check if any snapshot is needed.
    pub fn needs_snapshot(&self, branch_id: BranchId, state_id: &str) -> (r: bool)
        ensures
            r == (snapshot_due(self.index(), branch_id, state_id@) is Some),
    {
        self.snapshot_needed(branch_id, state_id).is_some()
    }

    /// Copy state chain heads from one branch to another (for branching).
    pub fn copy_heads_for_branch(&mut self, from_branch: BranchId, to_branch: BranchId)
        ensures
            final(self).cached() == old(self).cached(),
            final(self).cache_capacity() == old(self).cache_capacity(),
            final(self).index().strategies == old(self).index().strategies,
            final(self).index().heads == heads_copied(
                old(self).index().heads,
                from_branch,
                to_branch,
            ),
    {
        let ghost before = heads_of(self.index.heads@);
        if from_branch.0 == to_branch.0 {
            assert(heads_copied(before, from_branch, to_branch) =~= before);
            return ;
        }
        let n: usize = self.index.heads.len();
        let ghost entries = self.index.heads@;
        let mut i: usize = 0;
        proof {
            assert(entries.take(0) =~= Seq::empty());
            assert(heads_copied_from(before, entries, 0, from_branch, to_branch) =~= before);
        }
        while i < n
            invariant
                i <= n == entries.len(),
                n <= self.index.heads@.len(),
                from_branch != to_branch,
                before == heads_of(entries),
                forall|j: int|
                    0 <= j < n && (#[trigger] entries[j]).0 == from_branch ==> self.index.heads@[j]
                        == entries[j],
                forall|j: int|
                    0 <= j < n ==> (#[trigger] self.index.heads@[j]).0 == entries[j].0
                        && self.index.heads@[j].1@ == entries[j].1@,
                heads_of(self.index.heads@) == heads_copied_from(
                    before,
                    entries,
                    i as int,
                    from_branch,
                    to_branch,
                ),
                self.index.strategies == old(self).index.strategies,
                self.cache == old(self).cache,
            decreases n - i,
        {
            let ghost held = self.index.heads@;
            proof {
                assert(held[i as int].0 == entries[i as int].0);
                lemma_copied_step(before, entries, i as int, from_branch, to_branch);
            }
            if self.index.heads[i].0.0 == from_branch.0 {
                let id = self.index.heads[i].1.clone();
                let head = self.index.heads[i].2;
                put_head_keeping(&mut self.index.heads, from_branch, to_branch, id.as_str(), head);
            }
            i += 1;
        }
        proof {
            lemma_copied_all(before, entries, from_branch, to_branch);
        }
    }

    /// Set a state chain head for a branch at a specific offset, with fresh accounting.
    pub fn set_head_for_branch(
        &mut self,
        branch_id: BranchId,
        state_id: &str,
        head_offset: u64,
        item_count: usize,
    )
        ensures
            final(self).cached() == old(self).cached(),
            final(self).cache_capacity() == old(self).cache_capacity(),
            final(self).index().strategies == old(self).index().strategies,
            final(self).index().heads == old(self).index().heads.insert(
                (branch_id, state_id@),
                fresh_head(head_offset, item_count),
            ),
    {
        let head = StateChainHead {
            head_offset,
            ops_since_delta_snapshot: 0,
            delta_snapshots_since_full: 0,
            last_delta_snapshot_offset: None,
            last_full_snapshot_offset: None,
            has_non_append_since_snapshot: false,
            item_count,
        };
        put_head(&mut self.index.heads, branch_id, state_id, head);
    }

    /// Notes of a state on a branch that something was recorded since the last snapshot that
    /// a delta snapshot cannot track.
    pub fn mark_edited(&mut self, branch_id: BranchId, state_id: &str)
        ensures
            final(self).cached() == old(self).cached(),
            final(self).cache_capacity() == old(self).cache_capacity(),
            final(self).index().strategies == old(self).index().strategies,
            final(self).index().heads == (match head_at(old(self).index(), branch_id, state_id@) {
                Some(h) => old(self).index().heads.insert(
                    (branch_id, state_id@),
                    StateChainHead { has_non_append_since_snapshot: true, ..h },
                ),
                None => old(self).index().heads,
            }),
    {
        if let Some(h) = self.get_head(branch_id, state_id) {
            let mut head = h;
            head.has_non_append_since_snapshot = true;
            put_head(&mut self.index.heads, branch_id, state_id, head);
        }
    }

    /// Get all registered state IDs, in the order of registration.
    pub fn state_ids(&self) -> (r: Vec<String>)
        ensures
            crate::types::views(r@) == self.index().strategies.map_values(
                |e: (Seq<char>, StrategyView)| e.0,
            ),
    {
        let mut out: Vec<String> = Vec::new();
        let mut i: usize = 0;
        while i < self.index.strategies.len()
            invariant
                i <= self.index.strategies@.len(),
                out@.len() == i,
                forall|j: int| 0 <= j < i ==> (#[trigger] out@[j])@ == self.index.strategies@[j].0@,
            decreases self.index.strategies@.len() - i,
        {
            out.push(self.index.strategies[i].0.clone());
            i += 1;
        }
        assert(crate::types::views(out@) =~= self.index().strategies.map_values(
            |e: (Seq<char>, StrategyView)| e.0,
        ));
        out
    }

    /// Get count of registered states.
    pub fn state_count(&self) -> (n: usize)
        ensures
            n == self.index().strategies.len(),
    {
        self.index.strategies.len()
    }

    /// Clear the cache.
    pub fn clear_cache(&mut self)
        ensures
            final(self).index() == old(self).index(),
            final(self).cached() == EntriesView::empty(),
            final(self).cache_capacity() == old(self).cache_capacity(),
    {
        self.cache.clear();
    }

    /// Number of cached values.
    pub fn cache_len(&self) -> (n: usize)
        ensures
            n == self.cached().len(),
    {
        self.cache.len()
    }

    /// Get compaction statistics for a state.
    pub fn get_compaction_stats(&self, branch_id: BranchId, state_id: &str) -> (r: Option<
        CompactionStats,
    >)
        ensures
            r == (match head_at(self.index(), branch_id, state_id@) {
                None => None,
                Some(h) => Some(compaction_stats(h)),
            }),
    {
        match self.get_head(branch_id, state_id) {
            None => None,
            Some(h) => Some(
                CompactionStats {
                    ops_since_last_full_snapshot: h.ops_since_delta_snapshot.saturating_add(
                        h.delta_snapshots_since_full,
                    ),
                    last_full_snapshot_offset: h.last_full_snapshot_offset,
                    last_delta_snapshot_offset: h.last_delta_snapshot_offset,
                    delta_snapshots_since_full: h.delta_snapshots_since_full,
                },
            ),
        }
    }

    /// Count operations in the chain for a state.
    pub fn count_chain_operations(
        &self,
        log: &RecordLog,
        updates: &UpdateTable,
        branch_id: BranchId,
        state_id: &str,
    ) -> (r: Result<Option<ChainStats>, StoreError>)
        requires
            table_wf(updates@),
        ensures
            match head_at(self.index(), branch_id, state_id@) {
                None => r matches Ok(None),
                Some(h) => match r {
                    Ok(Some(s)) => chain_stats(
                        chain(log@.bytes, updates@, Some(h.head_offset)),
                    ) == Ok::<ChainStats, ErrorView>(s),
                    Ok(None) => false,
                    Err(e) => chain_stats(chain(log@.bytes, updates@, Some(h.head_offset))) == Err::<
                        ChainStats,
                        ErrorView,
                    >(e@),
                },
            },
    {
        match self.get_head(branch_id, state_id) {
            None => Ok(None),
            Some(h) => match count_operations(log, updates, h.head_offset) {
                Ok(s) => Ok(Some(s)),
                Err(e) => Err(e),
            },
        }
    }
}

/// The compaction statistics of a head.
pub open spec fn compaction_stats(h: StateChainHead) -> CompactionStats {
    CompactionStats {
        ops_since_last_full_snapshot: counted(
            (h.ops_since_delta_snapshot + h.delta_snapshots_since_full) as nat,
        ),
        last_full_snapshot_offset: h.last_full_snapshot_offset,
        last_delta_snapshot_offset: h.last_delta_snapshot_offset,
        delta_snapshots_since_full: h.delta_snapshots_since_full,
    }
}

/// The head of a state on a branch.
pub open spec fn head_at(index: StateIndexView, branch: BranchId, id: Seq<char>) -> Option<
    StateChainHead,
> {
    if index.heads.contains_key((branch, id)) {
        Some(index.heads[(branch, id)])
    } else {
        None
    }
}

/// The snapshot that is due for a state on a branch.
pub open spec fn snapshot_due(index: StateIndexView, branch: BranchId, id: Seq<char>) -> Option<
    SnapshotNeeded,
> {
    match (head_at(index, branch, id), strategy_of(index.strategies, id)) {
        (Some(h), Some(s)) => needed(s, h),
        _ => None,
    }
}

proof fn lemma_unlisted(s: StrategiesView, id: Seq<char>)
    requires
        strategy_of(s, id) is None,
    ensures
        forall|i: int| 0 <= i < s.len() ==> (#[trigger] s[i]).0 != id,
    decreases s.len(),
{
    if s.len() > 0 {
        lemma_unlisted(s.drop_last(), id);
        assert forall|i: int| 0 <= i < s.len() implies (#[trigger] s[i]).0 != id by {
            if i < s.len() - 1 {
                assert(s.drop_last()[i] == s[i]);
            }
        }
    }
}

/// The heads after the first `n` entries of one branch were copied to another.
spec fn heads_copied_from(
    heads: HeadsView,
    entries: Seq<HeadEntry>,
    n: int,
    from: BranchId,
    to: BranchId,
) -> HeadsView
    decreases n,
{
    if n <= 0 {
        heads
    } else {
        let before = heads_copied_from(heads, entries, n - 1, from, to);
        let e = entries[n - 1];
        if e.0 == from {
            before.insert((to, e.1@), e.2)
        } else {
            before
        }
    }
}

proof fn lemma_copied_step(
    heads: HeadsView,
    entries: Seq<HeadEntry>,
    n: int,
    from: BranchId,
    to: BranchId,
)
    requires
        0 <= n < entries.len(),
    ensures
        heads_copied_from(heads, entries, n + 1, from, to) == (if entries[n].0 == from {
            heads_copied_from(heads, entries, n, from, to).insert(
                (to, entries[n].1@),
                entries[n].2,
            )
        } else {
            heads_copied_from(heads, entries, n, from, to)
        }),
{
}

proof fn lemma_copied_prefix(
    heads: HeadsView,
    entries: Seq<HeadEntry>,
    n: int,
    from: BranchId,
    to: BranchId,
)
    requires
        0 <= n <= entries.len(),
        from != to,
    ensures
        ({
            let r = heads_copied_from(heads, entries, n, from, to);
            let h = heads_of(entries.take(n));
            forall|k: (BranchId, Seq<char>)|
                #![trigger r.contains_key(k)]
                #![trigger r[k]]
                {
                    &&& r.contains_key(k) == (heads.contains_key(k) || (k.0 == to
                        && h.contains_key((from, k.1))))
                    &&& r.contains_key(k) ==> r[k] == (if k.0 == to && h.contains_key((from, k.1)) {
                        h[(from, k.1)]
                    } else {
                        heads[k]
                    })
                }
        }),
    decreases n,
{
    if n > 0 {
        lemma_copied_prefix(heads, entries, n - 1, from, to);
        assert(entries.take(n).drop_last() =~= entries.take(n - 1));
        assert(entries.take(n).last() == entries[n - 1]);
        let r = heads_copied_from(heads, entries, n, from, to);
        let h = heads_of(entries.take(n));
        let p = heads_copied_from(heads, entries, n - 1, from, to);
        let g = heads_of(entries.take(n - 1));
        let e = entries[n - 1];
        assert(h == g.insert((e.0, e.1@), e.2));
        assert forall|k: (BranchId, Seq<char>)|
            #![trigger r.contains_key(k)]
            #![trigger r[k]]
            {
                &&& r.contains_key(k) == (heads.contains_key(k) || (k.0 == to && h.contains_key(
                    (from, k.1),
                )))
                &&& r.contains_key(k) ==> r[k] == (if k.0 == to && h.contains_key((from, k.1)) {
                    h[(from, k.1)]
                } else {
                    heads[k]
                })
            } by {
            assert(p.contains_key(k) == (heads.contains_key(k) || (k.0 == to && g.contains_key(
                (from, k.1),
            ))));
            if e.0 == from {
                assert(r == p.insert((to, e.1@), e.2));
            }
        }
    } else {
        assert(entries.take(0) =~= Seq::empty());
    }
}

proof fn lemma_copied_all(
    heads: HeadsView,
    entries: Seq<HeadEntry>,
    from: BranchId,
    to: BranchId,
)
    requires
        heads == heads_of(entries),
        from != to,
    ensures
        heads_copied_from(heads, entries, entries.len() as int, from, to) == heads_copied(
            heads,
            from,
            to,
        ),
{
    lemma_copied_prefix(heads, entries, entries.len() as int, from, to);
    assert(entries.take(entries.len() as int) =~= entries);
    assert(heads_copied_from(heads, entries, entries.len() as int, from, to) =~= heads_copied(
        heads,
        from,
        to,
    ));
}

/// Puts a head on the branch `to` and leaves the entries of the branch `from` where they are.
fn put_head_keeping(
    entries: &mut Vec<HeadEntry>,
    from: BranchId,
    to: BranchId,
    id: &str,
    head: StateChainHead,
)
    requires
        from != to,
    ensures
        heads_of(final(entries)@) == heads_of(old(entries)@).insert((to, id@), head),
        final(entries)@.len() >= old(entries)@.len(),
        forall|j: int|
            0 <= j < old(entries)@.len() && (#[trigger] old(entries)@[j]).0 == from ==> final(entries)@[j] == old(entries)@[j],
        forall|j: int|
            0 <= j < old(entries)@.len() ==> (#[trigger] final(entries)@[j]).0 == old(entries)@[j].0 && final(entries)@[j].1@ == old(entries)@[j].1@,
{
    match find_head(entries, to, id) {
        Some(i) => {
            let e = (to, id.to_owned(), head);
            proof {
                lemma_heads_update(entries@, i as int, e);
            }
            entries.set(i, e);
        },
        None => {
            let e = (to, id.to_owned(), head);
            proof {
                lemma_heads_push(entries@, e);
            }
            entries.push(e);
        },
    }
}

} // verus!
