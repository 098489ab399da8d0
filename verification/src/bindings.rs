//! Values as they are exchanged with JavaScript: ids are decimal strings, and counts and
//! sequences are 64-bit signed numbers.
use crate::branches::manager::current_missing;
use crate::error::{ErrorView, StoreError};
use crate::records::index::{high_end, low_end};
use crate::state::manager::{head_at, strategy_of, StateChainHead};
use crate::store::compaction::{registered, CompactionSummary};
use crate::store::records::{queried, slice_texts};
use crate::store::Store;
use crate::subscriptions::types::{list_view, ConfigView, EventView, FilterView, StoreEvent, SubscriptionConfig, SubscriptionFilter, DEFAULT_BUFFER_SIZE, DEFAULT_MAX_SNAPSHOT_BYTES};
use crate::text::{decimal, decimal_string, joined, same_text};
use crate::types::{opt_view, views, Branch, BranchView, EntryView, Record, RecordId, RecordView, Sequence, StateRegistration, StateStrategy, StoreStats, StrategyView, TreeChange, TreeChangeView, TreeEntry, TreeOp, TreeOpView};
use vstd::prelude::*;
use vstd::string::*;

verus! {

/// Record returned to JavaScript.
#[derive(Debug)]
pub struct JsRecord {
    pub id: String,
    pub sequence: i64,
    pub record_type: String,
    pub payload: Vec<u8>,
    pub timestamp: i64,
    pub caused_by: Vec<String>,
    pub linked_to: Vec<String>,
}

/// Branch info returned to JavaScript.
#[derive(Debug)]
pub struct JsBranch {
    pub id: String,
    pub name: String,
    pub head: i64,
    pub parent_id: Option<String>,
    pub branch_point: Option<i64>,
    pub created: i64,
}

/// Store statistics.
#[derive(Debug)]
pub struct JsStoreStats {
    pub record_count: i64,
    pub blob_count: i64,
    pub branch_count: i64,
    pub state_slot_count: i64,
    pub total_size_bytes: i64,
    pub blob_size_bytes: i64,
}

/// Configuration for creating a store.
#[derive(Debug)]
pub struct JsStoreConfig {
    pub path: String,
    pub blob_cache_size: Option<i64>,
}

/// State registration options.
#[derive(Debug)]
pub struct JsStateRegistration {
    pub id: String,
    /// "snapshot", "append_log" or "tree".
    pub strategy: String,
    pub delta_snapshot_every: Option<i64>,
    pub full_snapshot_every: Option<i64>,
    pub initial_value: Option<Vec<u8>>,
}

/// GC options for branches.
#[derive(Debug)]
pub struct JsBranchGcOptions {
    pub delete_orphaned: Option<bool>,
    pub delete_empty: Option<bool>,
    pub delete_stale_older_than: Option<i64>,
    pub name_patterns: Option<Vec<String>>,
    pub force: Option<bool>,
    pub reparent_to: Option<String>,
}

/// GC result.
#[derive(Debug)]
pub struct JsBranchGcResult {
    pub deleted: Vec<String>,
    pub skipped: Vec<String>,
    pub reparented: i64,
}

/// Compaction summary.
#[derive(Debug)]
pub struct JsCompactionSummary {
    pub total_operations: i64,
    pub compactable_operations: i64,
    pub total_bytes: i64,
    pub compactable_bytes: i64,
    pub states_needing_compaction: i64,
}

/// Options for appending a record with links.
#[derive(Debug)]
pub struct JsRecordOptions {
    pub caused_by: Option<Vec<String>>,
    pub linked_to: Option<Vec<String>>,
}

/// Query filter for records.
#[derive(Debug)]
pub struct JsQueryFilter {
    pub types: Option<Vec<String>>,
    pub from_sequence: Option<i64>,
    pub to_sequence: Option<i64>,
    pub limit: Option<i64>,
    pub offset: Option<i64>,
    /// If true, return records in descending sequence order (newest first).
    pub reverse: Option<bool>,
}

/// State info returned to JavaScript.
#[derive(Debug)]
pub struct JsStateInfo {
    pub id: String,
    pub strategy: String,
    pub item_count: Option<i64>,
    pub ops_since_snapshot: i64,
}

/// Configuration for creating a subscription.
#[derive(Debug)]
pub struct JsSubscriptionConfig {
    /// Max buffered events before dropping subscriber (default: 1000).
    pub buffer_size: Option<i64>,
    /// Max bytes for state snapshots (default: 10MB).
    pub max_snapshot_bytes: Option<i64>,
    /// Starting sequence for catch-up (None = live only).
    pub from_sequence: Option<i64>,
    /// Filter criteria.
    pub filter: Option<JsSubscriptionFilter>,
}

/// Filter criteria for subscriptions.
#[derive(Debug)]
pub struct JsSubscriptionFilter {
    /// Filter by record types (None = all).
    pub record_types: Option<Vec<String>>,
    /// Filter by branch name.
    pub branch: Option<String>,
    /// Subscribe to specific state IDs.
    pub state_ids: Option<Vec<String>>,
    /// Include record events.
    pub include_records: Option<bool>,
    /// Include state change events.
    pub include_state_changes: Option<bool>,
    /// Include branch events.
    pub include_branch_events: Option<bool>,
}

/// A store event.
#[derive(Debug)]
pub struct JsStoreEvent {
    /// What kind of event it is.
    pub event_type: String,
    /// JSON-serialized event data.
    pub data: String,
}

/// A tree entry (file in a tree state).
#[derive(Debug)]
pub struct JsTreeEntry {
    pub blob_hash: String,
    pub size: i64,
    pub mode: i32,
}

/// A tree operation for batch updates.
#[derive(Debug)]
pub struct JsTreeOp {
    /// "set" or "remove"
    pub op: String,
    pub path: String,
    pub entry: Option<JsTreeEntry>,
}

/// A change between two tree states.
///
/// - "added": `old_entry` = None, `new_entry` = the new entry
/// - "modified": `old_entry` = previous entry, `new_entry` = current entry
/// - "removed": `old_entry` = the removed entry, `new_entry` = None
#[derive(Debug)]
pub struct JsTreeChange {
    /// "added", "modified", or "removed"
    pub change_type: String,
    pub path: String,
    /// Previous entry (None for "added")
    pub old_entry: Option<JsTreeEntry>,
    /// Current entry (None for "removed")
    pub new_entry: Option<JsTreeEntry>,
}

/// A tree list entry (path + entry).
#[derive(Debug)]
pub struct JsTreeListEntry {
    pub path: String,
    pub blob_hash: String,
    pub size: i64,
    pub mode: i32,
}

/// The decimal strings of ids.
pub open spec fn id_texts(ids: Seq<RecordId>) -> Seq<Seq<char>> {
    ids.map_values(|id: RecordId| decimal(id.0 as nat))
}

/// The decimal strings of ids.
pub fn id_strings(ids: &Vec<RecordId>) -> (r: Vec<String>)
    ensures
        views(r@) == id_texts(ids@),
{
    let mut out: Vec<String> = Vec::new();
    let mut i: usize = 0;
    while i < ids.len()
        invariant
            i <= ids@.len(),
            out@.len() == i,
            forall|j: int| 0 <= j < i ==> (#[trigger] out@[j])@ == decimal(ids@[j].0 as nat),
        decreases ids@.len() - i,
    {
        out.push(decimal_string(ids[i].0));
        i += 1;
    }
    assert(views(out@) =~= id_texts(ids@));
    out
}

/// Whether a value is a record as JavaScript sees it.
pub open spec fn is_js_record(j: JsRecord, r: RecordView) -> bool {
    &&& j.id@ == decimal(r.id.0 as nat)
    &&& j.sequence == r.sequence.0 as i64
    &&& j.record_type@ == r.record_type
    &&& j.payload@ == r.payload
    &&& j.timestamp == r.timestamp.0
    &&& views(j.caused_by@) == id_texts(r.caused_by)
    &&& views(j.linked_to@) == id_texts(r.linked_to)
}

/// A record as JavaScript sees it.
pub fn js_record(r: Record) -> (j: JsRecord)
    ensures
        is_js_record(j, r@),
{
    let caused_by = id_strings(&r.caused_by);
    let linked_to = id_strings(&r.linked_to);
    JsRecord {
        id: decimal_string(r.id.0),
        sequence: #[verifier::truncate] (r.sequence.0 as i64),
        record_type: r.record_type,
        payload: r.payload,
        timestamp: r.timestamp.0,
        caused_by,
        linked_to,
    }
}

/// Whether a value is a branch as JavaScript sees it.
pub open spec fn is_js_branch(j: JsBranch, b: BranchView) -> bool {
    &&& j.id@ == decimal(b.id.0 as nat)
    &&& j.name@ == b.name
    &&& j.head == b.head.0 as i64
    &&& opt_view(j.parent_id) == (match b.parent {
        Some(p) => Some(decimal(p.0 as nat)),
        None => None,
    })
    &&& j.branch_point == (match b.branch_point {
        Some(s) => Some(s.0 as i64),
        None => None,
    })
    &&& j.created == b.created.0
}

/// A branch as JavaScript sees it.
pub fn js_branch(b: Branch) -> (j: JsBranch)
    ensures
        is_js_branch(j, b@),
{
    JsBranch {
        id: decimal_string(b.id.0),
        name: b.name,
        head: #[verifier::truncate] (b.head.0 as i64),
        parent_id: match b.parent {
            Some(p) => Some(decimal_string(p.0)),
            None => None,
        },
        branch_point: match b.branch_point {
            Some(s) => Some(#[verifier::truncate] (s.0 as i64)),
            None => None,
        },
        created: b.created.0,
    }
}

/// Store statistics as JavaScript sees them.
pub fn js_stats(s: StoreStats) -> (j: JsStoreStats)
    ensures
        j.record_count == s.record_count as i64,
        j.blob_count == s.blob_count as i64,
        j.branch_count == s.branch_count as i64,
        j.state_slot_count == s.state_slot_count as i64,
        j.total_size_bytes == s.total_size_bytes as i64,
        j.blob_size_bytes == s.blob_size_bytes as i64,
{
    JsStoreStats {
        record_count: #[verifier::truncate] (s.record_count as i64),
        blob_count: #[verifier::truncate] (s.blob_count as i64),
        branch_count: #[verifier::truncate] (s.branch_count as i64),
        state_slot_count: #[verifier::truncate] (s.state_slot_count as i64),
        total_size_bytes: #[verifier::truncate] (s.total_size_bytes as i64),
        blob_size_bytes: #[verifier::truncate] (s.blob_size_bytes as i64),
    }
}

/// A compaction summary as JavaScript sees it.
pub fn js_summary(s: CompactionSummary) -> (j: JsCompactionSummary)
    ensures
        j.total_operations == s.total_operations as i64,
        j.compactable_operations == s.compactable_operations as i64,
        j.total_bytes == s.total_bytes as i64,
        j.compactable_bytes == s.compactable_bytes as i64,
        j.states_needing_compaction == s.states_needing_compaction as i64,
{
    JsCompactionSummary {
        total_operations: #[verifier::truncate] (s.total_operations as i64),
        compactable_operations: #[verifier::truncate] (s.compactable_operations as i64),
        total_bytes: #[verifier::truncate] (s.total_bytes as i64),
        compactable_bytes: #[verifier::truncate] (s.compactable_bytes as i64),
        states_needing_compaction: #[verifier::truncate] (s.states_needing_compaction as i64),
    }
}

/// The digits of an unsigned number in text: a plus sign may stand in front.
pub open spec fn digits_of(b: Seq<u8>) -> Seq<u8> {
    if b.len() > 0 && b[0] == 43 {
        b.skip(1)
    } else {
        b
    }
}

/// The number that decimal digits stand for, if they are digits.
pub open spec fn number_of(d: Seq<u8>) -> Option<nat>
    decreases d.len(),
{
    if d.len() == 0 {
        Some(0)
    } else {
        match number_of(d.drop_last()) {
            Some(n) if 48 <= d.last() <= 57 => Some((10 * n + (d.last() - 48)) as nat),
            _ => None,
        }
    }
}

/// The unsigned 64-bit number that a text stands for: at least one digit, with a plus sign
/// in front or none, and not too large.
pub open spec fn parsed_u64(b: Seq<u8>) -> Option<u64> {
    let d = digits_of(b);
    match number_of(d) {
        Some(n) if d.len() > 0 && n <= u64::MAX => Some(n as u64),
        _ => None,
    }
}

proof fn lemma_number_stops(d: Seq<u8>, n: int)
    requires
        0 <= n <= d.len(),
        number_of(d.take(n)) is None || number_of(d.take(n))->0 > u64::MAX,
    ensures
        number_of(d) is None || number_of(d)->0 > u64::MAX,
    decreases d.len() - n,
{
    if n == d.len() {
        assert(d.take(n) =~= d);
    } else {
        assert(d.take(n + 1).drop_last() =~= d.take(n));
        lemma_number_stops(d, n + 1);
    }
}

/// Reads an unsigned 64-bit number.
pub fn parse_u64(text: &str) -> (r: Option<u64>)
    ensures
        r == parsed_u64(text.spec_bytes()),
{
    let b = text.as_bytes();
    let start: usize = if b.len() > 0 && b[0] == 43 {
        1
    } else {
        0
    };
    let ghost d = digits_of(b@);
    if b.len() == start {
        return None;
    }
    let mut n: u64 = 0;
    let mut i: usize = start;
    assert(d.take(0) =~= Seq::empty());
    while i < b.len()
        invariant
            b@ == text.spec_bytes(),
            d == digits_of(b@),
            d == b@.skip(start as int),
            start <= i <= b@.len(),
            start < b@.len(),
            number_of(d.take(i - start)) == Some(n as nat),
        decreases b@.len() - i,
    {
        let c: u8 = b[i];
        proof {
            assert(d.take(i - start + 1).drop_last() =~= d.take(i - start));
            assert(d.take(i - start + 1).last() == c);
        }
        if c < 48 || c > 57 {
            proof {
                lemma_number_stops(d, i - start + 1);
            }
            return None;
        }
        let digit: u64 = (c - 48) as u64;
        if n > (u64::MAX - digit) / 10 {
            proof {
                assert(10 * n + digit > u64::MAX) by (nonlinear_arith)
                    requires
                        n > (u64::MAX - digit) / 10,
                        digit <= 9,
                ;
                lemma_number_stops(d, i - start + 1);
            }
            return None;
        }
        n = 10 * n + digit;
        i += 1;
    }
    assert(d.take(i - start) =~= d);
    Some(n)
}

/// Reads an id, with a word for what it is the id of.
pub fn parse_id(text: &str, reason: &str) -> (r: Result<u64, String>)
    ensures
        match r {
            Ok(n) => parsed_u64(text.spec_bytes()) == Some(n),
            Err(e) => parsed_u64(text.spec_bytes()) is None && e@ == reason@,
        },
{
    match parse_u64(text) {
        Some(n) => Ok(n),
        None => Err(reason.to_owned()),
    }
}

/// The ids that texts stand for; a text that is no number is left out.
pub open spec fn link_ids(texts: Seq<Seq<char>>) -> Seq<RecordId>
    decreases texts.len(),
{
    if texts.len() == 0 {
        Seq::empty()
    } else {
        match parsed_u64(vstd::utf8::encode_utf8(texts.last())) {
            Some(n) => link_ids(texts.drop_last()).push(RecordId(n)),
            None => link_ids(texts.drop_last()),
        }
    }
}

/// Reads the ids that a record is to be linked with.
pub fn parse_links(list: &Option<Vec<String>>) -> (r: Vec<RecordId>)
    ensures
        r@ == link_ids(
            match list_view(*list) {
                Some(l) => l,
                None => Seq::empty(),
            },
        ),
{
    let mut out: Vec<RecordId> = Vec::new();
    match list {
        None => out,
        Some(l) => {
            let ghost all = views(l@);
            let mut i: usize = 0;
            assert(all.take(0) =~= Seq::empty());
            while i < l.len()
                invariant
                    all == views(l@),
                    i <= l@.len(),
                    out@ == link_ids(all.take(i as int)),
                decreases l@.len() - i,
            {
                proof {
                    assert(all.take(i + 1).drop_last() =~= all.take(i as int));
                    assert(all.take(i + 1).last() == l@[i as int]@);
                }
                if let Some(n) = parse_u64(l[i].as_str()) {
                    out.push(RecordId(n));
                }
                i += 1;
            }
            assert(all.take(i as int) =~= all);
            out
        },
    }
}

/// The number of blobs to cache: 1000 where none is given.
pub fn cache_size(size: Option<i64>) -> (n: usize)
    ensures
        n == (match size {
            Some(s) => s as usize,
            None => 1000,
        }),
{
    match size {
        Some(s) => #[verifier::truncate] (s as usize),
        None => 1000,
    }
}

/// The strategy that a registration names, with default frequencies.
pub open spec fn named_strategy(name: Seq<char>, delta: Option<i64>, full: Option<i64>) -> Option<
    StrategyView,
> {
    let full_every = match full {
        Some(n) => n as u64,
        None => 10,
    };
    if name == "snapshot"@ {
        Some(StrategyView::Snapshot)
    } else if name == "append_log"@ {
        Some(
            StrategyView::AppendLog {
                delta_snapshot_every: match delta {
                    Some(n) => n as u64,
                    None => 100,
                },
                full_snapshot_every: full_every,
            },
        )
    } else if name == "tree"@ {
        Some(
            StrategyView::Tree {
                delta_snapshot_every: match delta {
                    Some(n) => n as u64,
                    None => 50,
                },
                full_snapshot_every: full_every,
            },
        )
    } else {
        None
    }
}

/// The registration that JavaScript asks for.
pub fn registration(j: JsStateRegistration) -> (r: Result<StateRegistration, String>)
    ensures
        match r {
            Ok(x) => x.id@ == j.id@ && opt_view(x.initial_value) == opt_view(j.initial_value)
                && named_strategy(j.strategy@, j.delta_snapshot_every, j.full_snapshot_every)
                == Some(x.strategy@),
            Err(e) => named_strategy(j.strategy@, j.delta_snapshot_every, j.full_snapshot_every)
                is None && e@ == "Invalid strategy"@,
        },
{
    let full: u64 = match j.full_snapshot_every {
        Some(n) => #[verifier::truncate] (n as u64),
        None => 10,
    };
    let strategy = if same_text(j.strategy.as_str(), "snapshot") {
        StateStrategy::Snapshot
    } else if same_text(j.strategy.as_str(), "append_log") {
        StateStrategy::AppendLog {
            delta_snapshot_every: match j.delta_snapshot_every {
                Some(n) => #[verifier::truncate] (n as u64),
                None => 100,
            },
            full_snapshot_every: full,
        }
    } else if same_text(j.strategy.as_str(), "tree") {
        StateStrategy::Tree {
            delta_snapshot_every: match j.delta_snapshot_every {
                Some(n) => #[verifier::truncate] (n as u64),
                None => 50,
            },
            full_snapshot_every: full,
        }
    } else {
        return Err("Invalid strategy".to_owned());
    };
    Ok(StateRegistration { id: j.id, strategy, initial_value: j.initial_value })
}

/// The name of a strategy.
pub open spec fn strategy_name(s: StrategyView) -> Seq<char> {
    match s {
        StrategyView::Snapshot => "snapshot"@,
        StrategyView::AppendLog { .. } => "append_log"@,
        StrategyView::Delta { .. } => "delta"@,
        StrategyView::Tree { .. } => "tree"@,
        StrategyView::Struct { .. } => "struct"@,
    }
}

/// The name of a strategy.
pub fn name_of_strategy(s: &StateStrategy) -> (r: String)
    ensures
        r@ == strategy_name(s@),
{
    match s {
        StateStrategy::Snapshot => "snapshot".to_owned(),
        StateStrategy::AppendLog { .. } => "append_log".to_owned(),
        StateStrategy::Delta { .. } => "delta".to_owned(),
        StateStrategy::Tree { .. } => "tree".to_owned(),
        StateStrategy::Struct { .. } => "struct".to_owned(),
    }
}

/// Whether a value tells of a state on a branch.
pub open spec fn is_state_info(
    j: JsStateInfo,
    id: Seq<char>,
    strategy: Option<StrategyView>,
    head: Option<StateChainHead>,
) -> bool {
    &&& j.id@ == id
    &&& j.strategy@ == (match strategy {
        Some(s) => strategy_name(s),
        None => "unknown"@,
    })
    &&& j.item_count == (match head {
        Some(h) => Some(h.item_count as i64),
        None => None,
    })
    &&& j.ops_since_snapshot == (match head {
        Some(h) => h.ops_since_delta_snapshot as i64,
        None => 0,
    })
}

/// What JavaScript is told of a state.
pub fn state_info(
    id: String,
    strategy: Option<StateStrategy>,
    head: Option<StateChainHead>,
) -> (j: JsStateInfo)
    ensures
        is_state_info(
            j,
            id@,
            opt_view(strategy),
            head,
        ),
{
    JsStateInfo {
        id,
        strategy: match &strategy {
            Some(s) => name_of_strategy(s),
            None => "unknown".to_owned(),
        },
        item_count: match head {
            Some(h) => Some(#[verifier::truncate] (h.item_count as i64)),
            None => None,
        },
        ops_since_snapshot: match head {
            Some(h) => #[verifier::truncate] (h.ops_since_delta_snapshot as i64),
            None => 0,
        },
    }
}

/// Lists all registered states with their info.
pub fn list_states(store: &Store) -> (r: Result<Vec<JsStateInfo>, StoreError>)
    requires
        store.wf(),
    ensures
        match store@.branches.current_branch() {
            None => r matches Err(e) && e@ == current_missing(store@.branches.current),
            Some(b) => r matches Ok(v) && v@.len() == registered(store@).len() && forall|i: int|
                0 <= i < v@.len() ==> is_state_info(
                    #[trigger] v@[i],
                    registered(store@)[i],
                    strategy_of(store@.states.strategies, registered(store@)[i]),
                    head_at(store@.states, b.id, registered(store@)[i]),
                ),
        },
{
    let branch = match store.current_branch() {
        Ok(b) => b,
        Err(e) => return Err(e),
    };
    let ids = store.states().state_ids();
    let ghost all = registered(store@);
    assert(views(ids@) == all);
    let mut out: Vec<JsStateInfo> = Vec::new();
    let mut i: usize = 0;
    while i < ids.len()
        invariant
            store.wf(),
            all == registered(store@),
            views(ids@) == all,
            i <= ids@.len(),
            out@.len() == i,
            forall|j: int|
                0 <= j < i ==> is_state_info(
                    #[trigger] out@[j],
                    all[j],
                    strategy_of(store@.states.strategies, all[j]),
                    head_at(store@.states, branch.id, all[j]),
                ),
        decreases ids@.len() - i,
    {
        assert(all[i as int] == ids@[i as int]@);
        let strategy = store.states().get_strategy(ids[i].as_str());
        let head = store.states().get_head(branch.id, ids[i].as_str());
        out.push(state_info(ids[i].clone(), strategy, head));
        i += 1;
    }
    Ok(out)
}

/// A tree entry as JavaScript sees it.
pub open spec fn is_js_entry(j: JsTreeEntry, e: EntryView) -> bool {
    j.blob_hash@ == e.blob_hash && j.size == e.size as i64 && j.mode == e.mode as i32
}

/// A tree entry as JavaScript sees it.
pub fn js_entry(e: TreeEntry) -> (j: JsTreeEntry)
    ensures
        is_js_entry(j, e@),
{
    JsTreeEntry {
        blob_hash: e.blob_hash,
        size: #[verifier::truncate] (e.size as i64),
        mode: #[verifier::truncate] (e.mode as i32),
    }
}

/// The entry that JavaScript describes.
pub open spec fn entry_from(j: JsTreeEntry) -> EntryView {
    EntryView { blob_hash: j.blob_hash@, size: j.size as u64, mode: j.mode as u32 }
}

/// The entry that JavaScript describes.
pub fn tree_entry(j: JsTreeEntry) -> (e: TreeEntry)
    ensures
        e@ == entry_from(j),
{
    TreeEntry {
        blob_hash: j.blob_hash,
        size: #[verifier::truncate] (j.size as u64),
        mode: #[verifier::truncate] (j.mode as u32),
    }
}

/// The operation that JavaScript describes, or why it is none.
pub open spec fn op_from(j: JsTreeOp) -> Result<TreeOpView, Seq<char>> {
    if j.op@ == "set"@ {
        match j.entry {
            Some(e) => Ok(TreeOpView::SetEntry { path: j.path@, entry: entry_from(e) }),
            None => Err("TreeOp 'set' requires entry"@),
        }
    } else if j.op@ == "remove"@ {
        Ok(TreeOpView::Remove { path: j.path@ })
    } else {
        Err("Invalid tree op: '"@ + j.op@ + "', expected 'set' or 'remove'"@)
    }
}

/// The operation that JavaScript describes.
pub fn tree_op(j: JsTreeOp) -> (r: Result<TreeOp, String>)
    ensures
        match r {
            Ok(op) => op_from(j) == Ok::<TreeOpView, Seq<char>>(op@),
            Err(e) => op_from(j) == Err::<TreeOpView, Seq<char>>(e@),
        },
{
    if same_text(j.op.as_str(), "set") {
        match j.entry {
            Some(e) => Ok(TreeOp::SetEntry { path: j.path, entry: tree_entry(e) }),
            None => Err("TreeOp 'set' requires entry".to_owned()),
        }
    } else if same_text(j.op.as_str(), "remove") {
        Ok(TreeOp::Remove { path: j.path })
    } else {
        let mut text = joined("Invalid tree op: '", j.op.as_str());
        text.append("', expected 'set' or 'remove'");
        Err(text)
    }
}

/// The operations that JavaScript describes, or the first reason why not.
pub open spec fn ops_from(js: Seq<JsTreeOp>) -> Result<Seq<TreeOpView>, Seq<char>>
    decreases js.len(),
{
    if js.len() == 0 {
        Ok(Seq::empty())
    } else {
        match ops_from(js.drop_last()) {
            Err(e) => Err(e),
            Ok(ops) => match op_from(js.last()) {
                Ok(op) => Ok(ops.push(op)),
                Err(e) => Err(e),
            },
        }
    }
}

proof fn lemma_ops_stop(js: Seq<JsTreeOp>, n: int, e: Seq<char>)
    requires
        0 <= n <= js.len(),
        ops_from(js.take(n)) == Err::<Seq<TreeOpView>, Seq<char>>(e),
    ensures
        ops_from(js) == Err::<Seq<TreeOpView>, Seq<char>>(e),
    decreases js.len() - n,
{
    if n == js.len() {
        assert(js.take(n) =~= js);
    } else {
        assert(js.take(n + 1).drop_last() =~= js.take(n));
        lemma_ops_stop(js, n + 1, e);
    }
}

/// The operations that JavaScript describes.
pub fn tree_ops(js: Vec<JsTreeOp>) -> (r: Result<Vec<TreeOp>, String>)
    ensures
        match r {
            Ok(ops) => ops_from(js@) == Ok::<Seq<TreeOpView>, Seq<char>>(views(ops@)),
            Err(e) => ops_from(js@) == Err::<Seq<TreeOpView>, Seq<char>>(e@),
        },
{
    let ghost all = js@;
    let mut rest = js;
    let mut out: Vec<TreeOp> = Vec::new();
    let ghost mut done: int = 0;
    assert(all.take(0) =~= Seq::empty());
    assert(all.skip(0) =~= all);
    assert(views(out@) =~= Seq::empty());
    while rest.len() > 0
        invariant
            0 <= done <= all.len(),
            all == js@,
            rest@ == all.skip(done),
            ops_from(all.take(done)) == Ok::<Seq<TreeOpView>, Seq<char>>(views(out@)),
        decreases rest@.len(),
    {
        let j = rest.remove(0);
        let ghost given = j;
        proof {
            assert(all.skip(done).len() > 0);
            assert(given == all[done]);
            assert(rest@ =~= all.skip(done + 1));
            assert(all.take(done + 1).drop_last() =~= all.take(done));
            assert(all.take(done + 1).last() == given);
        }
        match tree_op(j) {
            Err(e) => {
                proof {
                    lemma_ops_stop(all, done + 1, e@);
                }
                return Err(e);
            },
            Ok(op) => {
                let ghost before = views(out@);
                let ghost item = op@;
                out.push(op);
                proof {
                    assert(views(out@) =~= before.push(item));
                    done = done + 1;
                }
            },
        }
    }
    proof {
        if done < all.len() {
            assert(all.skip(done).len() > 0);
        }
        assert(all.take(done) =~= all);
    }
    Ok(out)
}

/// Whether a value is a tree change as JavaScript sees it.
pub open spec fn is_js_change(j: JsTreeChange, c: TreeChangeView) -> bool {
    match c {
        TreeChangeView::Added { path, entry } => j.change_type@ == "added"@ && j.path@ == path
            && j.old_entry is None && (j.new_entry matches Some(n) && is_js_entry(n, entry)),
        TreeChangeView::Modified { path, old_entry, new_entry } => j.change_type@ == "modified"@
            && j.path@ == path && (j.old_entry matches Some(o) && is_js_entry(o, old_entry)) && (
        j.new_entry matches Some(n) && is_js_entry(n, new_entry)),
        TreeChangeView::Removed { path, entry } => j.change_type@ == "removed"@ && j.path@ == path
            && (j.old_entry matches Some(o) && is_js_entry(o, entry)) && j.new_entry is None,
    }
}

/// A tree change as JavaScript sees it.
pub fn js_change(c: TreeChange) -> (j: JsTreeChange)
    ensures
        is_js_change(j, c@),
{
    match c {
        TreeChange::Added { path, entry } => JsTreeChange {
            change_type: "added".to_owned(),
            path,
            old_entry: None,
            new_entry: Some(js_entry(entry)),
        },
        TreeChange::Modified { path, old_entry, new_entry } => JsTreeChange {
            change_type: "modified".to_owned(),
            path,
            old_entry: Some(js_entry(old_entry)),
            new_entry: Some(js_entry(new_entry)),
        },
        TreeChange::Removed { path, entry } => JsTreeChange {
            change_type: "removed".to_owned(),
            path,
            old_entry: Some(js_entry(entry)),
            new_entry: None,
        },
    }
}

/// A listed file as JavaScript sees it.
pub fn js_list_entry(path: String, entry: TreeEntry) -> (j: JsTreeListEntry)
    ensures
        j.path@ == path@,
        j.blob_hash@ == entry@.blob_hash,
        j.size == entry@.size as i64,
        j.mode == entry@.mode as i32,
{
    JsTreeListEntry {
        path,
        blob_hash: entry.blob_hash,
        size: #[verifier::truncate] (entry.size as i64),
        mode: #[verifier::truncate] (entry.mode as i32),
    }
}

/// The flag that JavaScript gives, or false.
pub open spec fn flag(b: Option<bool>) -> bool {
    b == Some(true)
}

fn is_set(b: Option<bool>) -> (r: bool)
    ensures
        r == flag(b),
{
    match b {
        Some(x) => x,
        None => false,
    }
}

/// The filter that JavaScript describes.
pub open spec fn filter_from(f: JsSubscriptionFilter) -> FilterView {
    FilterView {
        record_types: list_view(f.record_types),
        branch: opt_view(f.branch),
        state_ids: list_view(f.state_ids),
        include_records: flag(f.include_records),
        include_state_changes: flag(f.include_state_changes),
        include_branch_events: flag(f.include_branch_events),
    }
}

/// The filter that lets nothing through.
pub open spec fn no_filter() -> FilterView {
    FilterView {
        record_types: None,
        branch: None,
        state_ids: None,
        include_records: false,
        include_state_changes: false,
        include_branch_events: false,
    }
}

/// The subscription that JavaScript asks for.
pub fn subscription_config(config: Option<JsSubscriptionConfig>) -> (r: SubscriptionConfig)
    ensures
        match config {
            None => r@ == (ConfigView {
                buffer_size: DEFAULT_BUFFER_SIZE,
                max_snapshot_bytes: DEFAULT_MAX_SNAPSHOT_BYTES,
                from_sequence: None,
                filter: no_filter(),
            }),
            Some(c) => {
                &&& r.buffer_size == (match c.buffer_size {
                    Some(n) => n as usize,
                    None => DEFAULT_BUFFER_SIZE,
                })
                &&& r.max_snapshot_bytes == (match c.max_snapshot_bytes {
                    Some(n) => n as usize,
                    None => DEFAULT_MAX_SNAPSHOT_BYTES,
                })
                &&& r.from_sequence == (match c.from_sequence {
                    Some(n) => Some(Sequence(n as u64)),
                    None => None,
                })
                &&& r.filter@ == (match c.filter {
                    Some(f) => filter_from(f),
                    None => no_filter(),
                })
            },
        },
{
    match config {
        None => SubscriptionConfig {
            buffer_size: DEFAULT_BUFFER_SIZE,
            max_snapshot_bytes: DEFAULT_MAX_SNAPSHOT_BYTES,
            from_sequence: None,
            filter: SubscriptionFilter::none(),
        },
        Some(c) => SubscriptionConfig {
            buffer_size: match c.buffer_size {
                Some(n) => #[verifier::truncate] (n as usize),
                None => DEFAULT_BUFFER_SIZE,
            },
            max_snapshot_bytes: match c.max_snapshot_bytes {
                Some(n) => #[verifier::truncate] (n as usize),
                None => DEFAULT_MAX_SNAPSHOT_BYTES,
            },
            from_sequence: match c.from_sequence {
                Some(n) => Some(Sequence(#[verifier::truncate] (n as u64))),
                None => None,
            },
            filter: match c.filter {
                Some(f) => SubscriptionFilter {
                    record_types: f.record_types,
                    branch: f.branch,
                    state_ids: f.state_ids,
                    include_records: is_set(f.include_records),
                    include_state_changes: is_set(f.include_state_changes),
                    include_branch_events: is_set(f.include_branch_events),
                },
                None => SubscriptionFilter::none(),
            },
        },
    }
}

/// The word for a kind of event.
pub open spec fn event_word(e: EventView) -> Seq<char> {
    match e {
        EventView::Record { .. } => "record"@,
        EventView::StateSnapshot { .. } => "state_snapshot"@,
        EventView::StateDelta { .. } => "state_delta"@,
        EventView::BranchHead { .. } => "branch_head"@,
        EventView::BranchCreated { .. } => "branch_created"@,
        EventView::BranchDeleted { .. } => "branch_deleted"@,
        EventView::CaughtUp => "caught_up"@,
        EventView::Dropped { .. } => "dropped"@,
    }
}

/// The word for a kind of event.
pub fn event_type(e: &StoreEvent) -> (r: String)
    ensures
        r@ == event_word(e@),
{
    match e {
        StoreEvent::Record { .. } => "record".to_owned(),
        StoreEvent::StateSnapshot { .. } => "state_snapshot".to_owned(),
        StoreEvent::StateDelta { .. } => "state_delta".to_owned(),
        StoreEvent::BranchHead { .. } => "branch_head".to_owned(),
        StoreEvent::BranchCreated { .. } => "branch_created".to_owned(),
        StoreEvent::BranchDeleted { .. } => "branch_deleted".to_owned(),
        StoreEvent::CaughtUp => "caught_up".to_owned(),
        StoreEvent::Dropped { .. } => "dropped".to_owned(),
    }
}

/// Records from an offset on, up to a limit.
pub open spec fn page_of(rs: Seq<RecordView>, offset: nat, limit: nat) -> Seq<RecordView> {
    let from = if offset < rs.len() {
        offset
    } else {
        rs.len()
    };
    let rest = rs.skip(from as int);
    if limit < rest.len() {
        rest.take(limit as int)
    } else {
        rest
    }
}

/// Whether a list holds records as JavaScript sees them.
pub open spec fn are_js_records(js: Seq<JsRecord>, rs: Seq<RecordView>) -> bool {
    js.len() == rs.len() && forall|i: int|
        0 <= i < js.len() ==> is_js_record(#[trigger] js[i], rs[i])
}

/// Skips the first records and hands out as many as the limit allows.
pub fn page(records: Vec<Record>, offset: usize, limit: usize) -> (r: Vec<JsRecord>)
    ensures
        are_js_records(r@, page_of(views(records@), offset as nat, limit as nat)),
{
    let mut records = records;
    let ghost all = views(records@);
    let from: usize = if offset < records.len() {
        offset
    } else {
        records.len()
    };
    let mut rest = records.split_off(from);
    if limit < rest.len() {
        rest.truncate(limit);
    }
    let ghost wanted = page_of(all, offset as nat, limit as nat);
    assert(views(rest@) =~= wanted);
    let n: usize = rest.len();
    let mut out: Vec<JsRecord> = Vec::new();
    let mut i: usize = 0;
    while i < n
        invariant
            i <= n == rest@.len(),
            views(rest@) == wanted,
            out@.len() == i,
            forall|j: int| 0 <= j < i ==> is_js_record(#[trigger] out@[j], wanted[j]),
        decreases n - i,
    {
        assert(wanted[i as int] == rest@[i as int]@);
        let record = rest[i].clone();
        out.push(js_record(record));
        i += 1;
    }
    out
}

/// The sequence that JavaScript gives.
pub open spec fn sequence_from(n: Option<i64>) -> Option<Sequence> {
    match n {
        Some(s) => Some(Sequence(s as u64)),
        None => None,
    }
}

/// The number that JavaScript gives, or a default.
pub open spec fn count_from(n: Option<i64>, default: usize) -> usize {
    match n {
        Some(x) => x as usize,
        None => default,
    }
}

/// How many records are fetched for a page.
pub open spec fn fetch_count(offset: usize, limit: usize) -> usize {
    if offset + limit <= usize::MAX {
        (offset + limit) as usize
    } else {
        usize::MAX
    }
}

/// Query records with filters.
///
/// - `from_sequence`: Start sequence (inclusive)
/// - `to_sequence`: End sequence (inclusive)
/// - `limit`: Maximum records to return, 10,000 where none is given
/// - `offset`: Skip first N records
/// - `reverse`: Return records in descending sequence order (newest first)
/// - `types`: Filter by record types
pub fn query(store: &Store, filter: &JsQueryFilter) -> (r: Result<Vec<JsRecord>, StoreError>)
    requires
        store.wf(),
    ensures
        ({
            let offset = count_from(filter.offset, 0);
            let limit = count_from(filter.limit, 10_000);
            let n = fetch_count(offset, limit) as nat;
            let types = list_view(filter.types);
            match store@.branches.current_branch() {
                None => r matches Err(e) && e@ == current_missing(store@.branches.current),
                Some(b) => exists|found: Result<Seq<RecordView>, ErrorView>| #[trigger]
                    queried(
                        store@,
                        b.id,
                        (
                            low_end(sequence_from(filter.from_sequence)),
                            high_end(sequence_from(filter.to_sequence)),
                        ),
                        n,
                        flag(filter.reverse),
                        types,
                        found,
                    ) && (match found {
                        Ok(rs) => r matches Ok(v) && are_js_records(
                            v@,
                            page_of(rs, offset as nat, limit as nat),
                        ),
                        Err(e) => r matches Err(x) && x@ == e,
                    }),
            }
        }),
{
    let from: Option<Sequence> = match filter.from_sequence {
        Some(s) => Some(Sequence(#[verifier::truncate] (s as u64))),
        None => None,
    };
    let to: Option<Sequence> = match filter.to_sequence {
        Some(s) => Some(Sequence(#[verifier::truncate] (s as u64))),
        None => None,
    };
    let limit: usize = match filter.limit {
        Some(n) => #[verifier::truncate] (n as usize),
        None => 10_000,
    };
    let offset: usize = match filter.offset {
        Some(n) => #[verifier::truncate] (n as usize),
        None => 0,
    };
    let count: usize = offset.saturating_add(limit);
    let types: Option<&[String]> = match &filter.types {
        Some(l) => Some(l.as_slice()),
        None => None,
    };
    assert(slice_texts(types) == list_view(filter.types));
    let result = store.query_range(from, to, count, is_set(filter.reverse), types);
    let ghost found = match &result {
        Ok(v) => Ok::<Seq<RecordView>, ErrorView>(views(v@)),
        Err(e) => Err(e@),
    };
    proof {
        if let Some(b) = store@.branches.current_branch() {
            assert(queried(
                store@,
                b.id,
                (
                    low_end(sequence_from(filter.from_sequence)),
                    high_end(sequence_from(filter.to_sequence)),
                ),
                fetch_count(count_from(filter.offset, 0), count_from(filter.limit, 10_000)) as nat,
                flag(filter.reverse),
                list_view(filter.types),
                found,
            ));
        }
    }
    match result {
        Err(e) => Err(e),
        Ok(records) => Ok(page(records, offset, limit)),
    }
}

} // verus!
