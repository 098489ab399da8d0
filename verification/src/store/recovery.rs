//! Opening a store, and replaying what a crash left undone.
use crate::blobs::storage::{files_of, paths_distinct, BlobFile, BlobStorage, BlobsView};
use crate::branches::laws::heads_are_independent;
use crate::branches::manager::{bad_index, by_id, by_name, create_error, lemma_current, new_branch, ordered, with_branch, BranchIndex, BranchManager, BranchesView};
use crate::cache::EntriesView;
use crate::error::{ErrorView, StoreError};
use crate::format::manifest::{manifest_error, verify_manifest};
use crate::format::record_log::DEFAULT_SYNC_INTERVAL;
use crate::records::codec::{encoding_of_byte, fits, record_bytes};
use crate::records::index::{added_of, all_read, rebuild_matches_adding, RecordIndex};
use crate::records::log::{append_extends_log, next_id_of, records_from, whole_from, RecordLog, RecordLogView};
use crate::state::chain::{points_back, table_wf, TableView, UpdateTable};
use crate::state::manager::{head_at, HeadsView, StateIndex, StateIndexView, StateManager, StrategiesView};
use crate::store::history::{head_in_time, new_store_is_sound, sound, updates_in_time};
use crate::store::model::{after, append_intent, appended, chain_of, moved_head, next_record, raw_ids, state_value, state_value_at, update_input, update_intent, updated};
use crate::store::{Store, StoreView};
use crate::subscriptions::manager::SubscriptionManager;
use crate::text::{decimal, decimal_string, joined};
use crate::types::{opt_view, views, BranchId, BranchView, RecordId, RecordInput, RecordInputView, RecordView, Sequence, StateUpdateRecord, Timestamp, UpdateView};
use crate::wal::log::{are_pending, is_pending, is_pending_from, lemma_pending_count, logged_until_committed, max_seq, WalEntry, WalEntryView, WalOpView, WalOperation, WalView, WriteAheadLog};
use vstd::prelude::*;
use vstd::string::*;

verus! {

/// Configuration for the store.
#[derive(Debug)]
pub struct StoreConfig {
    /// Base directory for the store.
    pub path: String,
    /// Number of blobs that are cached.
    pub blob_cache_size: usize,
    /// Create the store if it does not exist.
    pub create_if_missing: bool,
}

impl Default for StoreConfig {
    fn default() -> (c: Self)
        ensures
            c.path@ == "./store"@,
            c.blob_cache_size == 1000,
            c.create_if_missing,
    {
        StoreConfig {
            path: "./store".to_owned(),
            blob_cache_size: 1000,
            create_if_missing: true,
        }
    }
}

/// What to do about a store.
#[derive(Clone, Copy, Debug, PartialEq, Eq, Structural)]
pub enum OpenMode {
    /// Open what is there.
    Open,
    /// Create a new store.
    Create,
}

impl StoreConfig {
    /// Whether to open an existing store or to create a new one.
    pub fn open_or_create(&self, exists_already: bool) -> (r: Result<OpenMode, StoreError>)
        ensures
            match r {
                Ok(OpenMode::Open) => exists_already,
                Ok(OpenMode::Create) => !exists_already && self.create_if_missing,
                Err(e) => !exists_already && !self.create_if_missing && e@
                    == ErrorView::NotInitialized,
            },
    {
        if exists_already {
            Ok(OpenMode::Open)
        } else if self.create_if_missing {
            Ok(OpenMode::Create)
        } else {
            Err(StoreError::NotInitialized)
        }
    }
}

/// What the files of a store hold.
pub struct StoreFiles {
    /// The bytes of the manifest.
    pub manifest: Vec<u8>,
    /// The bytes of the record log.
    pub log: Vec<u8>,
    /// The bytes of the log's metadata file, if there is one.
    pub meta: Option<Vec<u8>>,
    /// The blob files.
    pub blobs: Vec<BlobFile>,
    /// The state index.
    pub states: StateIndex,
    /// The branch index and the current branch, if there is a file for them.
    pub branches: Option<(BranchIndex, BranchId)>,
    /// The state updates that the log holds, with their offsets.
    pub updates: Vec<(u64, StateUpdateRecord)>,
    /// The entries of the write-ahead log.
    pub wal: Vec<WalEntry>,
}

impl StoreFiles {
    /// The files of a store that has none yet.
    pub fn none() -> (f: Self)
        ensures
            f.log@.len() == 0,
            f.meta is None,
            f.blobs@.len() == 0,
            f.states@.heads == HeadsView::empty(),
            f.states@.strategies == StrategiesView::empty(),
            f.branches is None,
            f.updates@.len() == 0,
            f.wal@.len() == 0,
            manifest_error(f.manifest@) is None,
    {
        StoreFiles {
            manifest: crate::format::manifest::write_manifest(),
            log: Vec::new(),
            meta: None,
            blobs: Vec::new(),
            states: StateIndex::new(),
            branches: None,
            updates: Vec::new(),
            wal: Vec::new(),
        }
    }
}

/// Updates with their offsets, as mathematical values.
pub open spec fn updates_of(list: Seq<(u64, StateUpdateRecord)>) -> TableView {
    list.map_values(|e: (u64, StateUpdateRecord)| (e.0, e.1@))
}

/// The updates of a list that lie within a log, behind each other, and point back. Others
/// are left out: no chain can go through them.
pub open spec fn table_from(list: TableView, len: nat) -> TableView
    decreases list.len(),
{
    if list.len() == 0 {
        list
    } else {
        let t = table_from(list.drop_last(), len);
        let (offset, u) = list.last();
        if offset < len && points_back(offset, u) && (t.len() > 0 ==> t.last().0 < offset) {
            t.push((offset, u))
        } else {
            t
        }
    }
}

fn load_updates(list: Vec<(u64, StateUpdateRecord)>, len: u64) -> (t: UpdateTable)
    ensures
        t@ == table_from(updates_of(list@), len as nat),
        table_wf(t@),
        t@.len() > 0 ==> t@.last().0 < len,
{
    let ghost all = updates_of(list@);
    let mut t = UpdateTable::new();
    let mut i: usize = 0;
    assert(all.take(0) =~= Seq::empty());
    while i < list.len()
        invariant
            all == updates_of(list@),
            i <= list@.len(),
            t@ == table_from(all.take(i as int), len as nat),
            table_wf(t@),
            t@.len() > 0 ==> t@.last().0 < len,
        decreases list@.len() - i,
    {
        proof {
            assert(all.take(i + 1).drop_last() =~= all.take(i as int));
            assert(all.take(i + 1).last() == (list@[i as int].0, list@[i as int].1@));
        }
        if list[i].0 < len {
            let update = list[i].1.clone();
            let _ = t.add(list[i].0, update);
        }
        i += 1;
    }
    assert(all.take(i as int) =~= all);
    t
}

/// The parts of a store that a replay changes.
pub struct ReplayView {
    pub log: RecordLogView,
    pub blobs: BlobsView,
    pub branches: BranchesView,
}

/// The input that a logged append stands for.
pub open spec fn logged_input(op: WalOpView) -> Option<(RecordInputView, u64, u64)> {
    match op {
        WalOpView::AppendRecord {
            record_type,
            payload,
            encoding,
            caused_by,
            linked_to,
            branch_id,
            log_fence,
        } => Some(
            (
                RecordInputView {
                    record_type,
                    payload,
                    encoding: crate::records::codec::encoding_of(encoding),
                    caused_by: record_ids(caused_by),
                    linked_to: record_ids(linked_to),
                },
                branch_id,
                log_fence,
            ),
        ),
        WalOpView::UpdateState { operation_data, branch_id, log_fence, .. } => Some(
            (update_input(operation_data), branch_id, log_fence),
        ),
        _ => None,
    }
}

/// The record ids that numbers stand for.
pub open spec fn record_ids(ids: Seq<u64>) -> Seq<RecordId> {
    ids.map_values(|id: u64| RecordId(id))
}

/// The error for an entry that names a branch which is not there.
pub open spec fn no_such_branch(id: u64) -> ErrorView {
    ErrorView::Corruption("WAL replay: branch "@ + decimal(id as nat) + " not found"@)
}

/// Whether replaying an entry leads from one value to another with an outcome. An entry
/// whose fence the log had already grown past was written before the crash and is skipped.
pub open spec fn replayed(
    log_size: u64,
    v: ReplayView,
    op: WalOpView,
    now: ReplayView,
    r: Result<(), ErrorView>,
) -> bool {
    match op {
        WalOpView::StoreBlob { content, content_type } => r is Ok && now == (ReplayView {
            blobs: v.blobs.after_store(content, content_type),
            ..v
        }),
        WalOpView::CreateBranch { name, from } => {
            &&& r is Ok
            &&& if name.len() == 0 || create_error(v.branches, name, named_parent(from)) is Some {
                now == v
            } else {
                exists|ts: Timestamp| #[trigger] branched(v, name, named_parent(from), ts, now)
            }
        },
        WalOpView::CommitMarker => r is Ok && now == v,
        _ => {
            let (input, branch_id, log_fence) = logged_input(op)->0;
            if log_size > log_fence {
                r is Ok && now == v
            } else {
                match by_id(v.branches.branches, BranchId(branch_id)) {
                    None => r == Err::<(), ErrorView>(no_such_branch(branch_id)) && now == v,
                    Some(b) => r is Ok && exists|ts: Timestamp| #[trigger]
                        appended_again(v, input, b, ts, now),
                }
            }
        },
    }
}

/// Whether appending an input to a branch, at a time, leads from one value to another.
pub open spec fn appended_again(
    v: ReplayView,
    input: RecordInputView,
    b: BranchView,
    ts: Timestamp,
    now: ReplayView,
) -> bool {
    let r = input.record(RecordId(v.log.next_id), after(b.head), b.id, ts);
    ts.0 >= v.log.last.0 && now == (ReplayView {
        log: v.log.appended(r),
        branches: moved_head(v.branches, r.branch, r.sequence),
        ..v
    })
}

/// The name of the branch that another is made from: main where none is given.
pub open spec fn named_parent(from: Option<Seq<char>>) -> Seq<char> {
    match from {
        Some(f) => f,
        None => "main"@,
    }
}

/// Whether making a branch from a parent, at a time, leads from one value to another.
pub open spec fn branched(
    v: ReplayView,
    name: Seq<char>,
    parent: Seq<char>,
    ts: Timestamp,
    now: ReplayView,
) -> bool {
    let p = by_name(v.branches.branches, parent)->0;
    ts.0 >= v.branches.last.0 && now == (ReplayView {
        branches: with_branch(v.branches, new_branch(v.branches, name, p.id, p.head, ts)),
        ..v
    })
}

/// Whether replaying entries in turn leads from value to value.
pub open spec fn replayed_in_turn(
    log_size: u64,
    entries: Seq<WalEntryView>,
    values: Seq<ReplayView>,
) -> bool {
    &&& values.len() == entries.len() + 1
    &&& forall|i: int|
        0 <= i < entries.len() ==> #[trigger] replayed(
            log_size,
            values[i],
            entries[i].operation,
            values[i + 1],
            Ok(()),
        )
}

/// Whether replaying a log's pending entries led from one value to another with an outcome.
/// An entry that cannot be replayed ends it.
pub open spec fn recovered(
    wal: WalView,
    v: ReplayView,
    now: ReplayView,
    r: Result<(), ErrorView>,
) -> bool {
    exists|pending: Seq<WalEntryView>, values: Seq<ReplayView>| #[trigger]
        recovery_run(wal, v, now, r, pending, values)
}

/// Whether replaying pending entries goes through the given values with an outcome.
pub open spec fn recovery_run(
    wal: WalView,
    v: ReplayView,
    now: ReplayView,
    r: Result<(), ErrorView>,
    pending: Seq<WalEntryView>,
    values: Seq<ReplayView>,
) -> bool {
    let log_size = v.log.bytes.len() as u64;
    &&& are_pending(wal.entries, pending)
    &&& 0 < values.len() <= pending.len() + 1
    &&& values[0] == v
    &&& replayed_in_turn(log_size, pending.take(values.len() - 1), values)
    &&& match r {
        Ok(_) => values.len() == pending.len() + 1 && now == values.last(),
        Err(e) => values.len() <= pending.len() && replayed(
            log_size,
            values.last(),
            pending[values.len() - 1].operation,
            now,
            Err(e),
        ),
    }
}

/// Whether a log has entries to replay.
pub open spec fn has_pending(wal: WalView) -> bool {
    exists|k: int| 0 <= k < wal.entries.len() && #[trigger] is_pending(wal.entries, k)
}

/// A log when its entries were replayed: it is cleared if there were any.
pub open spec fn after_replay(wal: WalView) -> WalView {
    if has_pending(wal) {
        WalView::cleared()
    } else {
        wal
    }
}

fn ids_from(raw: &Vec<u64>) -> (r: Vec<RecordId>)
    ensures
        r@ == record_ids(raw@),
{
    let mut out: Vec<RecordId> = Vec::new();
    let mut i: usize = 0;
    while i < raw.len()
        invariant
            i <= raw@.len(),
            out@ =~= record_ids(raw@.take(i as int)),
        decreases raw@.len() - i,
    {
        out.push(RecordId(raw[i]));
        i += 1;
        assert(raw@.take(i as int).drop_last() =~= raw@.take(i - 1));
    }
    assert(raw@.take(i as int) =~= raw@);
    out
}

/// What is open while a log is replayed.
pub struct Replay {
    log: RecordLog,
    blobs: BlobStorage,
    branches: BranchManager,
}

impl View for Replay {
    type V = ReplayView;

    closed spec fn view(&self) -> ReplayView {
        ReplayView { log: self.log@, blobs: self.blobs@, branches: self.branches@ }
    }
}

impl ReplayView {
    /// Whether the parts are well-formed.
    pub open spec fn wf(self) -> bool {
        self.log.wf() && self.blobs.wf() && self.branches.wf()
    }
}

impl Replay {
    fn append(&mut self, input: RecordInput, branch_id: u64) -> (r: Result<(), StoreError>)
        requires
            old(self)@.wf(),
            old(self)@.log.next_id < u64::MAX,
        ensures
            final(self)@.wf(),
            final(self)@.log.next_id <= old(self)@.log.next_id + 1,
            final(self)@.branches.next_id == old(self)@.branches.next_id,
            match by_id(old(self)@.branches.branches, BranchId(branch_id)) {
                None => r matches Err(e) && e@ == no_such_branch(branch_id) && final(self)@ == old(self)@,
                Some(b) => r is Ok && exists|ts: Timestamp| #[trigger]
                    appended_again(old(self)@, input@, b, ts, final(self)@),
            },
    {
        let ghost v = self@;
        let branch = match self.branches.get_branch_by_id(BranchId(branch_id)) {
            Some(b) => b,
            None => {
                let mut text = joined("WAL replay: branch ", decimal_string(branch_id).as_str());
                text.append(" not found");
                return Err(StoreError::Corruption(text));
            },
        };
        proof {
            crate::branches::manager::lemma_named(
                v.branches,
                branch@,
                Seq::empty(),
                BranchId(branch_id),
            );
        }
        let next_seq = branch.head.next();
        let (record, _) = self.log.append(input, branch.id, next_seq);
        match self.branches.update_head(branch.id, next_seq) {
            Ok(_) => {},
            Err(e) => {
                assert(false);
                return Err(e);
            },
        }
        assert(appended_again(v, input@, branch@, record.timestamp, self@));
        Ok(())
    }

    /// Replays one entry.
    fn step(&mut self, entry: &WalEntry, log_size: u64) -> (r: Result<(), StoreError>)
        requires
            old(self)@.wf(),
            old(self)@.log.next_id < u64::MAX,
            old(self)@.branches.next_id < u64::MAX,
        ensures
            final(self)@.wf(),
            final(self)@.log.next_id <= old(self)@.log.next_id + 1,
            final(self)@.branches.next_id <= old(self)@.branches.next_id + 1,
            replayed(
                log_size,
                old(self)@,
                entry@.operation,
                final(self)@,
                match r {
                    Ok(_) => Ok(()),
                    Err(e) => Err(e@),
                },
            ),
    {
        let ghost v = self@;
        match &entry.operation {
            WalOperation::AppendRecord {
                record_type,
                payload,
                encoding,
                caused_by,
                linked_to,
                branch_id,
                log_fence,
            } => {
                if log_size > *log_fence {
                    return Ok(());
                }
                let input = RecordInput {
                    record_type: record_type.clone(),
                    payload: crate::bytes::copied(payload),
                    encoding: encoding_of_byte(*encoding),
                    caused_by: ids_from(caused_by),
                    linked_to: ids_from(linked_to),
                };
                self.append(input, *branch_id)
            },
            WalOperation::UpdateState { operation_data, branch_id, log_fence, .. } => {
                if log_size > *log_fence {
                    return Ok(());
                }
                let input = RecordInput::raw("state_update", crate::bytes::copied(operation_data));
                self.append(input, *branch_id)
            },
            WalOperation::StoreBlob { content, content_type } => {
                let _ = self.blobs.store(content.as_slice(), content_type.as_str());
                Ok(())
            },
            WalOperation::CreateBranch { name, from } => {
                let parent: Option<&str> = match from {
                    Some(f) => Some(f.as_str()),
                    None => None,
                };
                match self.branches.create_branch(name.as_str(), parent) {
                    Ok(b) => {
                        proof {
                            assert(branched(
                                v,
                                name@,
                                named_parent(opt_view(*from)),
                                b.created,
                                self@,
                            ));
                        }
                    },
                    Err(_) => {},
                }
                Ok(())
            },
            WalOperation::CommitMarker => Ok(()),
        }
    }

    /// Replays the pending entries of a log by ascending sequence. Entries that were
    /// replayed are committed, and when all were, the log is cleared.
    pub fn replay_wal(&mut self, wal: &mut WriteAheadLog) -> (r: Result<(), StoreError>)
        requires
            old(self)@.wf(),
            old(wal)@.wf(),
            old(self)@.log.next_id + old(wal)@.entries.len() < u64::MAX,
            old(self)@.branches.next_id + old(wal)@.entries.len() < u64::MAX,
        ensures
            final(self)@.wf(),
            final(wal)@.wf(),
            recovered(
                old(wal)@,
                old(self)@,
                final(self)@,
                match r {
                    Ok(_) => Ok(()),
                    Err(e) => Err(e@),
                },
            ),
            r is Ok ==> final(wal)@ == after_replay(old(wal)@),
            r is Ok && !has_pending(old(wal)@) ==> final(self)@ == old(self)@,
    {
        let ghost v = self@;
        let ghost es = wal@.entries;
        let pending = wal.get_pending_entries();
        let ghost all = views(pending@);
        proof {
            crate::wal::log::lemma_pending_count(es, all);
        }
        let log_size: u64 = self.log.size();
        if pending.len() == 0 {
            proof {
                assert(all.take(0) =~= Seq::empty());
                assert(recovery_run(wal@, v, v, Ok(()), all, seq![v]));
                assert forall|k: int| 0 <= k < es.len() implies
                    !#[trigger] is_pending(es, k) by {
                    if is_pending(es, k) {
                        assert(all.contains(es[k]));
                    }
                }
            }
            return Ok(());
        }
        proof {
            assert(crate::wal::log::is_pending_from(es, 0, all[0]));
        }
        let ghost mut values: Seq<ReplayView> = seq![v];
        let mut i: usize = 0;
        assert(all.take(0) =~= Seq::empty());
        while i < pending.len()
            invariant
                self@.wf(),
                wal@.wf(),
                es == old(wal)@.entries,
                v == old(self)@,
                wal@.next_seq == old(wal)@.next_seq,
                all == views(pending@),
                all.len() <= es.len(),
                are_pending(es, all),
                old(wal)@.wf(),
                log_size == v.log.bytes.len(),
                v.log.next_id + es.len() < u64::MAX,
                v.branches.next_id + es.len() < u64::MAX,
                i <= pending@.len(),
                self@.log.next_id <= v.log.next_id + i,
                self@.branches.next_id <= v.branches.next_id + i,
                values.len() == i + 1,
                values[0] == v,
                values.last() == self@,
                replayed_in_turn(log_size, all.take(i as int), values),
            decreases pending@.len() - i,
        {
            let ghost before = self@;
            assert(all[i as int] == pending@[i as int]@);
            match self.step(&pending[i], log_size) {
                Ok(_) => {},
                Err(e) => {
                    proof {
                        assert(all.take(values.len() - 1) =~= all.take(i as int));
                        assert(recovery_run(old(wal)@, v, self@, Err(e@), all, values));
                    }
                    return Err(e);
                },
            }
            proof {
                let next = values.push(self@);
                let es2 = all.take(i + 1);
                assert forall|k: int| 0 <= k < es2.len() implies #[trigger] replayed(
                    log_size,
                    next[k],
                    es2[k].operation,
                    next[k + 1],
                    Ok(()),
                ) by {
                    if k < i {
                        assert(replayed(
                            log_size,
                            values[k],
                            all.take(i as int)[k].operation,
                            values[k + 1],
                            Ok(()),
                        ));
                    }
                }
                values = next;
                assert(crate::wal::log::is_pending_from(es, 0, all[i as int]));
            }
            wal.commit(pending[i].seq);
            i += 1;
        }
        proof {
            assert(all.take(i as int) =~= all);
            assert(all.take(values.len() - 1) =~= all);
            assert(recovery_run(old(wal)@, v, self@, Ok(()), all, values));
        }
        wal.clear();
        Ok(())
    }
}

impl Store {
    /// Puts a store together from its parts: the index is rebuilt from the log.
    fn assemble(
        parts: Replay,
        states: StateIndex,
        updates: Vec<(u64, StateUpdateRecord)>,
        wal: WriteAheadLog,
    ) -> (r: Result<Self, StoreError>)
        requires
            parts@.wf(),
            wal@.wf(),
        ensures
            match r {
                Ok(s) => s.wf() && all_read(records_from(parts@.log.bytes, 0)) && s@
                    == assembled(parts@, states@, updates_of(updates@), wal@),
                Err(e) => records_from(parts@.log.bytes, 0).len() > 0 && records_from(
                    parts@.log.bytes,
                    0,
                ).last() == Err::<(u64, RecordView), ErrorView>(e@),
            },
    {
        let index = match RecordIndex::rebuild_from_log(&parts.log) {
            Ok(index) => index,
            Err(e) => return Err(e),
        };
        let table = load_updates(updates, parts.log.size());
        Ok(
            Store {
                log: parts.log,
                index,
                blobs: parts.blobs,
                state: StateManager::load(states),
                branches: parts.branches,
                updates: table,
                subscriptions: SubscriptionManager::new(),
                wal,
            },
        )
    }

    /// Create a new store: it has no states, and the main branch. What the log and the blob
    /// directory already hold stays.
    pub fn create(files: StoreFiles, blob_cache_size: usize) -> (r: Result<Self, StoreError>)
        requires
            paths_distinct(files_of(files.blobs@)),
            max_seq(views(files.wal@)) < u64::MAX,
        ensures
            match r {
                Ok(s) => s.wf() && all_read(records_from(files.log@, 0)) && is_created(
                    files,
                    blob_cache_size,
                    next_id_of(files.log@, opt_view(files.meta)),
                    s@,
                ) && (files.log@.len() == 0 ==> sound(s@)),
                Err(e) => records_from(files.log@, 0).len() > 0 && records_from(
                    files.log@,
                    0,
                ).last() == Err::<(u64, RecordView), ErrorView>(e@),
            },
    {
        let log = match RecordLog::open(files.log, files.meta) {
            Ok(log) => log,
            Err(e) => return Err(e),
        };
        let parts = Replay {
            log,
            blobs: BlobStorage::new(files.blobs, blob_cache_size),
            branches: BranchManager::new(),
        };
        let wal = WriteAheadLog::open(files.wal);
        let states = StateIndex::new();
        let ghost v = parts@;
        proof {
            assert(states@ == no_states());
            assert(wal@ == stored_wal(files));
            assert(just_main(v.branches));
            assert(is_fresh(files, blob_cache_size, v.log.next_id, v));
        }
        let r = Store::assemble(parts, states, files.updates, wal);
        proof {
            if let Ok(s) = &r {
                assert(is_created(files, blob_cache_size, v.log.next_id, s@));
                if files.log@.len() == 0 {
                    lemma_none_kept(updates_of(files.updates@));
                    new_store_is_sound(s@);
                }
            }
        }
        r
    }

    /// Open an existing store: its manifest is checked, what a crash left undone is replayed,
    /// and the index is rebuilt.
    pub fn open(files: StoreFiles, blob_cache_size: usize) -> (r: Result<Self, StoreError>)
        requires
            paths_distinct(files_of(files.blobs@)),
            max_seq(views(files.wal@)) < u64::MAX,
            next_id_of(files.log@, opt_view(files.meta)) + files.wal@.len() < u64::MAX,
            files.branches matches Some((index, _)) ==> index.next_id + files.wal@.len() < u64::MAX,
            files.wal@.len() + 2 < u64::MAX,
        ensures
            match manifest_error(files.manifest@) {
                Some(e) => r matches Err(x) && x@ == e,
                None => match files.branches {
                    Some((index, current)) if !stored_branches(index, current).wf() => r matches Err(
                        x,
                    ) && x@ == bad_index(),
                    _ => exists|v: ReplayView, now: ReplayView, done: Result<(), ErrorView>|
                        #[trigger] recovered(stored_wal(files), v, now, done) && is_stored(
                            files,
                            blob_cache_size,
                            next_id_of(files.log@, opt_view(files.meta)),
                            v,
                        ) && (match r {
                            Ok(s) => done is Ok && s.wf() && all_read(
                                records_from(now.log.bytes, 0),
                            ) && s@ == assembled(
                                now,
                                files.states@,
                                updates_of(files.updates@),
                                after_replay(stored_wal(files)),
                            ),
                            Err(e) => done == Err::<(), ErrorView>(e@) || (done is Ok
                                && records_from(now.log.bytes, 0).len() > 0 && records_from(
                                now.log.bytes,
                                0,
                            ).last() == Err::<(u64, RecordView), ErrorView>(e@)),
                        }),
                },
            },
    {
        match verify_manifest(files.manifest.as_slice()) {
            Ok(_) => {},
            Err(e) => return Err(e),
        }
        let log = match RecordLog::open(files.log, files.meta) {
            Ok(log) => log,
            Err(e) => return Err(e),
        };
        let blobs = BlobStorage::new(files.blobs, blob_cache_size);
        let branches = match files.branches {
            Some((index, current)) => match BranchManager::load(index, current) {
                Ok(b) => b,
                Err(e) => return Err(e),
            },
            None => BranchManager::new(),
        };
        let mut parts = Replay { log, blobs, branches };
        let mut wal = WriteAheadLog::open(files.wal);
        let ghost v = parts@;
        assert(is_stored(files, blob_cache_size, v.log.next_id, v));
        let done = parts.replay_wal(&mut wal);
        let ghost now = parts@;
        match done {
            Ok(_) => {
                assert(recovered(stored_wal(files), v, now, Ok(())));
            },
            Err(e) => {
                assert(recovered(stored_wal(files), v, now, Err(e@)));
                return Err(e);
            },
        }
        Store::assemble(parts, files.states, files.updates, wal)
    }
}

/// The branches that an index lists, in the order of their ids.
pub open spec fn stored_branches(index: BranchIndex, current: BranchId) -> BranchesView {
    BranchesView {
        branches: ordered(views(index.branches@)),
        next_id: index.next_id,
        current,
        last: Timestamp(0),
    }
}

/// The write-ahead log that a store's files hold.
pub open spec fn stored_wal(files: StoreFiles) -> WalView {
    WalView {
        entries: views(files.wal@),
        next_seq: (max_seq(views(files.wal@)) + 1) as u64,
    }
}

/// Whether there is just the main branch.
pub open spec fn just_main(b: BranchesView) -> bool {
    &&& b.branches.len() == 1
    &&& b.branches[0].id == BranchId(1)
    &&& b.branches[0].name == "main"@
    &&& b.branches[0].head == Sequence(0)
    &&& b.branches[0].parent is None
    &&& b.branches[0].branch_point is None
    &&& b.current == BranchId(1)
    &&& b.next_id == 2
    &&& b.last == b.branches[0].created
}

/// Whether a value is what a store's files hold, but for the branches: there is just the
/// main branch.
pub open spec fn is_fresh(
    files: StoreFiles,
    cache_size: usize,
    next_id: u64,
    v: ReplayView,
) -> bool {
    &&& v.log.bytes == files.log@
    &&& v.log.next_id == next_id
    &&& v.log.unsynced == 0
    &&& v.log.sync_interval == DEFAULT_SYNC_INTERVAL
    &&& v.log.last == Timestamp(0)
    &&& v.blobs.files == files_of(files.blobs@)
    &&& v.blobs.cached == EntriesView::empty()
    &&& v.blobs.capacity == (if cache_size == 0 {
        1
    } else {
        cache_size as nat
    })
    &&& just_main(v.branches)
}

/// Whether a value is what a store's files hold: without a branch index there is just the
/// main branch.
pub open spec fn is_stored(
    files: StoreFiles,
    cache_size: usize,
    next_id: u64,
    v: ReplayView,
) -> bool {
    &&& v.log.bytes == files.log@
    &&& v.log.next_id == next_id
    &&& v.log.unsynced == 0
    &&& v.log.sync_interval == DEFAULT_SYNC_INTERVAL
    &&& v.log.last == Timestamp(0)
    &&& v.blobs.files == files_of(files.blobs@)
    &&& v.blobs.cached == EntriesView::empty()
    &&& v.blobs.capacity == (if cache_size == 0 {
        1
    } else {
        cache_size as nat
    })
    &&& match files.branches {
        Some((index, current)) => v.branches == stored_branches(index, current),
        None => just_main(v.branches),
    }
}

/// The index of a store without states.
pub open spec fn no_states() -> StateIndexView {
    StateIndexView { heads: HeadsView::empty(), strategies: StrategiesView::empty() }
}

/// A store made of parts, with the index that its log gives, nothing cached and nobody
/// subscribed.
pub open spec fn assembled(
    parts: ReplayView,
    states: StateIndexView,
    updates: TableView,
    wal: WalView,
) -> StoreView {
    StoreView {
        log: parts.log,
        added: added_of(records_from(parts.log.bytes, 0)),
        blobs: parts.blobs,
        states,
        cached: EntriesView::empty(),
        cache_capacity: crate::state::manager::DEFAULT_CACHE_SIZE as nat,
        branches: parts.branches,
        updates: table_from(updates, parts.log.bytes.len()),
        wal,
        subscribers: crate::subscriptions::manager::SubscribersView {
            list: Seq::empty(),
            next_id: 1,
        },
    }
}

/// Whether a store has just been made from files: it has no states.
pub open spec fn is_created(
    files: StoreFiles,
    cache_size: usize,
    next_id: u64,
    s: StoreView,
) -> bool {
    exists|v: ReplayView| #[trigger]
        is_fresh(files, cache_size, next_id, v) && s == assembled(
            v,
            no_states(),
            updates_of(files.updates@),
            stored_wal(files),
        )
}

/// What was written before a crash is not written again: an entry whose fence the log has
/// grown past changes nothing.
pub proof fn replay_skips_what_was_written(
    log_size: u64,
    v: ReplayView,
    op: WalOpView,
    now: ReplayView,
    r: Result<(), ErrorView>,
)
    requires
        replayed(log_size, v, op, now, r),
        logged_input(op) matches Some((_, _, fence)) && log_size > fence,
    ensures
        r is Ok,
        now == v,
{
}

/// An append that a crash cut off is made good: where it was logged but not written, the
/// replay appends the record that it would have appended, and moves the head of its branch.
pub proof fn lost_append_is_replayed(
    s: StoreView,
    input: RecordInputView,
    b: BranchView,
    t: u64,
    v: ReplayView,
    now: ReplayView,
    r: Result<(), ErrorView>,
)
    requires
        s.wf(),
        s.branches.current_branch() == Some(b),
        s.has_room(1),
        !has_pending(s.wal),
        v.log.bytes == s.log.bytes,
        v.log.next_id == s.log.next_id,
        v.branches == s.branches,
        recovered(s.wal.logged(append_intent(s, input, b), t), v, now, r),
    ensures
        r is Ok,
        now.blobs == v.blobs,
        exists|at: Timestamp|
            {
                let whole = appended(s, #[trigger] next_record(s, input, b, at), b, s.wal);
                &&& now.log.bytes == whole.log.bytes
                &&& now.log.next_id == whole.log.next_id
                &&& now.branches == whole.branches
            },
{
    assert(record_ids(raw_ids(input.caused_by)) =~= input.caused_by);
    assert(record_ids(raw_ids(input.linked_to)) =~= input.linked_to);
    lemma_lost_write(s, append_intent(s, input, b), input, b, t, v, now, r);
}

/// A state update that a crash cut off is made good in the log: where it was logged but not
/// written, the replay appends the record that would have been appended, and moves the head
/// of its branch. The head of the state stays where it was.
pub proof fn lost_update_is_replayed(
    s: StoreView,
    id: Seq<char>,
    payload: Seq<u8>,
    u: UpdateView,
    b: BranchView,
    t: u64,
    v: ReplayView,
    now: ReplayView,
    r: Result<(), ErrorView>,
)
    requires
        s.wf(),
        s.branches.current_branch() == Some(b),
        s.has_room(1),
        !has_pending(s.wal),
        v.log.bytes == s.log.bytes,
        v.log.next_id == s.log.next_id,
        v.branches == s.branches,
        recovered(s.wal.logged(update_intent(s, id, payload, b), t), v, now, r),
    ensures
        r is Ok,
        now.blobs == v.blobs,
        exists|at: Timestamp|
            {
                let record = #[trigger] next_record(s, update_input(payload), b, at);
                let whole = updated(s, record, u, b, s.wal);
                &&& now.log.bytes == whole.log.bytes
                &&& now.log.next_id == whole.log.next_id
                &&& now.branches == whole.branches
            },
{
    lemma_lost_write(
        s,
        update_intent(s, id, payload, b),
        update_input(payload),
        b,
        t,
        v,
        now,
        r,
    );
}

proof fn lemma_lost_write(
    s: StoreView,
    op: WalOpView,
    input: RecordInputView,
    b: BranchView,
    t: u64,
    v: ReplayView,
    now: ReplayView,
    r: Result<(), ErrorView>,
)
    requires
        s.wf(),
        s.branches.current_branch() == Some(b),
        s.has_room(1),
        !has_pending(s.wal),
        v.log.bytes == s.log.bytes,
        v.log.next_id == s.log.next_id,
        v.branches == s.branches,
        logged_input(op) == Some((input, b.id.0, s.log.bytes.len() as u64)),
        recovered(s.wal.logged(op, t), v, now, r),
    ensures
        r is Ok,
        now.blobs == v.blobs,
        exists|at: Timestamp|
            {
                let record = #[trigger] next_record(s, input, b, at);
                &&& now.log.bytes == s.log.appended(record).bytes
                &&& now.log.next_id == s.log.appended(record).next_id
                &&& now.branches == moved_head(s.branches, record.branch, record.sequence)
            },
{
    let entry = lemma_only_pending(s.wal, op, t);
    let wal = s.wal.logged(op, t);
    let (pending, values) = choose|pending: Seq<WalEntryView>, values: Seq<ReplayView>| #[trigger]
        recovery_run(wal, v, now, r, pending, values);
    lemma_run_of_one(wal, v, now, r, pending, values, entry);
    lemma_current(s.branches);
    let at = choose|at: Timestamp| #[trigger] appended_again(v, input, b, at, now);
    assert(appended_again(v, input, b, at, now));
    assert(next_record(s, input, b, at) == input.record(
        RecordId(v.log.next_id),
        after(b.head),
        b.id,
        at,
    ));
}

/// An append that a crash cut off behind the write is not made again.
pub proof fn written_append_is_not_replayed(
    s: StoreView,
    input: RecordInputView,
    b: BranchView,
    record: RecordView,
    t: u64,
    v: ReplayView,
    now: ReplayView,
    r: Result<(), ErrorView>,
)
    requires
        s.wf(),
        s.has_room(1),
        !has_pending(s.wal),
        v.log.bytes == appended(s, record, b, s.wal).log.bytes,
        v.log.bytes.len() <= u64::MAX,
        recovered(s.wal.logged(append_intent(s, input, b), t), v, now, r),
    ensures
        r is Ok,
        now == v,
{
    let op = append_intent(s, input, b);
    let entry = lemma_only_pending(s.wal, op, t);
    let wal = s.wal.logged(op, t);
    let (pending, values) = choose|pending: Seq<WalEntryView>, values: Seq<ReplayView>| #[trigger]
        recovery_run(wal, v, now, r, pending, values);
    lemma_run_of_one(wal, v, now, r, pending, values, entry);
    assert(record_bytes(record).len() > 0);
}

/// What is logged where nothing waits is the one entry that waits.
proof fn lemma_only_pending(w: WalView, op: WalOpView, t: u64) -> (entry: WalEntryView)
    requires
        w.wf(),
        w.next_seq < u64::MAX,
        !has_pending(w),
    ensures
        entry.operation == op,
        forall|pending: Seq<WalEntryView>| #[trigger]
            are_pending(w.logged(op, t).entries, pending) ==> pending == seq![entry],
{
    let es = w.logged(op, t).entries;
    let n = w.entries.len() as int;
    let entry = es[n];
    assert forall|k: int| 0 <= k < n implies !#[trigger] is_pending(es, k) by {
        logged_until_committed(w, op, t, t, k);
        assert(!is_pending(w.entries, k));
    }
    logged_until_committed(w, op, t, t, n);
    assert forall|pending: Seq<WalEntryView>| #[trigger] are_pending(es, pending) implies pending
        == seq![entry] by {
        assert(is_pending(es, n));
        assert(pending.contains(entry));
        assert forall|i: int| 0 <= i < pending.len() implies #[trigger] pending[i] == entry by {
            assert(is_pending_from(es, 0, pending[i]));
        }
        if pending.len() > 1 {
            assert(pending[0].seq < pending[1].seq);
        }
        assert(pending =~= seq![entry]);
    }
    entry
}

/// A replay of one entry is its one step.
proof fn lemma_run_of_one(
    wal: WalView,
    v: ReplayView,
    now: ReplayView,
    r: Result<(), ErrorView>,
    pending: Seq<WalEntryView>,
    values: Seq<ReplayView>,
    entry: WalEntryView,
)
    requires
        recovery_run(wal, v, now, r, pending, values),
        pending == seq![entry],
    ensures
        replayed(v.log.bytes.len() as u64, v, entry.operation, now, r),
{
    let log_size = v.log.bytes.len() as u64;
    if r is Ok {
        assert(pending.take(1) =~= pending);
        assert(replayed(log_size, values[0], pending.take(1)[0].operation, values[1], Ok(())));
    }
}

/// Replaying is done once: nothing waits any more when it succeeded, and a second replay
/// changes nothing.
pub proof fn second_replay_changes_nothing(
    wal: WalView,
    now: ReplayView,
    again: ReplayView,
    r: Result<(), ErrorView>,
)
    requires
        recovered(after_replay(wal), now, again, r),
    ensures
        !has_pending(after_replay(wal)),
        r is Ok,
        again == now,
{
    let left = after_replay(wal);
    let (pending, values) = choose|pending: Seq<WalEntryView>, values: Seq<ReplayView>| #[trigger]
        recovery_run(left, now, again, r, pending, values);
    if pending.len() > 0 {
        assert(is_pending_from(left.entries, 0, pending[0]));
    }
}

/// Whether an entry names a branch that is there, if it names one.
pub open spec fn has_branch(b: BranchesView, op: WalOpView) -> bool {
    logged_input(op) matches Some((_, id, _)) ==> by_id(b.branches, BranchId(id)) is Some
}

/// How many of some entries were not written before a log had a size.
pub open spec fn lost_count(entries: Seq<WalEntryView>, log_size: u64) -> nat
    decreases entries.len(),
{
    if entries.len() == 0 {
        0
    } else {
        lost_count(entries.drop_last(), log_size) + (if logged_input(
            entries.last().operation,
        ) matches Some((_, _, fence)) && log_size <= fence {
            1nat
        } else {
            0nat
        })
    }
}

/// Replaying succeeds where the pending entries name branches that are there, and writes a
/// record for each entry that was not written, and for no other: the log gives out as many
/// ids.
pub proof fn replay_writes_what_was_lost(
    wal: WalView,
    v: ReplayView,
    now: ReplayView,
    r: Result<(), ErrorView>,
)
    requires
        recovered(wal, v, now, r),
        forall|k: int|
            0 <= k < wal.entries.len() && #[trigger] is_pending(wal.entries, k) ==> has_branch(
                v.branches,
                wal.entries[k].operation,
            ),
        v.log.next_id + wal.entries.len() <= u64::MAX,
    ensures
        r is Ok,
        exists|pending: Seq<WalEntryView>| #[trigger]
            are_pending(wal.entries, pending) && now.log.next_id == v.log.next_id + lost_count(
                pending,
                v.log.bytes.len() as u64,
            ),
{
    let (pending, values) = choose|pending: Seq<WalEntryView>, values: Seq<ReplayView>| #[trigger]
        recovery_run(wal, v, now, r, pending, values);
    let log_size = v.log.bytes.len() as u64;
    lemma_pending_count(wal.entries, pending);
    assert forall|i: int| 0 <= i < pending.len() implies has_branch(
        v.branches,
        (#[trigger] pending[i]).operation,
    ) by {
        assert(is_pending_from(wal.entries, 0, pending[i]));
    }
    let n = values.len() - 1;
    lemma_replay_steps(log_size, pending.take(n), values, n, pending);
    if r is Err {
        assert(has_branch(v.branches, pending[n].operation));
        assert(has_branch(values[n].branches, pending[n].operation));
        assert(false);
    }
    assert(pending.take(n) =~= pending);
}

proof fn lemma_replay_steps(
    log_size: u64,
    entries: Seq<WalEntryView>,
    values: Seq<ReplayView>,
    n: int,
    all: Seq<WalEntryView>,
)
    requires
        replayed_in_turn(log_size, entries, values),
        0 <= n <= entries.len() <= all.len(),
        forall|i: int|
            0 <= i < all.len() ==> has_branch(values[0].branches, (#[trigger] all[i]).operation),
        values[0].log.next_id + entries.len() <= u64::MAX,
    ensures
        forall|i: int|
            0 <= i < all.len() ==> has_branch(values[n].branches, (#[trigger] all[i]).operation),
        values[n].log.next_id == values[0].log.next_id + lost_count(entries.take(n), log_size),
        lost_count(entries.take(n), log_size) <= n,
    decreases n,
{
    if n > 0 {
        lemma_replay_steps(log_size, entries, values, n - 1, all);
        assert(replayed(
            log_size,
            values[n - 1],
            entries[n - 1].operation,
            values[n - 1 + 1],
            Ok(()),
        ));
        assert(entries.take(n).drop_last() =~= entries.take(n - 1));
        assert(entries.take(n).last() == entries[n - 1]);
        assert forall|i: int| 0 <= i < all.len() implies has_branch(
            values[n].branches,
            (#[trigger] all[i]).operation,
        ) by {
            if let Some((_, id, _)) = logged_input(all[i].operation) {
                assert(has_branch(values[n - 1].branches, all[i].operation));
                lemma_branch_stays(
                    log_size,
                    values[n - 1],
                    entries[n - 1].operation,
                    values[n],
                    BranchId(id),
                );
            }
        }
    } else {
        assert(entries.take(0) =~= Seq::empty());
    }
}

proof fn lemma_branch_stays(
    log_size: u64,
    v: ReplayView,
    op: WalOpView,
    now: ReplayView,
    id: BranchId,
)
    requires
        replayed(log_size, v, op, now, Ok(())),
        by_id(v.branches.branches, id) is Some,
    ensures
        by_id(now.branches.branches, id) is Some,
{
    match op {
        WalOpView::CreateBranch { name, from } => {
            if now != v {
                assert(now.branches.branches.drop_last() =~= v.branches.branches);
            }
        },
        WalOpView::StoreBlob { .. } => {},
        WalOpView::CommitMarker => {},
        _ => {
            if now != v {
                let (input, branch_id, _) = logged_input(op)->0;
                let b = by_id(v.branches.branches, BranchId(branch_id))->0;
                let ts = choose|ts: Timestamp| #[trigger] appended_again(v, input, b, ts, now);
                heads_are_independent(v.branches.branches, b.id, after(b.head), id);
            }
        },
    }
}

/// Whether files hold a store: what is cached and who has subscribed is not kept.
pub open spec fn holds(files: StoreFiles, s: StoreView) -> bool {
    &&& files.log@ == s.log.bytes
    &&& files.states@ == s.states
    &&& updates_of(files.updates@) == s.updates
    &&& files.branches matches Some((index, current)) && stored_branches(index, current)
        == (BranchesView { last: Timestamp(0), ..s.branches })
    &&& files_of(files.blobs@) == s.blobs.files
}

/// Whether the index of a store is the one that its log gives.
pub open spec fn indexed(s: StoreView) -> bool {
    whole_from(s.log.bytes, 0) && s.added == added_of(records_from(s.log.bytes, 0))
}

/// No update lies within an empty log.
proof fn lemma_none_kept(list: TableView)
    ensures
        table_from(list, 0).len() == 0,
    decreases list.len(),
{
    if list.len() > 0 {
        lemma_none_kept(list.drop_last());
    }
}

proof fn lemma_all_kept(list: TableView, len: nat)
    requires
        table_wf(list),
        list.len() > 0 ==> list.last().0 < len,
    ensures
        table_from(list, len) == list,
    decreases list.len(),
{
    if list.len() > 0 {
        let init = list.drop_last();
        if init.len() > 0 {
            assert(init.last() == list[list.len() - 2]);
            assert(list[list.len() - 2].0 < list[list.len() - 1].0);
        }
        assert forall|i: int, j: int| 0 <= i < j < init.len() implies (#[trigger] init[i]).0 < (
        #[trigger] init[j]).0 by {
            assert(list[i].0 < list[j].0);
        }
        assert forall|i: int| 0 <= i < init.len() implies points_back(
            (#[trigger] init[i]).0,
            init[i].1,
        ) by {
            assert(points_back(list[i].0, list[i].1));
        }
        lemma_all_kept(init, len);
        assert(points_back(list[list.len() - 1].0, list[list.len() - 1].1));
        assert(init.push(list.last()) =~= list);
    }
}

/// A store that was closed in order is the same when it is opened again: its records,
/// branches, blobs and states are, at every sequence, and so is its index.
pub proof fn reopened_store_is_the_same(
    files: StoreFiles,
    cache_size: usize,
    s: StoreView,
    v: ReplayView,
    branch: BranchId,
    id: Seq<char>,
    at: Sequence,
)
    requires
        s.wf(),
        holds(files, s),
        indexed(s),
        is_stored(files, cache_size, s.log.next_id, v),
        !has_pending(stored_wal(files)),
    ensures
        ({
            let now = assembled(
                v,
                files.states@,
                updates_of(files.updates@),
                after_replay(stored_wal(files)),
            );
            &&& now.log.bytes == s.log.bytes
            &&& now.log.next_id == s.log.next_id
            &&& now.added == s.added
            &&& now.branches == (BranchesView { last: Timestamp(0), ..s.branches })
            &&& now.blobs.files == s.blobs.files
            &&& chain_of(now, branch, id) == chain_of(s, branch, id)
            &&& state_value(now, branch, id) == state_value(s, branch, id)
            &&& state_value_at(now, branch, id, at) == state_value_at(s, branch, id, at)
            &&& sound(s) ==> sound(now)
        }),
{
    lemma_all_kept(s.updates, s.log.bytes.len());
    let now = assembled(
        v,
        files.states@,
        updates_of(files.updates@),
        after_replay(stored_wal(files)),
    );
    if sound(s) {
        assert forall|br: BranchId, x: Seq<char>|
            (#[trigger] head_at(now.states, br, x)) is Some implies head_in_time(
            now,
            br,
            head_at(now.states, br, x)->0,
        ) by {
            assert(head_in_time(s, br, head_at(s.states, br, x)->0));
        }
        assert(updates_in_time(now));
    }
}

/// The index stays the one that the log gives when records are appended.
pub proof fn appended_store_is_indexed(s: StoreView, r: RecordView, b: BranchView, wal: WalView)
    requires
        indexed(s),
        fits(r),
    ensures
        indexed(appended(s, r, b, wal)),
{
    rebuild_matches_adding(s.log.bytes, r);
    append_extends_log(s.log.bytes, r);
}

/// The index stays the one that the log gives when state updates are recorded.
pub proof fn updated_store_is_indexed(
    s: StoreView,
    r: RecordView,
    u: UpdateView,
    b: BranchView,
    wal: WalView,
)
    requires
        indexed(s),
        fits(r),
    ensures
        indexed(updated(s, r, u, b, wal)),
{
    rebuild_matches_adding(s.log.bytes, r);
    append_extends_log(s.log.bytes, r);
}

/// Replaying a blob stores it; replaying a branch makes it, at the head of its parent, unless
/// its name is taken or the parent is gone; a note that something was done changes nothing.
pub proof fn replay_repeats_blobs_and_branches(
    log_size: u64,
    v: ReplayView,
    op: WalOpView,
    now: ReplayView,
    r: Result<(), ErrorView>,
)
    requires
        v.blobs.wf(),
        v.branches.wf(),
        replayed(log_size, v, op, now, r),
    ensures
        op matches WalOpView::StoreBlob { content, content_type } ==> r is Ok && now.blobs.has(
            crate::digest::blake3_digest(content),
        ) && now.log == v.log && now.branches == v.branches,
        op matches WalOpView::CreateBranch { name, from } ==> {
            let parent = by_name(
                v.branches.branches,
                match from {
                    Some(f) => f,
                    None => "main"@,
                },
            );
            &&& r is Ok
            &&& now.log == v.log
            &&& now.blobs == v.blobs
            &&& if name.len() > 0 && by_name(v.branches.branches, name) is None && parent is Some {
                by_name(now.branches.branches, name) matches Some(b) && b.head == parent->0.head
                    && b.parent == Some(parent->0.id) && b.branch_point == Some(parent->0.head)
                    && now.branches.branches.len() == v.branches.branches.len() + 1
            } else {
                now == v
            }
        },
        op is CommitMarker ==> r is Ok && now == v,
{
    match op {
        WalOpView::StoreBlob { content, content_type } => {
            crate::blobs::storage::storing_again_changes_nothing(
                v.blobs,
                content,
                content_type,
                content_type,
            );
        },
        _ => {},
    }
}

/// Of the updates that are listed beside a log, those count that lie within it, each behind
/// the one before it, and point back.
pub proof fn listed_updates_are_taken(list: TableView, len: nat, offset: u64, u: UpdateView)
    ensures
        ({
            let t = table_from(list, len);
            let now = table_from(list.push((offset, u)), len);
            if offset < len && (u.prev_update_offset matches Some(p) ==> p < offset) && (t.len() > 0
                ==> t.last().0 < offset) {
                now == t.push((offset, u))
            } else {
                now == t
            }
        }),
        table_from(Seq::empty(), len).len() == 0,
{
    assert(list.push((offset, u)).drop_last() =~= list);
}

/// A replay that succeeds replays every pending entry, by ascending sequence.
pub proof fn every_pending_entry_is_replayed(wal: WalView, v: ReplayView, now: ReplayView) -> (r: (
    Seq<WalEntryView>,
    Seq<ReplayView>,
))
    requires
        recovered(wal, v, now, Ok(())),
    ensures
        forall|k: int|
            0 <= k < wal.entries.len() && #[trigger] is_pending(wal.entries, k) ==> r.0.contains(
                wal.entries[k],
            ),
        forall|i: int, j: int|
            0 <= i < j < r.0.len() ==> (#[trigger] r.0[i]).seq < (#[trigger] r.0[j]).seq,
        r.1.len() == r.0.len() + 1,
        r.1[0] == v,
        r.1[r.0.len() as int] == now,
        forall|i: int|
            0 <= i < r.0.len() ==> #[trigger] replayed(
                v.log.bytes.len() as u64,
                r.1[i],
                r.0[i].operation,
                r.1[i + 1],
                Ok(()),
            ),
{
    let (pending, values) = choose|pending: Seq<WalEntryView>, values: Seq<ReplayView>| #[trigger]
        recovery_run(wal, v, now, Ok(()), pending, values);
    assert(pending.take(values.len() - 1) =~= pending);
    (pending, values)
}

} // verus!
