//! Main Store implementation.
//!
//! A store holds records, blobs, states and branches together. What it holds is stated as
//! one mathematical value, and every operation says how it changes that value.
pub mod branching;
pub mod catch_up;
pub mod catch_up_laws;
pub mod compaction;
pub mod history;
pub mod laws;
pub mod model;
pub mod queries;
pub mod records;
pub mod recovery;
pub mod runs;
pub mod states;
pub mod trees;
pub mod updates;
pub mod value_laws;
pub mod writes;

use crate::blobs::storage::BlobsView;
use crate::blobs::BlobStorage;
use crate::branches::manager::{BranchManager, BranchesView};
use crate::cache::EntriesView;
use crate::records::index::{AddedView, RecordIndex};
use crate::records::log::{RecordLog, RecordLogView};
use crate::state::chain::{table_wf, TableView, UpdateTable};
use crate::state::manager::{cache_valid, StateIndexView, StateManager};
use crate::subscriptions::manager::{SubscribersView, SubscriptionManager};
use crate::wal::log::{WalView, WriteAheadLog};
use vstd::prelude::*;

pub use compaction::CompactionSummary;
pub use recovery::{OpenMode, StoreConfig, StoreFiles};

verus! {

/// The main record store.
///
/// Provides a unified interface for:
/// - Appending records to the log
/// - Storing and retrieving blobs
/// - Managing per-state chains
/// - Creating and switching branches
pub struct Store {
    log: RecordLog,
    index: RecordIndex,
    blobs: BlobStorage,
    state: StateManager,
    branches: BranchManager,
    updates: UpdateTable,
    subscriptions: SubscriptionManager,
    wal: WriteAheadLog,
}

/// A store as a mathematical value.
pub struct StoreView {
    /// The record log.
    pub log: RecordLogView,
    /// What the record index was told of.
    pub added: Seq<AddedView>,
    /// The blobs.
    pub blobs: BlobsView,
    /// The registered states and their chain heads.
    pub states: StateIndexView,
    /// The cached values of states.
    pub cached: EntriesView,
    /// How many values of states are cached at most.
    pub cache_capacity: nat,
    /// The branches.
    pub branches: BranchesView,
    /// The state updates that the log holds.
    pub updates: TableView,
    /// The write-ahead log.
    pub wal: WalView,
    /// The subscribers.
    pub subscribers: SubscribersView,
}

impl StoreView {
    /// Whether the parts are well-formed and fit together: updates lie within the log, and
    /// cached values are what the chains give.
    pub open spec fn wf(self) -> bool {
        &&& self.log.wf()
        &&& self.blobs.wf()
        &&& self.branches.wf()
        &&& self.wal.wf()
        &&& self.subscribers.wf()
        &&& table_wf(self.updates)
        &&& self.updates.len() > 0 ==> self.updates.last().0 < self.log.bytes.len()
        &&& cache_valid(self.cached, self.log.bytes, self.updates)
    }

    /// Whether there is room for so many more records: the counters that number records and
    /// log entries do not run out.
    pub open spec fn has_room(self, n: nat) -> bool {
        self.log.next_id + n <= u64::MAX && self.wal.next_seq + n <= u64::MAX
    }
}

impl View for Store {
    type V = StoreView;

    closed spec fn view(&self) -> StoreView {
        StoreView {
            log: self.log@,
            added: self.index.added(),
            blobs: self.blobs@,
            states: self.state.index(),
            cached: self.state.cached(),
            cache_capacity: self.state.cache_capacity(),
            branches: self.branches@,
            updates: self.updates@,
            wal: self.wal@,
            subscribers: self.subscriptions@,
        }
    }
}

impl Store {
    /// Whether the store is well-formed.
    pub closed spec fn wf(self) -> bool {
        self@.wf() && self.index.wf()
    }

    /// What a well-formed store holds is well-formed.
    pub proof fn wf_holds(self)
        requires
            self.wf(),
        ensures
            self@.wf(),
    {
    }

    /// Marks the log as synced: all that was written is to be on disk now.
    pub fn sync(&mut self)
        requires
            old(self).wf(),
        ensures
            final(self).wf(),
            final(self)@ == (StoreView {
                log: RecordLogView { unsynced: 0, ..old(self)@.log },
                ..old(self)@
            }),
    {
        self.log.sync();
    }

    /// The record log.
    pub fn record_log(&self) -> (r: &RecordLog)
        ensures
            r@ == self@.log,
    {
        &self.log
    }

    /// The blobs.
    pub fn blobs(&self) -> (r: &BlobStorage)
        ensures
            r@ == self@.blobs,
    {
        &self.blobs
    }

    /// The states.
    pub fn states(&self) -> (r: &StateManager)
        ensures
            r.index() == self@.states,
            r.cached() == self@.cached,
            r.cache_capacity() == self@.cache_capacity,
    {
        &self.state
    }

    /// The branches.
    pub fn branches(&self) -> (r: &BranchManager)
        ensures
            r@ == self@.branches,
    {
        &self.branches
    }

    /// The write-ahead log.
    pub fn wal(&self) -> (r: &WriteAheadLog)
        ensures
            r@ == self@.wal,
    {
        &self.wal
    }
}

} // verus!
