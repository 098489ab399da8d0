//! Core types for the record store.
use crate::bytes::copied;
use crate::clock::micros_since_epoch;
use crate::digest::{blake3_digest, content_digest, hex_decode, hex_decoded, hex_encode, hex_text, hex_text_decodes};
use crate::error::StoreError;
use vstd::prelude::*;
use vstd::string::*;

verus! {

/// Unique identifier for a record.
#[derive(Clone, Copy, Debug, PartialEq, Eq, Hash, Structural)]
pub struct RecordId(pub u64);

/// Position in the log (per-branch).
#[derive(Clone, Copy, Debug, PartialEq, Eq, PartialOrd, Ord, Hash, Structural)]
pub struct Sequence(pub u64);

impl Default for Sequence {
    fn default() -> (s: Self)
        ensures
            s == Sequence(0),
    {
        Sequence(0)
    }
}

impl Sequence {
    /// The following position; the last position stays where it is.
    pub fn next(self) -> (s: Self)
        ensures
            s.0 == (if self.0 < u64::MAX { self.0 + 1 } else { u64::MAX as int }),
    {
        Sequence(self.0.saturating_add(1))
    }

    /// Checked increment that returns an error on overflow instead of saturating.
    pub fn checked_next(self) -> (r: Result<Self, StoreError>)
        ensures
            match r {
                Ok(s) => self.0 < u64::MAX && s.0 == self.0 + 1,
                Err(e) => self.0 == u64::MAX && e is SequenceOverflow,
            },
    {
        if self.0 < u64::MAX {
            Ok(Sequence(self.0 + 1))
        } else {
            Err(StoreError::SequenceOverflow)
        }
    }

    /// The preceding position, if there is one.
    pub fn prev(self) -> (r: Option<Self>)
        ensures
            r == (if self.0 > 0 { Some(Sequence((self.0 - 1) as u64)) } else { None }),
    {
        if self.0 > 0 {
            Some(Sequence(self.0 - 1))
        } else {
            None
        }
    }
}

/// Unique identifier for a branch.
#[derive(Clone, Copy, Debug, PartialEq, Eq, PartialOrd, Ord, Hash, Structural)]
pub struct BranchId(pub u64);

/// Content hash for blobs (BLAKE3).
#[derive(Clone, Copy, Debug, PartialEq, Eq, Hash)]
pub struct Hash(pub [u8; 32]);

/// Why a text is not the hexadecimal form of a hash.
#[derive(Clone, Copy, Debug, PartialEq, Eq, Structural)]
pub enum FromHexError {
    InvalidHexCharacter { c: char, index: usize },
    OddLength,
    InvalidStringLength,
}

impl Hash {
    /// Compute hash from bytes.
    pub fn from_bytes(data: &[u8]) -> (h: Self)
        ensures
            h.0@ == blake3_digest(data@),
    {
        Hash(content_digest(data))
    }

    /// Convert to hex string.
    pub fn to_hex(&self) -> (s: String)
        ensures
            s@ == hex_text(self.0@),
    {
        hex_encode(self.0.as_slice())
    }

    /// Parse from hex string: the text has to decode, and to 32 bytes.
    pub fn from_hex(s: &str) -> (r: Result<Self, FromHexError>)
        ensures
            hash_parsed(s.spec_bytes(), r),
    {
        match hex_decode(s) {
            Err(e) => Err(e),
            Ok(data) => {
                if data.len() != 32 {
                    assert(hex_decoded(s.spec_bytes(), Ok(data@)));
                    return Err(FromHexError::InvalidStringLength);
                }
                let mut out = [0u8;32];
                let mut i: usize = 0;
                while i < 32
                    invariant
                        data@.len() == 32,
                        i <= 32,
                        forall|j: int| 0 <= j < i ==> out@[j] == data@[j],
                    decreases 32 - i,
                {
                    out[i] = data[i];
                    i += 1;
                }
                assert(out@ =~= data@);
                Ok(Hash(out))
            },
        }
    }

    /// The first two characters of the hex (for sharding).
    pub fn shard_prefix(&self) -> (s: String)
        ensures
            s@ == hex_text(seq![self.0@[0]]),
            s@ == hex_text(self.0@).take(2),
    {
        let mut first: Vec<u8> = Vec::new();
        first.push(self.0[0]);
        assert(first@ =~= seq![self.0@[0]]);
        assert(hex_text(seq![self.0@[0]]) =~= hex_text(self.0@).take(2));
        hex_encode(first.as_slice())
    }
}

/// What a text, given as its UTF-8 bytes, reads as: it has to decode, and to 32 bytes.
pub open spec fn hash_parsed(text: Seq<u8>, r: Result<Hash, FromHexError>) -> bool {
    match r {
        Ok(h) => hex_decoded(text, Ok(h.0@)),
        Err(FromHexError::InvalidStringLength) => exists|data: Seq<u8>| #[trigger]
            hex_decoded(text, Ok(data)) && data.len() != 32,
        Err(e) => hex_decoded(text, Err(e)),
    }
}

/// Reading a hash back from its hexadecimal form gives the hash.
pub proof fn hash_hex_round_trip(h: Hash, r: Result<Hash, FromHexError>)
    requires
        hash_parsed(vstd::utf8::encode_utf8(hex_text(h.0@)), r),
    ensures
        r matches Ok(x) && x.0@ == h.0@,
{
    let text = vstd::utf8::encode_utf8(hex_text(h.0@));
    match r {
        Ok(x) => hex_text_decodes(h.0@, Ok(x.0@)),
        Err(FromHexError::InvalidStringLength) => {
            let data = choose|data: Seq<u8>| #[trigger]
                hex_decoded(text, Ok(data)) && data.len() != 32;
            hex_text_decodes(h.0@, Ok(data));
        },
        Err(e) => hex_text_decodes(h.0@, Err(e)),
    }
}

/// Microseconds since Unix epoch.
#[derive(Clone, Copy, Debug, PartialEq, Eq, PartialOrd, Ord, Structural)]
pub struct Timestamp(pub i64);

impl Timestamp {
    /// The timestamp of a clock reading in microseconds since the epoch; the previous
    /// timestamp where the clock has gone back behind it, or behind the epoch.
    pub fn from_elapsed(micros: Option<u128>, previous: Timestamp) -> (t: Self)
        ensures
            t == (match micros {
                Some(m) if (m as i64) >= previous.0 => Timestamp(m as i64),
                _ => previous,
            }),
    {
        match micros {
            Some(m) => {
                let read: i64 = #[verifier::truncate] (m as i64);
                if read >= previous.0 {
                    Timestamp(read)
                } else {
                    previous
                }
            },
            None => previous,
        }
    }

    /// Current time, or the previous timestamp where the clock has gone back behind it. What
    /// else the clock reads is not stated.
    pub fn now_after(previous: Timestamp) -> (t: Self)
        ensures
            t.0 >= previous.0,
    {
        Timestamp::from_elapsed(micros_since_epoch(), previous)
    }

    /// Current time, where no timestamp went before: the epoch where the clock stands before
    /// it. What else the clock reads is not stated.
    pub fn now() -> (t: Self)
        ensures
            t.0 >= 0,
    {
        Timestamp::now_after(Timestamp(0))
    }
}

/// Payload encoding format.
#[derive(Clone, Copy, Debug, PartialEq, Eq, Structural)]
pub enum PayloadEncoding {
    Json,
    MessagePack,
    Raw,
}

impl Default for PayloadEncoding {
    fn default() -> (e: Self)
        ensures
            e == PayloadEncoding::Json,
    {
        PayloadEncoding::Json
    }
}

/// A single record in the store.
#[derive(Debug)]
pub struct Record {
    /// Unique identifier (assigned by store).
    pub id: RecordId,
    /// Position in branch (assigned by store).
    pub sequence: Sequence,
    /// Which branch this record belongs to.
    pub branch: BranchId,
    /// When the record was created.
    pub timestamp: Timestamp,
    /// Application-defined type (e.g., "data", "schema", "code").
    pub record_type: String,
    /// Application-defined payload.
    pub payload: Vec<u8>,
    /// Payload encoding.
    pub encoding: PayloadEncoding,
    /// Records that caused this one.
    pub caused_by: Vec<RecordId>,
    /// Related records.
    pub linked_to: Vec<RecordId>,
}

/// A record as a mathematical value.
pub struct RecordView {
    pub id: RecordId,
    pub sequence: Sequence,
    pub branch: BranchId,
    pub timestamp: Timestamp,
    pub record_type: Seq<char>,
    pub payload: Seq<u8>,
    pub encoding: PayloadEncoding,
    pub caused_by: Seq<RecordId>,
    pub linked_to: Seq<RecordId>,
}

impl View for Record {
    type V = RecordView;

    open spec fn view(&self) -> RecordView {
        RecordView {
            id: self.id,
            sequence: self.sequence,
            branch: self.branch,
            timestamp: self.timestamp,
            record_type: self.record_type@,
            payload: self.payload@,
            encoding: self.encoding,
            caused_by: self.caused_by@,
            linked_to: self.linked_to@,
        }
    }
}

impl Clone for Record {
    fn clone(&self) -> (r: Self)
        ensures
            r@ == self@,
    {
        Record {
            id: self.id,
            sequence: self.sequence,
            branch: self.branch,
            timestamp: self.timestamp,
            record_type: self.record_type.clone(),
            payload: copied(&self.payload),
            encoding: self.encoding,
            caused_by: copied(&self.caused_by),
            linked_to: copied(&self.linked_to),
        }
    }
}

/// Input for creating a new record (before id/sequence assigned).
#[derive(Debug)]
pub struct RecordInput {
    pub record_type: String,
    pub payload: Vec<u8>,
    pub encoding: PayloadEncoding,
    pub caused_by: Vec<RecordId>,
    pub linked_to: Vec<RecordId>,
}

/// A record input as a mathematical value.
pub struct RecordInputView {
    pub record_type: Seq<char>,
    pub payload: Seq<u8>,
    pub encoding: PayloadEncoding,
    pub caused_by: Seq<RecordId>,
    pub linked_to: Seq<RecordId>,
}

impl RecordInputView {
    /// The record that this input becomes.
    pub open spec fn record(
        self,
        id: RecordId,
        sequence: Sequence,
        branch: BranchId,
        timestamp: Timestamp,
    ) -> RecordView {
        RecordView {
            id,
            sequence,
            branch,
            timestamp,
            record_type: self.record_type,
            payload: self.payload,
            encoding: self.encoding,
            caused_by: self.caused_by,
            linked_to: self.linked_to,
        }
    }
}

impl View for RecordInput {
    type V = RecordInputView;

    open spec fn view(&self) -> RecordInputView {
        RecordInputView {
            record_type: self.record_type@,
            payload: self.payload@,
            encoding: self.encoding,
            caused_by: self.caused_by@,
            linked_to: self.linked_to@,
        }
    }
}

impl Clone for RecordInput {
    fn clone(&self) -> (r: Self)
        ensures
            r@ == self@,
    {
        RecordInput {
            record_type: self.record_type.clone(),
            payload: copied(&self.payload),
            encoding: self.encoding,
            caused_by: copied(&self.caused_by),
            linked_to: copied(&self.linked_to),
        }
    }
}

impl RecordInput {
    /// Create a new record input from a payload that is already JSON text.
    pub fn json(record_type: &str, payload: Vec<u8>) -> (r: Self)
        ensures
            r@ == (RecordInputView {
                record_type: record_type@,
                payload: payload@,
                encoding: PayloadEncoding::Json,
                caused_by: Seq::empty(),
                linked_to: Seq::empty(),
            }),
    {
        RecordInput {
            record_type: record_type.to_owned(),
            payload,
            encoding: PayloadEncoding::Json,
            caused_by: Vec::new(),
            linked_to: Vec::new(),
        }
    }

    /// Create a new record input with raw bytes.
    pub fn raw(record_type: &str, payload: Vec<u8>) -> (r: Self)
        ensures
            r@ == (RecordInputView {
                record_type: record_type@,
                payload: payload@,
                encoding: PayloadEncoding::Raw,
                caused_by: Seq::empty(),
                linked_to: Seq::empty(),
            }),
    {
        RecordInput {
            record_type: record_type.to_owned(),
            payload,
            encoding: PayloadEncoding::Raw,
            caused_by: Vec::new(),
            linked_to: Vec::new(),
        }
    }

    /// Add caused_by links.
    pub fn with_caused_by(self, ids: Vec<RecordId>) -> (r: Self)
        ensures
            r@ == (RecordInputView { caused_by: ids@, ..self@ }),
    {
        let mut input = self;
        input.caused_by = ids;
        input
    }

    /// Add linked_to links.
    pub fn with_linked_to(self, ids: Vec<RecordId>) -> (r: Self)
        ensures
            r@ == (RecordInputView { linked_to: ids@, ..self@ }),
    {
        let mut input = self;
        input.linked_to = ids;
        input
    }
}

/// The views of a sequence of values.
pub open spec fn views<T: View>(s: Seq<T>) -> Seq<T::V> {
    s.map_values(|t: T| t@)
}

/// The bytes of an optional buffer.
pub open spec fn opt_view<T: View>(b: Option<T>) -> Option<T::V> {
    match b {
        Some(v) => Some(v@),
        None => None,
    }
}

/// Branch metadata.
#[derive(Debug)]
pub struct Branch {
    pub id: BranchId,
    pub name: String,
    pub head: Sequence,
    pub parent: Option<BranchId>,
    pub branch_point: Option<Sequence>,
    pub created: Timestamp,
}

/// Branch metadata as a mathematical value.
pub struct BranchView {
    pub id: BranchId,
    pub name: Seq<char>,
    pub head: Sequence,
    pub parent: Option<BranchId>,
    pub branch_point: Option<Sequence>,
    pub created: Timestamp,
}

impl View for Branch {
    type V = BranchView;

    open spec fn view(&self) -> BranchView {
        BranchView {
            id: self.id,
            name: self.name@,
            head: self.head,
            parent: self.parent,
            branch_point: self.branch_point,
            created: self.created,
        }
    }
}

impl Clone for Branch {
    fn clone(&self) -> (b: Self)
        ensures
            b@ == self@,
    {
        Branch {
            id: self.id,
            name: self.name.clone(),
            head: self.head,
            parent: self.parent,
            branch_point: self.branch_point,
            created: self.created,
        }
    }
}

/// Content-addressed blob.
#[derive(Debug)]
pub struct Blob {
    pub hash: Hash,
    pub content: Vec<u8>,
    pub content_type: String,
}

/// A blob as a mathematical value.
pub struct BlobView {
    pub hash: Seq<u8>,
    pub content: Seq<u8>,
    pub content_type: Seq<char>,
}

impl View for Blob {
    type V = BlobView;

    open spec fn view(&self) -> BlobView {
        BlobView {
            hash: self.hash.0@,
            content: self.content@,
            content_type: self.content_type@,
        }
    }
}

/// How state is stored and reconstructed.
#[derive(Debug)]
pub enum StateStrategy {
    /// Store full value on each change.
    Snapshot,
    /// Store deltas with periodic snapshots.
    Delta { snapshot_every: u64 },
    /// Store appends with incremental snapshots: a delta snapshot holds the items added
    /// since the snapshot before it, a full snapshot the entire state.
    AppendLog {
        /// Create a delta snapshot after this many operations.
        delta_snapshot_every: u64,
        /// Create a full snapshot after this many delta snapshots.
        full_snapshot_every: u64,
    },
    /// Filesystem-tree state: sorted map of path to entry.
    Tree {
        /// Create a delta snapshot after this many operations.
        delta_snapshot_every: u64,
        /// Create a full snapshot after this many delta snapshots.
        full_snapshot_every: u64,
    },
    /// Nested structure with per-field strategies; no name occurs twice.
    Struct { fields: Vec<(String, StateStrategy)> },
}

/// A strategy as a mathematical value.
pub enum StrategyView {
    Snapshot,
    Delta { snapshot_every: u64 },
    AppendLog { delta_snapshot_every: u64, full_snapshot_every: u64 },
    Tree { delta_snapshot_every: u64, full_snapshot_every: u64 },
    Struct { fields: Seq<(Seq<char>, StrategyView)> },
}

/// The view of a strategy.
pub open spec fn strategy_view(s: StateStrategy) -> StrategyView
    decreases s,
{
    match s {
        StateStrategy::Snapshot => StrategyView::Snapshot,
        StateStrategy::Delta { snapshot_every } => StrategyView::Delta { snapshot_every },
        StateStrategy::AppendLog { delta_snapshot_every, full_snapshot_every } => StrategyView::AppendLog {
            delta_snapshot_every,
            full_snapshot_every,
        },
        StateStrategy::Tree { delta_snapshot_every, full_snapshot_every } => StrategyView::Tree {
            delta_snapshot_every,
            full_snapshot_every,
        },
        StateStrategy::Struct { fields } => StrategyView::Struct { fields: fields_view(fields@) },
    }
}

/// The views of the fields of a structure.
pub open spec fn fields_view(fields: Seq<(String, StateStrategy)>) -> Seq<(Seq<char>, StrategyView)>
    decreases fields,
{
    if fields.len() == 0 {
        Seq::empty()
    } else {
        fields_view(fields.drop_last()).push((fields.last().0@, strategy_view(fields.last().1)))
    }
}

impl View for StateStrategy {
    type V = StrategyView;

    open spec fn view(&self) -> StrategyView {
        strategy_view(*self)
    }
}

impl Default for StateStrategy {
    fn default() -> (s: Self)
        ensures
            s@ == StrategyView::Snapshot,
    {
        StateStrategy::Snapshot
    }
}

impl Clone for StateStrategy {
    fn clone(&self) -> (s: Self)
        ensures
            s@ == self@,
        decreases self,
    {
        match self {
            StateStrategy::Snapshot => StateStrategy::Snapshot,
            StateStrategy::Delta { snapshot_every } => StateStrategy::Delta {
                snapshot_every: *snapshot_every,
            },
            StateStrategy::AppendLog { delta_snapshot_every, full_snapshot_every } => StateStrategy::AppendLog {
                delta_snapshot_every: *delta_snapshot_every,
                full_snapshot_every: *full_snapshot_every,
            },
            StateStrategy::Tree { delta_snapshot_every, full_snapshot_every } => StateStrategy::Tree {
                delta_snapshot_every: *delta_snapshot_every,
                full_snapshot_every: *full_snapshot_every,
            },
            StateStrategy::Struct { fields } => {
                let mut out: Vec<(String, StateStrategy)> = Vec::new();
                let mut i: usize = 0;
                while i < fields.len()
                    invariant
                        i <= fields@.len(),
                        fields_view(out@) == fields_view(fields@.take(i as int)),
                        decreases_to!(self => fields@),
                    decreases fields@.len() - i,
                {
                    assert(decreases_to!(fields@ => fields@[i as int]));
                    let item = (fields[i].0.clone(), fields[i].1.clone());
                    let ghost before = out@;
                    out.push(item);
                    proof {
                        assert(out@.drop_last() =~= before);
                        assert(fields@.take(i + 1).drop_last() =~= fields@.take(i as int));
                    }
                    i += 1;
                }
                assert(fields@.take(i as int) =~= fields@);
                StateStrategy::Struct { fields: out }
            },
        }
    }
}

/// A single entry in a tree state (represents a file).
#[derive(Debug, PartialEq, Eq)]
pub struct TreeEntry {
    /// BLAKE3 hash of the file content (stored in blob storage).
    pub blob_hash: String,
    /// Size of the content in bytes.
    pub size: u64,
    /// File mode (e.g., 0o644 for regular, 0o755 for executable, 0o120000 for symlink).
    pub mode: u32,
}

/// A tree entry as a mathematical value.
pub struct EntryView {
    pub blob_hash: Seq<char>,
    pub size: u64,
    pub mode: u32,
}

impl View for TreeEntry {
    type V = EntryView;

    open spec fn view(&self) -> EntryView {
        EntryView { blob_hash: self.blob_hash@, size: self.size, mode: self.mode }
    }
}

impl Clone for TreeEntry {
    fn clone(&self) -> (e: Self)
        ensures
            e@ == self@,
    {
        TreeEntry { blob_hash: self.blob_hash.clone(), size: self.size, mode: self.mode }
    }
}

impl TreeEntry {
    /// Whether two entries are the same.
    pub fn same(&self, other: &TreeEntry) -> (r: bool)
        ensures
            r == (self@ == other@),
    {
        self.blob_hash == other.blob_hash && self.size == other.size && self.mode == other.mode
    }
}

/// A single operation on a tree entry.
#[derive(Debug)]
pub enum TreeOp {
    /// Set (add or update) a file at a path.
    SetEntry { path: String, entry: TreeEntry },
    /// Remove a file at a path.
    Remove { path: String },
}

/// A tree operation as a mathematical value.
pub enum TreeOpView {
    SetEntry { path: Seq<char>, entry: EntryView },
    Remove { path: Seq<char> },
}

impl TreeOpView {
    /// The path that the operation is about.
    pub open spec fn path(self) -> Seq<char> {
        match self {
            TreeOpView::SetEntry { path, .. } => path,
            TreeOpView::Remove { path } => path,
        }
    }
}

impl View for TreeOp {
    type V = TreeOpView;

    open spec fn view(&self) -> TreeOpView {
        match *self {
            TreeOp::SetEntry { path, entry } => TreeOpView::SetEntry { path: path@, entry: entry@ },
            TreeOp::Remove { path } => TreeOpView::Remove { path: path@ },
        }
    }
}

impl Clone for TreeOp {
    fn clone(&self) -> (o: Self)
        ensures
            o@ == self@,
    {
        match self {
            TreeOp::SetEntry { path, entry } => TreeOp::SetEntry { path: path.clone(), entry: entry.clone() },
            TreeOp::Remove { path } => TreeOp::Remove { path: path.clone() },
        }
    }
}

/// Copies tree operations.
pub fn copied_ops(ops: &Vec<TreeOp>) -> (r: Vec<TreeOp>)
    ensures
        views(r@) == views(ops@),
{
    let mut out: Vec<TreeOp> = Vec::new();
    let mut i: usize = 0;
    while i < ops.len()
        invariant
            i <= ops@.len(),
            out@.len() == i,
            forall|j: int| 0 <= j < i ==> (#[trigger] out@[j])@ == ops@[j]@,
        decreases ops@.len() - i,
    {
        out.push(ops[i].clone());
        i += 1;
    }
    assert(views(out@) =~= views(ops@));
    out
}

/// A change between two tree states.
#[derive(Debug)]
pub enum TreeChange {
    /// File was added.
    Added { path: String, entry: TreeEntry },
    /// File was modified (content or mode changed).
    Modified { path: String, old_entry: TreeEntry, new_entry: TreeEntry },
    /// File was removed.
    Removed { path: String, entry: TreeEntry },
}

/// A change between two tree states as a mathematical value.
pub enum TreeChangeView {
    Added { path: Seq<char>, entry: EntryView },
    Modified { path: Seq<char>, old_entry: EntryView, new_entry: EntryView },
    Removed { path: Seq<char>, entry: EntryView },
}

impl View for TreeChange {
    type V = TreeChangeView;

    open spec fn view(&self) -> TreeChangeView {
        match *self {
            TreeChange::Added { path, entry } => TreeChangeView::Added { path: path@, entry: entry@ },
            TreeChange::Modified { path, old_entry, new_entry } => TreeChangeView::Modified {
                path: path@,
                old_entry: old_entry@,
                new_entry: new_entry@,
            },
            TreeChange::Removed { path, entry } => TreeChangeView::Removed {
                path: path@,
                entry: entry@,
            },
        }
    }
}

/// Operation on state (stored in chain).
#[derive(Debug)]
pub enum StateOperation {
    /// Set entire value (Snapshot strategy).
    SetValue(Vec<u8>),
    /// Apply delta (Delta strategy).
    Delta { old_hash: Hash, new_value: Vec<u8> },
    /// Append to collection (AppendLog).
    Append(Vec<u8>),
    /// Remove range from collection (AppendLog).
    Redact { start: usize, end: usize },
    /// Edit item at index (AppendLog).
    Edit { index: usize, new_value: Vec<u8> },
    /// Full snapshot (any strategy, periodic). For AppendLog, this stores the complete
    /// array.
    Snapshot(Vec<u8>),
    /// Delta snapshot for AppendLog strategy: items added since the last delta or full
    /// snapshot. During reconstruction, delta snapshots are concatenated.
    DeltaSnapshot(Vec<u8>),
    /// Set a single path in a tree state (Tree strategy).
    TreeSet { path: String, entry: TreeEntry },
    /// Remove a single path from a tree state (Tree strategy).
    TreeRemove { path: String },
    /// Batch of tree operations, applied atomically (Tree strategy).
    TreeBatch { ops: Vec<TreeOp> },
    /// Delta snapshot for Tree strategy: all changes since the last snapshot.
    TreeDeltaSnapshot(Vec<TreeOp>),
    /// Update specific field (Struct strategy).
    Field { name: String, operation: Box<StateOperation> },
}

/// A state operation as a mathematical value.
pub enum OperationView {
    SetValue(Seq<u8>),
    Delta { old_hash: Seq<u8>, new_value: Seq<u8> },
    Append(Seq<u8>),
    Redact { start: usize, end: usize },
    Edit { index: usize, new_value: Seq<u8> },
    Snapshot(Seq<u8>),
    DeltaSnapshot(Seq<u8>),
    TreeSet { path: Seq<char>, entry: EntryView },
    TreeRemove { path: Seq<char> },
    TreeBatch { ops: Seq<TreeOpView> },
    TreeDeltaSnapshot(Seq<TreeOpView>),
    Field { name: Seq<char>, operation: Box<OperationView> },
}

/// The view of an operation.
pub open spec fn operation_view(op: StateOperation) -> OperationView
    decreases op,
{
    match op {
        StateOperation::SetValue(v) => OperationView::SetValue(v@),
        StateOperation::Delta { old_hash, new_value } => OperationView::Delta {
            old_hash: old_hash.0@,
            new_value: new_value@,
        },
        StateOperation::Append(v) => OperationView::Append(v@),
        StateOperation::Redact { start, end } => OperationView::Redact { start, end },
        StateOperation::Edit { index, new_value } => OperationView::Edit {
            index,
            new_value: new_value@,
        },
        StateOperation::Snapshot(v) => OperationView::Snapshot(v@),
        StateOperation::DeltaSnapshot(v) => OperationView::DeltaSnapshot(v@),
        StateOperation::TreeSet { path, entry } => OperationView::TreeSet {
            path: path@,
            entry: entry@,
        },
        StateOperation::TreeRemove { path } => OperationView::TreeRemove { path: path@ },
        StateOperation::TreeBatch { ops } => OperationView::TreeBatch { ops: views(ops@) },
        StateOperation::TreeDeltaSnapshot(ops) => OperationView::TreeDeltaSnapshot(views(ops@)),
        StateOperation::Field { name, operation } => OperationView::Field {
            name: name@,
            operation: Box::new(operation_view(*operation)),
        },
    }
}

impl View for StateOperation {
    type V = OperationView;

    open spec fn view(&self) -> OperationView {
        operation_view(*self)
    }
}

impl Clone for StateOperation {
    fn clone(&self) -> (o: Self)
        ensures
            o@ == self@,
        decreases self,
    {
        match self {
            StateOperation::SetValue(v) => StateOperation::SetValue(copied(v)),
            StateOperation::Delta { old_hash, new_value } => StateOperation::Delta {
                old_hash: *old_hash,
                new_value: copied(new_value),
            },
            StateOperation::Append(v) => StateOperation::Append(copied(v)),
            StateOperation::Redact { start, end } => StateOperation::Redact {
                start: *start,
                end: *end,
            },
            StateOperation::Edit { index, new_value } => StateOperation::Edit {
                index: *index,
                new_value: copied(new_value),
            },
            StateOperation::Snapshot(v) => StateOperation::Snapshot(copied(v)),
            StateOperation::DeltaSnapshot(v) => StateOperation::DeltaSnapshot(copied(v)),
            StateOperation::TreeSet { path, entry } => StateOperation::TreeSet {
                path: path.clone(),
                entry: entry.clone(),
            },
            StateOperation::TreeRemove { path } => StateOperation::TreeRemove { path: path.clone() },
            StateOperation::TreeBatch { ops } => StateOperation::TreeBatch { ops: copied_ops(ops) },
            StateOperation::TreeDeltaSnapshot(ops) => StateOperation::TreeDeltaSnapshot(
                copied_ops(ops),
            ),
            StateOperation::Field { name, operation } => {
                let inner: StateOperation = (&**operation).clone();
                StateOperation::Field { name: name.clone(), operation: Box::new(inner) }
            },
        }
    }
}

/// A state update in the chain.
#[derive(Debug)]
pub struct StateUpdateRecord {
    /// Record ID in the main log.
    pub record_id: RecordId,
    /// Global sequence number.
    pub global_sequence: Sequence,
    /// Which state this update belongs to.
    pub state_id: String,
    /// File offset of the previous update for this state (forms the chain).
    pub prev_update_offset: Option<u64>,
    /// The operation.
    pub operation: StateOperation,
    /// Timestamp.
    pub timestamp: Timestamp,
}

/// A state update as a mathematical value.
pub struct UpdateView {
    pub record_id: RecordId,
    pub global_sequence: Sequence,
    pub state_id: Seq<char>,
    pub prev_update_offset: Option<u64>,
    pub operation: OperationView,
    pub timestamp: Timestamp,
}

impl View for StateUpdateRecord {
    type V = UpdateView;

    open spec fn view(&self) -> UpdateView {
        UpdateView {
            record_id: self.record_id,
            global_sequence: self.global_sequence,
            state_id: self.state_id@,
            prev_update_offset: self.prev_update_offset,
            operation: self.operation@,
            timestamp: self.timestamp,
        }
    }
}

impl Clone for StateUpdateRecord {
    fn clone(&self) -> (u: Self)
        ensures
            u@ == self@,
    {
        StateUpdateRecord {
            record_id: self.record_id,
            global_sequence: self.global_sequence,
            state_id: self.state_id.clone(),
            prev_update_offset: self.prev_update_offset,
            operation: self.operation.clone(),
            timestamp: self.timestamp,
        }
    }
}

/// Registration for a state slot.
#[derive(Debug)]
pub struct StateRegistration {
    pub id: String,
    pub strategy: StateStrategy,
    pub initial_value: Option<Vec<u8>>,
}

/// Store statistics.
#[derive(Clone, Copy, Debug, Default)]
pub struct StoreStats {
    pub record_count: u64,
    pub blob_count: u64,
    pub branch_count: u64,
    pub state_slot_count: u64,
    pub total_size_bytes: u64,
    pub blob_size_bytes: u64,
    pub index_size_bytes: u64,
}

} // verus!
