//! The entries of a write-ahead log.
use crate::bytes::copied;
use crate::clock::micros_since_epoch;
use crate::types::opt_view;
use crate::types::views;
use std::collections::HashSet;
use vstd::prelude::*;
use vstd::string::*;

verus! {

broadcast use vstd::std_specs::hash::group_hash_axioms;

/// WAL entry status.
#[derive(Clone, Copy, Debug, PartialEq, Eq, Structural)]
pub enum WalEntryStatus {
    /// Entry has been written but not yet committed.
    Pending,
    /// Entry has been committed to the main store.
    Committed,
    /// Entry was rolled back (not used, but reserved).
    RolledBack,
}

/// Operations that can be recorded in the WAL.
#[allow(inconsistent_fields)]
#[derive(Debug)]
pub enum WalOperation {
    /// Append a record to the log.
    AppendRecord {
        record_type: String,
        payload: Vec<u8>,
        encoding: u8,
        caused_by: Vec<u64>,
        linked_to: Vec<u64>,
        branch_id: u64,
        /// The size of the record log before the write.
        log_fence: u64,
    },
    /// Update a state.
    UpdateState {
        state_id: String,
        /// The encoded state update.
        operation_data: Vec<u8>,
        branch_id: u64,
        /// The size of the record log before the write.
        log_fence: u64,
    },
    /// Store a blob.
    StoreBlob { content: Vec<u8>, content_type: String },
    /// Create a branch.
    CreateBranch { name: String, from: Option<String> },
    /// Marks the entry with the same sequence as committed.
    CommitMarker,
}

/// A WAL operation as a mathematical value.
#[allow(inconsistent_fields)]
pub enum WalOpView {
    AppendRecord {
        record_type: Seq<char>,
        payload: Seq<u8>,
        encoding: u8,
        caused_by: Seq<u64>,
        linked_to: Seq<u64>,
        branch_id: u64,
        log_fence: u64,
    },
    UpdateState {
        state_id: Seq<char>,
        operation_data: Seq<u8>,
        branch_id: u64,
        log_fence: u64,
    },
    StoreBlob { content: Seq<u8>, content_type: Seq<char> },
    CreateBranch { name: Seq<char>, from: Option<Seq<char>> },
    CommitMarker,
}

impl View for WalOperation {
    type V = WalOpView;

    open spec fn view(&self) -> WalOpView {
        match *self {
            WalOperation::AppendRecord {
                record_type,
                payload,
                encoding,
                caused_by,
                linked_to,
                branch_id,
                log_fence,
            } => WalOpView::AppendRecord {
                record_type: record_type@,
                payload: payload@,
                encoding,
                caused_by: caused_by@,
                linked_to: linked_to@,
                branch_id,
                log_fence,
            },
            WalOperation::UpdateState { state_id, operation_data, branch_id, log_fence } => WalOpView::UpdateState {
                state_id: state_id@,
                operation_data: operation_data@,
                branch_id,
                log_fence,
            },
            WalOperation::StoreBlob { content, content_type } => WalOpView::StoreBlob {
                content: content@,
                content_type: content_type@,
            },
            WalOperation::CreateBranch { name, from } => WalOpView::CreateBranch {
                name: name@,
                from: opt_view(from),
            },
            WalOperation::CommitMarker => WalOpView::CommitMarker,
        }
    }
}

impl Clone for WalOperation {
    fn clone(&self) -> (r: Self)
        ensures
            r@ == self@,
    {
        match self {
            WalOperation::AppendRecord {
                record_type,
                payload,
                encoding,
                caused_by,
                linked_to,
                branch_id,
                log_fence,
            } => WalOperation::AppendRecord {
                record_type: record_type.clone(),
                payload: copied(payload),
                encoding: *encoding,
                caused_by: copied(caused_by),
                linked_to: copied(linked_to),
                branch_id: *branch_id,
                log_fence: *log_fence,
            },
            WalOperation::UpdateState { state_id, operation_data, branch_id, log_fence } => WalOperation::UpdateState {
                state_id: state_id.clone(),
                operation_data: copied(operation_data),
                branch_id: *branch_id,
                log_fence: *log_fence,
            },
            WalOperation::StoreBlob { content, content_type } => WalOperation::StoreBlob {
                content: copied(content),
                content_type: content_type.clone(),
            },
            WalOperation::CreateBranch { name, from } => WalOperation::CreateBranch {
                name: name.clone(),
                from: match from {
                    Some(f) => Some(f.clone()),
                    None => None,
                },
            },
            WalOperation::CommitMarker => WalOperation::CommitMarker,
        }
    }
}

/// A single WAL entry.
#[derive(Debug)]
pub struct WalEntry {
    /// Unique sequence number for this entry.
    pub seq: u64,
    /// Entry status.
    pub status: WalEntryStatus,
    /// The operation type.
    pub operation: WalOperation,
    /// Timestamp when entry was created, in seconds since the Unix epoch.
    pub timestamp: u64,
}

/// A WAL entry as a mathematical value.
pub struct WalEntryView {
    pub seq: u64,
    pub status: WalEntryStatus,
    pub operation: WalOpView,
    pub timestamp: u64,
}

impl View for WalEntry {
    type V = WalEntryView;

    open spec fn view(&self) -> WalEntryView {
        WalEntryView {
            seq: self.seq,
            status: self.status,
            operation: self.operation@,
            timestamp: self.timestamp,
        }
    }
}

impl Clone for WalEntry {
    fn clone(&self) -> (r: Self)
        ensures
            r@ == self@,
    {
        WalEntry {
            seq: self.seq,
            status: self.status,
            operation: self.operation.clone(),
            timestamp: self.timestamp,
        }
    }
}

/// Whether an entry with a sequence was committed.
pub open spec fn is_committed(es: Seq<WalEntryView>, seq: u64) -> bool {
    exists|i: int|
        0 <= i < es.len() && (#[trigger] es[i]).status == WalEntryStatus::Committed && es[i].seq
            == seq
}

/// Whether an entry waits to be committed: the last one with its sequence does.
pub open spec fn is_pending(es: Seq<WalEntryView>, i: int) -> bool {
    &&& es[i].status == WalEntryStatus::Pending
    &&& !is_committed(es, es[i].seq)
    &&& forall|j: int|
        i < j < es.len() ==> !((#[trigger] es[j]).status == WalEntryStatus::Pending && es[j].seq
            == es[i].seq)
}

/// Whether an entry is a pending one that stands at a place or behind it.
pub open spec fn is_pending_from(es: Seq<WalEntryView>, low: int, x: WalEntryView) -> bool {
    exists|k: int| low <= k < es.len() && #[trigger] is_pending(es, k) && es[k] == x
}

/// Whether a list holds the pending entries, each once, by ascending sequence.
pub open spec fn are_pending(es: Seq<WalEntryView>, r: Seq<WalEntryView>) -> bool {
    &&& forall|i: int, j: int| 0 <= i < j < r.len() ==> (#[trigger] r[i]).seq < (#[trigger] r[j]).seq
    &&& forall|i: int| 0 <= i < r.len() ==> is_pending_from(es, 0, #[trigger] r[i])
    &&& forall|k: int|
        0 <= k < es.len() && #[trigger] is_pending(es, k) ==> r.contains(es[k])
}

/// The largest sequence among entries.
pub open spec fn max_seq(es: Seq<WalEntryView>) -> u64
    decreases es.len(),
{
    if es.len() == 0 {
        0
    } else if es.last().seq > max_seq(es.drop_last()) {
        es.last().seq
    } else {
        max_seq(es.drop_last())
    }
}

/// A write-ahead log as a mathematical value.
pub struct WalView {
    pub entries: Seq<WalEntryView>,
    pub next_seq: u64,
}

impl WalView {
    /// The log once an operation was logged.
    pub open spec fn logged(self, operation: WalOpView, timestamp: u64) -> WalView {
        WalView {
            entries: self.entries.push(
                WalEntryView {
                    seq: self.next_seq,
                    status: WalEntryStatus::Pending,
                    operation,
                    timestamp,
                },
            ),
            next_seq: (self.next_seq + 1) as u64,
        }
    }

    /// The log once an entry was committed.
    pub open spec fn committed(self, seq: u64, timestamp: u64) -> WalView {
        WalView {
            entries: self.entries.push(
                WalEntryView {
                    seq,
                    status: WalEntryStatus::Committed,
                    operation: WalOpView::CommitMarker,
                    timestamp,
                },
            ),
            ..self
        }
    }

    /// The log without entries.
    pub open spec fn cleared() -> WalView {
        WalView { entries: Seq::empty(), next_seq: 1 }
    }

    /// Whether every entry has a sequence that was handed out.
    pub open spec fn wf(self) -> bool {
        forall|i: int| 0 <= i < self.entries.len() ==> (#[trigger] self.entries[i]).seq < self.next_seq
    }
}

/// Write-Ahead Log manager.
pub struct WriteAheadLog {
    entries: Vec<WalEntry>,
    next_seq: u64,
}

impl View for WriteAheadLog {
    type V = WalView;

    closed spec fn view(&self) -> WalView {
        WalView { entries: views(self.entries@), next_seq: self.next_seq }
    }
}

fn seconds_now() -> u64 {
    whole_seconds(micros_since_epoch())
}

/// The whole seconds of a clock reading in microseconds since the epoch; zero where the
/// clock stands before the epoch.
pub fn whole_seconds(micros: Option<u128>) -> (n: u64)
    ensures
        n == (match micros {
            Some(m) => (m / 1_000_000) as u64,
            None => 0u64,
        }),
{
    match micros {
        Some(m) => #[verifier::truncate] ((m / 1_000_000) as u64),
        None => 0,
    }
}

impl WriteAheadLog {
    /// A log with the entries that were read from its file: numbering goes on behind the
    /// largest sequence.
    pub fn open(entries: Vec<WalEntry>) -> (w: Self)
        requires
            max_seq(views(entries@)) < u64::MAX,
        ensures
            w@.entries == views(entries@),
            w@.next_seq == max_seq(views(entries@)) + 1,
            w@.wf(),
    {
        let ghost all = views(entries@);
        let mut max: u64 = 0;
        let mut i: usize = 0;
        assert(all.take(0) =~= Seq::empty());
        while i < entries.len()
            invariant
                all == views(entries@),
                i <= entries@.len(),
                max == max_seq(all.take(i as int)),
                forall|j: int| 0 <= j < i ==> (#[trigger] all[j]).seq <= max,
            decreases entries@.len() - i,
        {
            assert(all.take(i + 1).drop_last() =~= all.take(i as int));
            assert(all.take(i + 1).last() == entries@[i as int]@);
            if entries[i].seq > max {
                max = entries[i].seq;
            }
            i += 1;
        }
        assert(all.take(i as int) =~= all);
        WriteAheadLog { entries, next_seq: max + 1 }
    }

    /// Log an operation (returns sequence number).
    pub fn log(&mut self, operation: WalOperation) -> (seq: u64)
        requires
            old(self)@.wf(),
            old(self)@.next_seq < u64::MAX,
        ensures
            final(self)@.wf(),
            seq == old(self)@.next_seq,
            exists|ts: u64| final(self)@ == #[trigger] old(self)@.logged(operation@, ts),
    {
        let seq: u64 = self.next_seq;
        let ghost before = self@;
        let timestamp: u64 = seconds_now();
        let entry = WalEntry { seq, status: WalEntryStatus::Pending, operation, timestamp };
        let ghost item = entry@;
        self.next_seq = seq + 1;
        self.entries.push(entry);
        proof {
            assert(self@.entries =~= before.entries.push(item));
            assert(self@ == before.logged(operation@, timestamp));
            assert forall|i: int| 0 <= i < self@.entries.len() implies (
            #[trigger] self@.entries[i]).seq < self@.next_seq by {
                if i < before.entries.len() {
                    assert(self@.entries[i] == before.entries[i]);
                }
            }
        }
        seq
    }

    /// Mark an entry as committed.
    pub fn commit(&mut self, seq: u64)
        ensures
            old(self)@.wf() && seq < old(self)@.next_seq ==> final(self)@.wf(),
            exists|ts: u64| final(self)@ == #[trigger] old(self)@.committed(seq, ts),
    {
        let ghost before = self@;
        let timestamp: u64 = seconds_now();
        let marker = WalEntry {
            seq,
            status: WalEntryStatus::Committed,
            operation: WalOperation::CommitMarker,
            timestamp,
        };
        let ghost item = marker@;
        self.entries.push(marker);
        proof {
            assert(self@.entries =~= before.entries.push(item));
            assert(self@ == before.committed(seq, timestamp));
            if before.wf() && seq < before.next_seq {
                assert forall|i: int| 0 <= i < self@.entries.len() implies (
                #[trigger] self@.entries[i]).seq < self@.next_seq by {
                    if i < before.entries.len() {
                        assert(self@.entries[i] == before.entries[i]);
                    }
                }
            }
        }
    }

    fn committed_seqs(&self) -> (r: HashSet<u64>)
        ensures
            forall|s: u64| #[trigger] r@.contains(s) == is_committed(self@.entries, s),
    {
        let ghost es = self@.entries;
        let mut found: HashSet<u64> = HashSet::new();
        let mut i: usize = 0;
        while i < self.entries.len()
            invariant
                es == views(self.entries@),
                i <= self.entries@.len(),
                forall|s: u64| #[trigger]
                    found@.contains(s) == (exists|j: int|
                        0 <= j < i && (#[trigger] es[j]).status == WalEntryStatus::Committed
                            && es[j].seq == s),
            decreases self.entries@.len() - i,
        {
            let ghost before = found@;
            assert(es[i as int] == self.entries@[i as int]@);
            if self.entries[i].status == WalEntryStatus::Committed {
                let seq: u64 = self.entries[i].seq;
                found.insert(seq);
            }
            proof {
                assert forall|s: u64| #[trigger] found@.contains(s) == (exists|j: int|
                    0 <= j < i + 1 && (#[trigger] es[j]).status == WalEntryStatus::Committed
                        && es[j].seq == s) by {
                    assert(before.contains(s) == (exists|j: int|
                        0 <= j < i && (#[trigger] es[j]).status == WalEntryStatus::Committed
                            && es[j].seq == s));
                    if found@.contains(s) && !before.contains(s) {
                        assert(es[i as int].seq == s);
                    }
                }
            }
            i += 1;
        }
        found
    }

    /// Get all pending (uncommitted) entries, by ascending sequence.
    pub fn get_pending_entries(&self) -> (r: Vec<WalEntry>)
        ensures
            are_pending(self@.entries, views(r@)),
    {
        let ghost es = self@.entries;
        let committed = self.committed_seqs();
        let mut seen: HashSet<u64> = HashSet::new();
        let mut out: Vec<WalEntry> = Vec::new();
        let mut i: usize = self.entries.len();
        while i > 0
            invariant
                es == views(self.entries@),
                es == self@.entries,
                i <= es.len(),
                forall|s: u64| #[trigger] committed@.contains(s) == is_committed(es, s),
                forall|s: u64| #[trigger]
                    seen@.contains(s) == (exists|j: int|
                        i <= j < es.len() && (#[trigger] es[j]).status == WalEntryStatus::Pending
                            && es[j].seq == s),
                forall|a: int, b: int|
                    0 <= a < b < out@.len() ==> (#[trigger] out@[a]).seq < (#[trigger] out@[b]).seq,
                forall|a: int|
                    0 <= a < out@.len() ==> is_pending_from(es, i as int, (#[trigger] out@[a])@),
                forall|k: int|
                    i <= k < es.len() && #[trigger] is_pending(es, k) ==> views(out@).contains(
                        es[k],
                    ),
            decreases i,
        {
            let at: usize = i - 1;
            let ghost before = out@;
            let ghost seen_before = seen@;
            assert(es[at as int] == self.entries@[at as int]@);
            let seq: u64 = self.entries[at].seq;
            let waits: bool = self.entries[at].status == WalEntryStatus::Pending;
            let taken: bool = waits && !committed.contains(&seq) && !seen.contains(&seq);
            assert(taken == is_pending(es, at as int)) by {
                assert(seen@.contains(seq) == (exists|j: int|
                    i <= j < es.len() && (#[trigger] es[j]).status == WalEntryStatus::Pending
                        && es[j].seq == seq));
            }
            if taken {
                let place: usize = place_for(&out, seq);
                proof {
                    assert forall|a: int| 0 <= a < out@.len() implies (#[trigger] out@[a]).seq
                        != seq by {
                        assert(is_pending_from(es, i as int, out@[a]@));
                        let k = choose|k: int|
                            i <= k < es.len() && #[trigger] is_pending(es, k) && es[k] == out@[a]@;
                        assert(es[k].status == WalEntryStatus::Pending);
                    }
                }
                let entry = self.entries[at].clone();
                let ghost item = entry@;
                out.insert(place, entry);
                proof {
                    lemma_inserted(before, out@, place as int, item);
                    assert forall|a: int| 0 <= a < out@.len() implies is_pending_from(
                        es,
                        at as int,
                        (#[trigger] out@[a])@,
                    ) by {
                        if a == place {
                            assert(is_pending(es, at as int) && es[at as int] == out@[a]@);
                        } else {
                            let p = if a < place { a } else { a - 1 };
                            assert(out@[a] == before[p]);
                            lemma_pending_lower(es, i as int, before[p]@);
                        }
                    }
                    assert forall|k: int|
                        i - 1 <= k < es.len() && #[trigger] is_pending(es, k) implies views(
                        out@,
                    ).contains(es[k]) by {
                        if k == at {
                            assert(views(out@)[place as int] == item);
                        } else {
                            assert(views(before).contains(es[k]));
                        }
                    }
                }
            }
            if waits {
                seen.insert(seq);
            }
            if !taken {
                proof {
                    assert forall|a: int| 0 <= a < out@.len() implies is_pending_from(
                        es,
                        at as int,
                        (#[trigger] out@[a])@,
                    ) by {
                        assert(is_pending_from(es, i as int, before[a]@));
                        lemma_pending_lower(es, i as int, before[a]@);
                    }
                }
            }
            proof {
                assert forall|s: u64| #[trigger] seen@.contains(s) == (exists|j: int|
                    i - 1 <= j < es.len() && (#[trigger] es[j]).status == WalEntryStatus::Pending
                        && es[j].seq == s) by {
                    assert(seen_before.contains(s) == (exists|j: int|
                        i <= j < es.len() && (#[trigger] es[j]).status == WalEntryStatus::Pending
                            && es[j].seq == s));
                    if seen@.contains(s) && !seen_before.contains(s) {
                        assert(es[at as int].seq == s);
                    }
                }
            }
            i = at;
        }
        proof {
            let r = views(out@);
            assert forall|a: int, b: int| 0 <= a < b < r.len() implies (#[trigger] r[a]).seq < (
            #[trigger] r[b]).seq by {
                assert(out@[a].seq < out@[b].seq);
            }
            assert forall|a: int| 0 <= a < r.len() implies is_pending_from(
                es,
                0,
                #[trigger] r[a],
            ) by {
                assert(is_pending_from(es, 0, out@[a]@));
            }
        }
        out
    }

    /// Clear the WAL (called after successful checkpoint).
    pub fn clear(&mut self)
        ensures
            final(self)@ == WalView::cleared(),
            final(self)@.wf(),
    {
        self.entries = Vec::new();
        self.next_seq = 1;
        assert(self@.entries =~= Seq::empty());
    }

    /// Check if WAL has any pending entries.
    pub fn has_pending(&self) -> (r: bool)
        ensures
            r == (exists|k: int| 0 <= k < self@.entries.len() && #[trigger] is_pending(
                self@.entries,
                k,
            )),
    {
        let pending = self.get_pending_entries();
        proof {
            let all = views(pending@);
            if pending@.len() > 0 {
                assert(is_pending_from(self@.entries, 0, all[0]));
                let k = choose|k: int|
                    0 <= k < self@.entries.len() && #[trigger] is_pending(self@.entries, k)
                        && self@.entries[k] == all[0];
                assert(is_pending(self@.entries, k));
            }
        }
        pending.len() > 0
    }

    /// The entries, in the order in which they were written.
    pub fn entries(&self) -> (r: &Vec<WalEntry>)
        ensures
            views(r@) == self@.entries,
    {
        &self.entries
    }

    /// The sequence that the next entry gets.
    pub fn next_seq(&self) -> (n: u64)
        ensures
            n == self@.next_seq,
    {
        self.next_seq
    }
}

proof fn lemma_pending_lower(es: Seq<WalEntryView>, low: int, x: WalEntryView)
    requires
        is_pending_from(es, low, x),
    ensures
        is_pending_from(es, low - 1, x),
{
    let k = choose|k: int| low <= k < es.len() && #[trigger] is_pending(es, k) && es[k] == x;
    assert(is_pending(es, k));
}

fn place_for(out: &Vec<WalEntry>, seq: u64) -> (p: usize)
    requires
        forall|a: int, b: int|
            0 <= a < b < out@.len() ==> (#[trigger] out@[a]).seq < (#[trigger] out@[b]).seq,
    ensures
        p <= out@.len(),
        forall|a: int| 0 <= a < p ==> (#[trigger] out@[a]).seq < seq,
        forall|a: int| p <= a < out@.len() ==> (#[trigger] out@[a]).seq >= seq,
{
    let mut p: usize = 0;
    while p < out.len() && out[p].seq < seq
        invariant
            p <= out@.len(),
            forall|a: int| 0 <= a < p ==> (#[trigger] out@[a]).seq < seq,
        decreases out@.len() - p,
    {
        p += 1;
    }
    proof {
        assert forall|a: int| p <= a < out@.len() implies (#[trigger] out@[a]).seq >= seq by {
            if a > p {
                assert(out@[p as int].seq < out@[a].seq);
            }
        }
    }
    p
}

proof fn lemma_inserted(before: Seq<WalEntry>, after: Seq<WalEntry>, p: int, item: WalEntryView)
    requires
        0 <= p <= before.len(),
        after.len() == before.len() + 1,
        forall|a: int| 0 <= a < p ==> #[trigger] after[a] == before[a],
        forall|a: int| p < a < after.len() ==> #[trigger] after[a] == before[a - 1],
        after[p]@ == item,
        forall|a: int, b: int|
            0 <= a < b < before.len() ==> (#[trigger] before[a]).seq < (#[trigger] before[b]).seq,
        forall|a: int| 0 <= a < p ==> (#[trigger] before[a]).seq < item.seq,
        forall|a: int| p <= a < before.len() ==> (#[trigger] before[a]).seq > item.seq,
    ensures
        forall|a: int, b: int|
            0 <= a < b < after.len() ==> (#[trigger] after[a]).seq < (#[trigger] after[b]).seq,
        forall|x: WalEntryView| #[trigger]
            views(before).contains(x) ==> views(after).contains(x),
{
    assert forall|a: int, b: int| 0 <= a < b < after.len() implies (#[trigger] after[a]).seq < (
    #[trigger] after[b]).seq by {
        let x = if a < p { a } else { a - 1 };
        let y = if b < p { b } else { b - 1 };
        if a != p && b != p {
            assert(after[a] == before[x] && after[b] == before[y]);
        } else if a == p {
            assert(after[b] == before[y]);
        } else {
            assert(after[a] == before[a]);
        }
    }
    assert forall|x: WalEntryView| #[trigger] views(before).contains(x) implies views(
        after,
    ).contains(x) by {
        let k = choose|k: int| 0 <= k < views(before).len() && views(before)[k] == x;
        let q = if k < p { k } else { k + 1 };
        assert(after[q] == before[k]);
        assert(views(after)[q] == x);
    }
}

/// There are no more pending entries than entries.
pub proof fn lemma_pending_count(es: Seq<WalEntryView>, r: Seq<WalEntryView>)
    requires
        are_pending(es, r),
    ensures
        r.len() <= es.len(),
{
    let place = |x: WalEntryView| choose|k: int|
        0 <= k < es.len() && #[trigger] is_pending(es, k) && es[k] == x;
    let places = Seq::new(r.len(), |i: int| place(r[i]));
    assert forall|i: int| 0 <= i < r.len() implies 0 <= #[trigger] places[i] < es.len()
        && es[places[i]] == r[i] by {
        assert(is_pending_from(es, 0, r[i]));
    }
    assert forall|i: int, j: int| 0 <= i < j < places.len() implies places[i] != places[j] by {
        assert(r[i].seq < r[j].seq);
    }
    vstd::seq_lib::seq_to_set_is_finite(places);
    places.unique_seq_to_set();
    let all = vstd::set_lib::set_int_range(0, es.len() as int);
    vstd::set_lib::lemma_int_range(0, es.len() as int);
    assert(places.to_set().subset_of(all));
    vstd::set_lib::lemma_len_subset(places.to_set(), all);
}

/// What was logged waits until it is committed, and does not once it is; nothing else
/// changes by either.
pub proof fn logged_until_committed(w: WalView, operation: WalOpView, t1: u64, t2: u64, other: int)
    requires
        w.wf(),
        w.next_seq < u64::MAX,
    ensures
        ({
            let l = w.logged(operation, t1);
            let c = l.committed(w.next_seq, t2);
            let at = w.entries.len() as int;
            &&& is_pending(l.entries, at)
            &&& !is_pending(c.entries, at)
            &&& 0 <= other < at ==> is_pending(l.entries, other) == is_pending(w.entries, other)
            &&& 0 <= other < at ==> is_pending(c.entries, other) == is_pending(w.entries, other)
        }),
{
    let l = w.logged(operation, t1);
    let c = l.committed(w.next_seq, t2);
    let at = w.entries.len() as int;
    let n = w.entries.len() as int;
    assert forall|i: int| 0 <= i < n implies #[trigger] l.entries[i] == w.entries[i] by {}
    assert forall|i: int| 0 <= i < n implies #[trigger] c.entries[i] == w.entries[i] by {}
    assert(c.entries[n] == l.entries[n]);
    assert(!is_committed(l.entries, w.next_seq)) by {
        if is_committed(l.entries, w.next_seq) {
            let i = choose|i: int|
                0 <= i < l.entries.len() && (#[trigger] l.entries[i]).status
                    == WalEntryStatus::Committed && l.entries[i].seq == w.next_seq;
            assert(w.entries[i].seq < w.next_seq);
        }
    }
    assert(c.entries[n + 1].status == WalEntryStatus::Committed);
    assert(is_committed(c.entries, w.next_seq));
    if 0 <= other < n {
        let s = w.entries[other].seq;
        assert(s < w.next_seq);
        assert(is_committed(l.entries, s) == is_committed(w.entries, s)) by {
            if is_committed(w.entries, s) {
                let i = choose|i: int|
                    0 <= i < w.entries.len() && (#[trigger] w.entries[i]).status
                        == WalEntryStatus::Committed && w.entries[i].seq == s;
                assert(l.entries[i] == w.entries[i]);
            }
        }
        assert(is_committed(c.entries, s) == is_committed(w.entries, s)) by {
            if is_committed(w.entries, s) {
                let i = choose|i: int|
                    0 <= i < w.entries.len() && (#[trigger] w.entries[i]).status
                        == WalEntryStatus::Committed && w.entries[i].seq == s;
                assert(c.entries[i] == w.entries[i]);
            }
        }
        if is_pending(l.entries, other) || is_pending(c.entries, other) {
            assert forall|j: int| other < j < n implies !((#[trigger] w.entries[j]).status
                == WalEntryStatus::Pending && w.entries[j].seq == s) by {
                assert(l.entries[j] == w.entries[j] && c.entries[j] == w.entries[j]);
            }
        }
    }
}

} // verus!
