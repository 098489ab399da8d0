//! What a run of logged and committed operations leaves pending, and what a file keeps of it.
use crate::bytes::window;
use crate::format::wal::{MAGIC, MAX_ENTRY_SIZE};
use crate::wal::frames::{entries_are_read_in_order, frame_bytes, frames_fill, frames_from, header_bytes, header_error};
use crate::wal::log::{are_pending, is_committed, is_pending, is_pending_from, max_seq, WalEntryStatus, WalEntryView, WalOpView, WalView};
use vstd::prelude::*;

verus! {

/// What is done to a write-ahead log.
pub enum WalStep {
    /// An operation is logged at a time.
    Log { operation: WalOpView, timestamp: u64 },
    /// A sequence is committed at a time.
    Commit { seq: u64, timestamp: u64 },
}

/// The log after steps, from an empty one.
pub open spec fn after_steps(steps: Seq<WalStep>) -> WalView
    decreases steps.len(),
{
    if steps.len() == 0 {
        WalView::cleared()
    } else {
        let w = after_steps(steps.drop_last());
        match steps.last() {
            WalStep::Log { operation, timestamp } => w.logged(operation, timestamp),
            WalStep::Commit { seq, timestamp } => w.committed(seq, timestamp),
        }
    }
}

/// The entries that steps log: they are numbered from one on.
pub open spec fn logged_by(steps: Seq<WalStep>) -> Seq<WalEntryView>
    decreases steps.len(),
{
    if steps.len() == 0 {
        Seq::empty()
    } else {
        let before = logged_by(steps.drop_last());
        match steps.last() {
            WalStep::Log { operation, timestamp } => before.push(
                WalEntryView {
                    seq: (before.len() + 1) as u64,
                    status: WalEntryStatus::Pending,
                    operation,
                    timestamp,
                },
            ),
            WalStep::Commit { .. } => before,
        }
    }
}

/// Whether steps commit a sequence.
pub open spec fn commits(steps: Seq<WalStep>, seq: u64) -> bool {
    exists|i: int| 0 <= i < steps.len() && is_commit_of(#[trigger] steps[i], seq)
}

/// Whether a step commits a sequence.
pub open spec fn is_commit_of(step: WalStep, seq: u64) -> bool {
    step matches WalStep::Commit { seq: s, .. } && s == seq
}

/// Whether an entry was logged and not committed.
pub open spec fn left_open(steps: Seq<WalStep>, x: WalEntryView) -> bool {
    logged_by(steps).contains(x) && !commits(steps, x.seq)
}

proof fn lemma_steps(steps: Seq<WalStep>)
    requires
        logged_by(steps).len() < u64::MAX,
    ensures
        after_steps(steps).next_seq == logged_by(steps).len() + 1,
        after_steps(steps).entries.len() == steps.len(),
        forall|k: int|
            0 <= k < logged_by(steps).len() ==> (#[trigger] logged_by(steps)[k]).seq == k + 1,
        forall|s: u64| #[trigger]
            is_committed(after_steps(steps).entries, s) == commits(steps, s),
        forall|i: int|
            0 <= i < steps.len() && (#[trigger] after_steps(steps).entries[i]).status
                == WalEntryStatus::Pending ==> logged_by(steps).contains(
                after_steps(steps).entries[i],
            ),
        forall|k: int|
            0 <= k < logged_by(steps).len() ==> after_steps(steps).entries.contains(
                #[trigger] logged_by(steps)[k],
            ) && logged_by(steps)[k].status == WalEntryStatus::Pending,
        forall|i: int, j: int|
            0 <= i < j < steps.len() && (#[trigger] after_steps(steps).entries[i]).status
                == WalEntryStatus::Pending && (#[trigger] after_steps(steps).entries[j]).status
                == WalEntryStatus::Pending ==> after_steps(steps).entries[i].seq < after_steps(
                steps,
            ).entries[j].seq,
    decreases steps.len(),
{
    if steps.len() > 0 {
        let init = steps.drop_last();
        assert(logged_by(init).len() <= logged_by(steps).len());
        lemma_steps(init);
        let w = after_steps(init);
        let now = after_steps(steps);
        let n = init.len() as int;
        let before = logged_by(init);
        let after = logged_by(steps);
        assert(now.entries.drop_last() =~= w.entries);
        assert forall|i: int| 0 <= i < n implies #[trigger] now.entries[i] == w.entries[i] by {}
        assert forall|k: int| 0 <= k < before.len() implies #[trigger] after[k] == before[k] by {}
        assert(now.entries.contains(now.entries[n]));
        assert forall|s: u64| #[trigger] is_committed(now.entries, s) == commits(steps, s) by {
            assert(is_committed(w.entries, s) == commits(init, s));
            if is_committed(now.entries, s) {
                let i = choose|i: int|
                    0 <= i < now.entries.len() && (#[trigger] now.entries[i]).status
                        == WalEntryStatus::Committed && now.entries[i].seq == s;
                if i < n {
                    assert(w.entries[i] == now.entries[i]);
                    assert(commits(init, s));
                    let k = choose|k: int| 0 <= k < init.len() && is_commit_of(#[trigger] init[k], s);
                    assert(is_commit_of(steps[k], s));
                } else {
                    assert(is_commit_of(steps[n], s));
                }
            }
            if commits(steps, s) {
                let k = choose|k: int| 0 <= k < steps.len() && is_commit_of(#[trigger] steps[k], s);
                if k < n {
                    assert(is_commit_of(init[k], s));
                    assert(is_committed(w.entries, s));
                    let i = choose|i: int|
                        0 <= i < w.entries.len() && (#[trigger] w.entries[i]).status
                            == WalEntryStatus::Committed && w.entries[i].seq == s;
                    assert(now.entries[i] == w.entries[i]);
                } else {
                    assert(now.entries[n].seq == s);
                }
            }
        }
        assert forall|i: int|
            0 <= i < steps.len() && (#[trigger] now.entries[i]).status
                == WalEntryStatus::Pending implies after.contains(now.entries[i]) by {
            if i < n {
                assert(before.contains(w.entries[i]));
                let k = choose|k: int| 0 <= k < before.len() && before[k] == w.entries[i];
                assert(after[k] == now.entries[i]);
            } else {
                assert(after[after.len() - 1] == now.entries[i]);
            }
        }
        assert forall|k: int| 0 <= k < after.len() implies now.entries.contains(
            #[trigger] after[k],
        ) && after[k].status == WalEntryStatus::Pending by {
            if k < before.len() {
                assert(w.entries.contains(before[k]));
                let i = choose|i: int| 0 <= i < w.entries.len() && w.entries[i] == before[k];
                assert(now.entries[i] == after[k]);
            } else {
                assert(now.entries[n] == after[k]);
            }
        }
        assert forall|i: int, j: int|
            0 <= i < j < steps.len() && (#[trigger] now.entries[i]).status
                == WalEntryStatus::Pending && (#[trigger] now.entries[j]).status
                == WalEntryStatus::Pending implies now.entries[i].seq < now.entries[j].seq by {
            assert(now.entries[i] == w.entries[i]);
            if j < n {
                assert(now.entries[j] == w.entries[j]);
            } else {
                assert(before.contains(w.entries[i]));
                let k = choose|k: int| 0 <= k < before.len() && before[k] == w.entries[i];
                assert(before[k].seq == k + 1);
            }
        }
    }
}

/// After any run of logging and committing, the pending entries are just those that were
/// logged and not committed, each once; one waits just where there is such an entry.
pub proof fn pending_are_those_left_open(steps: Seq<WalStep>, r: Seq<WalEntryView>)
    requires
        logged_by(steps).len() < u64::MAX,
        are_pending(after_steps(steps).entries, r),
    ensures
        forall|x: WalEntryView| #[trigger] r.contains(x) == left_open(steps, x),
        (exists|k: int|
            0 <= k < after_steps(steps).entries.len() && #[trigger] is_pending(
                after_steps(steps).entries,
                k,
            )) == (exists|x: WalEntryView| left_open(steps, x)),
{
    lemma_steps(steps);
    let es = after_steps(steps).entries;
    assert forall|x: WalEntryView| #[trigger] r.contains(x) == left_open(steps, x) by {
        if r.contains(x) {
            let i = choose|i: int| 0 <= i < r.len() && r[i] == x;
            assert(is_pending_from(es, 0, r[i]));
        }
        if left_open(steps, x) {
            let k = choose|k: int| 0 <= k < logged_by(steps).len() && logged_by(steps)[k] == x;
            assert(es.contains(logged_by(steps)[k]));
            let i = choose|i: int| 0 <= i < es.len() && es[i] == x;
            assert(!is_committed(es, x.seq));
            assert(is_pending(es, i)) by {
                assert forall|j: int| i < j < es.len() implies !((#[trigger] es[j]).status
                    == WalEntryStatus::Pending && es[j].seq == es[i].seq) by {}
            }
            assert(is_pending_from(es, 0, x));
        }
    }
    if exists|x: WalEntryView| left_open(steps, x) {
        let x = choose|x: WalEntryView| left_open(steps, x);
        assert(r.contains(x));
        let i = choose|i: int| 0 <= i < r.len() && r[i] == x;
        assert(is_pending_from(es, 0, r[i]));
    }
    if exists|k: int| 0 <= k < es.len() && #[trigger] is_pending(es, k) {
        let k = choose|k: int| 0 <= k < es.len() && #[trigger] is_pending(es, k);
        assert(is_pending_from(es, 0, es[k]));
        assert(r.contains(es[k]));
        assert(left_open(steps, es[k]));
    }
}

/// The file of a write-ahead log with these bodies.
pub open spec fn file_of(bodies: Seq<Seq<u8>>) -> Seq<u8>
    decreases bodies.len(),
{
    if bodies.len() == 0 {
        header_bytes()
    } else {
        file_of(bodies.drop_last()) + frame_bytes(bodies.last())
    }
}

/// What is written into a file is read back from it.
pub proof fn bodies_are_read_back(bodies: Seq<Seq<u8>>)
    requires
        forall|i: int| 0 <= i < bodies.len() ==> (#[trigger] bodies[i]).len() <= MAX_ENTRY_SIZE,
    ensures
        header_error(file_of(bodies)) is None,
        frames_from(file_of(bodies), 5) == bodies,
        frames_fill(file_of(bodies), 5),
        header_bytes().is_prefix_of(file_of(bodies)),
    decreases bodies.len(),
{
    let h = header_bytes();
    assert(h.len() == 5);
    if bodies.len() == 0 {
        assert(frames_from(h, 5) =~= bodies);
        assert(h =~= h.subrange(0, 5));
    } else {
        let init = bodies.drop_last();
        assert forall|i: int| 0 <= i < init.len() implies (#[trigger] init[i]).len()
            <= MAX_ENTRY_SIZE by {
            assert(init[i] == bodies[i]);
        }
        bodies_are_read_back(init);
        assert(bodies.last() == bodies[bodies.len() - 1]);
        entries_are_read_in_order(file_of(init), 5, bodies.last());
        assert(init.push(bodies.last()) =~= bodies);
        assert(h =~= file_of(bodies).subrange(0, 5)) by {
            assert(h == file_of(init).subrange(0, 5));
        }
    }
    let file = file_of(bodies);
    assert(window(file, 0, 4) =~= MAGIC@) by {
        assert(h == file.subrange(0, 5));
        assert forall|i: int| 0 <= i < 4 implies #[trigger] window(file, 0, 4)[i] == MAGIC@[i] by {
            assert(file[i] == h[i]);
        }
    }
    assert(file[4] == h[4]) by {
        assert(h == file.subrange(0, 5));
    }
}

/// Pending entries outlive the process: read back from the file that they were written to,
/// by any coding that gives back what it was given, the entries are those that were left
/// open.
pub proof fn pending_outlive_the_process(
    steps: Seq<WalStep>,
    encode: spec_fn(WalEntryView) -> Seq<u8>,
    decode: spec_fn(Seq<u8>) -> WalEntryView,
    r: Seq<WalEntryView>,
)
    requires
        logged_by(steps).len() < u64::MAX,
        forall|e: WalEntryView| #[trigger]
            after_steps(steps).entries.contains(e) ==> decode(encode(e)) == e && encode(e).len()
                <= MAX_ENTRY_SIZE,
        ({
            let file = file_of(after_steps(steps).entries.map_values(encode));
            are_pending(frames_from(file, 5).map_values(decode), r)
        }),
    ensures
        forall|x: WalEntryView| #[trigger] r.contains(x) == left_open(steps, x),
{
    let es = after_steps(steps).entries;
    let bodies = es.map_values(encode);
    assert forall|i: int| 0 <= i < bodies.len() implies (#[trigger] bodies[i]).len()
        <= MAX_ENTRY_SIZE by {
        assert(es.contains(es[i]));
    }
    bodies_are_read_back(bodies);
    assert(bodies.map_values(decode) =~= es) by {
        assert forall|i: int| 0 <= i < es.len() implies #[trigger] bodies.map_values(decode)[i]
            == es[i] by {
            assert(es.contains(es[i]));
        }
    }
    pending_are_those_left_open(steps, r);
}

/// The largest sequence is one of the entries', and none is larger.
pub proof fn largest_sequence_is_found(es: Seq<WalEntryView>)
    ensures
        forall|i: int| 0 <= i < es.len() ==> (#[trigger] es[i]).seq <= max_seq(es),
        max_seq(es) > 0 ==> exists|i: int| 0 <= i < es.len() && (#[trigger] es[i]).seq == max_seq(es),
        es.len() == 0 ==> max_seq(es) == 0,
    decreases es.len(),
{
    if es.len() > 0 {
        let init = es.drop_last();
        largest_sequence_is_found(init);
        assert(es[es.len() - 1] == es.last());
        assert forall|i: int| 0 <= i < es.len() implies (#[trigger] es[i]).seq <= max_seq(es) by {
            if i < init.len() {
                assert(init[i] == es[i]);
            }
        }
        if max_seq(es) > 0 && max_seq(es) == max_seq(init) {
            let i = choose|i: int| 0 <= i < init.len() && (#[trigger] init[i]).seq == max_seq(init);
            assert(es[i] == init[i]);
        }
    }
}

/// A cleared log has no entries and numbers from one on.
pub proof fn cleared_log_starts_anew(op: WalOpView, timestamp: u64)
    ensures
        WalView::cleared().entries.len() == 0,
        WalView::cleared().logged(op, timestamp).entries[0].seq == 1,
{
}

} // verus!
