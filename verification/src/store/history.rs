//! What holds of every store that grew by its own operations, and what that keeps of the
//! past.
use crate::branches::laws::{heads_are_independent, lemma_left};
use crate::branches::manager::{by_id, delete_error, lemma_branch_at, lemma_current, lemma_found, lemma_named, new_branch, with_branch, without_name, BranchesView};
use crate::error::{ErrorView, StoreError};
use crate::records::codec::{record_bytes, record_round_trip, record_survives_append};
use crate::records::index::{offsets_by_id, AddedView};
use crate::state::chain::{chain, lemma_chain_step, link_at, newest, until, update_at, ChainView, LinkView, TableView};
use crate::state::laws::{chain_survives_append, faithful_items, lemma_kept_edited, lemma_kept_ops, lemma_unedited, lemma_until_readable, lemma_until_same, ops_of, readable, same_below, value_survives_append};
use crate::state::manager::{head_at, heads_copied, strategy_of, taken_over, HeadsView, StateChainHead};
use crate::store::branching::{gets_older, heads_at, lemma_until_is_chain, with_branch_deleted, with_heads, with_new_branch};
use crate::store::compaction::registered;
use crate::store::laws::{items_in, items_in_order, lemma_tied_after, lemma_update_fits, none_newer, past_items, past_items_in_order, past_text, past_tree, past_tree_in_order, payloads_fit, recorded_operation_is_local, recorded_operation_keeps_past, recorded_operation_leaves_other_pasts, text_in, tied, tree_in, tree_in_order};
use crate::store::model::{appended, chain_of, due_operation, next_record, next_update, recorded, recorded_as, recorded_with_snapshot, same_but_cache, snapshot_taken, state_value, state_value_at};
use crate::store::states::chain_info;
use crate::store::updates::lemma_pushed_update;
use crate::store::StoreView;
use crate::types::{BranchId, BranchView, OperationView, RecordInputView, RecordView, Sequence, StateUpdateRecord, StrategyView, Timestamp};
use crate::wal::log::WalView;
use vstd::prelude::*;

verus! {

/// Whether the link at an offset reads and is not newer than a sequence.
pub open spec fn linked(b: Seq<u8>, t: TableView, off: u64, at: Sequence) -> bool {
    link_at(b, t, off) matches Ok(l) && l.sequence.0 <= at.0
}

/// Whether every update reads, and the one before it reads and is not newer.
pub open spec fn updates_in_time(s: StoreView) -> bool {
    forall|o: u64| #[trigger]
        update_at(s.updates, o) is Some ==> o < s.log.bytes.len() && (link_at(
            s.log.bytes,
            s.updates,
            o,
        ) matches Ok(l) && (l.update.prev_update_offset matches Some(q) ==> linked(
            s.log.bytes,
            s.updates,
            q,
            l.sequence,
        )))
}

/// Whether a chain head belongs to a branch that was handed out, and the update that it
/// points to reads and is not newer than the head of the branch.
pub open spec fn head_in_time(s: StoreView, branch: BranchId, h: StateChainHead) -> bool {
    &&& branch.0 < s.branches.next_id
    &&& link_at(s.log.bytes, s.updates, h.head_offset) is Ok
    &&& by_id(s.branches.branches, branch) matches Some(b) ==> linked(
        s.log.bytes,
        s.updates,
        h.head_offset,
        b.head,
    )
}

/// Whether every chain head is in time.
pub open spec fn heads_in_time(s: StoreView) -> bool {
    forall|branch: BranchId, id: Seq<char>|
        (#[trigger] head_at(s.states, branch, id)) is Some ==> head_in_time(
            s,
            branch,
            head_at(s.states, branch, id)->0,
        )
}

/// Whether the ids of all records were handed out.
pub open spec fn ids_handed_out(s: StoreView) -> bool {
    forall|i: int| 0 <= i < s.added.len() ==> (#[trigger] s.added[i]).id.0 < s.log.next_id
}

/// Whether a store is sound: its chains read and get older, no state is ahead of its branch,
/// and the next record id is new. A new store is, and its operations keep it so.
pub open spec fn sound(s: StoreView) -> bool {
    &&& tied(s)
    &&& s.branches.wf()
    &&& updates_in_time(s)
    &&& heads_in_time(s)
    &&& ids_handed_out(s)
}

/// Whether links are those at their offsets.
pub open spec fn are_links(b: Seq<u8>, t: TableView, c: ChainView) -> bool {
    forall|i: int| 0 <= i < c.len() ==> link_at(b, t, (#[trigger] c[i])->Ok_0.offset) == c[i]
}

proof fn lemma_chain_in_time(s: StoreView, from: u64, at: Sequence)
    requires
        tied(s),
        updates_in_time(s),
        linked(s.log.bytes, s.updates, from, at),
    ensures
        ({
            let c = chain(s.log.bytes, s.updates, Some(from));
            &&& readable(c)
            &&& gets_older(c)
            &&& none_newer(c, at)
            &&& are_links(s.log.bytes, s.updates, c)
        }),
    decreases from,
{
    let b = s.log.bytes;
    let t = s.updates;
    let c = chain(b, t, Some(from));
    let l = link_at(b, t, from)->Ok_0;
    assert(update_at(t, from) is Some);
    crate::state::chain::lemma_update_found(t, from);
    lemma_chain_step(b, t, from);
    let rest = chain(b, t, l.update.prev_update_offset);
    if let Some(q) = l.update.prev_update_offset {
        lemma_chain_in_time(s, q, l.sequence);
    }
    assert forall|i: int| 0 <= i < c.len() implies (#[trigger] c[i]) is Ok && c[i]->Ok_0.sequence.0
        <= l.sequence.0 && link_at(b, t, c[i]->Ok_0.offset) == c[i] by {
        if i > 0 {
            assert(c[i] == rest[i - 1]);
        }
    }
    assert forall|i: int, j: int| 0 <= i < j < c.len() && c[i] is Ok && c[j] is Ok implies (
    #[trigger] c[i])->Ok_0.sequence.0 >= (#[trigger] c[j])->Ok_0.sequence.0 by {
        assert(c[j] == rest[j - 1]);
        if i > 0 {
            assert(c[i] == rest[i - 1]);
        }
    }
}

/// The chains of a sound store read and get older, and no state is ahead of its branch.
pub proof fn sound_chains(s: StoreView, branch: BranchId, id: Seq<char>)
    requires
        sound(s),
    ensures
        readable(chain_of(s, branch, id)),
        gets_older(chain_of(s, branch, id)),
        are_links(s.log.bytes, s.updates, chain_of(s, branch, id)),
        by_id(s.branches.branches, branch) matches Some(b) ==> none_newer(
            chain_of(s, branch, id),
            b.head,
        ),
{
    if let Some(h) = head_at(s.states, branch, id) {
        assert(head_in_time(s, branch, h));
        let l = link_at(s.log.bytes, s.updates, h.head_offset)->Ok_0;
        lemma_chain_in_time(s, h.head_offset, l.sequence);
        if let Some(b) = by_id(s.branches.branches, branch) {
            lemma_chain_in_time(s, h.head_offset, b.head);
        }
    }
}

/// What a state of a sound store was at the head of its branch is what it is.
pub proof fn value_at_head_is_value(s: StoreView, b: BranchView, id: Seq<char>)
    requires
        sound(s),
        by_id(s.branches.branches, b.id) == Some(b),
    ensures
        state_value_at(s, b.id, id, b.head) == state_value(s, b.id, id),
{
    sound_chains(s, b.id, id);
    lemma_until_same(chain_of(s, b.id, id), b.head);
    if head_at(s.states, b.id, id) is Some {
        crate::store::states::lemma_chain_nonempty(s, b.id, id);
    }
}

/// Before its first update a state of a sound store had no value.
pub proof fn nothing_before_first_update(s: StoreView, branch: BranchId, id: Seq<char>, at: Sequence)
    requires
        sound(s),
        chain_of(s, branch, id).len() > 0 ==> chain_of(s, branch, id).last()->Ok_0.sequence.0
            > at.0,
    ensures
        state_value_at(s, branch, id, at) == Ok::<Option<Seq<u8>>, ErrorView>(None),
{
    sound_chains(s, branch, id);
    lemma_all_newer(chain_of(s, branch, id), at);
}

proof fn lemma_all_newer(c: ChainView, at: Sequence)
    requires
        readable(c),
        gets_older(c),
        c.len() > 0 ==> c.last()->Ok_0.sequence.0 > at.0,
    ensures
        until(c, Some(at)).len() == 0,
    decreases c.len(),
{
    if c.len() > 0 {
        let rest = c.skip(1);
        assert forall|i: int| 0 <= i < rest.len() implies (#[trigger] rest[i]) is Ok by {
            assert(rest[i] == c[i + 1]);
        }
        assert forall|i: int, j: int|
            0 <= i < j < rest.len() && rest[i] is Ok && rest[j] is Ok implies (
        #[trigger] rest[i])->Ok_0.sequence.0 >= (#[trigger] rest[j])->Ok_0.sequence.0 by {
            assert(rest[i] == c[i + 1] && rest[j] == c[j + 1]);
        }
        assert(c[0] is Ok && c[c.len() - 1] is Ok);
        if c.len() > 1 {
            assert(c[0]->Ok_0.sequence.0 >= c[c.len() - 1]->Ok_0.sequence.0);
            assert(rest.last() == c.last());
        }
        lemma_all_newer(rest, at);
    }
}

/// A link that reads reads on when bytes and updates are added behind it.
proof fn lemma_link_survives(b: Seq<u8>, t: TableView, more: Seq<u8>, t2: TableView, o: u64)
    requires
        link_at(b, t, o) is Ok,
        same_below(t, t2, b.len() as int),
        o < b.len(),
    ensures
        link_at(b + more, t2, o) == link_at(b, t, o),
{
    record_survives_append(b, more, o as int);
}

/// Every link that reads lies within the log.
proof fn lemma_linked_below(s: StoreView, o: u64)
    requires
        updates_in_time(s),
        link_at(s.log.bytes, s.updates, o) is Ok,
    ensures
        o < s.log.bytes.len(),
{
    assert(update_at(s.updates, o) is Some);
}

/// What a record written behind the log leaves of the links.
proof fn lemma_sound_links(s: StoreView, more: Seq<u8>, t2: TableView)
    requires
        updates_in_time(s),
        same_below(s.updates, t2, s.log.bytes.len() as int),
    ensures
        forall|o: u64, at: Sequence| #[trigger]
            linked(s.log.bytes, s.updates, o, at) ==> linked(s.log.bytes + more, t2, o, at),
        forall|o: u64| (#[trigger] link_at(s.log.bytes, s.updates, o)) is Ok ==> link_at(
            s.log.bytes + more,
            t2,
            o,
        ) == link_at(s.log.bytes, s.updates, o),
{
    assert forall|o: u64| (#[trigger] link_at(s.log.bytes, s.updates, o)) is Ok implies link_at(
        s.log.bytes + more,
        t2,
        o,
    ) == link_at(s.log.bytes, s.updates, o) by {
        lemma_linked_below(s, o);
        lemma_link_survives(s.log.bytes, s.updates, more, t2, o);
    }
}

/// What is cached plays no part in soundness.
pub proof fn lemma_same_soundness(s: StoreView, now: StoreView)
    requires
        same_but_cache(s, now),
    ensures
        sound(now) == sound(s),
{
    assert(now.states == s.states);
    if sound(s) {
        assert forall|br: BranchId, x: Seq<char>|
            (#[trigger] head_at(now.states, br, x)) is Some implies head_in_time(
            now,
            br,
            head_at(now.states, br, x)->0,
        ) by {
            assert(head_in_time(s, br, head_at(s.states, br, x)->0));
        }
    }
    if sound(now) {
        assert forall|br: BranchId, x: Seq<char>|
            (#[trigger] head_at(s.states, br, x)) is Some implies head_in_time(
            s,
            br,
            head_at(s.states, br, x)->0,
        ) by {
            assert(head_in_time(now, br, head_at(now.states, br, x)->0));
        }
    }
}

/// Recording an operation keeps a store sound.
pub proof fn recording_keeps_sound<E: Fn(&StateUpdateRecord) -> Result<Vec<u8>, StoreError>>(
    encode: E,
    s: StoreView,
    id: Seq<char>,
    op: OperationView,
    now: StoreView,
    r: Result<RecordView, ErrorView>,
)
    requires
        sound(s),
        s.has_room(1),
        now.wf(),
        payloads_fit(encode),
        recorded(encode, s, id, op, now, r),
    ensures
        sound(now),
{
    if r is Ok {
        let record = r->Ok_0;
        let b = s.branches.current_branch()->0;
        lemma_current(s.branches);
        lemma_tied_after(encode, s, id, op, now, record, b);
        let (ts, p) = choose|ts: Timestamp, p: Seq<u8>| #[trigger]
            recorded_as(encode, s, id, op, now, record, b, ts, p);
        let u = next_update(s, id, op, b, ts);
        let offset = s.log.bytes.len() as u64;
        let more = record_bytes(record);
        lemma_pushed_update(s.updates, offset, u);
        lemma_sound_links(s, more, now.updates);
        lemma_update_fits(record);
        record_round_trip(s.log.bytes, record, Seq::empty());
        assert(s.log.bytes + more + Seq::<u8>::empty() =~= s.log.bytes + more);
        let l = LinkView { offset, sequence: record.sequence, size: record.payload.len(), update: u };
        assert(link_at(now.log.bytes, now.updates, offset) == Ok::<LinkView, ErrorView>(l));
        assert(now.updates.drop_last() =~= s.updates);
        assert forall|o: u64| #[trigger] update_at(now.updates, o) is Some implies o
            < now.log.bytes.len() && (link_at(now.log.bytes, now.updates, o) matches Ok(k) && (
        k.update.prev_update_offset matches Some(q) ==> linked(
            now.log.bytes,
            now.updates,
            q,
            k.sequence,
        ))) by {
            if o == offset {
                if let Some(h) = head_at(s.states, b.id, id) {
                    assert(head_in_time(s, b.id, h));
                    assert(linked(s.log.bytes, s.updates, h.head_offset, b.head));
                }
            } else {
                assert(update_at(s.updates, o) is Some);
                let k = link_at(s.log.bytes, s.updates, o)->Ok_0;
            }
        }
        assert forall|branch: BranchId, x: Seq<char>|
            (#[trigger] head_at(now.states, branch, x)) is Some implies head_in_time(
            now,
            branch,
            head_at(now.states, branch, x)->0,
        ) by {
            heads_are_independent(s.branches.branches, b.id, record.sequence, branch);
            lemma_named(s.branches, b, b.name, b.id);
            if branch == b.id && x == id {
            } else {
                assert(head_at(s.states, branch, x) == head_at(now.states, branch, x));
                assert(head_in_time(s, branch, head_at(s.states, branch, x)->0));
            }
        }
        assert forall|i: int| 0 <= i < now.added.len() implies (#[trigger] now.added[i]).id.0
            < now.log.next_id by {
            if i < s.added.len() {
                assert(now.added[i] == s.added[i]);
            }
        }
    }
}

/// Appending a record keeps a store sound.
pub proof fn appending_keeps_sound(
    s: StoreView,
    input: RecordInputView,
    b: BranchView,
    ts: Timestamp,
    wal: WalView,
)
    requires
        sound(s),
        s.has_room(1),
        s.branches.current_branch() == Some(b),
        appended(s, next_record(s, input, b, ts), b, wal).wf(),
    ensures
        sound(appended(s, next_record(s, input, b, ts), b, wal)),
{
    let record = next_record(s, input, b, ts);
    let now = appended(s, record, b, wal);
    lemma_current(s.branches);
    lemma_named(s.branches, b, b.name, b.id);
    lemma_sound_links(s, record_bytes(record), s.updates);
    assert forall|o: u64| #[trigger] update_at(now.updates, o) is Some implies o
        < now.log.bytes.len() && (link_at(now.log.bytes, now.updates, o) matches Ok(k) && (
    k.update.prev_update_offset matches Some(q) ==> linked(
        now.log.bytes,
        now.updates,
        q,
        k.sequence,
    ))) by {
        assert(update_at(s.updates, o) is Some);
        let k = link_at(s.log.bytes, s.updates, o)->Ok_0;
    }
    assert forall|branch: BranchId, x: Seq<char>|
        (#[trigger] head_at(now.states, branch, x)) is Some implies head_in_time(
        now,
        branch,
        head_at(now.states, branch, x)->0,
    ) by {
        heads_are_independent(s.branches.branches, b.id, record.sequence, branch);
        assert(head_in_time(s, branch, head_at(s.states, branch, x)->0));
    }
    assert forall|i: int| 0 <= i < now.added.len() implies (#[trigger] now.added[i]).id.0
        < now.log.next_id by {
        if i < s.added.len() {
            assert(now.added[i] == s.added[i]);
        }
    }
}

/// An appended record has an id that no record had, so that the number of records grows by
/// one.
pub proof fn appended_record_is_counted(
    s: StoreView,
    input: RecordInputView,
    b: BranchView,
    ts: Timestamp,
    wal: WalView,
)
    requires
        sound(s),
    ensures
        ({
            let now = appended(s, next_record(s, input, b, ts), b, wal);
            &&& !offsets_by_id(s.added).contains_key(s.log.next_id)
            &&& offsets_by_id(now.added).len() == offsets_by_id(s.added).len() + 1
        }),
{
    let now = appended(s, next_record(s, input, b, ts), b, wal);
    lemma_ids_below(s.added, s.log.next_id);
    assert(now.added.drop_last() =~= s.added);
}

proof fn lemma_ids_below(added: Seq<AddedView>, bound: u64)
    requires
        forall|i: int| 0 <= i < added.len() ==> (#[trigger] added[i]).id.0 < bound,
    ensures
        forall|id: u64| #[trigger] offsets_by_id(added).contains_key(id) ==> id < bound,
        offsets_by_id(added).dom().finite(),
    decreases added.len(),
{
    if added.len() > 0 {
        let init = added.drop_last();
        assert forall|i: int| 0 <= i < init.len() implies (#[trigger] init[i]).id.0 < bound by {
            assert(init[i] == added[i]);
        }
        lemma_ids_below(init, bound);
        assert(added[added.len() - 1] == added.last());
    }
}

/// A store with a new branch that took over chain heads is sound where these are in time.
proof fn lemma_branched(s: StoreView, now: StoreView, b: BranchView)
    requires
        sound(s),
        s.branches.next_id < u64::MAX,
        b.id.0 == s.branches.next_id,
        now.branches == with_branch(s.branches, b),
        now.branches.wf(),
        now.log == s.log,
        now.updates == s.updates,
        now.added == s.added,
        forall|branch: BranchId, id: Seq<char>|
            branch != b.id ==> #[trigger] head_at(now.states, branch, id) == head_at(
                s.states,
                branch,
                id,
            ),
        forall|id: Seq<char>|
            (#[trigger] head_at(now.states, b.id, id)) is Some ==> linked(
                s.log.bytes,
                s.updates,
                head_at(now.states, b.id, id)->0.head_offset,
                b.head,
            ),
    ensures
        sound(now),
{
    assert(now.branches.branches.drop_last() =~= s.branches.branches);
    assert forall|branch: BranchId, x: Seq<char>|
        (#[trigger] head_at(now.states, branch, x)) is Some implies head_in_time(
        now,
        branch,
        head_at(now.states, branch, x)->0,
    ) by {
        if branch != b.id {
            assert(head_in_time(s, branch, head_at(s.states, branch, x)->0));
        }
    }
}

/// Making a branch with the states of its parent keeps a store sound.
pub proof fn branching_keeps_sound(s: StoreView, p: BranchView, b: BranchView)
    requires
        sound(s),
        s.branches.next_id < u64::MAX,
        by_id(s.branches.branches, p.id) == Some(p),
        b.id.0 == s.branches.next_id,
        b.head == p.head,
        with_branch(s.branches, b).wf(),
    ensures
        sound(
            with_heads(
                with_new_branch(s, b, Some(p.name)),
                heads_copied(s.states.heads, p.id, b.id),
            ),
        ),
        forall|told: Option<Seq<char>>| sound(#[trigger] with_new_branch(s, b, told)),
{
    let now = with_heads(
        with_new_branch(s, b, Some(p.name)),
        heads_copied(s.states.heads, p.id, b.id),
    );
    assert forall|id: Seq<char>| (#[trigger] head_at(s.states, b.id, id)) is None by {
        if head_at(s.states, b.id, id) is Some {
            assert(head_in_time(s, b.id, head_at(s.states, b.id, id)->0));
        }
    }
    assert forall|id: Seq<char>|
        (#[trigger] head_at(now.states, b.id, id)) is Some implies linked(
        s.log.bytes,
        s.updates,
        head_at(now.states, b.id, id)->0.head_offset,
        b.head,
    ) by {
        assert(head_at(s.states, b.id, id) is None);
        assert(head_at(s.states, p.id, id) is Some);
        assert(head_in_time(s, p.id, head_at(s.states, p.id, id)->0));
    }
    lemma_branched(s, now, b);
    assert forall|told: Option<Seq<char>>| sound(#[trigger] with_new_branch(s, b, told)) by {
        lemma_branched(s, with_new_branch(s, b, told), b);
    }
}

proof fn lemma_info_linked(s: StoreView, from: BranchId, id: Seq<char>, at: Sequence)
    requires
        sound(s),
    ensures
        chain_info(s, from, id, at) matches Ok(Some((o, _, _))) ==> linked(
            s.log.bytes,
            s.updates,
            o,
            at,
        ),
{
    let c = chain_of(s, from, id);
    sound_chains(s, from, id);
    lemma_until_newest(s.log.bytes, s.updates, c, at);
}

/// Whether heads taken over by a branch are as they were, or in time.
spec fn taken_in_time(s: StoreView, heads: HeadsView, h: HeadsView, to: BranchId, at: Sequence) -> bool {
    &&& forall|k: (BranchId, Seq<char>)|
        k.0 != to ==> (#[trigger] h.contains_key(k)) == heads.contains_key(k) && h[k] == heads[k]
    &&& forall|id: Seq<char>| #[trigger]
        h.contains_key((to, id)) ==> heads.contains_key((to, id)) || linked(
            s.log.bytes,
            s.updates,
            h[(to, id)].head_offset,
            at,
        )
}

proof fn lemma_heads_at(
    s: StoreView,
    heads: HeadsView,
    from: BranchId,
    at: Sequence,
    ids: Seq<Seq<char>>,
    to: BranchId,
)
    requires
        sound(s),
        heads_at(s, heads, from, at, ids, to) is Ok,
    ensures
        taken_in_time(s, heads, heads_at(s, heads, from, at, ids, to)->Ok_0, to, at),
    decreases ids.len(),
{
    if ids.len() > 0 {
        lemma_heads_at(s, heads, from, at, ids.drop_last(), to);
        lemma_info_linked(s, from, ids.last(), at);
        let h0 = heads_at(s, heads, from, at, ids.drop_last(), to)->Ok_0;
        let h = heads_at(s, heads, from, at, ids, to)->Ok_0;
        assert forall|k: (BranchId, Seq<char>)| k.0 != to implies (#[trigger] h.contains_key(k))
            == heads.contains_key(k) && h[k] == heads[k] by {
            assert(h0.contains_key(k) == heads.contains_key(k));
        }
        assert forall|id: Seq<char>| #[trigger] h.contains_key((to, id)) implies heads.contains_key(
            (to, id),
        ) || linked(s.log.bytes, s.updates, h[(to, id)].head_offset, at) by {
            if h0.contains_key((to, id)) {
            }
        }
    }
}

/// Making a branch at a sequence keeps a store sound.
pub proof fn branching_at_keeps_sound(
    s: StoreView,
    p: BranchView,
    b: BranchView,
    ids: Seq<Seq<char>>,
    told: Option<Seq<char>>,
)
    requires
        sound(s),
        s.branches.next_id < u64::MAX,
        b.id.0 == s.branches.next_id,
        with_branch(s.branches, b).wf(),
        heads_at(s, s.states.heads, p.id, b.head, ids, b.id) is Ok,
    ensures
        sound(
            with_heads(
                with_new_branch(s, b, told),
                heads_at(s, s.states.heads, p.id, b.head, ids, b.id)->Ok_0,
            ),
        ),
{
    let heads = s.states.heads;
    let h = heads_at(s, heads, p.id, b.head, ids, b.id)->Ok_0;
    let now = with_heads(with_new_branch(s, b, told), h);
    lemma_heads_at(s, heads, p.id, b.head, ids, b.id);
    assert forall|branch: BranchId, id: Seq<char>| branch != b.id implies #[trigger] head_at(
        now.states,
        branch,
        id,
    ) == head_at(s.states, branch, id) by {
        assert(h.contains_key((branch, id)) == heads.contains_key((branch, id)));
    }
    assert forall|id: Seq<char>| (#[trigger] head_at(now.states, b.id, id)) is Some implies linked(
        s.log.bytes,
        s.updates,
        head_at(now.states, b.id, id)->0.head_offset,
        b.head,
    ) by {
        if head_at(s.states, b.id, id) is Some {
            assert(head_in_time(s, b.id, head_at(s.states, b.id, id)->0));
        }
        assert(h.contains_key((b.id, id)));
    }
    lemma_branched(s, now, b);
}

/// Deleting a branch keeps a store sound.
pub proof fn deleting_keeps_sound(s: StoreView, now: StoreView, name: Seq<char>)
    requires
        sound(s),
        now.branches == (BranchesView {
            branches: without_name(s.branches.branches, name),
            ..s.branches
        }),
        now.branches.wf(),
        now.log == s.log,
        now.updates == s.updates,
        now.added == s.added,
        now.states == s.states,
    ensures
        sound(now),
{
    assert forall|branch: BranchId, x: Seq<char>|
        (#[trigger] head_at(now.states, branch, x)) is Some implies head_in_time(
        now,
        branch,
        head_at(now.states, branch, x)->0,
    ) by {
        assert(head_in_time(s, branch, head_at(s.states, branch, x)->0));
        lemma_found(now.branches.branches, name, branch);
        if let Some(b) = by_id(now.branches.branches, branch) {
            assert(now.branches.branches.contains(b));
            lemma_left(s.branches.branches, name, b);
            let i = choose|i: int| 0 <= i < s.branches.branches.len() && s.branches.branches[i] == b;
            lemma_branch_at(s.branches, i);
        }
    }
}

/// A store without records and states is sound.
pub proof fn new_store_is_sound(s: StoreView)
    requires
        s.wf(),
        s.added.len() == 0,
        s.updates.len() == 0,
        s.states.heads == HeadsView::empty(),
    ensures
        sound(s),
{
}

/// The newest link that is not newer than a sequence is one of the links.
proof fn lemma_until_newest(b: Seq<u8>, t: TableView, c: ChainView, at: Sequence)
    requires
        readable(c),
        are_links(b, t, c),
    ensures
        until(c, Some(at)).len() > 0 ==> (newest(until(c, Some(at))) matches Some(o) && linked(
            b,
            t,
            o,
            at,
        )),
    decreases c.len(),
{
    if c.len() > 0 {
        let rest = c.skip(1);
        assert forall|i: int| 0 <= i < rest.len() implies (#[trigger] rest[i]) is Ok && link_at(
            b,
            t,
            rest[i]->Ok_0.offset,
        ) == rest[i] by {
            assert(rest[i] == c[i + 1]);
        }
        lemma_until_newest(b, t, rest, at);
        assert(c[0] is Ok && link_at(b, t, c[0]->Ok_0.offset) == c[0]);
    }
}

/// Whether an operation on some state was recorded between two stores, or refused.
pub open spec fn some_recorded<E: Fn(&StateUpdateRecord) -> Result<Vec<u8>, StoreError>>(
    encode: E,
    s: StoreView,
    now: StoreView,
) -> bool {
    exists|id: Seq<char>, op: OperationView, r: Result<RecordView, ErrorView>| #[trigger]
        recorded(encode, s, id, op, now, r)
}

/// Whether some record was appended between two stores.
pub open spec fn some_appended(s: StoreView, now: StoreView) -> bool {
    exists|input: RecordInputView, b: BranchView, ts: Timestamp|
        s.branches.current_branch() == Some(b) && ts.0 >= s.log.last.0 && now == appended(
            s,
            #[trigger] next_record(s, input, b, ts),
            b,
            now.wal,
        )
}

/// Whether a branch was made from another between two stores: without states, with the
/// states of its parent, or with those that its parent had at a sequence.
pub open spec fn branched_from(
    s: StoreView,
    now: StoreView,
    p: BranchView,
    b: BranchView,
    told: Option<Seq<char>>,
) -> bool {
    &&& s.branches.next_id < u64::MAX
    &&& by_id(s.branches.branches, p.id) == Some(p)
    &&& b == new_branch(s.branches, b.name, p.id, b.head, b.created)
    &&& b.head.0 <= p.head.0
    &&& b.created.0 >= s.branches.last.0
    &&& now.branches.wf()
    &&& now == with_new_branch(s, b, told) || (b.head == p.head && now == with_heads(
        with_new_branch(s, b, Some(p.name)),
        heads_copied(s.states.heads, p.id, b.id),
    )) || (heads_at(s, s.states.heads, p.id, b.head, registered(s), b.id) matches Ok(h) && now
        == with_heads(with_new_branch(s, b, told), h))
}

/// Whether some branch was made between two stores.
pub open spec fn some_branched(s: StoreView, now: StoreView) -> bool {
    exists|p: BranchView, b: BranchView, told: Option<Seq<char>>| #[trigger]
        branched_from(s, now, p, b, told)
}

/// Whether some branch was deleted between two stores.
pub open spec fn some_deleted(s: StoreView, now: StoreView) -> bool {
    exists|name: Seq<char>|
        delete_error(s.branches, name) is None && now == #[trigger] with_branch_deleted(s, name)
}

/// Whether a store is another one with another current branch.
pub open spec fn only_switched(s: StoreView, now: StoreView) -> bool {
    now == (StoreView {
        branches: BranchesView { current: now.branches.current, ..s.branches },
        ..s
    })
}

/// Whether a store came from another without a record: by a read that was cached, a switch
/// of the current branch, or by a branch that was made or deleted.
pub open spec fn kept_log(s: StoreView, now: StoreView) -> bool {
    same_but_cache(s, now) || only_switched(s, now) || some_branched(s, now) || some_deleted(s, now)
}

/// Whether a store came from another by recording an operation on a state, by appending a
/// record, or without a record. Taking a snapshot, and compacting a state, is a read and a
/// recorded operation.
pub open spec fn grew<E: Fn(&StateUpdateRecord) -> Result<Vec<u8>, StoreError>>(
    encode: E,
    s: StoreView,
    now: StoreView,
) -> bool {
    &&& now.wf()
    &&& kept_log(s, now) || (s.has_room(1) && (some_recorded(encode, s, now) || some_appended(
        s,
        now,
    )))
}

/// Whether a branch was handed out and, as long as it is there, has reached a sequence.
pub open spec fn has_reached(s: StoreView, branch: BranchId, at: Sequence) -> bool {
    branch.0 < s.branches.next_id && (by_id(s.branches.branches, branch) matches Some(b) ==> at.0
        <= b.head.0)
}

proof fn lemma_heads_of_others(
    s: StoreView,
    heads: HeadsView,
    from: BranchId,
    at: Sequence,
    ids: Seq<Seq<char>>,
    to: BranchId,
    branch: BranchId,
    id: Seq<char>,
)
    requires
        heads_at(s, heads, from, at, ids, to) is Ok,
        branch != to,
    ensures
        ({
            let h = heads_at(s, heads, from, at, ids, to)->Ok_0;
            h.contains_key((branch, id)) == heads.contains_key((branch, id)) && h[(branch, id)]
                == heads[(branch, id)]
        }),
    decreases ids.len(),
{
    if ids.len() > 0 {
        lemma_heads_of_others(s, heads, from, at, ids.drop_last(), to, branch, id);
    }
}

/// Without a record, the branches that there were keep their states, and those that stay
/// are as they were.
pub proof fn step_without_record(
    s: StoreView,
    now: StoreView,
    branch: BranchId,
    id: Seq<char>,
)
    requires
        s.branches.wf(),
        now.wf(),
        kept_log(s, now),
    ensures
        now.log == s.log,
        now.updates == s.updates,
        now.added == s.added,
        now.states.strategies == s.states.strategies,
        s.branches.next_id <= now.branches.next_id,
        branch.0 < s.branches.next_id ==> {
            &&& head_at(now.states, branch, id) == head_at(s.states, branch, id)
            &&& chain_of(now, branch, id) == chain_of(s, branch, id)
            &&& by_id(now.branches.branches, branch) matches Some(x) ==> by_id(
                s.branches.branches,
                branch,
            ) == Some(x)
        },
        sound(s) ==> sound(now),
{
    if same_but_cache(s, now) || only_switched(s, now) {
        if sound(s) {
            assert forall|br: BranchId, x: Seq<char>|
                (#[trigger] head_at(now.states, br, x)) is Some implies head_in_time(
                now,
                br,
                head_at(now.states, br, x)->0,
            ) by {
                assert(head_in_time(s, br, head_at(s.states, br, x)->0));
            }
        }
    } else if some_branched(s, now) {
        let (p, b, told) = choose|p: BranchView, b: BranchView, told: Option<Seq<char>>| #[trigger]
            branched_from(s, now, p, b, told);
        assert(now.branches == with_branch(s.branches, b));
        assert(now.branches.branches.drop_last() =~= s.branches.branches);
        let at_head = with_heads(
            with_new_branch(s, b, Some(p.name)),
            heads_copied(s.states.heads, p.id, b.id),
        );
        if now == with_new_branch(s, b, told) {
        } else if b.head == p.head && now == at_head {
            assert(branch != b.id ==> now.states.heads.contains_key((branch, id))
                == s.states.heads.contains_key((branch, id)));
        } else if branch != b.id {
            lemma_heads_of_others(
                s,
                s.states.heads,
                p.id,
                b.head,
                registered(s),
                b.id,
                branch,
                id,
            );
        }
        if sound(s) {
            if now == with_new_branch(s, b, told) {
                assert forall|x: Seq<char>| (#[trigger] head_at(s.states, b.id, x)) is None by {
                    if head_at(s.states, b.id, x) is Some {
                        assert(head_in_time(s, b.id, head_at(s.states, b.id, x)->0));
                    }
                }
                lemma_branched(s, now, b);
            } else if b.head == p.head && now == at_head {
                branching_keeps_sound(s, p, b);
            } else {
                branching_at_keeps_sound(s, p, b, registered(s), told);
            }
        }
    } else {
        let name = choose|name: Seq<char>|
            delete_error(s.branches, name) is None && now == #[trigger] with_branch_deleted(s, name);
        lemma_found(now.branches.branches, name, branch);
        if let Some(b) = by_id(now.branches.branches, branch) {
            assert(now.branches.branches.contains(b));
            lemma_left(s.branches.branches, name, b);
            let i = choose|i: int| 0 <= i < s.branches.branches.len() && s.branches.branches[i] == b;
            lemma_branch_at(s.branches, i);
        }
        if sound(s) {
            deleting_keeps_sound(s, now, name);
        }
    }
}

/// One step keeps the past of every state: what it was at a sequence that its branch had
/// reached.
pub proof fn step_keeps_past<E: Fn(&StateUpdateRecord) -> Result<Vec<u8>, StoreError>>(
    encode: E,
    s: StoreView,
    now: StoreView,
    branch: BranchId,
    id: Seq<char>,
    at: Sequence,
)
    requires
        sound(s),
        payloads_fit(encode),
        grew(encode, s, now),
        at.0 < u64::MAX,
        has_reached(s, branch, at),
    ensures
        sound(now),
        until(chain_of(now, branch, id), Some(at)) == until(chain_of(s, branch, id), Some(at)),
        state_value_at(now, branch, id, at) == state_value_at(s, branch, id, at),
        has_reached(now, branch, at),
{
    sound_chains(s, branch, id);
    if kept_log(s, now) {
        step_without_record(s, now, branch, id);
    } else if some_recorded(encode, s, now) {
        let (x, op, r) = choose|x: Seq<char>, op: OperationView, r: Result<RecordView, ErrorView>|
            #[trigger] recorded(encode, s, x, op, now, r);
        recording_keeps_sound(encode, s, x, op, now, r);
        if r is Ok {
            let record = r->Ok_0;
            let b = s.branches.current_branch()->0;
            lemma_current(s.branches);
            let (ts, p) = choose|ts: Timestamp, p: Seq<u8>| #[trigger]
                recorded_as(encode, s, x, op, now, record, b, ts, p);
            heads_are_independent(s.branches.branches, b.id, record.sequence, branch);
            if branch == b.id && id == x {
                recorded_operation_keeps_past(encode, s, x, op, now, record, b, at);
            } else {
                recorded_operation_leaves_other_pasts(encode, s, x, op, now, r, branch, id, at);
            }
        }
    } else {
        let (input, b, ts) = choose|input: RecordInputView, b: BranchView, ts: Timestamp|
            s.branches.current_branch() == Some(b) && ts.0 >= s.log.last.0 && now == appended(
                s,
                #[trigger] next_record(s, input, b, ts),
                b,
                now.wal,
            );
        let record = next_record(s, input, b, ts);
        lemma_current(s.branches);
        appending_keeps_sound(s, input, b, ts, now.wal);
        heads_are_independent(s.branches.branches, b.id, record.sequence, branch);
        assert(same_below(s.updates, s.updates, s.log.bytes.len() as int));
        chain_survives_append(
            s.log.bytes,
            s.updates,
            record_bytes(record),
            s.updates,
            match head_at(s.states, branch, id) {
                Some(h) => Some(h.head_offset),
                None => None,
            },
        );
    }
}

/// History is kept ever after: what a state was at a sequence that its branch had reached
/// stays what it was then, however many operations, snapshots, compactions and appends
/// follow, and however many branches are made and deleted.
pub proof fn past_is_kept_ever_after<E: Fn(&StateUpdateRecord) -> Result<Vec<u8>, StoreError>>(
    encode: E,
    run: Seq<StoreView>,
    branch: BranchId,
    id: Seq<char>,
    at: Sequence,
)
    requires
        sound(run[0]),
        payloads_fit(encode),
        is_run(encode, run),
        at.0 < u64::MAX,
        has_reached(run[0], branch, at),
    ensures
        sound(run.last()),
        until(chain_of(run.last(), branch, id), Some(at)) == until(
            chain_of(run[0], branch, id),
            Some(at),
        ),
        state_value_at(run.last(), branch, id, at) == state_value_at(run[0], branch, id, at),
        has_reached(run.last(), branch, at),
    decreases run.len(),
{
    if run.len() > 1 {
        let init = run.drop_last();
        assert forall|i: int| 0 <= i < init.len() - 1 implies grew(
            encode,
            #[trigger] init[i],
            init[i + 1],
        ) by {
            assert(init[i] == run[i] && init[i + 1] == run[i + 1]);
        }
        past_is_kept_ever_after(encode, init, branch, id, at);
        let k = run.len() - 2;
        assert(grew(encode, run[k], run[k + 1]));
        assert(init.last() == run[k]);
        step_keeps_past(encode, run[k], run[k + 1], branch, id, at);
    }
}

/// What a state is now is what a later read at this sequence gives, however many operations,
/// snapshots, compactions and appends follow.
pub proof fn value_now_is_kept<E: Fn(&StateUpdateRecord) -> Result<Vec<u8>, StoreError>>(
    encode: E,
    run: Seq<StoreView>,
    b: BranchView,
    id: Seq<char>,
)
    requires
        sound(run[0]),
        payloads_fit(encode),
        is_run(encode, run),
        by_id(run[0].branches.branches, b.id) == Some(b),
        b.head.0 < u64::MAX,
    ensures
        state_value_at(run.last(), b.id, id, b.head) == state_value(run[0], b.id, id),
{
    lemma_named(run[0].branches, b, b.name, b.id);
    past_is_kept_ever_after(encode, run, b.id, id, b.head);
    value_at_head_is_value(run[0], b, id);
}

/// Whether stores came one from another.
pub open spec fn is_run<E: Fn(&StateUpdateRecord) -> Result<Vec<u8>, StoreError>>(
    encode: E,
    run: Seq<StoreView>,
) -> bool {
    run.len() > 0 && forall|i: int|
        0 <= i < run.len() - 1 ==> grew(encode, #[trigger] run[i], run[i + 1])
}

/// Time does not go back: along any run the last record, and the last branch, get no older.
pub proof fn time_does_not_go_back<E: Fn(&StateUpdateRecord) -> Result<Vec<u8>, StoreError>>(
    encode: E,
    run: Seq<StoreView>,
)
    requires
        is_run(encode, run),
    ensures
        run[0].log.last.0 <= run.last().log.last.0,
        run[0].branches.last.0 <= run.last().branches.last.0,
    decreases run.len(),
{
    if run.len() > 1 {
        let init = run.drop_last();
        assert forall|i: int| 0 <= i < init.len() - 1 implies grew(
            encode,
            #[trigger] init[i],
            init[i + 1],
        ) by {
            assert(init[i] == run[i] && init[i + 1] == run[i + 1]);
        }
        time_does_not_go_back(encode, init);
        let k = run.len() - 2;
        let s = run[k];
        let now = run[k + 1];
        assert(grew(encode, run[k], run[k + 1]));
        assert(init.last() == s);
        if !kept_log(s, now) && some_recorded(encode, s, now) {
            let (x, op, r) = choose|
                x: Seq<char>,
                op: OperationView,
                r: Result<RecordView, ErrorView>,
            | #[trigger]
                recorded(encode, s, x, op, now, r);
            if r is Ok {
                let b = s.branches.current_branch()->0;
                let (ts, p) = choose|ts: Timestamp, p: Seq<u8>| #[trigger]
                    recorded_as(encode, s, x, op, now, r->Ok_0, b, ts, p);
            }
        }
    }
}

/// One step leaves what is on branches other than the current one as it is.
pub proof fn step_keeps_other_branches<E: Fn(&StateUpdateRecord) -> Result<Vec<u8>, StoreError>>(
    encode: E,
    s: StoreView,
    now: StoreView,
    branch: BranchId,
    id: Seq<char>,
)
    requires
        s.wf(),
        grew(encode, s, now),
        branch != s.branches.current,
        branch.0 < s.branches.next_id,
        state_value(s, branch, id) is Ok,
    ensures
        state_value(now, branch, id) == state_value(s, branch, id),
        head_at(now.states, branch, id) == head_at(s.states, branch, id),
        branch.0 < now.branches.next_id,
        by_id(now.branches.branches, branch) matches Some(x) ==> by_id(s.branches.branches, branch)
            == Some(x),
{
    lemma_current(s.branches);
    if kept_log(s, now) {
        step_without_record(s, now, branch, id);
    } else if some_recorded(encode, s, now) {
        let (x, op, r) = choose|x: Seq<char>, op: OperationView, r: Result<RecordView, ErrorView>|
            #[trigger] recorded(encode, s, x, op, now, r);
        recorded_operation_is_local(encode, s, x, op, now, r, branch, id);
        if r is Ok {
            let record = r->Ok_0;
            let b = s.branches.current_branch()->0;
            let (ts, p) = choose|ts: Timestamp, p: Seq<u8>| #[trigger]
                recorded_as(encode, s, x, op, now, record, b, ts, p);
            heads_are_independent(s.branches.branches, b.id, record.sequence, branch);
        }
    } else {
        let (input, b, ts) = choose|input: RecordInputView, b: BranchView, ts: Timestamp|
            s.branches.current_branch() == Some(b) && ts.0 >= s.log.last.0 && now == appended(
                s,
                #[trigger] next_record(s, input, b, ts),
                b,
                now.wal,
            );
        let record = next_record(s, input, b, ts);
        heads_are_independent(s.branches.branches, b.id, record.sequence, branch);
        if let Some(h) = head_at(s.states, branch, id) {
            assert(same_below(s.updates, s.updates, s.log.bytes.len() as int));
            value_survives_append(
                s.log.bytes,
                s.updates,
                record_bytes(record),
                s.updates,
                Some(h.head_offset),
                false,
            );
        }
    }
}

/// Branches stay isolated: while a branch is not the current one, its head and the values of
/// its states stay as they are, however many operations, snapshots, compactions and appends
/// are made on others, and however many branches are made and deleted.
pub proof fn branches_stay_isolated<E: Fn(&StateUpdateRecord) -> Result<Vec<u8>, StoreError>>(
    encode: E,
    run: Seq<StoreView>,
    branch: BranchId,
    id: Seq<char>,
)
    requires
        run[0].wf(),
        is_run(encode, run),
        forall|i: int| 0 <= i < run.len() - 1 ==> (#[trigger] run[i]).branches.current != branch,
        branch.0 < run[0].branches.next_id,
        state_value(run[0], branch, id) is Ok,
    ensures
        state_value(run.last(), branch, id) == state_value(run[0], branch, id),
        head_at(run.last().states, branch, id) == head_at(run[0].states, branch, id),
        branch.0 < run.last().branches.next_id,
        by_id(run.last().branches.branches, branch) matches Some(x) ==> by_id(
            run[0].branches.branches,
            branch,
        ) == Some(x),
    decreases run.len(),
{
    if run.len() > 1 {
        let init = run.drop_last();
        assert forall|i: int| 0 <= i < init.len() - 1 implies grew(
            encode,
            #[trigger] init[i],
            init[i + 1],
        ) by {
            assert(init[i] == run[i] && init[i + 1] == run[i + 1]);
        }
        assert forall|i: int| 0 <= i < init.len() - 1 implies (
        #[trigger] init[i]).branches.current != branch by {
            assert(init[i] == run[i]);
        }
        branches_stay_isolated(encode, init, branch, id);
        let k = run.len() - 2;
        assert(grew(encode, run[k], run[k + 1]));
        assert(init.last() == run[k]);
        if k > 0 {
            assert(grew(encode, run[k - 1], run[k - 1 + 1]));
        }
        step_keeps_other_branches(encode, run[k], run[k + 1], branch, id);
    }
}

pub(crate) proof fn lemma_room_left<E: Fn(&StateUpdateRecord) -> Result<Vec<u8>, StoreError>>(
    encode: E,
    s: StoreView,
    id: Seq<char>,
    op: OperationView,
    now: StoreView,
    r: RecordView,
)
    requires
        s.has_room(2),
        recorded(encode, s, id, op, now, Ok(r)),
    ensures
        now.has_room(1),
{
    let b = s.branches.current_branch()->0;
    let (ts, p) = choose|ts: Timestamp, p: Seq<u8>| #[trigger]
        recorded_as(encode, s, id, op, now, r, b, ts, p);
}

/// Updating a state, with the snapshot that follows, is a run: each store on the way came
/// from the one before.
pub proof fn update_is_a_run<E: Fn(&StateUpdateRecord) -> Result<Vec<u8>, StoreError>>(
    encode: E,
    s: StoreView,
    id: Seq<char>,
    op: OperationView,
    now: StoreView,
    r: Result<RecordView, ErrorView>,
) -> (run: Seq<StoreView>)
    requires
        s.wf(),
        now.wf(),
        s.has_room(2),
        recorded_with_snapshot(encode, s, id, op, now, r),
    ensures
        is_run(encode, run),
        run[0] == s,
        run.last() == now,
{
    if r is Err && recorded(encode, s, id, op, now, r) {
        assert(some_recorded(encode, s, now));
        seq![s, now]
    } else {
        let (mid, record) = choose|mid: StoreView, record: RecordView|
            #![trigger recorded(encode, s, id, op, mid, Ok(record))]
            recorded(encode, s, id, op, mid, Ok(record)) && mid.wf() && (match r {
                Ok(x) => x == record && exists|taken: Option<RecordView>| #[trigger]
                    snapshot_taken(encode, mid, id, now, Ok(taken)),
                Err(e) => snapshot_taken(encode, mid, id, now, Err(e)),
            });
        assert(recorded(encode, s, id, op, mid, Ok(record)));
        assert(some_recorded(encode, s, mid));
        lemma_room_left(encode, s, id, op, mid, record);
        let x = match r {
            Ok(_) => Ok::<Option<RecordView>, ErrorView>(
                choose|taken: Option<RecordView>| #[trigger]
                    snapshot_taken(encode, mid, id, now, Ok(taken)),
            ),
            Err(e) => Err(e),
        };
        assert(snapshot_taken(encode, mid, id, now, x));
        let tail = lemma_snapshot_run(encode, mid, id, now, x);
        let run = seq![s] + tail;
        assert forall|i: int| 0 <= i < run.len() - 1 implies grew(
            encode,
            #[trigger] run[i],
            run[i + 1],
        ) by {
            if i > 0 {
                assert(run[i] == tail[i - 1] && run[i + 1] == tail[i]);
                assert(grew(encode, tail[i - 1], tail[i]));
            } else {
                assert(run[1] == tail[0]);
            }
        }
        run
    }
}

proof fn lemma_snapshot_run<E: Fn(&StateUpdateRecord) -> Result<Vec<u8>, StoreError>>(
    encode: E,
    s: StoreView,
    id: Seq<char>,
    now: StoreView,
    r: Result<Option<RecordView>, ErrorView>,
) -> (run: Seq<StoreView>)
    requires
        s.wf(),
        now.wf(),
        s.has_room(1),
        snapshot_taken(encode, s, id, now, r),
    ensures
        is_run(encode, run),
        run[0] == s,
        run.last() == now,
{
    match s.branches.current_branch() {
        None => seq![s],
        Some(b) => match due_operation(s, b.id, id) {
            None => seq![s],
            Some(Err(e)) => seq![s, now],
            Some(Ok(op)) => {
                let mid = choose|mid: StoreView| #[trigger]
                    same_but_cache(s, mid) && mid.wf() && (match r {
                        Ok(Some(record)) => recorded(encode, mid, id, op, now, Ok(record)),
                        Ok(None) => false,
                        Err(e) => recorded(encode, mid, id, op, now, Err(e)),
                    });
                assert(some_recorded(encode, mid, now));
                seq![s, mid, now]
            },
        },
    }
}

/// A branch made at a sequence has each array and tree state as it was then, in order: with the head
/// that it takes over, its items and its value are those of the parent at that sequence, and
/// it goes on from there as any other branch.
pub proof fn branch_at_is_in_order(
    s: StoreView,
    now: StoreView,
    p: BranchId,
    b: BranchId,
    id: Seq<char>,
    at: Sequence,
    offset: u64,
    n: usize,
    edited: bool,
)
    requires
        sound(s),
        chain_info(s, p, id, at) == Ok::<Option<(u64, usize, bool)>, ErrorView>(
            Some((offset, n, edited)),
        ),
        now.log == s.log,
        now.updates == s.updates,
        now.states.strategies == s.states.strategies,
        head_at(now.states, b, id) == Some(taken_over(offset, n, edited)),
    ensures
        chain_of(now, b, id) == until(chain_of(s, p, id), Some(at)),
        past_items_in_order(s, p, id, at) && n == past_items(s, p, id, at).len() && (strategy_of(
            s.states.strategies,
            id,
        ) matches Some(StrategyView::AppendLog { delta_snapshot_every, full_snapshot_every })
            && delta_snapshot_every > 0) ==> items_in_order(now, b, id) && items_in(now, b, id)
            == past_items(s, p, id, at) && text_in(now, b, id) == past_text(s, p, id, at),
        past_tree_in_order(s, p, id, at) && (strategy_of(s.states.strategies, id) matches Some(
            StrategyView::Tree { .. },
        )) ==> tree_in_order(now, b, id) && tree_in(now, b, id) == past_tree(s, p, id, at),
{
    let c = chain_of(s, p, id);
    let past = until(c, Some(at));
    let from = match head_at(s.states, p, id) {
        Some(h) => Some(h.head_offset),
        None => None,
    };
    sound_chains(s, p, id);
    lemma_until_is_chain(s.log.bytes, s.updates, from, at);
    lemma_until_readable(c, at);
    assert(past.len() > 0);
    assert(past[0] is Ok);
    lemma_kept_ops(past, false);
    lemma_kept_edited(ops_of(past));
    if faithful_items(ops_of(past)) && !edited {
        lemma_unedited(ops_of(past));
    }
}

} // verus!
