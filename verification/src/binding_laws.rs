//! Laws of the values that are exchanged with JavaScript: what is given out reads back as
//! what it was, and pages of records join.
use crate::bindings::{count_from, entry_from, event_word, fetch_count, filter_from, flag, is_js_branch, is_js_change, is_js_entry, is_js_record, is_state_info, link_ids, named_strategy, no_filter, number_of, op_from, ops_from, page_of, parsed_u64, sequence_from, strategy_name, JsBranch, JsRecord, JsStateInfo, JsSubscriptionFilter, JsTreeChange, JsTreeEntry, JsTreeOp};
use crate::state::manager::StateChainHead;
use crate::subscriptions::types::{list_view, EventView};
use crate::text::{decimal, decimal_bytes};
use crate::types::{opt_view, views, BranchView, EntryView, RecordId, RecordView, Sequence, StrategyView, TreeChangeView, TreeOpView};
use vstd::prelude::*;
use vstd::utf8::*;

verus! {

proof fn lemma_digits(n: nat)
    ensures
        decimal(n).len() > 0,
        forall|i: int| 0 <= i < decimal(n).len() ==> '0' <= #[trigger] decimal(n)[i] <= '9',
        decimal_bytes(n).len() == decimal(n).len(),
        forall|i: int|
            0 <= i < decimal(n).len() ==> #[trigger] decimal_bytes(n)[i] == decimal(n)[i] as u8,
        number_of(decimal_bytes(n)) == Some(n),
        48 <= decimal_bytes(n)[0] <= 57,
    decreases n,
{
    reveal_with_fuel(number_of, 2);
    let d = decimal_bytes(n);
    if n >= 10 {
        lemma_digits(n / 10);
        assert(d.drop_last() =~= decimal_bytes(n / 10));
        assert(d[0] == decimal_bytes(n / 10)[0]);
        let t = decimal(n);
        let init = decimal(n / 10);
        assert forall|i: int| 0 <= i < t.len() implies '0' <= #[trigger] t[i] <= '9' by {
            if i < init.len() {
                assert(t[i] == init[i]);
            }
        }
        assert forall|i: int| 0 <= i < t.len() implies #[trigger] d[i] == t[i] as u8 by {
            if i < init.len() {
                assert(t[i] == init[i]);
                assert(d[i] == decimal_bytes(n / 10)[i]);
            }
        }
    } else {
        assert(d.drop_last() =~= Seq::empty());
    }
}

/// The text of an id reads back as the id.
pub proof fn id_text_reads_back(n: u64)
    ensures
        parsed_u64(encode_utf8(decimal(n as nat))) == Some(n),
{
    lemma_digits(n as nat);
    let t = decimal(n as nat);
    assert forall|i: int| 0 <= i < t.len() implies (#[trigger] t[i] as nat) < 128 by {}
    is_ascii_chars_encode_utf8(t);
    assert(encode_utf8(t) =~= decimal_bytes(n as nat));
}

/// A number is read digit by digit, the last one counting once, and nothing but digits is.
pub proof fn numbers_are_read_by_digits(d: Seq<u8>, c: u8)
    ensures
        48 <= c <= 57 ==> (number_of(d) matches Some(n) ==> number_of(d.push(c)) == Some(
            (10 * n + (c - 48)) as nat,
        )),
        !(48 <= c <= 57) ==> number_of(d.push(c)) is None,
        number_of(d) is None ==> number_of(d.push(c)) is None,
{
    assert(d.push(c).drop_last() =~= d);
}

/// Links are read in order, and what is no number is left out.
pub proof fn links_are_read_in_order(texts: Seq<Seq<char>>, text: Seq<char>, n: u64)
    ensures
        link_ids(Seq::empty()).len() == 0,
        parsed_u64(encode_utf8(text)) == Some(n) ==> link_ids(texts.push(text)) == link_ids(
            texts,
        ).push(RecordId(n)),
        parsed_u64(encode_utf8(text)) is None ==> link_ids(texts.push(text)) == link_ids(texts),
        link_ids(texts.push(decimal(n as nat))) == link_ids(texts).push(RecordId(n)),
{
    assert(texts.push(text).drop_last() =~= texts);
    assert(texts.push(decimal(n as nat)).drop_last() =~= texts);
    id_text_reads_back(n);
}

/// A page holds the records from its offset on in their order: as many as are asked for, or
/// as there are.
pub proof fn page_holds_records_from_offset(rs: Seq<RecordView>, offset: nat, limit: nat)
    ensures
        ({
            let p = page_of(rs, offset, limit);
            &&& p.len() == (if offset >= rs.len() {
                0
            } else if limit < rs.len() - offset {
                limit as int
            } else {
                rs.len() - offset
            })
            &&& forall|i: int| 0 <= i < p.len() ==> #[trigger] p[i] == rs[offset + i]
        }),
{
}

/// Pages that follow each other join to one page.
pub proof fn pages_join(rs: Seq<RecordView>, offset: nat, a: nat, b: nat)
    ensures
        page_of(rs, offset, a) + page_of(rs, offset + a, b) == page_of(rs, offset, a + b),
{
    assert(page_of(rs, offset, a) + page_of(rs, offset + a, b) =~= page_of(rs, offset, a + b));
}

/// Enough records are fetched for a page, and no more than it needs.
pub proof fn enough_is_fetched(offset: usize, limit: usize, default: usize)
    ensures
        offset + limit <= usize::MAX ==> fetch_count(offset, limit) == offset + limit,
        offset + limit > usize::MAX ==> fetch_count(offset, limit) == usize::MAX,
        count_from(None, default) == default,
        sequence_from(None) is None,
{
}

/// Sequences, sizes and modes read back as what they were.
pub proof fn numbers_read_back(seq: u64, j: JsTreeEntry, e: EntryView)
    requires
        is_js_entry(j, e),
    ensures
        sequence_from(Some(seq as i64)) == Some(Sequence(seq)),
        entry_from(j) == e,
{
    let size = e.size;
    let mode = e.mode;
    assert((seq as i64) as u64 == seq) by (bit_vector);
    assert((size as i64) as u64 == size) by (bit_vector);
    assert((mode as i32) as u32 == mode) by (bit_vector);
}

/// A record is given out with its fields.
pub proof fn records_are_given_out_whole(j: JsRecord, r: RecordView, k: int)
    requires
        is_js_record(j, r),
    ensures
        parsed_u64(encode_utf8(j.id@)) == Some(r.id.0),
        j.record_type@ == r.record_type,
        j.payload@ == r.payload,
        j.timestamp == r.timestamp.0,
        r.sequence.0 <= i64::MAX ==> j.sequence == r.sequence.0,
        j.caused_by@.len() == r.caused_by.len(),
        j.linked_to@.len() == r.linked_to.len(),
        0 <= k < r.caused_by.len() ==> parsed_u64(encode_utf8(j.caused_by@[k]@)) == Some(
            r.caused_by[k].0,
        ),
        0 <= k < r.linked_to.len() ==> parsed_u64(encode_utf8(j.linked_to@[k]@)) == Some(
            r.linked_to[k].0,
        ),
{
    id_text_reads_back(r.id.0);
    assert(views(j.caused_by@).len() == r.caused_by.len());
    assert(views(j.linked_to@).len() == r.linked_to.len());
    if 0 <= k < r.caused_by.len() {
        id_text_reads_back(r.caused_by[k].0);
        assert(views(j.caused_by@)[k] == j.caused_by@[k]@);
    }
    if 0 <= k < r.linked_to.len() {
        id_text_reads_back(r.linked_to[k].0);
        assert(views(j.linked_to@)[k] == j.linked_to@[k]@);
    }
}

/// A strategy is named, with its frequencies or the usual ones; no other name is one.
pub proof fn strategies_are_named(name: Seq<char>, delta: u64, full: u64)
    ensures
        named_strategy("snapshot"@, None, None) == Some(StrategyView::Snapshot),
        named_strategy("append_log"@, None, None) == Some(
            StrategyView::AppendLog { delta_snapshot_every: 100, full_snapshot_every: 10 },
        ),
        named_strategy("tree"@, None, None) == Some(
            StrategyView::Tree { delta_snapshot_every: 50, full_snapshot_every: 10 },
        ),
        named_strategy("append_log"@, Some(delta as i64), Some(full as i64)) == Some(
            StrategyView::AppendLog { delta_snapshot_every: delta, full_snapshot_every: full },
        ),
        named_strategy("tree"@, Some(delta as i64), Some(full as i64)) == Some(
            StrategyView::Tree { delta_snapshot_every: delta, full_snapshot_every: full },
        ),
        name != "snapshot"@ && name != "append_log"@ && name != "tree"@ ==> named_strategy(
            name,
            Some(delta as i64),
            Some(full as i64),
        ) is None,
        strategy_name(StrategyView::Snapshot) == "snapshot"@,
        strategy_name(
            StrategyView::AppendLog { delta_snapshot_every: delta, full_snapshot_every: full },
        ) == "append_log"@,
        strategy_name(
            StrategyView::Tree { delta_snapshot_every: delta, full_snapshot_every: full },
        ) == "tree"@,
{
    reveal_strlit("snapshot");
    reveal_strlit("append_log");
    reveal_strlit("tree");
    assert("snapshot"@.len() == 8 && "append_log"@.len() == 10 && "tree"@.len() == 4);
    assert((delta as i64) as u64 == delta) by (bit_vector);
    assert((full as i64) as u64 == full) by (bit_vector);
}

/// An operation on a tree sets a file, which then has to be given, or removes one.
pub proof fn tree_operations_are_named(j: JsTreeOp)
    ensures
        op_from(j) is Ok <==> j.op@ == "set"@ && j.entry is Some || j.op@ == "remove"@,
        op_from(j) matches Ok(TreeOpView::SetEntry { path, entry }) ==> j.op@ == "set"@ && path
            == j.path@ && j.entry is Some && entry.blob_hash == j.entry->0.blob_hash@,
        op_from(j) matches Ok(TreeOpView::Remove { path }) ==> j.op@ == "remove"@ && path
            == j.path@,
{
    reveal_strlit("set");
    reveal_strlit("remove");
    assert("set"@.len() == 3 && "remove"@.len() == 6);
}

/// A batch is read in order, or refused for the first operation that is none.
pub proof fn batches_are_read_in_order(js: Seq<JsTreeOp>)
    ensures
        match ops_from(js) {
            Ok(ops) => ops.len() == js.len() && forall|i: int|
                0 <= i < js.len() ==> op_from(#[trigger] js[i]) == Ok::<TreeOpView, Seq<char>>(
                    ops[i],
                ),
            Err(e) => exists|k: int|
                0 <= k < js.len() && op_from(#[trigger] js[k]) == Err::<TreeOpView, Seq<char>>(e)
                    && forall|i: int| 0 <= i < k ==> op_from(#[trigger] js[i]) is Ok,
        },
    decreases js.len(),
{
    if js.len() > 0 {
        let init = js.drop_last();
        batches_are_read_in_order(init);
        assert(js[js.len() - 1] == js.last());
        match ops_from(init) {
            Ok(before) => {
                assert forall|i: int| 0 <= i < init.len() implies op_from(#[trigger] js[i]) == Ok::<
                    TreeOpView,
                    Seq<char>,
                >(before[i]) by {
                    assert(init[i] == js[i]);
                }
            },
            Err(e) => {
                let k = choose|k: int|
                    0 <= k < init.len() && op_from(#[trigger] init[k]) == Err::<
                        TreeOpView,
                        Seq<char>,
                    >(e) && forall|i: int| 0 <= i < k ==> op_from(#[trigger] init[i]) is Ok;
                assert(js[k] == init[k]);
                assert forall|i: int| 0 <= i < k implies op_from(#[trigger] js[i]) is Ok by {
                    assert(init[i] == js[i]);
                }
            },
        }
    }
}

/// A filter asks for nothing that it was not told to ask for, and names what it was given.
pub proof fn filters_ask_for_what_is_told(f: JsSubscriptionFilter)
    ensures
        flag(Some(true)),
        !flag(Some(false)),
        !flag(None),
        ({
            let g = filter_from(f);
            &&& g.include_records <==> f.include_records == Some(true)
            &&& g.include_state_changes <==> f.include_state_changes == Some(true)
            &&& g.include_branch_events <==> f.include_branch_events == Some(true)
            &&& g.record_types == list_view(f.record_types)
            &&& g.state_ids == list_view(f.state_ids)
            &&& g.branch == opt_view(f.branch)
        }),
        !no_filter().include_records,
        !no_filter().include_state_changes,
        !no_filter().include_branch_events,
{
}

/// A branch is given out with its fields.
pub proof fn branches_are_given_out_whole(j: JsBranch, b: BranchView)
    requires
        is_js_branch(j, b),
    ensures
        parsed_u64(encode_utf8(j.id@)) == Some(b.id.0),
        j.name@ == b.name,
        b.head.0 <= i64::MAX ==> j.head == b.head.0,
        j.created == b.created.0,
        j.parent_id is Some <==> b.parent is Some,
        b.parent matches Some(p) ==> parsed_u64(encode_utf8(j.parent_id->0@)) == Some(p.0),
        j.branch_point is Some <==> b.branch_point is Some,
        b.branch_point matches Some(s) ==> s.0 <= i64::MAX ==> j.branch_point == Some(s.0 as i64),
{
    id_text_reads_back(b.id.0);
    if let Some(p) = b.parent {
        id_text_reads_back(p.0);
    }
}

/// A change is given out with its kind, its path, and the entry before and after it.
pub proof fn changes_are_given_out_whole(j: JsTreeChange, c: TreeChangeView)
    requires
        is_js_change(j, c),
    ensures
        c is Added <==> j.old_entry is None,
        c is Removed <==> j.new_entry is None,
        c matches TreeChangeView::Added { path, entry } ==> j.change_type@ == "added"@ && j.path@
            == path && entry_from(j.new_entry->0) == entry,
        c matches TreeChangeView::Removed { path, entry } ==> j.change_type@ == "removed"@
            && j.path@ == path && entry_from(j.old_entry->0) == entry,
        c matches TreeChangeView::Modified { path, old_entry, new_entry } ==> j.change_type@
            == "modified"@ && j.path@ == path && entry_from(j.old_entry->0) == old_entry
            && entry_from(j.new_entry->0) == new_entry,
{
    match c {
        TreeChangeView::Added { entry, .. } => numbers_read_back(0, j.new_entry->0, entry),
        TreeChangeView::Removed { entry, .. } => numbers_read_back(0, j.old_entry->0, entry),
        TreeChangeView::Modified { old_entry, new_entry, .. } => {
            numbers_read_back(0, j.old_entry->0, old_entry);
            numbers_read_back(0, j.new_entry->0, new_entry);
        },
    }
}

/// The information on a state tells its id, its strategy, and what its head counts.
pub proof fn state_information_tells_of_the_head(
    j: JsStateInfo,
    id: Seq<char>,
    strategy: StrategyView,
    head: Option<StateChainHead>,
)
    requires
        is_state_info(j, id, Some(strategy), head),
    ensures
        j.id@ == id,
        strategy is Snapshot ==> j.strategy@ == "snapshot"@,
        strategy is AppendLog ==> j.strategy@ == "append_log"@,
        strategy is Delta ==> j.strategy@ == "delta"@,
        strategy is Tree ==> j.strategy@ == "tree"@,
        strategy is Struct ==> j.strategy@ == "struct"@,
        head matches Some(h) ==> j.item_count == Some(h.item_count as i64) && j.ops_since_snapshot
            == h.ops_since_delta_snapshot as i64,
        head is None ==> j.item_count is None && j.ops_since_snapshot == 0,
{
}

/// Each kind of event has its word.
pub proof fn events_have_their_words(e: EventView)
    ensures
        e is Record ==> event_word(e) == "record"@,
        e is StateSnapshot ==> event_word(e) == "state_snapshot"@,
        e is StateDelta ==> event_word(e) == "state_delta"@,
        e is BranchHead ==> event_word(e) == "branch_head"@,
        e is BranchCreated ==> event_word(e) == "branch_created"@,
        e is BranchDeleted ==> event_word(e) == "branch_deleted"@,
        e is CaughtUp ==> event_word(e) == "caught_up"@,
        e is Dropped ==> event_word(e) == "dropped"@,
{
}

} // verus!
