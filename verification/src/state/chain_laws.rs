//! Laws of state chains: what they list, what is counted of them, and parts of their items.
use crate::error::ErrorView;
use crate::json::{array_text, json_items};
use crate::records::codec::record_at;
use crate::state::chain::{chain, edited_since, link_at, newest, until, update_at, value_of, value_until, ChainView, LinkView, TableView};
use crate::state::walks::{before_snapshot, bytes_of, chain_stats, counted, full_link, has_full, last_items, ChainStats};
use crate::store::states::{end_of, item_count_of, items_between, part_of};
use crate::tree::tree_of;
use crate::types::{OperationView, Sequence};
use vstd::prelude::*;

verus! {

/// A chain leads from an update to the one before it, as far as it reads; each is older in
/// the log.
pub proof fn chain_leads_back(b: Seq<u8>, t: TableView, from: u64)
    ensures
        ({
            let c = chain(b, t, Some(from));
            &&& c.len() > 0
            &&& c[0] == link_at(b, t, from)
            &&& forall|i: int|
                0 <= i < c.len() - 1 ==> (#[trigger] c[i] matches Ok(l)
                    && l.update.prev_update_offset matches Some(p) && p < l.offset && c[i + 1]
                    == link_at(b, t, p))
            &&& c.last() matches Ok(l) ==> (l.update.prev_update_offset matches Some(p) ==> p
                >= l.offset)
        }),
        chain(b, t, None).len() == 0,
    decreases from,
{
    let c = chain(b, t, Some(from));
    if let Ok(l) = link_at(b, t, from) {
        match l.update.prev_update_offset {
            Some(p) if p < from => {
                chain_leads_back(b, t, p);
                let rest = chain(b, t, Some(p));
                assert(c =~= seq![Ok::<LinkView, ErrorView>(l)] + rest);
                assert forall|i: int| 0 <= i < c.len() - 1 implies (#[trigger] c[i] matches Ok(l)
                    && l.update.prev_update_offset matches Some(p) && p < l.offset && c[i + 1]
                    == link_at(b, t, p)) by {
                    assert(c[i + 1] == rest[i]);
                    if i > 0 {
                        assert(c[i] == rest[i - 1]);
                    }
                }
                assert(c.last() == rest.last());
            },
            _ => {
                assert(chain(b, t, None).len() == 0);
                assert(c =~= seq![Ok::<LinkView, ErrorView>(l)]);
            },
        }
    } else {
        assert(c.last() == c[0]);
    }
}

proof fn lemma_filter_front(c: ChainView, p: spec_fn(Result<LinkView, ErrorView>) -> bool)
    requires
        c.len() > 0,
    ensures
        c.filter(p) == (if p(c[0]) {
            seq![c[0]] + c.skip(1).filter(p)
        } else {
            c.skip(1).filter(p)
        }),
{
    let head = seq![c[0]];
    assert(c =~= head + c.skip(1));
    Seq::filter_distributes_over_add(head, c.skip(1), p);
    reveal(Seq::filter);
    assert(head.drop_last() =~= Seq::empty());
    assert(head.drop_last().filter(p) =~= Seq::empty());
    assert(c.filter(p) =~= (if p(c[0]) {
        seq![c[0]] + c.skip(1).filter(p)
    } else {
        c.skip(1).filter(p)
    }));
}

/// Of the past just the updates up to the sequence are left, that one included, in order.
pub proof fn past_leaves_out_what_is_newer(c: ChainView, at: Sequence)
    ensures
        until(c, Some(at)) == c.filter(
            |l: Result<LinkView, ErrorView>| l is Err || l->Ok_0.sequence.0 <= at.0,
        ),
        until(c, None) == c,
    decreases c.len(),
{
    let p = |l: Result<LinkView, ErrorView>| l is Err || l->Ok_0.sequence.0 <= at.0;
    if c.len() == 0 {
        reveal(Seq::filter);
        assert(c.filter(p) =~= c);
    } else {
        past_leaves_out_what_is_newer(c.skip(1), at);
        lemma_filter_front(c, p);
        assert(seq![c[0]] + c.skip(1) =~= c);
    }
}

/// A chain that was edited holds an update that neither appends nor changes files of a tree,
/// with no snapshot from the newest update on to it.
pub proof fn edit_stands_before_any_snapshot(ops: Seq<OperationView>) -> (i: int)
    requires
        edited_since(ops),
    ensures
        0 <= i < ops.len(),
        !(ops[i] is Append || ops[i] is TreeSet || ops[i] is TreeRemove || ops[i] is TreeBatch),
        forall|j: int|
            0 <= j <= i ==> !((#[trigger] ops[j]) is Snapshot || ops[j] is DeltaSnapshot
                || ops[j] is TreeDeltaSnapshot),
    decreases ops.len(),
{
    if ops[0] is Append || ops[0] is TreeSet || ops[0] is TreeRemove || ops[0] is TreeBatch {
        let rest = ops.skip(1);
        let i = edit_stands_before_any_snapshot(rest);
        assert forall|j: int| 0 <= j <= i + 1 implies !((#[trigger] ops[j]) is Snapshot
            || ops[j] is DeltaSnapshot || ops[j] is TreeDeltaSnapshot) by {
            if j > 0 {
                assert(rest[j - 1] == ops[j]);
            }
        }
        i + 1
    } else {
        0
    }
}

/// A chain with such an update was edited.
pub proof fn edit_is_seen_before_any_snapshot(ops: Seq<OperationView>, i: int)
    requires
        0 <= i < ops.len(),
        !(ops[i] is Append || ops[i] is TreeSet || ops[i] is TreeRemove || ops[i] is TreeBatch),
        forall|j: int|
            0 <= j <= i ==> !((#[trigger] ops[j]) is Snapshot || ops[j] is DeltaSnapshot
                || ops[j] is TreeDeltaSnapshot),
    ensures
        edited_since(ops),
    decreases ops.len(),
{
    assert(!(ops[0] is Snapshot || ops[0] is DeltaSnapshot || ops[0] is TreeDeltaSnapshot));
    if i > 0 {
        let rest = ops.skip(1);
        assert forall|j: int| 0 <= j <= i - 1 implies !((#[trigger] rest[j]) is Snapshot
            || rest[j] is DeltaSnapshot || rest[j] is TreeDeltaSnapshot) by {
            assert(ops[j + 1] == rest[j]);
        }
        assert(rest[i - 1] == ops[i]);
        edit_is_seen_before_any_snapshot(rest, i - 1);
    }
}

/// The size of a chain is that of its links together.
pub proof fn bytes_add_up(a: ChainView, b: ChainView, l: LinkView)
    ensures
        bytes_of(a + b) == bytes_of(a) + bytes_of(b),
        bytes_of(seq![Ok::<LinkView, ErrorView>(l)]) == l.size,
        bytes_of(Seq::empty()) == 0,
    decreases b.len(),
{
    let one = seq![Ok::<LinkView, ErrorView>(l)];
    reveal_with_fuel(bytes_of, 2);
    assert(one.drop_last() =~= Seq::empty());
    assert(bytes_of(Seq::<Result<LinkView, ErrorView>>::empty()) == 0);
    if b.len() > 0 {
        bytes_add_up(a, b.drop_last(), l);
        assert((a + b).drop_last() =~= a + b.drop_last());
    } else {
        assert(a + b =~= a);
    }
}

proof fn lemma_before(c: ChainView, k: int)
    requires
        0 <= k < c.len(),
        c[k] matches Ok(l) && l.update.operation is Snapshot,
        forall|i: int|
            0 <= i < k ==> !(#[trigger] c[i] matches Ok(l) && l.update.operation is Snapshot),
    ensures
        before_snapshot(c) == c.skip(k + 1),
    decreases c.len(),
{
    assert(full_link(c[k]));
    if k > 0 {
        let rest = c.skip(1);
        assert(!full_link(c[0]));
        assert forall|i: int| 0 <= i < k - 1 implies !(#[trigger] rest[i] matches Ok(l)
            && l.update.operation is Snapshot) by {
            assert(rest[i] == c[i + 1]);
        }
        assert(rest[k - 1] == c[k]);
        lemma_before(rest, k - 1);
        assert(rest.skip(k) =~= c.skip(k + 1));
    }
}

proof fn lemma_none_before(c: ChainView)
    requires
        forall|i: int|
            0 <= i < c.len() ==> !(#[trigger] c[i] matches Ok(l)
                && l.update.operation is Snapshot),
    ensures
        before_snapshot(c).len() == 0,
    decreases c.len(),
{
    if c.len() > 0 {
        let rest = c.skip(1);
        assert(!full_link(c[0]));
        assert forall|i: int| 0 <= i < rest.len() implies !(#[trigger] rest[i] matches Ok(l)
            && l.update.operation is Snapshot) by {
            assert(rest[i] == c[i + 1]);
        }
        lemma_none_before(rest);
    }
}

/// The statistics of a chain with a full snapshot: all updates are counted with their bytes,
/// and apart from them those that are older than the newest full snapshot.
pub proof fn statistics_count_what_is_before(c: ChainView, k: int)
    requires
        c.last() is Ok,
        c.len() <= u64::MAX,
        bytes_of(c) <= u64::MAX,
        0 <= k < c.len(),
        c[k] matches Ok(l) && l.update.operation is Snapshot,
        forall|i: int|
            0 <= i < k ==> !(#[trigger] c[i] matches Ok(l) && l.update.operation is Snapshot),
    ensures
        chain_stats(c) matches Ok(stats) && {
            &&& stats.total_operations == c.len()
            &&& stats.operations_before_snapshot == c.len() - k - 1
            &&& stats.total_bytes == bytes_of(c)
            &&& stats.bytes_before_snapshot == bytes_of(c.skip(k + 1))
            &&& stats.has_full_snapshot
        },
{
    lemma_before(c, k);
    assert(full_link(c[k]));
    assert(has_full(c));
    assert(c =~= c.take(k + 1) + c.skip(k + 1));
    bytes_add_up(c.take(k + 1), c.skip(k + 1), c[k]->Ok_0);
}

/// The statistics of a chain without a full snapshot: nothing is before one.
pub proof fn statistics_without_snapshot(c: ChainView)
    requires
        c.len() > 0 ==> c.last() is Ok,
        c.len() <= u64::MAX,
        bytes_of(c) <= u64::MAX,
        forall|i: int|
            0 <= i < c.len() ==> !(#[trigger] c[i] matches Ok(l)
                && l.update.operation is Snapshot),
    ensures
        chain_stats(c) matches Ok(stats) && {
            &&& stats.total_operations == c.len()
            &&& stats.operations_before_snapshot == 0
            &&& stats.total_bytes == bytes_of(c)
            &&& stats.bytes_before_snapshot == 0
            &&& !stats.has_full_snapshot
        },
{
    lemma_none_before(c);
    assert forall|i: int| 0 <= i < c.len() implies !full_link(#[trigger] c[i]) by {}
    assert(before_snapshot(c) =~= Seq::empty());
}

/// A tail holds the last items in their order: as many as are asked for, or all.
pub proof fn tail_ends_with_the_items(items: Seq<Seq<u8>>, n: nat)
    ensures
        last_items(items, n).len() == (if n < items.len() {
            n
        } else {
            items.len()
        }),
        forall|i: int|
            0 <= i < last_items(items, n).len() ==> #[trigger] last_items(items, n)[i]
                == items[items.len() - last_items(items, n).len() + i],
{
}

/// A slice holds the items from its offset on in their order: as many as are asked for, or
/// as there are.
pub proof fn slice_holds_items_from_offset(items: Seq<Seq<u8>>, offset: nat, limit: nat)
    ensures
        ({
            let part = items_between(items, offset as int, limit as int);
            &&& part.len() == (if offset >= items.len() {
                0
            } else if limit < items.len() - offset {
                limit as int
            } else {
                items.len() - offset
            })
            &&& forall|i: int| 0 <= i < part.len() ==> #[trigger] part[i] == items[offset + i]
        }),
{
}

/// A slice of an array that is given as text is the array of the items from its offset on,
/// as many as are asked for or as there are; of no value it is an array without items.
pub proof fn slice_of_a_value_is_an_array(
    v: Seq<u8>,
    items: Seq<Seq<u8>>,
    part: Seq<Seq<u8>>,
    offset: nat,
    limit: nat,
)
    requires
        v.len() > 0,
        json_items(v) == Ok::<Seq<Seq<u8>>, Seq<char>>(items),
        part.len() == (if offset >= items.len() {
            0
        } else if limit < items.len() - offset {
            limit as int
        } else {
            items.len() - offset
        }),
        forall|i: int| 0 <= i < part.len() ==> #[trigger] part[i] == items[offset + i],
    ensures
        part_of(v, offset as int, limit as int) == Ok::<Seq<u8>, ErrorView>(array_text(part)),
        part_of(Seq::empty(), offset as int, limit as int) == Ok::<Seq<u8>, ErrorView>(
            array_text(Seq::empty()),
        ),
{
    assert(items_between(items, offset as int, limit as int) =~= part);
}

/// A tail of an array that is given as text is the array of its last items, as many as are
/// asked for or as there are; of no value it is an array without items.
pub proof fn tail_of_a_value_is_an_array(
    v: Seq<u8>,
    items: Seq<Seq<u8>>,
    tail: Seq<Seq<u8>>,
    count: nat,
)
    requires
        v.len() > 0,
        json_items(v) == Ok::<Seq<Seq<u8>>, Seq<char>>(items),
        tail.len() == (if count < items.len() {
            count
        } else {
            items.len()
        }),
        forall|i: int|
            0 <= i < tail.len() ==> #[trigger] tail[i] == items[items.len() - tail.len() + i],
    ensures
        end_of(v, count) == Ok::<Seq<u8>, ErrorView>(array_text(tail)),
        end_of(Seq::empty(), count) == Ok::<Seq<u8>, ErrorView>(array_text(Seq::empty())),
{
    assert(last_items(items, count) =~= tail);
}

/// The items of an array and the files of a tree are counted; no value has none.
pub proof fn items_are_counted(v: Seq<u8>)
    ensures
        v.len() > 0 && json_items(v) is Ok ==> item_count_of(v, false)
            == json_items(v)->Ok_0.len(),
        v.len() > 0 && tree_of(v) is Ok ==> item_count_of(v, true) == tree_of(v)->Ok_0.len(),
        item_count_of(Seq::empty(), false) == 0,
        item_count_of(Seq::empty(), true) == 0,
{
}

/// The newest link is the first.
pub proof fn newest_is_first(c: ChainView)
    ensures
        c.len() > 0 && c[0] is Ok ==> newest(c) == Some(c[0]->Ok_0.offset),
        c.len() == 0 ==> newest(c) is None,
{
}

/// The value at a sequence is what the updates up to it make; a state without any had none.
pub proof fn past_value_is_made_up_to_the_sequence(c: ChainView, at: Sequence)
    ensures
        ({
            let past = c.filter(
                |l: Result<LinkView, ErrorView>| l is Err || l->Ok_0.sequence.0 <= at.0,
            );
            value_until(c, at) == (if past.len() == 0 {
                Ok(None)
            } else {
                match value_of(past) {
                    Ok(v) => Ok(Some(v)),
                    Err(e) => Err(e),
                }
            })
        }),
{
    past_leaves_out_what_is_newer(c, at);
}

/// There are no statistics of a chain that does not read to its end.
pub proof fn statistics_need_the_whole_chain(c: ChainView, e: ErrorView)
    requires
        c.len() > 0,
        c.last() == Err::<LinkView, ErrorView>(e),
    ensures
        chain_stats(c) == Err::<ChainStats, ErrorView>(e),
{
}

/// Counts are exact as far as they go, and stop at the largest.
pub proof fn counts_stop_at_the_largest(n: nat)
    ensures
        n <= u64::MAX ==> counted(n) == n,
        n > u64::MAX ==> counted(n) == u64::MAX,
{
}

/// A link is the record at its offset with the update that is listed for it; where either is
/// missing there is none.
pub proof fn links_are_records_with_updates(b: Seq<u8>, t: TableView, off: u64)
    ensures
        record_at(b, off as int) matches Err(e) ==> link_at(b, t, off) == Err::<
            LinkView,
            ErrorView,
        >(e),
        record_at(b, off as int) is Ok ==> (link_at(b, t, off) is Ok <==> update_at(
            t,
            off,
        ) is Some),
        link_at(b, t, off) matches Ok(l) ==> {
            &&& l.offset == off
            &&& l.sequence == record_at(b, off as int)->Ok_0.0.sequence
            &&& l.size == record_at(b, off as int)->Ok_0.0.payload.len()
            &&& update_at(t, off) == Some(l.update)
        },
{
}

/// A chain whose newest link does not read gives no value.
pub proof fn broken_chain_gives_no_value(c: ChainView, e: ErrorView)
    requires
        c.len() > 0,
        c[0] == Err::<LinkView, ErrorView>(e),
    ensures
        value_of(c) == Err::<Seq<u8>, ErrorView>(e),
{
}

} // verus!
