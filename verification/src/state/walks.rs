//! Walks along a chain that look at single updates: counts, items, tails and deltas.
use crate::error::{ErrorView, StoreError};
use crate::json::{json_items, json_value, parse_items, texts};
use crate::records::log::RecordLog;
use crate::state::chain::{chain, collect_operations, is_delta, is_full, kept, lemma_chain_step, lemma_until_none, read_link, table_wf, until, ChainView, LinkView, TableView, UpdateTable};
use crate::state::laws::{appended_since, direct_items, faithful_items, items_at_snapshot, lemma_appends_only, lemma_direct_plain, lemma_rest_readable, ops_of, readable, reconstruction_matches_direct_items};
use crate::state::operations::{holds_items, items_of, items_step, models, read_items, read_value, reads_items, redact_items, redacted, run_items, runs, whole_value, ItemOp};
use crate::text::same_text;
use crate::tree::unreadable;
use crate::types::{views, OperationView, StateOperation, TreeOp, TreeOpView};
use vstd::prelude::*;
use vstd::string::*;

verus! {

/// Detailed chain statistics for compaction analysis. Counts stop at the largest number.
#[derive(Clone, Copy, Debug)]
pub struct ChainStats {
    /// Total number of operations in the chain.
    pub total_operations: u64,
    /// Operations that are before the most recent full snapshot.
    pub operations_before_snapshot: u64,
    /// Total bytes used by all operations.
    pub total_bytes: u64,
    /// Bytes used by operations before the most recent full snapshot.
    pub bytes_before_snapshot: u64,
    /// Whether the chain has at least one full snapshot.
    pub has_full_snapshot: bool,
}

/// The number as far as it can be counted.
pub open spec fn counted(n: nat) -> u64 {
    if n <= u64::MAX {
        n as u64
    } else {
        u64::MAX
    }
}

/// Sum of the payload sizes of links.
pub open spec fn bytes_of(c: ChainView) -> nat
    decreases c.len(),
{
    if c.len() == 0 {
        0
    } else {
        bytes_of(c.drop_last()) + (match c.last() {
            Ok(l) => l.size,
            Err(_) => 0,
        })
    }
}

/// Whether a link is a full snapshot.
pub open spec fn full_link(l: Result<LinkView, ErrorView>) -> bool {
    l matches Ok(k) && is_full(k.update.operation)
}

/// The links that are older than the most recent full snapshot.
pub open spec fn before_snapshot(c: ChainView) -> ChainView
    decreases c.len(),
{
    if c.len() == 0 {
        c
    } else if full_link(c[0]) {
        c.skip(1)
    } else {
        before_snapshot(c.skip(1))
    }
}

/// Whether a chain has a full snapshot.
pub open spec fn has_full(c: ChainView) -> bool {
    exists|i: int| 0 <= i < c.len() && full_link(#[trigger] c[i])
}

/// The statistics of a chain, or the error of the link that does not read.
pub open spec fn chain_stats(c: ChainView) -> Result<ChainStats, ErrorView> {
    if c.len() > 0 && c.last() is Err {
        Err(c.last()->Err_0)
    } else {
        Ok(
            ChainStats {
                total_operations: counted(c.len()),
                operations_before_snapshot: counted(before_snapshot(c).len()),
                total_bytes: counted(bytes_of(c)),
                bytes_before_snapshot: counted(bytes_of(before_snapshot(c))),
                has_full_snapshot: has_full(c),
            },
        )
    }
}

proof fn lemma_before_push(c: ChainView, l: Result<LinkView, ErrorView>)
    ensures
        has_full(c.push(l)) == (has_full(c) || full_link(l)),
        has_full(c) ==> before_snapshot(c.push(l)) == before_snapshot(c).push(l),
        !has_full(c) ==> before_snapshot(c.push(l)) == Seq::<Result<LinkView, ErrorView>>::empty(),
        !has_full(c) ==> before_snapshot(c) == Seq::<Result<LinkView, ErrorView>>::empty(),
    decreases c.len(),
{
    let more = c.push(l);
    if has_full(c) {
        let i = choose|i: int| 0 <= i < c.len() && full_link(c[i]);
        assert(more[i] == c[i]);
    }
    if full_link(l) {
        assert(more[c.len() as int] == l);
    }
    if has_full(more) {
        let i = choose|i: int| 0 <= i < more.len() && full_link(more[i]);
        if i < c.len() {
            assert(c[i] == more[i]);
        }
    }
    if c.len() == 0 {
        reveal_with_fuel(before_snapshot, 2);
        assert(more.skip(1) =~= Seq::empty());
        assert(c =~= Seq::empty());
    } else {
        assert(more[0] == c[0]);
        assert(more.skip(1) =~= c.skip(1).push(l));
        lemma_before_push(c.skip(1), l);
        if !full_link(c[0]) {
            if has_full(c) {
                let i = choose|i: int| 0 <= i < c.len() && full_link(c[i]);
                assert(c.skip(1)[i - 1] == c[i]);
            }
            if has_full(c.skip(1)) {
                let i = choose|i: int| 0 <= i < c.skip(1).len() && full_link(c.skip(1)[i]);
                assert(c[i + 1] == c.skip(1)[i]);
            }
        } else {
            assert(full_link(c[0]));
        }
    }
}

/// Counts the operations of the chain from a head.
pub fn count_operations(log: &RecordLog, updates: &UpdateTable, head: u64) -> (r: Result<
    ChainStats,
    StoreError,
>)
    requires
        table_wf(updates@),
    ensures
        match r {
            Ok(s) => chain_stats(chain(log@.bytes, updates@, Some(head))) == Ok::<
                ChainStats,
                ErrorView,
            >(s),
            Err(e) => chain_stats(chain(log@.bytes, updates@, Some(head))) == Err::<
                ChainStats,
                ErrorView,
            >(e@),
        },
{
    let ghost b = log@.bytes;
    let ghost t = updates@;
    let ghost all = chain(b, t, Some(head));
    let ghost mut seen: ChainView = Seq::empty();
    let mut stats = ChainStats {
        total_operations: 0,
        operations_before_snapshot: 0,
        total_bytes: 0,
        bytes_before_snapshot: 0,
        has_full_snapshot: false,
    };
    let mut cur: Option<u64> = Some(head);
    assert(seen + all =~= all);
    while cur.is_some()
        invariant
            table_wf(updates@),
            b == log@.bytes,
            t == updates@,
            all == chain(b, t, Some(head)),
            all == seen + chain(b, t, cur),
            stats == (ChainStats {
                total_operations: counted(seen.len()),
                operations_before_snapshot: counted(before_snapshot(seen).len()),
                total_bytes: counted(bytes_of(seen)),
                bytes_before_snapshot: counted(bytes_of(before_snapshot(seen))),
                has_full_snapshot: has_full(seen),
            }),
            seen.len() > 0 ==> seen.last() is Ok,
        decreases
                (match cur {
                    Some(off) => off + 1,
                    None => 0,
                }),
    {
        let offset: u64 = cur.unwrap();
        proof {
            lemma_chain_step(b, t, offset);
        }
        match read_link(log, updates, offset) {
            Err(e) => {
                assert(all.last() == chain(b, t, cur)[0]);
                return Err(e);
            },
            Ok((_, size, update)) => {
                let ghost l = link_here(b, t, offset);
                let ghost older = before_snapshot(seen);
                stats.total_operations = stats.total_operations.saturating_add(1);
                stats.total_bytes = stats.total_bytes.saturating_add(size);
                if stats.has_full_snapshot {
                    stats.operations_before_snapshot =
                    stats.operations_before_snapshot.saturating_add(1);
                    stats.bytes_before_snapshot = stats.bytes_before_snapshot.saturating_add(size);
                }
                if let StateOperation::Snapshot(_) = &update.operation {
                    stats.has_full_snapshot = true;
                }
                proof {
                    lemma_before_push(seen, l);
                    assert(seen.push(l).drop_last() =~= seen);
                    assert(older.push(l).drop_last() =~= older);
                    assert(all =~= seen.push(l) + chain(b, t, update.prev_update_offset));
                    seen = seen.push(l);
                }
                cur = update.prev_update_offset;
            },
        }
    }
    proof {
        assert(all =~= seen);
    }
    Ok(stats)
}

/// The link at an offset.
spec fn link_here(b: Seq<u8>, t: TableView, off: u64) -> Result<LinkView, ErrorView> {
    crate::state::chain::link_at(b, t, off)
}

/// One operation on a list of items: a value that is set starts the list anew, and what is
/// no operation on items changes nothing.
pub open spec fn item_list_step(items: Seq<Seq<u8>>, op: OperationView) -> Result<
    Seq<Seq<u8>>,
    ErrorView,
> {
    match op {
        OperationView::Append(v) => match json_value(v) {
            Ok(t) => Ok(items.push(t)),
            Err(e) => Err(unreadable(e)),
        },
        OperationView::Snapshot(d) => match json_items(d) {
            Ok(more) => Ok(items + more),
            Err(e) => Err(unreadable(e)),
        },
        OperationView::DeltaSnapshot(d) => match json_items(d) {
            Ok(more) => Ok(items + more),
            Err(e) => Err(unreadable(e)),
        },
        OperationView::Redact { start, end } => Ok(redacted(items, start as nat, end as nat)),
        OperationView::Edit { index, new_value } => if index < items.len() {
            match json_value(new_value) {
                Ok(t) => Ok(items.update(index as int, t)),
                Err(e) => Err(unreadable(e)),
            }
        } else {
            Ok(items)
        },
        _ => match whole_value(op) {
            Some(v) => items_of(v),
            None => Ok(items),
        },
    }
}

/// The items that operations make, in order.
pub open spec fn item_list(ops: Seq<OperationView>) -> Result<Seq<Seq<u8>>, ErrorView>
    decreases ops.len(),
{
    if ops.len() == 0 {
        Ok(Seq::empty())
    } else {
        match item_list(ops.drop_last()) {
            Err(e) => Err(e),
            Ok(items) => item_list_step(items, ops.last()),
        }
    }
}

/// The items that a chain gives.
pub open spec fn chain_items(c: ChainView) -> Result<Seq<Seq<u8>>, ErrorView> {
    match kept(c, false) {
        Err(e) => Err(e),
        Ok(ops) => item_list(ops.reverse()),
    }
}

fn read_texts(data: &Vec<u8>) -> (r: Result<Vec<Vec<u8>>, StoreError>)
    ensures
        match r {
            Ok(v) => json_items(data@) == Ok::<Seq<Seq<u8>>, Seq<char>>(texts(v@)),
            Err(e) => json_items(data@) is Err && e@ == unreadable(json_items(data@)->Err_0),
        },
        forall|items: Seq<Seq<u8>>| #[trigger]
            reads_items(data@, items) ==> r is Ok && texts(r->Ok_0@) == items,
{
    match parse_items(data.as_slice()) {
        Ok(v) => Ok(v),
        Err(e) => Err(StoreError::Deserialization(e)),
    }
}

fn step_items(items: &mut Vec<Vec<u8>>, op: &StateOperation) -> (r: Result<(), StoreError>)
    ensures
        match r {
            Ok(_) => item_list_step(texts(old(items)@), op@) == Ok::<Seq<Seq<u8>>, ErrorView>(
                texts(final(items)@),
            ),
            Err(e) => item_list_step(texts(old(items)@), op@) == Err::<Seq<Seq<u8>>, ErrorView>(
                e@,
            ),
        },
        forall|m: ItemOp| #[trigger]
            models(op@, m) && (op@ is Snapshot ==> old(items)@.len() == 0) ==> r is Ok && texts(
                final(items)@,
            ) == items_step(texts(old(items)@), m),
{
    let ghost before = texts(items@);
    proof {
        assert forall|m: ItemOp| #[trigger] models(op@, m) implies (m matches ItemOp::Full {
            text,
            items: x,
        } ==> reads_items(text, x) && holds_items(text, x)) && (m matches ItemOp::More(x) ==> (
        op@ matches OperationView::DeltaSnapshot(d) && reads_items(d, x))) by {}
    }
    match op {
        StateOperation::Append(v) => {
            match read_value(v) {
                Ok(t) => {
                    items.push(t);
                    assert(texts(items@) =~= before.push(t@));
                    Ok(())
                },
                Err(e) => Err(e),
            }
        },
        StateOperation::Snapshot(d) | StateOperation::DeltaSnapshot(d) => {
            match read_texts(d) {
                Ok(more) => {
                    let ghost added = texts(more@);
                    let mut tail = more;
                    items.append(&mut tail);
                    assert(texts(items@) =~= before + added);
                    Ok(())
                },
                Err(e) => Err(e),
            }
        },
        StateOperation::Redact { start, end } => {
            redact_items(items, *start, *end);
            Ok(())
        },
        StateOperation::Edit { index, new_value } => {
            if *index < items.len() {
                match read_value(new_value) {
                    Ok(t) => {
                        let ghost text = t@;
                        items.set(*index, t);
                        assert(texts(items@) =~= before.update(*index as int, text));
                        Ok(())
                    },
                    Err(e) => Err(e),
                }
            } else {
                Ok(())
            }
        },
        StateOperation::SetValue(v) | StateOperation::Delta { new_value: v, .. } => {
            match read_items(v) {
                Ok(all) => {
                    *items = all;
                    Ok(())
                },
                Err(e) => Err(e),
            }
        },
        _ => Ok(()),
    }
}

/// The items of the chain from a head, oldest first.
pub fn collect_items(log: &RecordLog, updates: &UpdateTable, head: u64) -> (r: Result<
    Vec<Vec<u8>>,
    StoreError,
>)
    requires
        table_wf(updates@),
    ensures
        match r {
            Ok(v) => chain_items(chain(log@.bytes, updates@, Some(head))) == Ok::<
                Seq<Seq<u8>>,
                ErrorView,
            >(texts(v@)),
            Err(e) => chain_items(chain(log@.bytes, updates@, Some(head))) == Err::<
                Seq<Seq<u8>>,
                ErrorView,
            >(e@),
        },
        ({
            let c = chain(log@.bytes, updates@, Some(head));
            readable(c) && faithful_items(ops_of(c)) && c.len() > 0 ==> r is Ok && texts(
                r->Ok_0@,
            ) == direct_items(ops_of(c))
        }),
{
    let ghost c = chain(log@.bytes, updates@, Some(head));
    let ghost in_order = readable(c) && faithful_items(ops_of(c)) && c.len() > 0;
    let ghost mut ms: Seq<ItemOp> = Seq::empty();
    proof {
        lemma_until_none(c);
        lemma_full_is_oldest(c, false);
        if in_order {
            reconstruction_matches_direct_items(c);
            let (kept_ops, found) = choose|ops: Seq<OperationView>, ms: Seq<ItemOp>|
                kept(c, false) == Ok::<Seq<OperationView>, ErrorView>(ops) && #[trigger] runs(
                    ops.reverse(),
                    ms,
                ) && run_items(ms) == direct_items(ops_of(c));
            ms = found;
        }
    }
    let ops = match collect_operations(log, updates, head, None) {
        Ok((_, ops)) => ops,
        Err(e) => return Err(e),
    };
    let ghost all = views(ops@);
    assert(all.reverse().reverse() =~= all);
    let mut items: Vec<Vec<u8>> = Vec::new();
    let mut i: usize = 0;
    assert(all.take(0) =~= Seq::empty());
    assert(texts(items@) =~= Seq::empty());
    assert(ms.take(0) =~= Seq::empty());
    while i < ops.len()
        invariant
            i <= ops@.len(),
            all == views(ops@),
            all.reverse().reverse() == all,
            c == chain(log@.bytes, updates@, Some(head)),
            kept(c, false) == Ok::<Seq<OperationView>, ErrorView>(all.reverse()),
            in_order == (readable(c) && faithful_items(ops_of(c)) && c.len() > 0),
            in_order ==> runs(all, ms) && run_items(ms) == direct_items(ops_of(c)) && texts(
                items@,
            ) == run_items(ms.take(i as int)),
            forall|k: int| 0 < k < all.len() ==> !is_full(#[trigger] all[k]),
            item_list(all.take(i as int)) == Ok::<Seq<Seq<u8>>, ErrorView>(texts(items@)),
        decreases ops@.len() - i,
    {
        proof {
            assert(all.take(i + 1).drop_last() =~= all.take(i as int));
            assert(all.take(i + 1).last() == ops@[i as int]@);
            lemma_item_list_stop(all, i + 1);
            if in_order {
                assert(models(all[i as int], ms[i as int]));
                assert(ms.take(i + 1).drop_last() =~= ms.take(i as int));
                assert(ms.take(i + 1).last() == ms[i as int]);
            }
        }
        match step_items(&mut items, &ops[i]) {
            Ok(_) => {},
            Err(e) => {
                return Err(e);
            },
        }
        i += 1;
    }
    assert(all.take(i as int) =~= all);
    assert(in_order ==> ms.take(i as int) =~= ms);
    Ok(items)
}

/// The operations that are kept of a chain hold a full snapshot at their end at most.
proof fn lemma_full_is_oldest(c: ChainView, hit: bool)
    ensures
        kept(c, hit) matches Ok(ops) ==> forall|k: int|
            0 <= k < ops.len() - 1 ==> !is_full(#[trigger] ops[k]),
    decreases c.len(),
{
    if c.len() > 0 && c[0] is Ok {
        let op = c[0]->Ok_0.update.operation;
        lemma_full_is_oldest(c.skip(1), hit);
        lemma_full_is_oldest(c.skip(1), hit || is_delta(op));
        if let Ok(ops) = kept(c, hit) {
            assert forall|k: int| 0 <= k < ops.len() - 1 implies !is_full(#[trigger] ops[k]) by {
                if !is_full(op) && (is_delta(op) || !hit) {
                    let rest = kept(c.skip(1), hit || is_delta(op))->Ok_0;
                    assert(ops =~= seq![op] + rest);
                    if k > 0 {
                        assert(ops[k] == rest[k - 1]);
                    }
                }
            }
        }
    }
}

proof fn lemma_item_list_stop(ops: Seq<OperationView>, n: int)
    requires
        0 <= n <= ops.len(),
    ensures
        item_list(ops.take(n)) is Err ==> item_list(ops) == item_list(ops.take(n)),
    decreases ops.len() - n,
{
    if n < ops.len() {
        lemma_item_list_stop(ops, n + 1);
        assert(ops.take(n + 1).drop_last() =~= ops.take(n));
    } else {
        assert(ops.take(n) =~= ops);
    }
}

/// The last `n` items, or all where there are fewer.
pub open spec fn last_items(items: Seq<Seq<u8>>, n: nat) -> Seq<Seq<u8>> {
    if n < items.len() {
        items.skip(items.len() - n)
    } else {
        items
    }
}

/// What a walk from the newest update finds of the last `count` items, `got` being those
/// found so far, newest last. `hit` says that a delta snapshot already covers the single
/// updates that follow. Nothing is found where an update does more than add items.
pub open spec fn tail_of(c: ChainView, count: nat, got: Seq<Seq<u8>>, hit: bool) -> Result<
    Option<Seq<Seq<u8>>>,
    ErrorView,
>
    decreases c.len(),
{
    if c.len() == 0 || got.len() >= count {
        Ok(Some(got))
    } else {
        match c[0] {
            Err(e) => Err(e),
            Ok(l) => {
                let need = (count - got.len()) as nat;
                match l.update.operation {
                    OperationView::Snapshot(d) => match json_items(d) {
                        Err(e) => Err(unreadable(e)),
                        Ok(items) => Ok(Some(last_items(items, need) + got)),
                    },
                    OperationView::DeltaSnapshot(d) => match json_items(d) {
                        Err(e) => Err(unreadable(e)),
                        Ok(items) => tail_of(
                            c.skip(1),
                            count,
                            last_items(items, need) + got,
                            true,
                        ),
                    },
                    OperationView::Append(v) => if hit {
                        tail_of(c.skip(1), count, got, hit)
                    } else {
                        match json_value(v) {
                            Err(e) => Err(unreadable(e)),
                            Ok(t) => tail_of(c.skip(1), count, seq![t] + got, hit),
                        }
                    },
                    _ => if hit {
                        tail_of(c.skip(1), count, got, hit)
                    } else {
                        Ok(None)
                    },
                }
            },
        }
    }
}

/// The last `n` of some texts, or all.
pub fn keep_last(items: Vec<Vec<u8>>, n: usize) -> (r: Vec<Vec<u8>>)
    ensures
        texts(r@) == last_items(texts(items@), n as nat),
{
    let mut items = items;
    let ghost all = texts(items@);
    if n < items.len() {
        let from: usize = items.len() - n;
        let tail = items.split_off(from);
        assert(texts(tail@) =~= all.skip(from as int));
        return tail;
    }
    items
}

/// Whether a chain reads and is the faithful chain of an array state.
pub open spec fn faithful_chain(c: ChainView) -> bool {
    readable(c) && faithful_items(ops_of(c))
}

/// The items that a walk has still ahead.
spec fn items_ahead(c: ChainView, hit: bool) -> Seq<Seq<u8>> {
    if hit {
        items_at_snapshot(ops_of(c))
    } else {
        direct_items(ops_of(c))
    }
}

/// Where a walk for the last `count` of `all` stands when it has found `got`.
spec fn tail_found(
    all: Seq<Seq<u8>>,
    count: nat,
    got: Seq<Seq<u8>>,
    c: ChainView,
    hit: bool,
) -> bool {
    &&& got.len() < count ==> all == items_ahead(c, hit) + got
    &&& got.len() >= count ==> got == last_items(all, count)
}

proof fn lemma_take_more(
    all: Seq<Seq<u8>>,
    ahead: Seq<Seq<u8>>,
    items: Seq<Seq<u8>>,
    got: Seq<Seq<u8>>,
    count: nat,
)
    requires
        got.len() < count,
        all == (ahead + items) + got,
    ensures
        ({
            let now = last_items(items, (count - got.len()) as nat) + got;
            &&& now.len() < count ==> all == ahead + now
            &&& now.len() >= count ==> now == last_items(all, count)
            &&& ahead.len() == 0 ==> now == last_items(all, count)
        }),
{
    let need = (count - got.len()) as nat;
    let now = last_items(items, need) + got;
    if need < items.len() {
        assert(now =~= last_items(all, count));
    } else {
        assert(all =~= ahead + now);
        if now.len() >= count || ahead.len() == 0 {
            assert(now =~= last_items(all, count));
        }
    }
}

/// Walks back from the newest update until the last `count` items are found; nothing where
/// the value has to be rebuilt to know them.
pub fn walk_tail(log: &RecordLog, updates: &UpdateTable, head: u64, count: usize) -> (r: Result<
    Option<Vec<Vec<u8>>>,
    StoreError,
>)
    requires
        table_wf(updates@),
    ensures
        ({
            let found = tail_of(
                chain(log@.bytes, updates@, Some(head)),
                count as nat,
                Seq::empty(),
                false,
            );
            match r {
                Ok(Some(v)) => found == Ok::<Option<Seq<Seq<u8>>>, ErrorView>(Some(texts(v@))),
                Ok(None) => found == Ok::<Option<Seq<Seq<u8>>>, ErrorView>(None),
                Err(e) => found == Err::<Option<Seq<Seq<u8>>>, ErrorView>(e@),
            }
        }),
        faithful_chain(chain(log@.bytes, updates@, Some(head))) ==> match r {
            Ok(Some(v)) => texts(v@) == last_items(
                direct_items(ops_of(chain(log@.bytes, updates@, Some(head)))),
                count as nat,
            ),
            Ok(None) => true,
            Err(_) => false,
        },
{
    let ghost b = log@.bytes;
    let ghost t = updates@;
    let ghost found = tail_of(chain(b, t, Some(head)), count as nat, Seq::empty(), false);
    let mut got: Vec<Vec<u8>> = Vec::new();
    let mut hit: bool = false;
    let mut cur: Option<u64> = Some(head);
    assert(texts(got@) =~= Seq::empty());
    let ghost whole = chain(b, t, Some(head));
    let ghost all = direct_items(ops_of(whole));
    assert(all + texts(got@) =~= all);
    assert(count == 0 ==> texts(got@) =~= last_items(all, 0));
    while cur.is_some() && got.len() < count
        invariant
            table_wf(updates@),
            b == log@.bytes,
            t == updates@,
            found == tail_of(chain(b, t, Some(head)), count as nat, Seq::empty(), false),
            found == tail_of(chain(b, t, cur), count as nat, texts(got@), hit),
            whole == chain(b, t, Some(head)),
            all == direct_items(ops_of(whole)),
            faithful_chain(whole) ==> faithful_chain(chain(b, t, cur)) && tail_found(
                all,
                count as nat,
                texts(got@),
                chain(b, t, cur),
                hit,
            ),
        decreases
                (match cur {
                    Some(off) => off + 1,
                    None => 0,
                }),
    {
        let offset: u64 = cur.unwrap();
        let ghost before = texts(got@);
        proof {
            lemma_chain_step(b, t, offset);
            assert(before.len() == got@.len());
            if faithful_chain(whole) {
                lemma_rest_readable(chain(b, t, cur));
                lemma_direct_plain(ops_of(chain(b, t, cur)).skip(1));
            }
        }
        let ghost c = chain(b, t, cur);
        let ghost rest = ops_of(c).skip(1);
        let update = match read_link(log, updates, offset) {
            Err(e) => return Err(e),
            Ok((_, _, update)) => update,
        };
        match &update.operation {
            StateOperation::Snapshot(d) => {
                assert(faithful_chain(whole) ==> reads_items(d@, direct_items(rest)));
                let items = match read_texts(d) {
                    Ok(items) => items,
                    Err(e) => return Err(e),
                };
                let need: usize = count - got.len();
                let mut front = keep_last(items, need);
                let ghost added = texts(front@);
                front.append(&mut got);
                assert(texts(front@) =~= added + before);
                proof {
                    if faithful_chain(whole) {
                        assert(Seq::<Seq<u8>>::empty() + direct_items(rest) =~= direct_items(rest));
                        lemma_take_more(all, Seq::empty(), direct_items(rest), before, count as nat);
                    }
                }
                return Ok(Some(front));
            },
            StateOperation::DeltaSnapshot(d) => {
                assert(faithful_chain(whole) ==> reads_items(d@, appended_since(rest)));
                let items = match read_texts(d) {
                    Ok(items) => items,
                    Err(e) => return Err(e),
                };
                let need: usize = count - got.len();
                let mut front = keep_last(items, need);
                let ghost added = texts(front@);
                front.append(&mut got);
                assert(texts(front@) =~= added + before);
                proof {
                    if faithful_chain(whole) {
                        lemma_appends_only(rest);
                        lemma_take_more(
                            all,
                            items_at_snapshot(rest),
                            appended_since(rest),
                            before,
                            count as nat,
                        );
                    }
                }
                got = front;
                hit = true;
            },
            StateOperation::Append(v) => {
                if !hit {
                    let item = match read_value(v) {
                        Ok(item) => item,
                        Err(e) => return Err(e),
                    };
                    let ghost text = item@;
                    let mut front: Vec<Vec<u8>> = Vec::new();
                    front.push(item);
                    front.append(&mut got);
                    assert(texts(front@) =~= seq![text] + before);
                    proof {
                        if faithful_chain(whole) {
                            assert(direct_items(rest).push(text) =~= direct_items(rest) + seq![
                                text,
                            ]);
                            lemma_take_more(
                                all,
                                direct_items(rest),
                                seq![text],
                                before,
                                count as nat,
                            );
                            assert(last_items(seq![text], (count - before.len()) as nat) =~= seq![
                                text,
                            ]);
                        }
                    }
                    got = front;
                }
            },
            _ => {
                if !hit {
                    return Ok(None);
                }
            },
        }
        cur = update.prev_update_offset;
    }
    proof {
        if faithful_chain(whole) && got@.len() < count {
            assert(items_ahead(chain(b, t, None), hit) =~= Seq::empty());
            assert(all =~= texts(got@));
        }
    }
    Ok(Some(got))
}

/// The items appended since the last snapshot, oldest first.
pub open spec fn delta_items(c: ChainView) -> Result<Seq<Seq<u8>>, ErrorView>
    decreases c.len(),
{
    if c.len() == 0 {
        Ok(Seq::empty())
    } else {
        match c[0] {
            Err(e) => Err(e),
            Ok(l) => match l.update.operation {
                OperationView::Snapshot(_) => Ok(Seq::empty()),
                OperationView::DeltaSnapshot(_) => Ok(Seq::empty()),
                OperationView::Append(v) => match json_value(v) {
                    Err(e) => Err(unreadable(e)),
                    Ok(t) => match delta_items(c.skip(1)) {
                        Err(e) => Err(e),
                        Ok(items) => Ok(items.push(t)),
                    },
                },
                _ => delta_items(c.skip(1)),
            },
        }
    }
}

spec fn behind(r: Result<Seq<Seq<u8>>, ErrorView>, newer: Seq<Seq<u8>>) -> Result<
    Seq<Seq<u8>>,
    ErrorView,
> {
    match r {
        Ok(items) => Ok(items + newer),
        Err(e) => Err(e),
    }
}

/// Gathers the items appended since the last snapshot.
pub fn collect_delta_items(log: &RecordLog, updates: &UpdateTable, head: u64) -> (r: Result<
    Vec<Vec<u8>>,
    StoreError,
>)
    requires
        table_wf(updates@),
    ensures
        match r {
            Ok(v) => delta_items(chain(log@.bytes, updates@, Some(head))) == Ok::<
                Seq<Seq<u8>>,
                ErrorView,
            >(texts(v@)),
            Err(e) => delta_items(chain(log@.bytes, updates@, Some(head))) == Err::<
                Seq<Seq<u8>>,
                ErrorView,
            >(e@),
        },
        faithful_chain(chain(log@.bytes, updates@, Some(head))) ==> r is Ok && texts(r->Ok_0@)
            == appended_since(ops_of(chain(log@.bytes, updates@, Some(head)))),
{
    let ghost b = log@.bytes;
    let ghost t = updates@;
    let ghost all = delta_items(chain(b, t, Some(head)));
    let mut newer: Vec<Vec<u8>> = Vec::new();
    let mut cur: Option<u64> = Some(head);
    let mut done: bool = false;
    proof {
        assert(texts(newer@) =~= Seq::empty());
        if let Ok(items) = all {
            assert(items + texts(newer@) =~= items);
        }
    }
    let ghost whole = chain(b, t, Some(head));
    let ghost want = appended_since(ops_of(whole));
    assert(want + texts(newer@) =~= want);
    while !done && cur.is_some()
        invariant
            table_wf(updates@),
            b == log@.bytes,
            t == updates@,
            all == delta_items(chain(b, t, Some(head))),
            done ==> all == Ok::<Seq<Seq<u8>>, ErrorView>(texts(newer@)),
            !done ==> all == behind(delta_items(chain(b, t, cur)), texts(newer@)),
            whole == chain(b, t, Some(head)),
            want == appended_since(ops_of(whole)),
            faithful_chain(whole) && done ==> texts(newer@) == want,
            faithful_chain(whole) && !done ==> faithful_chain(chain(b, t, cur)) && want
                == appended_since(ops_of(chain(b, t, cur))) + texts(newer@),
        decreases
                (if done {
                    0int
                } else {
                    match cur {
                        Some(off) => off + 2,
                        None => 1,
                    }
                }),
    {
        let offset: u64 = cur.unwrap();
        let ghost before = texts(newer@);
        proof {
            lemma_chain_step(b, t, offset);
            if faithful_chain(whole) {
                lemma_rest_readable(chain(b, t, cur));
            }
        }
        let ghost rest = ops_of(chain(b, t, cur)).skip(1);
        let update = match read_link(log, updates, offset) {
            Err(e) => return Err(e),
            Ok((_, _, update)) => update,
        };
        match &update.operation {
            StateOperation::Append(v) => {
                let item = match read_value(v) {
                    Ok(item) => item,
                    Err(e) => {
                        return Err(e);
                    },
                };
                let ghost text = item@;
                let mut front: Vec<Vec<u8>> = Vec::new();
                front.push(item);
                front.append(&mut newer);
                newer = front;
                proof {
                    assert(texts(newer@) =~= seq![text] + before);
                    assert(appended_since(rest).push(text) + before =~= appended_since(rest) + (
                    seq![text] + before));
                    if let Ok(items) = delta_items(chain(b, t, update.prev_update_offset)) {
                        assert(items.push(text) + before =~= items + (seq![text] + before));
                    }
                }
            },
            StateOperation::Snapshot(_) | StateOperation::DeltaSnapshot(_) => {
                assert(Seq::<Seq<u8>>::empty() + before =~= before);
                done = true;
            },
            _ => {},
        }
        cur = update.prev_update_offset;
    }
    proof {
        if !done {
            assert(Seq::<Seq<u8>>::empty() + texts(newer@) =~= texts(newer@));
            assert(appended_since(ops_of(chain(b, t, None))) =~= Seq::empty());
        }
    }
    Ok(newer)
}

/// Whether one of the operations is about the path.
pub open spec fn touches(ops: Seq<TreeOpView>, path: Seq<char>) -> bool {
    exists|i: int| 0 <= i < ops.len() && (#[trigger] ops[i]).path() == path
}

/// Puts the operations of `older`, newest first, in front of `ops`, leaving out those on
/// paths that a newer operation is about.
pub open spec fn put_older(older: Seq<TreeOpView>, ops: Seq<TreeOpView>) -> Seq<TreeOpView>
    decreases older.len(),
{
    if older.len() == 0 {
        ops
    } else {
        let op = older.last();
        put_older(
            older.drop_last(),
            if touches(ops, op.path()) {
                ops
            } else {
                seq![op] + ops
            },
        )
    }
}

/// The tree operations since the last snapshot, oldest first, one for each path: the
/// newest. `ops` are those gathered so far.
pub open spec fn tree_delta(c: ChainView, ops: Seq<TreeOpView>) -> Result<
    Seq<TreeOpView>,
    ErrorView,
>
    decreases c.len(),
{
    if c.len() == 0 {
        Ok(ops)
    } else {
        match c[0] {
            Err(e) => Err(e),
            Ok(l) => match l.update.operation {
                OperationView::Snapshot(_) => Ok(ops),
                OperationView::TreeDeltaSnapshot(_) => Ok(ops),
                OperationView::TreeSet { path, entry } => tree_delta(
                    c.skip(1),
                    put_older(seq![TreeOpView::SetEntry { path, entry }], ops),
                ),
                OperationView::TreeRemove { path } => tree_delta(
                    c.skip(1),
                    put_older(seq![TreeOpView::Remove { path }], ops),
                ),
                OperationView::TreeBatch { ops: batch } => tree_delta(
                    c.skip(1),
                    put_older(batch, ops),
                ),
                _ => tree_delta(c.skip(1), ops),
            },
        }
    }
}

fn op_path(op: &TreeOp) -> (p: &str)
    ensures
        p@ == op@.path(),
{
    match op {
        TreeOp::SetEntry { path, .. } => path.as_str(),
        TreeOp::Remove { path } => path.as_str(),
    }
}

/// Whether one of the operations is about the path.
fn is_touched(ops: &Vec<TreeOp>, path: &str) -> (r: bool)
    ensures
        r == touches(views(ops@), path@),
{
    let ghost all = views(ops@);
    let mut i: usize = 0;
    while i < ops.len()
        invariant
            i <= ops@.len(),
            all == views(ops@),
            forall|j: int| 0 <= j < i ==> (#[trigger] all[j]).path() != path@,
        decreases ops@.len() - i,
    {
        assert(all[i as int] == ops@[i as int]@);
        if same_text(op_path(&ops[i]), path) {
            return true;
        }
        i += 1;
    }
    false
}

/// Puts an operation in front of the others unless one of them is about its path.
fn put_front(op: TreeOp, ops: Vec<TreeOp>) -> (r: Vec<TreeOp>)
    ensures
        views(r@) == (if touches(views(ops@), op@.path()) {
            views(ops@)
        } else {
            seq![op@] + views(ops@)
        }),
{
    if is_touched(&ops, op_path(&op)) {
        return ops;
    }
    let ghost rest = views(ops@);
    let ghost first = op@;
    let mut ops = ops;
    let mut out: Vec<TreeOp> = Vec::new();
    out.push(op);
    out.append(&mut ops);
    assert(views(out@) =~= seq![first] + rest);
    out
}

fn put_batch(batch: &Vec<TreeOp>, ops: Vec<TreeOp>) -> (r: Vec<TreeOp>)
    ensures
        views(r@) == put_older(views(batch@), views(ops@)),
{
    let ghost all = views(batch@);
    let ghost goal = put_older(all, views(ops@));
    let mut out = ops;
    let mut i: usize = batch.len();
    assert(all.take(i as int) =~= all);
    while i > 0
        invariant
            i <= batch@.len(),
            all == views(batch@),
            goal == put_older(all.take(i as int), views(out@)),
        decreases i,
    {
        proof {
            assert(all.take(i as int).drop_last() =~= all.take(i - 1));
            assert(all.take(i as int).last() == batch@[i - 1]@);
        }
        out = put_front(batch[i - 1].clone(), out);
        i -= 1;
    }
    out
}

proof fn lemma_put_one(op: TreeOpView, ops: Seq<TreeOpView>)
    ensures
        put_older(seq![op], ops) == (if touches(ops, op.path()) {
            ops
        } else {
            seq![op] + ops
        }),
{
    reveal_with_fuel(put_older, 2);
    assert(seq![op].drop_last() =~= Seq::empty());
    assert(seq![op].last() == op);
}

/// Gathers the tree operations since the last snapshot, the newest for each path.
pub fn collect_tree_delta(log: &RecordLog, updates: &UpdateTable, head: u64) -> (r: Result<
    Vec<TreeOp>,
    StoreError,
>)
    requires
        table_wf(updates@),
    ensures
        ({
            let all = tree_delta(chain(log@.bytes, updates@, Some(head)), Seq::empty());
            match r {
                Ok(v) => all == Ok::<Seq<TreeOpView>, ErrorView>(views(v@)),
                Err(e) => all == Err::<Seq<TreeOpView>, ErrorView>(e@),
            }
        }),
{
    let ghost b = log@.bytes;
    let ghost t = updates@;
    let ghost all = tree_delta(chain(b, t, Some(head)), Seq::empty());
    let mut ops: Vec<TreeOp> = Vec::new();
    let mut cur: Option<u64> = Some(head);
    assert(views(ops@) =~= Seq::empty());
    while cur.is_some()
        invariant
            table_wf(updates@),
            b == log@.bytes,
            t == updates@,
            all == tree_delta(chain(b, t, Some(head)), Seq::empty()),
            all == tree_delta(chain(b, t, cur), views(ops@)),
        decreases
                (match cur {
                    Some(off) => off + 1,
                    None => 0,
                }),
    {
        let offset: u64 = cur.unwrap();
        proof {
            lemma_chain_step(b, t, offset);
        }
        let update = match read_link(log, updates, offset) {
            Err(e) => return Err(e),
            Ok((_, _, update)) => update,
        };
        let ghost before = views(ops@);
        match &update.operation {
            StateOperation::TreeSet { path, entry } => {
                let op = TreeOp::SetEntry { path: path.clone(), entry: entry.clone() };
                proof {
                    lemma_put_one(op@, before);
                }
                ops = put_front(op, ops);
            },
            StateOperation::TreeRemove { path } => {
                let op = TreeOp::Remove { path: path.clone() };
                proof {
                    lemma_put_one(op@, before);
                }
                ops = put_front(op, ops);
            },
            StateOperation::TreeBatch { ops: batch } => {
                ops = put_batch(batch, ops);
            },
            StateOperation::Snapshot(_) | StateOperation::TreeDeltaSnapshot(_) => {
                return Ok(ops);
            },
            _ => {},
        }
        cur = update.prev_update_offset;
    }
    Ok(ops)
}

} // verus!
