//! State chains: each update points back at the one before it.
use crate::error::{ErrorView, StoreError};
use crate::records::codec::record_at;
use crate::records::log::RecordLog;
use crate::state::operations::{applied_all, apply_all, items_text, runs, runs_tree, tree_model_text, ItemOp, TreeModel};
use crate::types::{views, OperationView, Sequence, StateOperation, StateUpdateRecord, UpdateView};
use vstd::prelude::*;
use vstd::string::*;

verus! {

/// The state updates that the log holds, by ascending offset.
pub type TableView = Seq<(u64, UpdateView)>;

/// The update at an offset.
pub open spec fn update_at(t: TableView, off: u64) -> Option<UpdateView>
    decreases t.len(),
{
    if t.len() == 0 {
        None
    } else if t.last().0 == off {
        Some(t.last().1)
    } else {
        update_at(t.drop_last(), off)
    }
}

/// Whether an update points back at an earlier offset, if at any.
pub open spec fn points_back(off: u64, u: UpdateView) -> bool {
    u.prev_update_offset matches Some(p) ==> p < off
}

/// Whether offsets ascend and updates point back.
pub open spec fn table_wf(t: TableView) -> bool {
    &&& forall|i: int, j: int| 0 <= i < j < t.len() ==> (#[trigger] t[i]).0 < (#[trigger] t[j]).0
    &&& forall|i: int| 0 <= i < t.len() ==> points_back((#[trigger] t[i]).0, t[i].1)
}

pub proof fn lemma_update_found(t: TableView, off: u64)
    requires
        table_wf(t),
    ensures
        update_at(t, off) is Some ==> exists|i: int|
            0 <= i < t.len() && (#[trigger] t[i]).0 == off && update_at(t, off) == Some(t[i].1),
        forall|i: int|
            0 <= i < t.len() && (#[trigger] t[i]).0 == off ==> update_at(t, off) == Some(t[i].1),
        update_at(t, off) matches Some(u) ==> points_back(off, u),
    decreases t.len(),
{
    if t.len() > 0 {
        let init = t.drop_last();
        assert forall|i: int, j: int| 0 <= i < j < init.len() implies (#[trigger] init[i]).0 < (
        #[trigger] init[j]).0 by {
            assert(init[i] == t[i] && init[j] == t[j]);
        }
        assert forall|i: int| 0 <= i < init.len() implies points_back(
            (#[trigger] init[i]).0,
            init[i].1,
        ) by {
            assert(init[i] == t[i]);
        }
        lemma_update_found(init, off);
        assert(t[t.len() - 1] == t.last());
        if t.last().0 != off && update_at(init, off) is Some {
            let i = choose|i: int|
                0 <= i < init.len() && init[i].0 == off && update_at(init, off) == Some(init[i].1);
            assert(t[i] == init[i]);
        }
        assert forall|i: int| 0 <= i < t.len() && (#[trigger] t[i]).0 == off implies update_at(t, off)
            == Some(t[i].1) by {
            if i < t.len() - 1 {
                assert(init[i] == t[i]);
                assert(t[i].0 < t[t.len() - 1].0);
            }
        }
    }
}

/// The decoded state updates of a log.
#[derive(Debug)]
pub struct UpdateTable {
    entries: Vec<(u64, StateUpdateRecord)>,
}

impl View for UpdateTable {
    type V = TableView;

    closed spec fn view(&self) -> TableView {
        self.entries@.map_values(|e: (u64, StateUpdateRecord)| (e.0, e.1@))
    }
}

/// The error for an update that does not fit behind the others.
pub open spec fn broken_chain() -> ErrorView {
    ErrorView::Corruption("state update out of order"@)
}

/// Makes the error for an update that does not fit behind the others.
pub fn out_of_order() -> (e: StoreError)
    ensures
        e@ == broken_chain(),
{
    StoreError::Corruption("state update out of order".to_owned())
}

impl UpdateTable {
    /// A table without updates.
    pub fn new() -> (t: Self)
        ensures
            t@ == TableView::empty(),
            table_wf(t@),
    {
        let t = UpdateTable { entries: Vec::new() };
        assert(t@ =~= TableView::empty());
        t
    }

    /// Number of updates.
    pub fn len(&self) -> (n: usize)
        ensures
            n == self@.len(),
    {
        self.entries.len()
    }

    /// Adds the update at an offset behind all others. An update that points ahead, or
    /// does not lie behind the others, is refused.
    pub fn add(&mut self, offset: u64, update: StateUpdateRecord) -> (r: Result<(), StoreError>)
        requires
            table_wf(old(self)@),
        ensures
            table_wf(final(self)@),
            ({
                let fits = points_back(offset, update@) && (old(self)@.len() > 0 ==> old(
                    self,
                )@.last().0 < offset);
                match r {
                    Ok(_) => fits && final(self)@ == old(self)@.push((offset, update@)),
                    Err(e) => !fits && final(self)@ == old(self)@ && e@ == broken_chain(),
                }
            }),
    {
        let n: usize = self.entries.len();
        let ghost before = self@;
        let behind: bool = match update.prev_update_offset {
            Some(p) => p < offset,
            None => true,
        };
        if n > 0 {
            assert(before.last() == (self.entries@[n - 1].0, self.entries@[n - 1].1@));
        }
        if !behind || (n > 0 && self.entries[n - 1].0 >= offset) {
            return Err(out_of_order());
        }
        let ghost item = (offset, update@);
        self.entries.push((offset, update));
        proof {
            let after = self@;
            assert(after =~= before.push(item));
            assert forall|i: int, j: int| 0 <= i < j < after.len() implies (#[trigger] after[i]).0
                < (#[trigger] after[j]).0 by {
                if j == n {
                    assert(after[i] == before[i]);
                    assert(before[i].0 <= before[n - 1].0);
                } else {
                    assert(after[i] == before[i] && after[j] == before[j]);
                }
            }
            assert forall|i: int| 0 <= i < after.len() implies points_back(
                (#[trigger] after[i]).0,
                after[i].1,
            ) by {
                if i < n {
                    assert(after[i] == before[i]);
                }
            }
        }
        Ok(())
    }

    /// The update at an offset.
    pub fn get(&self, offset: u64) -> (r: Option<&StateUpdateRecord>)
        requires
            table_wf(self@),
        ensures
            match r {
                Some(u) => update_at(self@, offset) == Some(u@) && points_back(offset, u@),
                None => update_at(self@, offset) is None,
            },
    {
        let ghost t = self@;
        proof {
            lemma_update_found(t, offset);
        }
        let mut low: usize = 0;
        let mut high: usize = self.entries.len();
        while low < high
            invariant
                t == self@,
                table_wf(t),
                t.len() == self.entries@.len(),
                low <= high <= t.len(),
                forall|i: int| 0 <= i < low ==> (#[trigger] t[i]).0 < offset,
                forall|i: int| high <= i < t.len() ==> (#[trigger] t[i]).0 >= offset,
            decreases high - low,
        {
            let mid: usize = low + (high - low) / 2;
            assert(t[mid as int].0 == self.entries@[mid as int].0);
            if self.entries[mid].0 < offset {
                assert forall|i: int| 0 <= i < mid + 1 implies (#[trigger] t[i]).0 < offset by {
                    if i < mid {
                        assert(t[i].0 < t[mid as int].0);
                    }
                }
                low = mid + 1;
            } else {
                assert forall|i: int| mid <= i < t.len() implies (#[trigger] t[i]).0 >= offset by {
                    if i > mid {
                        assert(t[mid as int].0 < t[i].0);
                    }
                }
                high = mid;
            }
        }
        if low < self.entries.len() {
            assert(t[low as int] == (self.entries@[low as int].0, self.entries@[low as int].1@));
            if self.entries[low].0 == offset {
                return Some(&self.entries[low].1);
            }
        }
        proof {
            if update_at(t, offset) is Some {
                let i = choose|i: int|
                    0 <= i < t.len() && t[i].0 == offset && update_at(t, offset) == Some(t[i].1);
                if i > low {
                    assert(t[low as int].0 < t[i].0);
                }
            }
        }
        None
    }
}

/// A link of a chain: an update, and what the log says of the record that holds it.
pub struct LinkView {
    pub offset: u64,
    pub sequence: Sequence,
    /// Size of the record's payload.
    pub size: nat,
    pub update: UpdateView,
}

/// The error for a record that holds no state update.
pub open spec fn no_update() -> ErrorView {
    ErrorView::Deserialization("not a state update"@)
}

/// The link at an offset.
pub open spec fn link_at(b: Seq<u8>, t: TableView, off: u64) -> Result<LinkView, ErrorView> {
    match record_at(b, off as int) {
        Err(e) => Err(e),
        Ok((r, _)) => match update_at(t, off) {
            None => Err(no_update()),
            Some(u) => Ok(
                LinkView { offset: off, sequence: r.sequence, size: r.payload.len(), update: u },
            ),
        },
    }
}

/// A chain, from the newest link on. It ends with an error where a link does not read.
pub type ChainView = Seq<Result<LinkView, ErrorView>>;

/// The chain that starts at an offset.
pub open spec fn chain(b: Seq<u8>, t: TableView, from: Option<u64>) -> ChainView
    decreases
            (match from {
                Some(off) => off + 1,
                None => 0,
            }),
{
    match from {
        None => Seq::empty(),
        Some(off) => match link_at(b, t, off) {
            Err(e) => seq![Err(e)],
            Ok(l) => match l.update.prev_update_offset {
                Some(p) if p >= off => seq![Ok(l)],
                prev => seq![Ok(l)] + chain(b, t, prev),
            },
        },
    }
}

/// Whether an operation is a full snapshot.
pub open spec fn is_full(op: OperationView) -> bool {
    op is Snapshot
}

/// Whether an operation is a delta snapshot, of an array or of a tree.
pub open spec fn is_delta(op: OperationView) -> bool {
    op is DeltaSnapshot || op is TreeDeltaSnapshot
}

/// Whether an operation is one that a delta snapshot can track.
pub open spec fn is_tracked(op: OperationView) -> bool {
    op is Append || op is TreeSet || op is TreeRemove || op is TreeBatch
}

/// Whether operations, newest first, hold one behind the last snapshot that a delta snapshot
/// cannot track.
pub open spec fn edited_since(ops: Seq<OperationView>) -> bool
    decreases ops.len(),
{
    ops.len() > 0 && !is_full(ops[0]) && !is_delta(ops[0]) && (!is_tracked(ops[0])
        || edited_since(ops.skip(1)))
}

/// The operations that make up the value, newest first: a full snapshot is the last one
/// needed, and what a delta snapshot covers is left out.
pub open spec fn kept(c: ChainView, hit: bool) -> Result<Seq<OperationView>, ErrorView>
    decreases c.len(),
{
    if c.len() == 0 {
        Ok(Seq::empty())
    } else {
        match c[0] {
            Err(e) => Err(e),
            Ok(l) => {
                let op = l.update.operation;
                if is_full(op) {
                    Ok(seq![op])
                } else if is_delta(op) || !hit {
                    prepend(seq![op], kept(c.skip(1), hit || is_delta(op)))
                } else {
                    kept(c.skip(1), hit)
                }
            },
        }
    }
}

/// Operations put in front of others, if there are any.
pub open spec fn prepend(
    first: Seq<OperationView>,
    rest: Result<Seq<OperationView>, ErrorView>,
) -> Result<Seq<OperationView>, ErrorView> {
    match rest {
        Ok(ops) => Ok(first + ops),
        Err(e) => Err(e),
    }
}

/// The links that are not newer than a sequence.
pub open spec fn until(c: ChainView, at: Option<Sequence>) -> ChainView
    decreases c.len(),
{
    if c.len() == 0 {
        c
    } else {
        match (c[0], at) {
            (Ok(l), Some(s)) if l.sequence.0 > s.0 => until(c.skip(1), at),
            _ => seq![c[0]] + until(c.skip(1), at),
        }
    }
}

/// The offset of the newest link.
pub open spec fn newest(c: ChainView) -> Option<u64> {
    if c.len() > 0 && c[0] is Ok {
        Some(c[0]->Ok_0.offset)
    } else {
        None
    }
}

/// The value that a chain gives.
pub open spec fn value_of(c: ChainView) -> Result<Seq<u8>, ErrorView> {
    match kept(c, false) {
        Err(e) => Err(e),
        Ok(ops) => applied_all(Seq::empty(), ops.reverse()),
    }
}

/// The value that a chain gave at a sequence, if the state existed then.
pub open spec fn value_until(c: ChainView, at: Sequence) -> Result<Option<Seq<u8>>, ErrorView> {
    let past = until(c, Some(at));
    if past.len() == 0 {
        Ok(None)
    } else {
        match value_of(past) {
            Ok(v) => Ok(Some(v)),
            Err(e) => Err(e),
        }
    }
}

/// Reads the link at an offset: the sequence, the payload size and the update.
pub fn read_link<'a>(log: &RecordLog, updates: &'a UpdateTable, offset: u64) -> (r: Result<
    (Sequence, u64, &'a StateUpdateRecord),
    StoreError,
>)
    requires
        table_wf(updates@),
    ensures
        match r {
            Ok((sequence, size, update)) => link_at(log@.bytes, updates@, offset) == Ok::<
                LinkView,
                ErrorView,
            >(LinkView { offset, sequence, size: size as nat, update: update@ }) && points_back(
                offset,
                update@,
            ),
            Err(e) => link_at(log@.bytes, updates@, offset) == Err::<LinkView, ErrorView>(e@),
        },
{
    let record = match log.read_at(offset) {
        Ok(record) => record,
        Err(e) => return Err(e),
    };
    match updates.get(offset) {
        Some(update) => Ok((record.sequence, record.payload.len() as u64, update)),
        None => Err(StoreError::Deserialization("not a state update".to_owned())),
    }
}

/// What follows a link that reads.
pub proof fn lemma_chain_step(b: Seq<u8>, t: TableView, off: u64)
    ensures
        match link_at(b, t, off) {
            Err(e) => chain(b, t, Some(off)) == seq![Err::<LinkView, ErrorView>(e)],
            Ok(l) => points_back(off, l.update) ==> chain(b, t, Some(off)) == seq![
                Ok::<LinkView, ErrorView>(l),
            ] + chain(b, t, l.update.prev_update_offset) && chain(b, t, Some(off))[0] == Ok::<
                LinkView,
                ErrorView,
            >(l) && chain(b, t, Some(off)).skip(1) == chain(b, t, l.update.prev_update_offset),
        },
{
    if let Ok(l) = link_at(b, t, off) {
        if points_back(off, l.update) {
            assert(chain(b, t, Some(off)) =~= seq![Ok::<LinkView, ErrorView>(l)] + chain(
                b,
                t,
                l.update.prev_update_offset,
            ));
            assert(chain(b, t, Some(off)).skip(1) =~= chain(b, t, l.update.prev_update_offset));
        }
    }
}

/// Walks a chain from its head and gathers the operations that make up the value at a
/// sequence, oldest first, with the offset of the newest link that counts.
pub fn collect_operations(
    log: &RecordLog,
    updates: &UpdateTable,
    head: u64,
    at: Option<Sequence>,
) -> (r: Result<(Option<u64>, Vec<StateOperation>), StoreError>)
    requires
        table_wf(updates@),
    ensures
        ({
            let past = until(chain(log@.bytes, updates@, Some(head)), at);
            match r {
                Ok((first, ops)) => {
                    &&& kept(past, false) == Ok::<Seq<OperationView>, ErrorView>(
                        views(ops@).reverse(),
                    )
                    &&& first == newest(past)
                    &&& first is None <==> past.len() == 0
                },
                Err(e) => kept(past, false) == Err::<Seq<OperationView>, ErrorView>(e@),
            }
        }),
{
    let ghost b = log@.bytes;
    let ghost t = updates@;
    let ghost past = until(chain(b, t, Some(head)), at);
    let mut ops: Vec<StateOperation> = Vec::new();
    let mut cur: Option<u64> = Some(head);
    let mut hit: bool = false;
    let mut first: Option<u64> = None;
    let mut done: bool = false;
    assert(views(ops@) =~= Seq::empty());
    proof {
        lemma_prepend_none(kept(past, false));
    }
    while !done && cur.is_some()
        invariant
            table_wf(updates@),
            b == log@.bytes,
            t == updates@,
            past == until(chain(b, t, Some(head)), at),
            done ==> kept(past, false) == Ok::<Seq<OperationView>, ErrorView>(views(ops@)),
            !done ==> kept(past, false) == prepend(
                views(ops@),
                kept(until(chain(b, t, cur), at), hit),
            ),
            first is None ==> !done && past == until(chain(b, t, cur), at) && ops@.len() == 0
                && !hit,
            first is Some ==> first == newest(past),
        decreases
                (if done {
                    0int
                } else {
                    match cur {
                        Some(off) => off + 2,
                        None => 1,
                    }
                }),
    {
        let offset: u64 = cur.unwrap();
        let ghost rest = until(chain(b, t, cur), at);
        proof {
            lemma_chain_step(b, t, offset);
        }
        match read_link(log, updates, offset) {
            Err(e) => {
                proof {
                    let c = chain(b, t, cur);
                    assert(rest =~= c + until(c.skip(1), at));
                    assert(rest[0] == c[0]);
                }
                return Err(e);
            },
            Ok((sequence, _size, update)) => {
                let ghost c = chain(b, t, cur);
                let newer: bool = match at {
                    Some(s) => sequence.0 > s.0,
                    None => false,
                };
                if !newer {
                    proof {
                        let below = until(c.skip(1), at);
                        assert(rest == seq![c[0]] + below);
                        assert(rest[0] == c[0]);
                        assert(rest.skip(1) =~= below);
                    }
                    if first.is_none() {
                        first = Some(offset);
                    }
                    let ghost before = views(ops@);
                    match &update.operation {
                        StateOperation::Snapshot(_) => {
                            ops.push(update.operation.clone());
                            assert(views(ops@) =~= before + seq![update.operation@]);
                            done = true;
                        },
                        StateOperation::DeltaSnapshot(_) | StateOperation::TreeDeltaSnapshot(_) => {
                            ops.push(update.operation.clone());
                            assert(views(ops@) =~= before + seq![update.operation@]);
                            proof {
                                lemma_prepend_twice(
                                    before,
                                    seq![update.operation@],
                                    kept(rest.skip(1), true),
                                );
                            }
                            hit = true;
                        },
                        _ => {
                            if !hit {
                                ops.push(update.operation.clone());
                                assert(views(ops@) =~= before + seq![update.operation@]);
                                proof {
                                    lemma_prepend_twice(
                                        before,
                                        seq![update.operation@],
                                        kept(rest.skip(1), false),
                                    );
                                }
                            }
                        },
                    }
                }
                cur = update.prev_update_offset;
            },
        }
    }
    proof {
        if !done {
            assert(until(chain(b, t, None), at) =~= Seq::empty());
            assert(kept(until(chain(b, t, None), at), hit) == Ok::<Seq<OperationView>, ErrorView>(
                Seq::empty(),
            ));
            assert(views(ops@) + Seq::<OperationView>::empty() =~= views(ops@));
        }
    }
    let ghost gathered = views(ops@);
    let reversed = reverse_operations(ops);
    proof {
        assert(views(reversed@).reverse() =~= gathered);
    }
    Ok((first, reversed))
}

proof fn lemma_prepend_none(r: Result<Seq<OperationView>, ErrorView>)
    ensures
        prepend(Seq::empty(), r) == r,
{
    if let Ok(ops) = r {
        assert(Seq::<OperationView>::empty() + ops =~= ops);
    }
}

proof fn lemma_prepend_twice(
    a: Seq<OperationView>,
    b: Seq<OperationView>,
    r: Result<Seq<OperationView>, ErrorView>,
)
    ensures
        prepend(a, prepend(b, r)) == prepend(a + b, r),
{
    if let Ok(ops) = r {
        assert(a + (b + ops) =~= (a + b) + ops);
    }
}

/// The operations in the opposite order.
fn reverse_operations(ops: Vec<StateOperation>) -> (r: Vec<StateOperation>)
    ensures
        views(r@) == views(ops@).reverse(),
{
    let mut rest = ops;
    let ghost all = views(rest@);
    let mut out: Vec<StateOperation> = Vec::new();
    while rest.len() > 0
        invariant
            rest@.len() + out@.len() == all.len(),
            forall|i: int| 0 <= i < rest@.len() ==> (#[trigger] rest@[i])@ == all[i],
            forall|i: int| 0 <= i < out@.len() ==> (#[trigger] out@[i])@ == all[all.len() - 1 - i],
        decreases rest@.len(),
    {
        let last = rest.pop().unwrap();
        out.push(last);
    }
    assert(views(out@) =~= all.reverse());
    out
}

/// Whether `value` is the text of the items, or of the tree, that a chain makes, wherever
/// its operations act on plain items or on trees.
pub open spec fn models_decide(c: ChainView, value: Option<Seq<u8>>) -> bool {
    kept(c, false) matches Ok(ops) ==> {
        &&& forall|ms: Seq<ItemOp>| #[trigger]
            runs(ops.reverse(), ms) ==> value == Some(items_text(ms))
        &&& forall|ms: Seq<TreeModel>| #[trigger]
            runs_tree(ops.reverse(), ms) ==> value == Some(tree_model_text(ms))
    }
}

/// The value that the chain from a head gives.
pub fn reconstruct(log: &RecordLog, updates: &UpdateTable, head: u64) -> (r: Result<
    Vec<u8>,
    StoreError,
>)
    requires
        table_wf(updates@),
    ensures
        match r {
            Ok(v) => value_of(chain(log@.bytes, updates@, Some(head))) == Ok::<
                Seq<u8>,
                ErrorView,
            >(v@),
            Err(e) => value_of(chain(log@.bytes, updates@, Some(head))) == Err::<
                Seq<u8>,
                ErrorView,
            >(e@),
        },
        models_decide(chain(log@.bytes, updates@, Some(head)), match r {
            Ok(v) => Some(v@),
            Err(_) => None,
        }),
{
    let ghost c = chain(log@.bytes, updates@, Some(head));
    proof {
        lemma_until_none(c);
    }
    match collect_operations(log, updates, head, None) {
        Err(e) => Err(e),
        Ok((_, ops)) => {
            assert(views(ops@).reverse().reverse() =~= views(ops@));
            apply_all(&ops)
        },
    }
}

pub(crate) proof fn lemma_until_none(c: ChainView)
    ensures
        until(c, None) == c,
    decreases c.len(),
{
    if c.len() > 0 {
        lemma_until_none(c.skip(1));
        assert(seq![c[0]] + c.skip(1) =~= c);
    }
}

/// Whether the chain from a head, as it was at a sequence, has an operation behind the last
/// snapshot that a delta snapshot cannot track.
pub fn is_edited_at(log: &RecordLog, updates: &UpdateTable, head: u64, at: Sequence) -> (r: Result<
    bool,
    StoreError,
>)
    requires
        table_wf(updates@),
    ensures
        match r {
            Ok(x) => kept(until(chain(log@.bytes, updates@, Some(head)), Some(at)), false)
                matches Ok(ops) && x == edited_since(ops),
            Err(e) => kept(until(chain(log@.bytes, updates@, Some(head)), Some(at)), false) == Err::<
                Seq<OperationView>,
                ErrorView,
            >(e@),
        },
{
    let ops = match collect_operations(log, updates, head, Some(at)) {
        Ok((_, ops)) => ops,
        Err(e) => return Err(e),
    };
    let ghost all = views(ops@).reverse();
    let mut i: usize = ops.len();
    assert(all.skip(0) =~= all);
    while i > 0
        invariant
            i <= ops@.len(),
            all == views(ops@).reverse(),
            edited_since(all) == edited_since(all.skip(ops@.len() - i)),
            kept(until(chain(log@.bytes, updates@, Some(head)), Some(at)), false) == Ok::<
                Seq<OperationView>,
                ErrorView,
            >(all),
        decreases i,
    {
        proof {
            let rest = all.skip(ops@.len() - i);
            assert(rest[0] == ops@[i - 1]@);
            assert(rest.skip(1) =~= all.skip(ops@.len() - i + 1));
        }
        match &ops[i - 1] {
            StateOperation::Append(_) | StateOperation::TreeSet { .. }
            | StateOperation::TreeRemove { .. } | StateOperation::TreeBatch { .. } => {},
            StateOperation::Snapshot(_) | StateOperation::DeltaSnapshot(_)
            | StateOperation::TreeDeltaSnapshot(_) => return Ok(false),
            _ => return Ok(true),
        }
        i -= 1;
    }
    Ok(false)
}

/// The value that the chain from a head gave at a sequence, if the state existed then.
pub fn reconstruct_at(log: &RecordLog, updates: &UpdateTable, head: u64, at: Sequence) -> (r: Result<
    Option<(u64, Vec<u8>)>,
    StoreError,
>)
    requires
        table_wf(updates@),
    ensures
        ({
            let c = chain(log@.bytes, updates@, Some(head));
            match r {
                Ok(Some((offset, v))) => value_until(c, at) == Ok::<Option<Seq<u8>>, ErrorView>(
                    Some(v@),
                ) && newest(until(c, Some(at))) == Some(offset),
                Ok(None) => value_until(c, at) == Ok::<Option<Seq<u8>>, ErrorView>(None),
                Err(e) => value_until(c, at) == Err::<Option<Seq<u8>>, ErrorView>(e@),
            }
        }),
        until(chain(log@.bytes, updates@, Some(head)), Some(at)).len() > 0 ==> models_decide(
            until(chain(log@.bytes, updates@, Some(head)), Some(at)),
            match r {
                Ok(Some((_, v))) => Some(v@),
                _ => None,
            },
        ),
{
    match collect_operations(log, updates, head, Some(at)) {
        Err(e) => {
            Err(e)
        },
        Ok((first, ops)) => match first {
            None => Ok(None),
            Some(offset) => {
                assert(views(ops@).reverse().reverse() =~= views(ops@));
                match apply_all(&ops) {
                    Ok(v) => Ok(Some((offset, v))),
                    Err(e) => Err(e),
                }
            },
        },
    }
}

} // verus!
