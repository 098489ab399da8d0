//! What any run of operations makes of an array state or a tree state, on every branch.
use crate::branches::manager::{by_id, lemma_current, new_branch};
use crate::error::{ErrorView, StoreError};
use crate::records::codec::record_bytes;
use crate::state::chain::{until, ChainView};
use crate::state::laws::{chain_survives_append, faithful_items, faithful_tree, is_tree_step, items_after, lemma_rest_readable, lemma_until_readable, lemma_until_same, ops_of, readable, same_below, text_after, tree_after};
use crate::state::manager::{head_at, heads_copied, strategy_of, HeadsView, StrategiesView};
use crate::store::branching::{gets_older, heads_at, states_taken, with_heads, with_new_branch};
use crate::store::compaction::{compacted, registered};
use crate::store::history::{appending_keeps_sound, branched_from, head_in_time, lemma_room_left, lemma_same_soundness, only_switched, recording_keeps_sound, some_appended, some_deleted, sound, sound_chains, step_without_record};
use crate::store::laws::{files_kept, files_updated, is_item_step, items_in, items_in_order, items_kept, items_updated, past_items, past_items_in_order, past_text, past_tree, past_tree_in_order, payloads_fit, recorded_operation_leaves_other_pasts, text_in, tree_in, tree_in_order};
use crate::store::model::{appended, chain_of, due_operation, next_record, recorded, recorded_as, recorded_with_snapshot, same_but_cache, snapshot_taken, state_value};
use crate::store::states::chain_info;
use crate::store::StoreView;
use crate::tree::TreeView;
use crate::types::{BranchId, BranchView, OperationView, RecordInputView, RecordView, Sequence, StateUpdateRecord, StrategyView, Timestamp};
use vstd::prelude::*;

verus! {

/// What happens to a store, as seen from one of its states.
pub enum Step {
    /// The state is updated on the current branch.
    Update { op: OperationView },
    /// A snapshot of the state is taken on the current branch, or the state is compacted.
    Snapshot,
    /// A branch is made, with the states that another one had at a sequence.
    Branch { from: BranchId, to: BranchId, at: Sequence },
    /// Something else: another state is updated, a record is appended, a value is read, the
    /// current branch is switched, a branch is made without states, or one is deleted.
    Other,
}

/// Whether an operation on a state was recorded between two stores, or refused.
pub open spec fn recorded_on<E: Fn(&StateUpdateRecord) -> Result<Vec<u8>, StoreError>>(
    encode: E,
    id: Seq<char>,
    s: StoreView,
    now: StoreView,
) -> bool {
    exists|op: OperationView, r: Result<RecordView, ErrorView>| #[trigger]
        recorded(encode, s, id, op, now, r)
}

/// Whether a store came from another by reads, and by operations that were recorded on one
/// state.
pub open spec fn is_work<E: Fn(&StateUpdateRecord) -> Result<Vec<u8>, StoreError>>(
    encode: E,
    id: Seq<char>,
    run: Seq<StoreView>,
) -> bool {
    &&& run.len() > 0
    &&& forall|i: int|
        0 <= i < run.len() - 1 ==> worked(encode, id, #[trigger] run[i], run[i + 1])
}

/// Whether a store came from another by a read, or by an operation recorded on a state.
pub open spec fn worked<E: Fn(&StateUpdateRecord) -> Result<Vec<u8>, StoreError>>(
    encode: E,
    id: Seq<char>,
    s: StoreView,
    now: StoreView,
) -> bool {
    now.wf() && (same_but_cache(s, now) || (s.has_room(1) && recorded_on(encode, id, s, now)))
}

/// Whether work on a state leads from one store to another.
pub open spec fn worked_from<E: Fn(&StateUpdateRecord) -> Result<Vec<u8>, StoreError>>(
    encode: E,
    id: Seq<char>,
    s: StoreView,
    now: StoreView,
) -> bool {
    exists|run: Seq<StoreView>| #[trigger]
        is_work(encode, id, run) && run[0] == s && run.last() == now
}

/// Whether a branch was made between two stores that took over the states of another one, as
/// they were at a sequence.
pub open spec fn took_states(
    s: StoreView,
    now: StoreView,
    p: BranchView,
    b: BranchView,
    told: Option<Seq<char>>,
) -> bool {
    &&& branched_from(s, now, p, b, told)
    &&& (b.head == p.head && now == with_heads(
        with_new_branch(s, b, Some(p.name)),
        heads_copied(s.states.heads, p.id, b.id),
    )) || (heads_at(s, s.states.heads, p.id, b.head, registered(s), b.id) matches Ok(h) && now
        == with_heads(with_new_branch(s, b, told), h) && (sound(s) ==> states_taken(
        s,
        p.id,
        now,
        b.id,
        b.head,
    )))
}

/// Whether a branch was made between two stores that has no states.
pub open spec fn branched_bare(s: StoreView, now: StoreView) -> bool {
    exists|p: BranchView, b: BranchView, told: Option<Seq<char>>| #[trigger]
        branched_from(s, now, p, b, told) && now == with_new_branch(s, b, told)
}

/// Whether an operation on another state was recorded between two stores, or refused.
pub open spec fn recorded_elsewhere<E: Fn(&StateUpdateRecord) -> Result<Vec<u8>, StoreError>>(
    encode: E,
    id: Seq<char>,
    s: StoreView,
    now: StoreView,
) -> bool {
    exists|x: Seq<char>, op: OperationView, r: Result<RecordView, ErrorView>|
        x != id && #[trigger] recorded(encode, s, x, op, now, r)
}

/// Whether a step leads from one store to another.
pub open spec fn stepped<E: Fn(&StateUpdateRecord) -> Result<Vec<u8>, StoreError>>(
    encode: E,
    id: Seq<char>,
    s: StoreView,
    step: Step,
    now: StoreView,
) -> bool {
    &&& now.wf()
    &&& match step {
        Step::Update { op } => worked_from(encode, id, s, now) && items_updated(
            encode,
            s,
            id,
            op,
            now,
        ) && files_updated(encode, s, id, op, now),
        Step::Snapshot => worked_from(encode, id, s, now) && items_kept(encode, s, id, now)
            && files_kept(encode, s, id, now),
        Step::Branch { from, to, at } => exists|
            p: BranchView,
            b: BranchView,
            told: Option<Seq<char>>,
        | #[trigger]
            took_states(s, now, p, b, told) && p.id == from && b.id == to && b.head == at,
        Step::Other => same_but_cache(s, now) || only_switched(s, now) || some_deleted(s, now)
            || branched_bare(s, now) || (s.has_room(1) && (some_appended(s, now)
            || recorded_elsewhere(encode, id, s, now))),
    }
}

/// Whether steps lead from store to store.
pub open spec fn steps_lead<E: Fn(&StateUpdateRecord) -> Result<Vec<u8>, StoreError>>(
    encode: E,
    id: Seq<char>,
    run: Seq<StoreView>,
    steps: Seq<Step>,
) -> bool {
    &&& run.len() == steps.len() + 1
    &&& forall|i: int|
        0 <= i < steps.len() ==> stepped(encode, id, run[i], #[trigger] steps[i], run[i + 1])
}

/// Whether a step works on the state on a branch, or makes that branch with its states.
pub open spec fn touches_branch(s: StoreView, step: Step, branch: BranchId) -> bool {
    match step {
        Step::Update { .. } => branch == s.branches.current,
        Step::Snapshot => branch == s.branches.current,
        Step::Branch { to, .. } => branch == to,
        Step::Other => false,
    }
}

/// Whether a sequence is the head of a branch.
pub open spec fn is_head(s: StoreView, branch: BranchId, at: Sequence) -> bool {
    by_id(s.branches.branches, branch) matches Some(p) && p.head == at
}

/// The items that the updates of a run make on a branch: those that there were at the start,
/// then what each update makes of them. A branch starts with the items of its parent.
pub open spec fn items_made(
    id: Seq<char>,
    run: Seq<StoreView>,
    steps: Seq<Step>,
    branch: BranchId,
) -> Seq<Seq<u8>>
    decreases steps.len(),
{
    if steps.len() == 0 {
        items_in(run[0], branch, id)
    } else {
        let s = run[steps.len() - 1];
        let before = steps.drop_last();
        match steps.last() {
            Step::Update { op } if branch == s.branches.current => items_after(
                items_made(id, run, before, branch),
                op,
            ),
            Step::Branch { from, to, at } if branch == to => if is_head(s, from, at) {
                items_made(id, run, before, from)
            } else {
                past_items(s, from, id, at)
            },
            _ => items_made(id, run, before, branch),
        }
    }
}

/// The value that the updates of a run make on a branch.
pub open spec fn text_made(
    id: Seq<char>,
    run: Seq<StoreView>,
    steps: Seq<Step>,
    branch: BranchId,
) -> Seq<u8>
    decreases steps.len(),
{
    if steps.len() == 0 {
        text_in(run[0], branch, id)
    } else {
        let s = run[steps.len() - 1];
        let before = steps.drop_last();
        match steps.last() {
            Step::Update { op } if branch == s.branches.current => text_after(
                items_made(id, run, before, branch),
                op,
            ),
            Step::Branch { from, to, at } if branch == to => if is_head(s, from, at) {
                text_made(id, run, before, from)
            } else {
                past_text(s, from, id, at)
            },
            _ => text_made(id, run, before, branch),
        }
    }
}

/// The tree that the updates of a run make on a branch.
pub open spec fn tree_made(
    id: Seq<char>,
    run: Seq<StoreView>,
    steps: Seq<Step>,
    branch: BranchId,
) -> TreeView
    decreases steps.len(),
{
    if steps.len() == 0 {
        tree_in(run[0], branch, id)
    } else {
        let s = run[steps.len() - 1];
        let before = steps.drop_last();
        match steps.last() {
            Step::Update { op } if branch == s.branches.current => tree_after(
                tree_made(id, run, before, branch),
                op,
            ),
            Step::Branch { from, to, at } if branch == to => if is_head(s, from, at) {
                tree_made(id, run, before, from)
            } else {
                past_tree(s, from, id, at)
            },
            _ => tree_made(id, run, before, branch),
        }
    }
}

/// What an operation recorded on a state leaves alone.
proof fn lemma_recorded_elsewhere<E: Fn(&StateUpdateRecord) -> Result<Vec<u8>, StoreError>>(
    encode: E,
    s: StoreView,
    x: Seq<char>,
    op: OperationView,
    now: StoreView,
    r: Result<RecordView, ErrorView>,
    branch: BranchId,
    id: Seq<char>,
)
    requires
        sound(s),
        recorded(encode, s, x, op, now, r),
    ensures
        now.branches.current == s.branches.current,
        now.states.strategies == s.states.strategies,
        branch != s.branches.current || id != x ==> chain_of(now, branch, id) == chain_of(
            s,
            branch,
            id,
        ) && head_at(now.states, branch, id) == head_at(s.states, branch, id),
{
    sound_chains(s, branch, id);
    if r is Ok {
        let b = s.branches.current_branch()->0;
        lemma_current(s.branches);
        let (ts, p) = choose|ts: Timestamp, p: Seq<u8>| #[trigger]
            recorded_as(encode, s, x, op, now, r->Ok_0, b, ts, p);
        if branch != s.branches.current || id != x {
            recorded_operation_leaves_other_pasts(
                encode,
                s,
                x,
                op,
                now,
                r,
                branch,
                id,
                Sequence(0),
            );
        }
    }
}

proof fn lemma_work<E: Fn(&StateUpdateRecord) -> Result<Vec<u8>, StoreError>>(
    encode: E,
    id: Seq<char>,
    run: Seq<StoreView>,
    branch: BranchId,
)
    requires
        sound(run[0]),
        payloads_fit(encode),
        is_work(encode, id, run),
    ensures
        sound(run.last()),
        run.last().branches.current == run[0].branches.current,
        run.last().states.strategies == run[0].states.strategies,
        branch != run[0].branches.current ==> chain_of(run.last(), branch, id) == chain_of(
            run[0],
            branch,
            id,
        ) && head_at(run.last().states, branch, id) == head_at(run[0].states, branch, id),
    decreases run.len(),
{
    if run.len() > 1 {
        let init = run.drop_last();
        assert forall|i: int| 0 <= i < init.len() - 1 implies worked(
            encode,
            id,
            #[trigger] init[i],
            init[i + 1],
        ) by {
            assert(init[i] == run[i] && init[i + 1] == run[i + 1]);
        }
        lemma_work(encode, id, init, branch);
        let k = run.len() - 2;
        let s = run[k];
        let now = run[k + 1];
        assert(worked(encode, id, run[k], run[k + 1]));
        assert(init.last() == s);
        if same_but_cache(s, now) {
            lemma_same_soundness(s, now);
        } else {
            let (op, r) = choose|op: OperationView, r: Result<RecordView, ErrorView>| #[trigger]
                recorded(encode, s, id, op, now, r);
            recording_keeps_sound(encode, s, id, op, now, r);
            lemma_recorded_elsewhere(encode, s, id, op, now, r, branch, id);
        }
    }
}

/// A branch that was not handed out has no states.
proof fn lemma_no_states(s: StoreView, branch: BranchId, id: Seq<char>)
    requires
        sound(s),
        branch.0 >= s.branches.next_id,
    ensures
        head_at(s.states, branch, id) is None,
        chain_of(s, branch, id).len() == 0,
{
    if head_at(s.states, branch, id) is Some {
        assert(head_in_time(s, branch, head_at(s.states, branch, id)->0));
    }
}

/// A step keeps a store sound, and leaves alone what it does not touch.
proof fn lemma_untouched<E: Fn(&StateUpdateRecord) -> Result<Vec<u8>, StoreError>>(
    encode: E,
    id: Seq<char>,
    s: StoreView,
    step: Step,
    now: StoreView,
    branch: BranchId,
)
    requires
        sound(s),
        payloads_fit(encode),
        stepped(encode, id, s, step, now),
    ensures
        sound(now),
        now.states.strategies == s.states.strategies,
        !touches_branch(s, step, branch) ==> chain_of(now, branch, id) == chain_of(s, branch, id)
            && head_at(now.states, branch, id) == head_at(s.states, branch, id),
{
    sound_chains(s, branch, id);
    if step is Update || step is Snapshot {
        let run = choose|run: Seq<StoreView>| #[trigger]
            is_work(encode, id, run) && run[0] == s && run.last() == now;
        lemma_work(encode, id, run, branch);
    } else if step is Other && !(same_but_cache(s, now) || only_switched(s, now) || some_deleted(
        s,
        now,
    ) || branched_bare(s, now)) {
        if some_appended(s, now) {
            let (input, b, ts) = choose|input: RecordInputView, b: BranchView, ts: Timestamp|
                s.branches.current_branch() == Some(b) && ts.0 >= s.log.last.0 && now == appended(
                    s,
                    #[trigger] next_record(s, input, b, ts),
                    b,
                    now.wal,
                );
            appending_keeps_sound(s, input, b, ts, now.wal);
            assert(same_below(s.updates, s.updates, s.log.bytes.len() as int));
            chain_survives_append(
                s.log.bytes,
                s.updates,
                record_bytes(next_record(s, input, b, ts)),
                s.updates,
                match head_at(s.states, branch, id) {
                    Some(h) => Some(h.head_offset),
                    None => None,
                },
            );
        } else {
            let (x, op, r) = choose|
                x: Seq<char>,
                op: OperationView,
                r: Result<RecordView, ErrorView>,
            |
                x != id && #[trigger] recorded(encode, s, x, op, now, r);
            recording_keeps_sound(encode, s, x, op, now, r);
            lemma_recorded_elsewhere(encode, s, x, op, now, r, branch, id);
        }
    } else {
        if let Step::Branch { from, to, at } = step {
            let (p, b, told) = choose|
                p: BranchView,
                b: BranchView,
                told: Option<Seq<char>>,
            | #[trigger]
                took_states(s, now, p, b, told) && p.id == from && b.id == to && b.head == at;
            assert(branched_from(s, now, p, b, told));
        }
        step_without_record(s, now, branch, id);
        if branch.0 >= s.branches.next_id {
            lemma_no_states(s, branch, id);
            if branch.0 >= now.branches.next_id {
                lemma_no_states(now, branch, id);
            }
        }
    }
}

/// What is not newer than a sequence stands at the end of a chain that gets older.
proof fn lemma_until_is_end(c: ChainView, at: Sequence) -> (k: int)
    requires
        readable(c),
        gets_older(c),
    ensures
        0 <= k <= c.len(),
        until(c, Some(at)) == c.skip(k),
    decreases c.len(),
{
    if c.len() == 0 {
        assert(c.skip(0) =~= c);
        0
    } else {
        lemma_rest_readable(c);
        let rest = c.skip(1);
        assert forall|i: int, j: int|
            0 <= i < j < rest.len() && rest[i] is Ok && rest[j] is Ok implies (
        #[trigger] rest[i])->Ok_0.sequence.0 >= (#[trigger] rest[j])->Ok_0.sequence.0 by {
            assert(rest[i] == c[i + 1] && rest[j] == c[j + 1]);
        }
        if c[0]->Ok_0.sequence.0 > at.0 {
            let k = lemma_until_is_end(rest, at);
            assert(rest.skip(k) =~= c.skip(k + 1));
            k + 1
        } else {
            assert forall|i: int| 0 <= i < c.len() && (#[trigger] c[i]) is Ok implies
                c[i]->Ok_0.sequence.0 <= at.0 by {
                if i > 0 {
                    assert(c[0]->Ok_0.sequence.0 >= c[i]->Ok_0.sequence.0);
                }
            }
            lemma_until_same(c, at);
            assert(c.skip(0) =~= c);
            0
        }
    }
}

/// The end of a faithful chain is faithful.
proof fn lemma_faithful_end(ops: Seq<OperationView>, k: int)
    requires
        0 <= k <= ops.len(),
    ensures
        faithful_items(ops) ==> faithful_items(ops.skip(k)),
        faithful_tree(ops) ==> faithful_tree(ops.skip(k)),
    decreases k,
{
    if k > 0 {
        lemma_faithful_end(ops.skip(1), k - 1);
        assert(ops.skip(1).skip(k - 1) =~= ops.skip(k));
    } else {
        assert(ops.skip(0) =~= ops);
    }
}

/// A state that is in order was in order at every sequence.
proof fn lemma_past_in_order(s: StoreView, branch: BranchId, id: Seq<char>, at: Sequence)
    requires
        sound(s),
        until(chain_of(s, branch, id), Some(at)).len() > 0,
    ensures
        items_in_order(s, branch, id) ==> past_items_in_order(s, branch, id, at),
        tree_in_order(s, branch, id) ==> past_tree_in_order(s, branch, id, at),
{
    let c = chain_of(s, branch, id);
    sound_chains(s, branch, id);
    lemma_until_readable(c, at);
    let k = lemma_until_is_end(c, at);
    lemma_faithful_end(ops_of(c), k);
    assert(ops_of(c.skip(k)) =~= ops_of(c).skip(k));
}

/// A state that has a strategy is registered.
proof fn lemma_registered(s: StrategiesView, id: Seq<char>) -> (i: int)
    requires
        strategy_of(s, id) is Some,
    ensures
        0 <= i < s.len(),
        s[i].0 == id,
    decreases s.len(),
{
    if s.last().0 == id {
        s.len() - 1
    } else {
        lemma_registered(s.drop_last(), id)
    }
}

/// A branch takes over no head for a state that had no value.
proof fn lemma_no_head_taken(
    s: StoreView,
    heads: HeadsView,
    from: BranchId,
    at: Sequence,
    ids: Seq<Seq<char>>,
    to: BranchId,
    id: Seq<char>,
)
    requires
        heads_at(s, heads, from, at, ids, to) is Ok,
        chain_info(s, from, id, at) matches Ok(None),
    ensures
        heads_at(s, heads, from, at, ids, to)->Ok_0.contains_key((to, id)) == heads.contains_key(
            (to, id),
        ),
    decreases ids.len(),
{
    if ids.len() > 0 {
        lemma_no_head_taken(s, heads, from, at, ids.drop_last(), to, id);
    }
}

/// A branch has each state as its parent had it at the sequence that it was made at.
proof fn lemma_took_states(
    s: StoreView,
    now: StoreView,
    p: BranchView,
    b: BranchView,
    told: Option<Seq<char>>,
    id: Seq<char>,
)
    requires
        sound(s),
        sound(now),
        took_states(s, now, p, b, told),
    ensures
        b.head == p.head ==> until(chain_of(s, p.id, id), Some(b.head)) == chain_of(s, p.id, id),
        items_in_order(s, p.id, id) ==> {
            &&& items_in_order(now, b.id, id)
            &&& items_in(now, b.id, id) == past_items(s, p.id, id, b.head)
            &&& text_in(now, b.id, id) == past_text(s, p.id, id, b.head)
        },
        tree_in_order(s, p.id, id) ==> {
            &&& tree_in_order(now, b.id, id)
            &&& tree_in(now, b.id, id) == past_tree(s, p.id, id, b.head)
        },
{
    let c = chain_of(s, p.id, id);
    let past = until(c, Some(b.head));
    sound_chains(s, p.id, id);
    lemma_no_states(s, b.id, id);
    if b.head == p.head {
        lemma_until_same(c, b.head);
    }
    let copied = heads_copied(s.states.heads, p.id, b.id);
    if b.head == p.head && now == with_heads(with_new_branch(s, b, Some(p.name)), copied) {
        assert(copied.contains_key((b.id, id)) == s.states.heads.contains_key((p.id, id)));
        assert(head_at(now.states, b.id, id) == head_at(s.states, p.id, id));
        assert(chain_of(now, b.id, id) == c);
    } else if strategy_of(s.states.strategies, id) is Some {
        let i = lemma_registered(s.states.strategies, id);
        assert(registered(s)[i] == id);
        if past.len() > 0 {
            lemma_past_in_order(s, p.id, id, b.head);
        } else {
            lemma_no_head_taken(
                s,
                s.states.heads,
                p.id,
                b.head,
                registered(s),
                b.id,
                id,
            );
            assert(head_at(now.states, b.id, id) is None);
            assert(chain_of(now, b.id, id) =~= past);
        }
    }
}

/// One step does to the items of an array state on each branch what it is to do.
proof fn lemma_items_step<E: Fn(&StateUpdateRecord) -> Result<Vec<u8>, StoreError>>(
    encode: E,
    id: Seq<char>,
    s: StoreView,
    step: Step,
    now: StoreView,
    branch: BranchId,
)
    requires
        sound(s),
        payloads_fit(encode),
        stepped(encode, id, s, step, now),
        forall|x: BranchId| #[trigger] items_in_order(s, x, id),
        step matches Step::Update { op } ==> is_item_step(items_in(s, s.branches.current, id), op),
    ensures
        sound(now),
        items_in_order(now, branch, id),
        match step {
            Step::Update { op } if branch == s.branches.current => {
                let items = items_in(s, branch, id);
                items_in(now, branch, id) == items_after(items, op) && text_in(now, branch, id)
                    == text_after(items, op)
            },
            Step::Branch { from, to, at } if branch == to => {
                &&& items_in(now, branch, id) == past_items(s, from, id, at)
                &&& text_in(now, branch, id) == past_text(s, from, id, at)
                &&& is_head(s, from, at) ==> items_in(now, branch, id) == items_in(s, from, id)
                    && text_in(now, branch, id) == text_in(s, from, id)
            },
            _ => items_in(now, branch, id) == items_in(s, branch, id) && text_in(now, branch, id)
                == text_in(s, branch, id),
        },
{
    lemma_untouched(encode, id, s, step, now, branch);
    assert(items_in_order(s, branch, id));
    if let Step::Branch { from, to, at } = step {
        let (p, b, told) = choose|p: BranchView, b: BranchView, told: Option<Seq<char>>| #[trigger]
            took_states(s, now, p, b, told) && p.id == from && b.id == to && b.head == at;
        assert(items_in_order(s, from, id));
        lemma_took_states(s, now, p, b, told, id);
    }
}

/// One step does to the files of a tree state on each branch what it is to do.
proof fn lemma_tree_step<E: Fn(&StateUpdateRecord) -> Result<Vec<u8>, StoreError>>(
    encode: E,
    id: Seq<char>,
    s: StoreView,
    step: Step,
    now: StoreView,
    branch: BranchId,
)
    requires
        sound(s),
        payloads_fit(encode),
        stepped(encode, id, s, step, now),
        forall|x: BranchId| #[trigger] tree_in_order(s, x, id),
        step matches Step::Update { op } ==> is_tree_step(op),
    ensures
        sound(now),
        tree_in_order(now, branch, id),
        match step {
            Step::Update { op } if branch == s.branches.current => tree_in(now, branch, id)
                == tree_after(tree_in(s, branch, id), op),
            Step::Branch { from, to, at } if branch == to => {
                &&& tree_in(now, branch, id) == past_tree(s, from, id, at)
                &&& is_head(s, from, at) ==> tree_in(now, branch, id) == tree_in(s, from, id)
            },
            _ => tree_in(now, branch, id) == tree_in(s, branch, id),
        },
{
    lemma_untouched(encode, id, s, step, now, branch);
    assert(tree_in_order(s, branch, id));
    if let Step::Branch { from, to, at } = step {
        let (p, b, told) = choose|p: BranchView, b: BranchView, told: Option<Seq<char>>| #[trigger]
            took_states(s, now, p, b, told) && p.id == from && b.id == to && b.head == at;
        assert(tree_in_order(s, from, id));
        lemma_took_states(s, now, p, b, told, id);
    }
}

/// Whether the updates among steps are ones on the items of an array state that leave them
/// countable.
pub open spec fn item_steps(id: Seq<char>, run: Seq<StoreView>, steps: Seq<Step>) -> bool {
    forall|i: int|
        0 <= i < steps.len() ==> ((#[trigger] steps[i]) matches Step::Update { op } ==> is_item_step(
            items_in(run[i], run[i].branches.current, id),
            op,
        ))
}

/// Whether an array state on a branch is, after steps, what its updates make: it is in order,
/// with the items and the value that they make one after the other.
pub open spec fn is_as_made(
    id: Seq<char>,
    run: Seq<StoreView>,
    steps: Seq<Step>,
    branch: BranchId,
) -> bool {
    &&& items_in_order(run.last(), branch, id)
    &&& items_in(run.last(), branch, id) == items_made(id, run, steps, branch)
    &&& text_in(run.last(), branch, id) == text_made(id, run, steps, branch)
}

/// An array state is what its updates make: whatever happens to a store, with whatever
/// snapshots and branches, the state is in order on every branch, its items are those that
/// its updates there make one after the other, and its value is the text of them.
pub proof fn array_state_is_what_its_updates_make<
    E: Fn(&StateUpdateRecord) -> Result<Vec<u8>, StoreError>,
>(encode: E, id: Seq<char>, run: Seq<StoreView>, steps: Seq<Step>)
    requires
        sound(run[0]),
        payloads_fit(encode),
        steps_lead(encode, id, run, steps),
        item_steps(id, run, steps),
        forall|branch: BranchId| #[trigger] items_in_order(run[0], branch, id),
    ensures
        sound(run.last()),
        forall|branch: BranchId| #[trigger] is_as_made(id, run, steps, branch),
    decreases steps.len(),
{
    if steps.len() > 0 {
        let before = steps.drop_last();
        let init = run.drop_last();
        lemma_steps_before(encode, id, run, steps);
        assert(item_steps(id, init, before)) by {
            assert forall|i: int| 0 <= i < before.len() implies ((
            #[trigger] before[i]) matches Step::Update { op } ==> is_item_step(
                items_in(init[i], init[i].branches.current, id),
                op,
            )) by {
                assert(before[i] == steps[i] && init[i] == run[i]);
            }
        }
        array_state_is_what_its_updates_make(encode, id, init, before);
        assert forall|branch: BranchId| #[trigger] is_as_made(id, run, steps, branch) && sound(
            run.last(),
        ) by {
            lemma_made_next(encode, id, run, steps, branch);
        }
        assert(is_as_made(id, run, steps, BranchId(0)));
    } else {
        assert forall|branch: BranchId| #[trigger] is_as_made(id, run, steps, branch) by {
            assert(items_in_order(run[0], branch, id));
        }
    }
}

proof fn lemma_made_next<E: Fn(&StateUpdateRecord) -> Result<Vec<u8>, StoreError>>(
    encode: E,
    id: Seq<char>,
    run: Seq<StoreView>,
    steps: Seq<Step>,
    branch: BranchId,
)
    requires
        steps.len() > 0,
        sound(run.drop_last().last()),
        payloads_fit(encode),
        steps_lead(encode, id, run, steps),
        item_steps(id, run, steps),
        forall|x: BranchId| #[trigger] is_as_made(id, run.drop_last(), steps.drop_last(), x),
    ensures
        sound(run.last()),
        is_as_made(id, run, steps, branch),
{
    let n = steps.len() - 1;
    let before = steps.drop_last();
    let init = run.drop_last();
    let s = run[n];
    let now = run[n + 1];
    assert(init.last() == s && run.last() == now);
    assert(stepped(encode, id, s, steps[n], now));
    assert forall|x: BranchId| #[trigger] items_in_order(s, x, id) by {
        assert(is_as_made(id, init, before, x));
    }
    lemma_items_step(encode, id, s, steps[n], now, branch);
    lemma_made_before(id, run, before, branch);
    assert(is_as_made(id, init, before, branch));
    if let Step::Branch { from, to, at } = steps[n] {
        lemma_made_before(id, run, before, from);
        assert(is_as_made(id, init, before, from));
    }
}

/// A tree state is what its updates make: whatever happens to a store, with whatever
/// snapshots and branches, the state is in order on every branch, and its files are those
/// that its updates there make one after the other.
pub proof fn tree_state_is_what_its_updates_make<
    E: Fn(&StateUpdateRecord) -> Result<Vec<u8>, StoreError>,
>(encode: E, id: Seq<char>, run: Seq<StoreView>, steps: Seq<Step>)
    requires
        sound(run[0]),
        payloads_fit(encode),
        steps_lead(encode, id, run, steps),
        forall|i: int|
            0 <= i < steps.len() ==> ((#[trigger] steps[i]) matches Step::Update { op }
                ==> is_tree_step(op)),
        forall|branch: BranchId| #[trigger] tree_in_order(run[0], branch, id),
    ensures
        sound(run.last()),
        forall|branch: BranchId| #[trigger] tree_in_order(run.last(), branch, id),
        forall|branch: BranchId| #[trigger]
            tree_in(run.last(), branch, id) == tree_made(id, run, steps, branch),
    decreases steps.len(),
{
    if steps.len() > 0 {
        let n = steps.len() - 1;
        let before = steps.drop_last();
        let init = run.drop_last();
        lemma_steps_before(encode, id, run, steps);
        assert forall|i: int| 0 <= i < before.len() implies ((
        #[trigger] before[i]) matches Step::Update { op } ==> is_tree_step(op)) by {
            assert(before[i] == steps[i]);
        }
        tree_state_is_what_its_updates_make(encode, id, init, before);
        let s = run[n];
        let now = run[n + 1];
        assert(init.last() == s && run.last() == now);
        assert(stepped(encode, id, s, steps[n], now));
        assert(steps[n] == steps.last());
        lemma_tree_step(encode, id, s, steps[n], now, s.branches.current);
        assert forall|branch: BranchId| #[trigger] tree_in_order(now, branch, id) by {
            lemma_tree_step(encode, id, s, steps[n], now, branch);
        }
        assert forall|branch: BranchId| #[trigger]
            tree_in(now, branch, id) == tree_made(id, run, steps, branch) by {
            lemma_tree_step(encode, id, s, steps[n], now, branch);
            lemma_made_before(id, run, before, branch);
            assert(tree_in(s, branch, id) == tree_made(id, init, before, branch));
            if let Step::Branch { from, to, at } = steps[n] {
                lemma_made_before(id, run, before, from);
                assert(tree_in(s, from, id) == tree_made(id, init, before, from));
            }
        }
    }
}

proof fn lemma_steps_before<E: Fn(&StateUpdateRecord) -> Result<Vec<u8>, StoreError>>(
    encode: E,
    id: Seq<char>,
    run: Seq<StoreView>,
    steps: Seq<Step>,
)
    requires
        steps.len() > 0,
        steps_lead(encode, id, run, steps),
    ensures
        steps_lead(encode, id, run.drop_last(), steps.drop_last()),
{
    let before = steps.drop_last();
    let init = run.drop_last();
    assert forall|i: int| 0 <= i < before.len() implies stepped(
        encode,
        id,
        init[i],
        #[trigger] before[i],
        init[i + 1],
    ) by {
        assert(before[i] == steps[i] && init[i] == run[i] && init[i + 1] == run[i + 1]);
    }
}

/// What steps make depends on the stores before the last one alone.
proof fn lemma_made_before(id: Seq<char>, run: Seq<StoreView>, steps: Seq<Step>, branch: BranchId)
    requires
        run.len() == steps.len() + 2,
    ensures
        items_made(id, run.drop_last(), steps, branch) == items_made(id, run, steps, branch),
        text_made(id, run.drop_last(), steps, branch) == text_made(id, run, steps, branch),
        tree_made(id, run.drop_last(), steps, branch) == tree_made(id, run, steps, branch),
{
    lemma_made_of(id, run.drop_last(), run, steps, branch);
}

proof fn lemma_made_of(
    id: Seq<char>,
    a: Seq<StoreView>,
    b: Seq<StoreView>,
    steps: Seq<Step>,
    branch: BranchId,
)
    requires
        a.len() > steps.len(),
        b.len() > steps.len(),
        forall|i: int| 0 <= i <= steps.len() ==> #[trigger] a[i] == b[i],
    ensures
        items_made(id, a, steps, branch) == items_made(id, b, steps, branch),
        text_made(id, a, steps, branch) == text_made(id, b, steps, branch),
        tree_made(id, a, steps, branch) == tree_made(id, b, steps, branch),
    decreases steps.len(),
{
    if steps.len() > 0 {
        let before = steps.drop_last();
        assert(a[steps.len() - 1] == b[steps.len() - 1]);
        lemma_made_of(id, a, b, before, branch);
        if let Step::Branch { from, to, at } = steps.last() {
            lemma_made_of(id, a, b, before, from);
        }
    } else {
        assert(a[0] == b[0]);
    }
}

/// A state that has no updates is in order, and empty: with lists to hold, or with files.
pub proof fn new_state_is_in_order(s: StoreView, branch: BranchId, id: Seq<char>)
    requires
        head_at(s.states, branch, id) is None,
    ensures
        strategy_of(s.states.strategies, id) matches Some(
            StrategyView::AppendLog { delta_snapshot_every, full_snapshot_every },
        ) && delta_snapshot_every > 0 ==> items_in_order(s, branch, id) && items_in(
            s,
            branch,
            id,
        ).len() == 0,
        strategy_of(s.states.strategies, id) matches Some(StrategyView::Tree { .. })
            ==> tree_in_order(s, branch, id) && tree_in(s, branch, id).len() == 0,
{
    assert(chain_of(s, branch, id).len() == 0);
    assert(ops_of(chain_of(s, branch, id)).len() == 0);
}

/// Work that goes on from work is work.
proof fn lemma_work_goes_on<E: Fn(&StateUpdateRecord) -> Result<Vec<u8>, StoreError>>(
    encode: E,
    id: Seq<char>,
    s: StoreView,
    mid: StoreView,
    now: StoreView,
)
    requires
        worked_from(encode, id, s, mid),
        worked_from(encode, id, mid, now),
    ensures
        worked_from(encode, id, s, now),
{
    let a = choose|run: Seq<StoreView>| #[trigger]
        is_work(encode, id, run) && run[0] == s && run.last() == mid;
    let b = choose|run: Seq<StoreView>| #[trigger]
        is_work(encode, id, run) && run[0] == mid && run.last() == now;
    let run = a + b.skip(1);
    assert forall|i: int| 0 <= i < run.len() - 1 implies worked(
        encode,
        id,
        #[trigger] run[i],
        run[i + 1],
    ) by {
        if i < a.len() - 1 {
            assert(run[i] == a[i] && run[i + 1] == a[i + 1]);
            assert(worked(encode, id, a[i], a[i + 1]));
        } else {
            let k = i - (a.len() - 1);
            assert(run[i] == b[k] && run[i + 1] == b[k + 1]);
            assert(worked(encode, id, b[k], b[k + 1]));
        }
    }
    assert(is_work(encode, id, run));
    assert(run.last() == now);
}

proof fn lemma_single_work<E: Fn(&StateUpdateRecord) -> Result<Vec<u8>, StoreError>>(encode: E, id: Seq<char>, s: StoreView, now: StoreView)
    requires
        s == now || worked(encode, id, s, now),
    ensures
        worked_from(encode, id, s, now),
{
    if s == now {
        assert(is_work(encode, id, seq![s]));
    } else {
        let run = seq![s, now];
        assert(is_work(encode, id, run));
        assert(run.last() == now);
    }
}

proof fn lemma_snapshot_work<E: Fn(&StateUpdateRecord) -> Result<Vec<u8>, StoreError>>(
    encode: E,
    s: StoreView,
    id: Seq<char>,
    now: StoreView,
    r: Result<Option<RecordView>, ErrorView>,
)
    requires
        now.wf(),
        s.has_room(1),
        snapshot_taken(encode, s, id, now, r),
    ensures
        worked_from(encode, id, s, now),
{
    match s.branches.current_branch() {
        None => lemma_single_work(encode, id, s, now),
        Some(b) => match due_operation(s, b.id, id) {
            Some(Ok(op)) => {
                let mid = choose|mid: StoreView| #[trigger]
                    same_but_cache(s, mid) && mid.wf() && (match r {
                        Ok(Some(record)) => recorded(encode, mid, id, op, now, Ok(record)),
                        Ok(None) => false,
                        Err(e) => recorded(encode, mid, id, op, now, Err(e)),
                    });
                assert(recorded_on(encode, id, mid, now));
                lemma_single_work(encode, id, s, mid);
                lemma_single_work(encode, id, mid, now);
                lemma_work_goes_on(encode, id, s, mid, now);
            },
            _ => lemma_single_work(encode, id, s, now),
        },
    }
}

proof fn lemma_update_work<E: Fn(&StateUpdateRecord) -> Result<Vec<u8>, StoreError>>(
    encode: E,
    s: StoreView,
    id: Seq<char>,
    op: OperationView,
    now: StoreView,
    r: RecordView,
)
    requires
        now.wf(),
        s.has_room(2),
        recorded_with_snapshot(encode, s, id, op, now, Ok(r)),
    ensures
        worked_from(encode, id, s, now),
{
    let (mid, record) = choose|mid: StoreView, record: RecordView|
        #![trigger recorded(encode, s, id, op, mid, Ok(record))]
        recorded(encode, s, id, op, mid, Ok(record)) && mid.wf() && record == r && exists|
            taken: Option<RecordView>,
        | #[trigger]
            snapshot_taken(encode, mid, id, now, Ok(taken));
    let taken = choose|taken: Option<RecordView>| #[trigger]
        snapshot_taken(encode, mid, id, now, Ok(taken));
    assert(recorded_on(encode, id, s, mid));
    lemma_room_left(encode, s, id, op, mid, record);
    lemma_single_work(encode, id, s, mid);
    lemma_snapshot_work(encode, mid, id, now, Ok(taken));
    lemma_work_goes_on(encode, id, s, mid, now);
}

/// An update of a state, with the snapshot that follows, is a step.
pub proof fn update_is_a_step<E: Fn(&StateUpdateRecord) -> Result<Vec<u8>, StoreError>>(
    encode: E,
    s: StoreView,
    id: Seq<char>,
    op: OperationView,
    now: StoreView,
    r: RecordView,
)
    requires
        now.wf(),
        s.has_room(2),
        recorded_with_snapshot(encode, s, id, op, now, Ok(r)),
        items_updated(encode, s, id, op, now),
        files_updated(encode, s, id, op, now),
    ensures
        stepped(encode, id, s, Step::Update { op }, now),
{
    lemma_update_work(encode, s, id, op, now, r);
}

/// Compacting a state is a step that leaves it as it is.
pub proof fn compaction_is_a_step<E: Fn(&StateUpdateRecord) -> Result<Vec<u8>, StoreError>>(
    encode: E,
    s: StoreView,
    id: Seq<char>,
    now: StoreView,
    r: Option<RecordView>,
)
    requires
        now.wf(),
        s.has_room(2),
        compacted(encode, s, id, now, Ok(r)),
        items_kept(encode, s, id, now),
        files_kept(encode, s, id, now),
    ensures
        stepped(encode, id, s, Step::Snapshot, now),
{
    reveal(compacted);
    let b = s.branches.current_branch()->0;
    match state_value(s, b.id, id) {
        Ok(Some(v)) => {
            let op = OperationView::Snapshot(v);
            let mid = choose|mid: StoreView| #[trigger]
                same_but_cache(s, mid) && mid.wf() && recorded_with_snapshot(
                    encode,
                    mid,
                    id,
                    op,
                    now,
                    Ok(r->0),
                );
            lemma_single_work(encode, id, s, mid);
            lemma_update_work(encode, mid, id, op, now, r->0);
            lemma_work_goes_on(encode, id, s, mid, now);
        },
        _ => lemma_single_work(encode, id, s, now),
    }
}

/// Taking a snapshot of a state where one is due, and another one where that makes one due,
/// is a step that leaves it as it is.
pub proof fn snapshot_is_a_step<E: Fn(&StateUpdateRecord) -> Result<Vec<u8>, StoreError>>(
    encode: E,
    s: StoreView,
    id: Seq<char>,
    mid: StoreView,
    first: Option<RecordView>,
    now: StoreView,
    second: Option<RecordView>,
)
    requires
        mid.wf(),
        now.wf(),
        s.has_room(2),
        snapshot_taken(encode, s, id, mid, Ok(first)),
        match first {
            Some(_) => snapshot_taken(encode, mid, id, now, Ok(second)),
            None => now == mid,
        },
        items_kept(encode, s, id, now),
        files_kept(encode, s, id, now),
    ensures
        stepped(encode, id, s, Step::Snapshot, now),
{
    lemma_snapshot_work(encode, s, id, mid, Ok(first));
    if let Some(record) = first {
        let b = s.branches.current_branch()->0;
        let op = due_operation(s, b.id, id)->0->Ok_0;
        let read = choose|read: StoreView| #[trigger]
            same_but_cache(s, read) && read.wf() && recorded(encode, read, id, op, mid, Ok(record));
        lemma_room_left(encode, read, id, op, mid, record);
        lemma_snapshot_work(encode, mid, id, now, Ok(second));
        lemma_work_goes_on(encode, id, s, mid, now);
    }
}

/// Making a branch with the states of its parent is a step.
pub proof fn branch_is_a_step<E: Fn(&StateUpdateRecord) -> Result<Vec<u8>, StoreError>>(
    encode: E,
    id: Seq<char>,
    s: StoreView,
    now: StoreView,
    p: BranchView,
    b: BranchView,
)
    requires
        now.wf(),
        s.branches.next_id < u64::MAX,
        by_id(s.branches.branches, p.id) == Some(p),
        b == new_branch(s.branches, b.name, p.id, p.head, b.created),
        b.created.0 >= s.branches.last.0,
        now == with_heads(
            with_new_branch(s, b, Some(p.name)),
            heads_copied(s.states.heads, p.id, b.id),
        ),
    ensures
        stepped(encode, id, s, Step::Branch { from: p.id, to: b.id, at: p.head }, now),
{
    assert(took_states(s, now, p, b, Some(p.name)));
}

/// Making a branch at a sequence is a step.
pub proof fn branch_at_is_a_step<E: Fn(&StateUpdateRecord) -> Result<Vec<u8>, StoreError>>(
    encode: E,
    id: Seq<char>,
    s: StoreView,
    now: StoreView,
    p: BranchView,
    b: BranchView,
    told: Option<Seq<char>>,
)
    requires
        now.wf(),
        s.branches.next_id < u64::MAX,
        by_id(s.branches.branches, p.id) == Some(p),
        b == new_branch(s.branches, b.name, p.id, b.head, b.created),
        b.created.0 >= s.branches.last.0,
        b.head.0 <= p.head.0,
        heads_at(s, s.states.heads, p.id, b.head, registered(s), b.id) matches Ok(h) && now
            == with_heads(with_new_branch(s, b, told), h),
        sound(s) ==> states_taken(s, p.id, now, b.id, b.head),
    ensures
        stepped(encode, id, s, Step::Branch { from: p.id, to: b.id, at: b.head }, now),
{
    assert(took_states(s, now, p, b, told));
}

} // verus!
