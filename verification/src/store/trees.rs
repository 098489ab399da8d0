//! Tree operations.
use crate::branches::manager::{current_missing, lemma_current};
use crate::error::{ErrorView, StoreError};
use crate::state::manager::head_at;
use crate::state::operations::{holds_tree, read_tree, tree_value};
use crate::store::laws::{files_updated, past_tree, past_tree_in_order, payloads_fit, recorded_snapshot_keeps_tree, tree_in, tree_in_order};
use crate::store::model::{encodes, recorded, recorded_with_snapshot, same_but_cache, state_value, state_value_at};
use crate::store::updates::{lemma_same_chain, outcome};
use crate::store::{Store, StoreView};
use crate::tree::{diff_trees, invalid_path, is_diff, list_files, listed, listing_is_sorted, tree_lookup, tree_sorted, valid_tree_path, validate_tree_path, with_prefix, TreeState, TreeView};
use crate::types::{copied_ops, views, OperationView, Record, Sequence, StateOperation, StateUpdateRecord, TreeChange, TreeEntry, TreeOp, TreeOpView};
use vstd::prelude::*;
use vstd::string::*;

verus! {

/// The first path among operations that names no file in a tree.
pub open spec fn first_invalid(ops: Seq<TreeOpView>) -> Option<Seq<char>>
    decreases ops.len(),
{
    if ops.len() == 0 {
        None
    } else {
        match first_invalid(ops.drop_last()) {
            Some(p) => Some(p),
            None => if valid_tree_path(ops.last().path()) {
                None
            } else {
                Some(ops.last().path())
            },
        }
    }
}

fn check_paths(ops: &Vec<TreeOp>) -> (r: Result<(), StoreError>)
    ensures
        match r {
            Ok(_) => first_invalid(views(ops@)) is None,
            Err(e) => first_invalid(views(ops@)) matches Some(p) && e@ == invalid_path(p),
        },
{
    let ghost all = views(ops@);
    let mut i: usize = 0;
    assert(all.take(0) =~= Seq::empty());
    while i < ops.len()
        invariant
            all == views(ops@),
            i <= ops@.len(),
            first_invalid(all.take(i as int)) is None,
        decreases ops@.len() - i,
    {
        proof {
            assert(all.take(i + 1).drop_last() =~= all.take(i as int));
            assert(all.take(i + 1).last() == ops@[i as int]@);
        }
        let path: &str = match &ops[i] {
            TreeOp::SetEntry { path, .. } => path.as_str(),
            TreeOp::Remove { path } => path.as_str(),
        };
        match validate_tree_path(path) {
            Ok(_) => {},
            Err(e) => {
                proof {
                    lemma_first_invalid(all, i + 1);
                }
                return Err(e);
            },
        }
        i += 1;
    }
    assert(all.take(i as int) =~= all);
    Ok(())
}

proof fn lemma_first_invalid(ops: Seq<TreeOpView>, n: int)
    requires
        0 <= n <= ops.len(),
        first_invalid(ops.take(n)) is Some,
    ensures
        first_invalid(ops) == first_invalid(ops.take(n)),
    decreases ops.len() - n,
{
    if n == ops.len() {
        assert(ops.take(n) =~= ops);
    } else {
        assert(ops.take(n + 1).drop_last() =~= ops.take(n));
        lemma_first_invalid(ops, n + 1);
    }
}

/// The tree that a value describes; no value, or an empty one, is the empty tree.
pub open spec fn tree_in_value(v: Option<Seq<u8>>) -> Result<TreeView, ErrorView> {
    match v {
        None => Ok(Seq::empty()),
        Some(b) => tree_value(b),
    }
}

fn read_tree_value(v: Option<Vec<u8>>) -> (r: Result<TreeState, StoreError>)
    ensures
        match r {
            Ok(t) => tree_in_value(crate::types::opt_view(v)) == Ok::<TreeView, ErrorView>(t@)
                && tree_sorted(t@),
            Err(e) => tree_in_value(crate::types::opt_view(v)) == Err::<TreeView, ErrorView>(e@),
        },
        forall|t: TreeView|
            v is Some && #[trigger] holds_tree(v->0@, t) ==> r is Ok && r->Ok_0@ == t,
{
    match v {
        None => Ok(TreeState::new()),
        Some(b) => read_tree(&b),
    }
}

/// The tree of a state, as its value describes it.
pub open spec fn tree_value_of(r: Result<Option<Seq<u8>>, ErrorView>) -> Result<TreeView, ErrorView> {
    match r {
        Err(e) => Err(e),
        Ok(v) => tree_in_value(v),
    }
}

impl Store {
    /// Set a single file in a tree state.
    pub fn tree_set<E: Fn(&StateUpdateRecord) -> Result<Vec<u8>, StoreError>>(
        &mut self,
        state_id: &str,
        path: &str,
        entry: &TreeEntry,
        encode: &E,
    ) -> (r: Result<Record, StoreError>)
        requires
            old(self).wf(),
            old(self)@.has_room(2),
            encodes(*encode),
        ensures
            final(self).wf(),
            if !valid_tree_path(path@) {
                r matches Err(e) && e@ == invalid_path(path@) && final(self)@ == old(self)@
            } else {
                tree_updated(
                    *encode,
                    old(self)@,
                    state_id@,
                    OperationView::TreeSet { path: path@, entry: entry@ },
                    final(self)@,
                    r,
                )
            },
    {
        match validate_tree_path(path) {
            Ok(_) => {},
            Err(e) => return Err(e),
        }
        self.update_state(
            state_id,
            StateOperation::TreeSet { path: path.to_owned(), entry: entry.clone() },
            encode,
        )
    }

    /// Remove a single file from a tree state.
    pub fn tree_remove<E: Fn(&StateUpdateRecord) -> Result<Vec<u8>, StoreError>>(
        &mut self,
        state_id: &str,
        path: &str,
        encode: &E,
    ) -> (r: Result<Record, StoreError>)
        requires
            old(self).wf(),
            old(self)@.has_room(2),
            encodes(*encode),
        ensures
            final(self).wf(),
            if !valid_tree_path(path@) {
                r matches Err(e) && e@ == invalid_path(path@) && final(self)@ == old(self)@
            } else {
                tree_updated(
                    *encode,
                    old(self)@,
                    state_id@,
                    OperationView::TreeRemove { path: path@ },
                    final(self)@,
                    r,
                )
            },
    {
        match validate_tree_path(path) {
            Ok(_) => {},
            Err(e) => return Err(e),
        }
        self.update_state(state_id, StateOperation::TreeRemove { path: path.to_owned() }, encode)
    }

    /// Apply a batch of tree operations atomically: all paths are checked before anything is
    /// recorded.
    pub fn tree_batch<E: Fn(&StateUpdateRecord) -> Result<Vec<u8>, StoreError>>(
        &mut self,
        state_id: &str,
        ops: &Vec<TreeOp>,
        encode: &E,
    ) -> (r: Result<Record, StoreError>)
        requires
            old(self).wf(),
            old(self)@.has_room(2),
            encodes(*encode),
        ensures
            final(self).wf(),
            match first_invalid(views(ops@)) {
                Some(p) => r matches Err(e) && e@ == invalid_path(p) && final(self)@ == old(self)@,
                None => tree_updated(
                    *encode,
                    old(self)@,
                    state_id@,
                    OperationView::TreeBatch { ops: views(ops@) },
                    final(self)@,
                    r,
                ),
            },
    {
        match check_paths(ops) {
            Ok(_) => {},
            Err(e) => return Err(e),
        }
        self.update_state(state_id, StateOperation::TreeBatch { ops: copied_ops(ops) }, encode)
    }

    fn current_tree(&mut self, state_id: &str) -> (r: Result<TreeState, StoreError>)
        requires
            old(self).wf(),
        ensures
            final(self).wf(),
            same_but_cache(old(self)@, final(self)@),
            match old(self)@.branches.current_branch() {
                None => r matches Err(e) && e@ == current_missing(old(self)@.branches.current),
                Some(b) => {
                    &&& match tree_value_of(state_value(old(self)@, b.id, state_id@)) {
                        Ok(t) => r matches Ok(x) && x@ == t && tree_sorted(t),
                        Err(e) => r matches Err(x) && x@ == e,
                    }
                    &&& tree_in_order(old(self)@, b.id, state_id@) ==> (r matches Ok(x) && x@
                        == tree_in(old(self)@, b.id, state_id@))
                },
            },
    {
        let ghost s = self@;
        match self.get_state(state_id) {
            Err(e) => Err(e),
            Ok(v) => {
                proof {
                    let b = s.branches.current_branch()->0;
                    if head_at(s.states, b.id, state_id@) is None {
                        assert(tree_in(s, b.id, state_id@) =~= Seq::empty());
                    } else if tree_in_order(s, b.id, state_id@) {
                        assert(holds_tree(v->0@, tree_in(s, b.id, state_id@)));
                    }
                }
                read_tree_value(v)
            },
        }
    }

    /// Get a single file entry from a tree state.
    pub fn tree_get(&mut self, state_id: &str, path: &str) -> (r: Result<
        Option<TreeEntry>,
        StoreError,
    >)
        requires
            old(self).wf(),
        ensures
            final(self).wf(),
            same_but_cache(old(self)@, final(self)@),
            match old(self)@.branches.current_branch() {
                None => r matches Err(e) && e@ == current_missing(old(self)@.branches.current),
                Some(b) => {
                    &&& match tree_value_of(state_value(old(self)@, b.id, state_id@)) {
                        Ok(t) => r matches Ok(x) && crate::types::opt_view(x) == tree_lookup(
                            t,
                            path@,
                        ),
                        Err(e) => r matches Err(x) && x@ == e,
                    }
                    &&& tree_in_order(old(self)@, b.id, state_id@) ==> (r matches Ok(x)
                        && crate::types::opt_view(x) == tree_lookup(
                        tree_in(old(self)@, b.id, state_id@),
                        path@,
                    ))
                },
            },
    {
        match self.current_tree(state_id) {
            Err(e) => Err(e),
            Ok(tree) => match tree.get(path) {
                Some(e) => Ok(Some(e.clone())),
                None => Ok(None),
            },
        }
    }

    /// List files in a tree state, optionally filtered by path prefix.
    pub fn tree_list(&mut self, state_id: &str, prefix: Option<&str>) -> (r: Result<
        Vec<(String, TreeEntry)>,
        StoreError,
    >)
        requires
            old(self).wf(),
        ensures
            final(self).wf(),
            same_but_cache(old(self)@, final(self)@),
            match old(self)@.branches.current_branch() {
                None => r matches Err(e) && e@ == current_missing(old(self)@.branches.current),
                Some(b) => {
                    &&& match tree_value_of(state_value(old(self)@, b.id, state_id@)) {
                        Ok(t) => tree_sorted(t) && (r matches Ok(x) && listed(x@) == (match prefix {
                            Some(p) => with_prefix(t, p@),
                            None => t,
                        }) && tree_sorted(listed(x@))),
                        Err(e) => r matches Err(x) && x@ == e,
                    }
                    &&& tree_in_order(old(self)@, b.id, state_id@) ==> (r matches Ok(x) && listed(
                        x@,
                    ) == (match prefix {
                        Some(p) => with_prefix(tree_in(old(self)@, b.id, state_id@), p@),
                        None => tree_in(old(self)@, b.id, state_id@),
                    }))
                },
            },
    {
        match self.current_tree(state_id) {
            Err(e) => Err(e),
            Ok(tree) => {
                proof {
                    if let Some(p) = prefix {
                        listing_is_sorted(tree@, p@);
                    }
                }
                Ok(list_files(tree, prefix))
            },
        }
    }

    /// Compute the diff between a tree state at two sequence points.
    ///
    /// Returns a list of changes (Added, Modified, Removed), by ascending path.
    pub fn tree_diff(&self, state_id: &str, from_seq: Sequence, to_seq: Sequence) -> (r: Result<
        Vec<TreeChange>,
        StoreError,
    >)
        requires
            self.wf(),
        ensures
            match self@.branches.current_branch() {
                None => r matches Err(e) && e@ == current_missing(self@.branches.current),
                Some(b) => {
                    &&& match (
                        state_value_at(self@, b.id, state_id@, from_seq),
                        state_value_at(self@, b.id, state_id@, to_seq),
                    ) {
                        (Err(e), _) => r matches Err(x) && x@ == e,
                        (Ok(_), Err(e)) => r matches Err(x) && x@ == e,
                        (Ok(v), Ok(w)) => match (tree_in_value(v), tree_in_value(w)) {
                            (Err(e), _) => r matches Err(x) && x@ == e,
                            (Ok(_), Err(e)) => r matches Err(x) && x@ == e,
                            (Ok(t), Ok(u)) => r matches Ok(x) && is_diff(t, u, views(x@)),
                        },
                    }
                    &&& past_tree_in_order(self@, b.id, state_id@, from_seq) && past_tree_in_order(
                        self@,
                        b.id,
                        state_id@,
                        to_seq,
                    ) ==> (r matches Ok(x) && is_diff(
                        past_tree(self@, b.id, state_id@, from_seq),
                        past_tree(self@, b.id, state_id@, to_seq),
                        views(x@),
                    ))
                },
            },
    {
        let from_state = match self.get_state_at(state_id, from_seq) {
            Ok(v) => v,
            Err(e) => return Err(e),
        };
        let to_state = match self.get_state_at(state_id, to_seq) {
            Ok(v) => v,
            Err(e) => return Err(e),
        };
        let from_tree = match read_tree_value(from_state) {
            Ok(t) => t,
            Err(e) => return Err(e),
        };
        let to_tree = match read_tree_value(to_state) {
            Ok(t) => t,
            Err(e) => return Err(e),
        };
        Ok(diff_trees(&from_tree, &to_tree))
    }

    /// Force a full snapshot of a tree state (compaction).
    pub fn tree_snapshot<E: Fn(&StateUpdateRecord) -> Result<Vec<u8>, StoreError>>(
        &mut self,
        state_id: &str,
        encode: &E,
    ) -> (r: Result<Option<Record>, StoreError>)
        requires
            old(self).wf(),
            old(self)@.has_room(1),
            encodes(*encode),
        ensures
            final(self).wf(),
            match old(self)@.branches.current_branch() {
                None => r matches Err(e) && e@ == current_missing(old(self)@.branches.current)
                    && same_but_cache(old(self)@, final(self)@),
                Some(b) => {
                    &&& match state_value(old(self)@, b.id, state_id@) {
                        Err(e) => r matches Err(x) && x@ == e && same_but_cache(
                            old(self)@,
                            final(self)@,
                        ),
                        Ok(None) => r matches Ok(None) && same_but_cache(old(self)@, final(self)@),
                        Ok(Some(v)) => exists|mid: StoreView| #[trigger]
                            same_but_cache(old(self)@, mid) && recorded(
                                *encode,
                                mid,
                                state_id@,
                                OperationView::Snapshot(v),
                                final(self)@,
                                match r {
                                    Ok(x) => Ok(x->0@),
                                    Err(e) => Err(e@),
                                },
                            ) && (r is Ok ==> r->Ok_0 is Some),
                    }
                    &&& payloads_fit(*encode) && r is Ok && tree_in_order(
                        old(self)@,
                        b.id,
                        state_id@,
                    ) ==> tree_in_order(final(self)@, b.id, state_id@) && tree_in(
                        final(self)@,
                        b.id,
                        state_id@,
                    ) == tree_in(old(self)@, b.id, state_id@)
                },
            },
    {
        let ghost s = self@;
        proof {
            lemma_current(s.branches);
        }
        let ghost b = s.branches.current;
        let current = match self.get_state(state_id) {
            Ok(Some(v)) => v,
            Ok(None) => {
                proof {
                    lemma_same_chain(s, self@, b, state_id@);
                }
                return Ok(None);
            },
            Err(e) => return Err(e),
        };
        let ghost mid = self@;
        let ghost op = OperationView::Snapshot(current@);
        proof {
            lemma_same_chain(s, mid, b, state_id@);
        }
        match self.record_operation(state_id, StateOperation::Snapshot(current), encode) {
            Err(e) => {
                assert(same_but_cache(s, mid));
                Err(e)
            },
            Ok(record) => {
                proof {
                    assert(same_but_cache(s, mid));
                    if payloads_fit(*encode) && tree_in_order(s, b, state_id@) {
                        recorded_snapshot_keeps_tree(
                            *encode,
                            mid,
                            state_id@,
                            op,
                            self@,
                            record@,
                            mid.branches.current_branch()->0,
                        );
                    }
                }
                Ok(Some(record))
            },
        }
    }
}

/// Whether updating a tree state led from one store to another with an outcome: a state in
/// order stays in order, with the tree that the operation makes.
pub open spec fn tree_updated<E: Fn(&StateUpdateRecord) -> Result<Vec<u8>, StoreError>>(
    encode: E,
    s: StoreView,
    id: Seq<char>,
    op: OperationView,
    now: StoreView,
    r: Result<Record, StoreError>,
) -> bool {
    &&& recorded_with_snapshot(encode, s, id, op, now, outcome(r))
    &&& r is Ok ==> files_updated(encode, s, id, op, now)
}

} // verus!
