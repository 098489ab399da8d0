//! Reading states.
use crate::branches::manager::current_missing;
use crate::error::{ErrorView, StoreError};
use crate::json::{array_text, json_items, parse_items, texts, write_array};
use crate::state::chain::{chain, edited_since, is_edited_at, kept, newest, reconstruct_at, until, ChainView};
use crate::state::laws::{direct_items, faithful_items, lemma_direct_plain, ops_of, readable, reconstruction_matches_direct_items, reconstruction_matches_direct_tree};
use crate::state::manager::{compaction_stats, head_at, registration_error, snapshot_due, strategy_of, CompactionStats, SnapshotNeeded};
use crate::state::operations::{holds_tree, reads_items};
use crate::state::walks::{chain_items, chain_stats, collect_items, keep_last, last_items, tail_of, walk_tail, ChainStats};
use crate::store::laws::{items_in, items_in_order, past_items, past_items_in_order, past_text, past_tree, past_tree_in_order, past_tree_text, text_in, tree_in, tree_in_order, tree_text_in};
use crate::store::model::{chain_of, same_but_cache, state_value, state_value_at};
use crate::store::{Store, StoreView};
use crate::tree::{tree_of, unreadable, TreeState};
use crate::types::{BranchId, Sequence, StateRegistration, StateStrategy, StrategyView};
use std::sync::Arc;
use vstd::prelude::*;
use vstd::string::*;

verus! {

/// A chain of a state in order has links where the state has a head.
pub proof fn lemma_chain_nonempty(s: StoreView, branch: BranchId, id: Seq<char>)
    requires
        head_at(s.states, branch, id) is Some,
    ensures
        chain_of(s, branch, id).len() > 0,
{
}

impl Store {
    /// Register a new state.
    pub fn register_state(&mut self, registration: StateRegistration) -> (r: Result<(), StoreError>)
        requires
            old(self).wf(),
        ensures
            final(self).wf(),
            match registration_error(
                old(self)@.states.strategies,
                registration.id@,
                registration.strategy@,
            ) {
                Some(e) => r matches Err(x) && x@ == e && final(self)@ == old(self)@,
                None => r is Ok && final(self)@ == (StoreView {
                    states: crate::state::manager::StateIndexView {
                        strategies: old(self)@.states.strategies.push(
                            (registration.id@, registration.strategy@),
                        ),
                        ..old(self)@.states
                    },
                    ..old(self)@
                }),
            },
    {
        self.state.register_state(registration)
    }

    /// The value of a state on a branch.
    fn value_on(&mut self, branch: BranchId, state_id: &str) -> (r: Result<
        Option<Vec<u8>>,
        StoreError,
    >)
        requires
            old(self).wf(),
        ensures
            final(self).wf(),
            same_but_cache(old(self)@, final(self)@),
            match r {
                Ok(Some(v)) => state_value(old(self)@, branch, state_id@) == Ok::<
                    Option<Seq<u8>>,
                    ErrorView,
                >(Some(v@)),
                Ok(None) => head_at(old(self)@.states, branch, state_id@) is None,
                Err(e) => state_value(old(self)@, branch, state_id@) == Err::<
                    Option<Seq<u8>>,
                    ErrorView,
                >(e@),
            },
            items_in_order(old(self)@, branch, state_id@) && head_at(
                old(self)@.states,
                branch,
                state_id@,
            ) is Some ==> (r matches Ok(Some(v)) && v@ == text_in(old(self)@, branch, state_id@)),
            tree_in_order(old(self)@, branch, state_id@) && head_at(
                old(self)@.states,
                branch,
                state_id@,
            ) is Some ==> (r matches Ok(Some(v)) && v@ == tree_text_in(
                old(self)@,
                branch,
                state_id@,
            ) && holds_tree(v@, tree_in(old(self)@, branch, state_id@))),
    {
        let ghost s = self@;
        let ghost c = chain_of(s, branch, state_id@);
        let r = self.state.get_state(&self.log, &self.updates, branch, state_id);
        proof {
            if head_at(s.states, branch, state_id@) is Some {
                lemma_chain_nonempty(s, branch, state_id@);
                if items_in_order(s, branch, state_id@) {
                    reconstruction_matches_direct_items(c);
                }
                if tree_in_order(s, branch, state_id@) {
                    reconstruction_matches_direct_tree(c);
                }
            }
        }
        r
    }

    /// Get the current value of a state.
    pub fn get_state(&mut self, state_id: &str) -> (r: Result<Option<Vec<u8>>, StoreError>)
        requires
            old(self).wf(),
        ensures
            final(self).wf(),
            same_but_cache(old(self)@, final(self)@),
            match old(self)@.branches.current_branch() {
                None => r matches Err(e) && e@ == current_missing(old(self)@.branches.current),
                Some(b) => {
                    &&& match r {
                        Ok(Some(v)) => state_value(old(self)@, b.id, state_id@) == Ok::<
                            Option<Seq<u8>>,
                            ErrorView,
                        >(Some(v@)),
                        Ok(None) => head_at(old(self)@.states, b.id, state_id@) is None,
                        Err(e) => state_value(old(self)@, b.id, state_id@) == Err::<
                            Option<Seq<u8>>,
                            ErrorView,
                        >(e@),
                    }
                    &&& items_in_order(old(self)@, b.id, state_id@) && head_at(
                        old(self)@.states,
                        b.id,
                        state_id@,
                    ) is Some ==> (r matches Ok(Some(v)) && v@ == text_in(
                        old(self)@,
                        b.id,
                        state_id@,
                    ))
                    &&& tree_in_order(old(self)@, b.id, state_id@) && head_at(
                        old(self)@.states,
                        b.id,
                        state_id@,
                    ) is Some ==> (r matches Ok(Some(v)) && v@ == tree_text_in(
                        old(self)@,
                        b.id,
                        state_id@,
                    ) && holds_tree(v@, tree_in(old(self)@, b.id, state_id@)))
                },
            },
    {
        match self.branches.current_branch() {
            Ok(b) => self.value_on(b.id, state_id),
            Err(e) => Err(e),
        }
    }

    /// Get the current value of a state, to be shared.
    pub fn get_state_arc(&mut self, state_id: &str) -> (r: Result<Option<Arc<Vec<u8>>>, StoreError>)
        requires
            old(self).wf(),
        ensures
            final(self).wf(),
            same_but_cache(old(self)@, final(self)@),
            match old(self)@.branches.current_branch() {
                None => r matches Err(e) && e@ == current_missing(old(self)@.branches.current),
                Some(b) => match r {
                    Ok(Some(v)) => state_value(old(self)@, b.id, state_id@) == Ok::<
                        Option<Seq<u8>>,
                        ErrorView,
                    >(Some((*v)@)),
                    Ok(None) => head_at(old(self)@.states, b.id, state_id@) is None,
                    Err(e) => state_value(old(self)@, b.id, state_id@) == Err::<
                        Option<Seq<u8>>,
                        ErrorView,
                    >(e@),
                },
            },
    {
        match self.get_state(state_id) {
            Ok(Some(v)) => Ok(Some(Arc::new(v))),
            Ok(None) => Ok(None),
            Err(e) => Err(e),
        }
    }

    /// Get the value of a state at a specific sequence number (historical access).
    ///
    /// Returns None if the state didn't exist at that sequence.
    pub fn get_state_at(&self, state_id: &str, at_sequence: Sequence) -> (r: Result<
        Option<Vec<u8>>,
        StoreError,
    >)
        requires
            self.wf(),
        ensures
            match self@.branches.current_branch() {
                None => r matches Err(e) && e@ == current_missing(self@.branches.current),
                Some(b) => {
                    &&& match r {
                        Ok(Some(v)) => state_value_at(self@, b.id, state_id@, at_sequence) == Ok::<
                            Option<Seq<u8>>,
                            ErrorView,
                        >(Some(v@)),
                        Ok(None) => state_value_at(self@, b.id, state_id@, at_sequence) == Ok::<
                            Option<Seq<u8>>,
                            ErrorView,
                        >(None),
                        Err(e) => state_value_at(self@, b.id, state_id@, at_sequence) == Err::<
                            Option<Seq<u8>>,
                            ErrorView,
                        >(e@),
                    }
                    &&& past_items_in_order(self@, b.id, state_id@, at_sequence) ==> (r matches Ok(
                        Some(v),
                    ) && v@ == past_text(self@, b.id, state_id@, at_sequence))
                    &&& past_tree_in_order(self@, b.id, state_id@, at_sequence) ==> (r matches Ok(
                        Some(v),
                    ) && v@ == past_tree_text(self@, b.id, state_id@, at_sequence) && holds_tree(
                        v@,
                        past_tree(self@, b.id, state_id@, at_sequence),
                    ))
                },
            },
    {
        match self.branches.current_branch() {
            Err(e) => Err(e),
            Ok(b) => match self.chain_at(b.id, state_id, at_sequence) {
                Ok(Some((_, v))) => Ok(Some(v)),
                Ok(None) => Ok(None),
                Err(e) => Err(e),
            },
        }
    }

    /// The value of a state on a branch at a sequence, with the offset of the newest update
    /// that makes it up.
    fn chain_at(&self, branch: BranchId, state_id: &str, at: Sequence) -> (r: Result<
        Option<(u64, Vec<u8>)>,
        StoreError,
    >)
        requires
            self.wf(),
        ensures
            match r {
                Ok(Some((offset, v))) => state_value_at(self@, branch, state_id@, at) == Ok::<
                    Option<Seq<u8>>,
                    ErrorView,
                >(Some(v@)) && newest(until(chain_of(self@, branch, state_id@), Some(at))) == Some(
                    offset,
                ),
                Ok(None) => state_value_at(self@, branch, state_id@, at) == Ok::<
                    Option<Seq<u8>>,
                    ErrorView,
                >(None),
                Err(e) => state_value_at(self@, branch, state_id@, at) == Err::<
                    Option<Seq<u8>>,
                    ErrorView,
                >(e@),
            },
            past_items_in_order(self@, branch, state_id@, at) ==> (r matches Ok(Some((_, v)))
                && v@ == past_text(self@, branch, state_id@, at)),
            past_tree_in_order(self@, branch, state_id@, at) ==> (r matches Ok(Some((_, v)))
                && v@ == past_tree_text(self@, branch, state_id@, at) && holds_tree(
                v@,
                past_tree(self@, branch, state_id@, at),
            )),
    {
        proof {
            let past = until(chain_of(self@, branch, state_id@), Some(at));
            if past_items_in_order(self@, branch, state_id@, at) {
                reconstruction_matches_direct_items(past);
            }
            if past_tree_in_order(self@, branch, state_id@, at) {
                reconstruction_matches_direct_tree(past);
            }
        }
        match self.state.get_head(branch, state_id) {
            None => Ok(None),
            Some(h) => reconstruct_at(&self.log, &self.updates, h.head_offset, at),
        }
    }

    /// Find the chain head info at a historical sequence: the offset, the item count, and
    /// whether something was recorded since the last snapshot that a delta snapshot cannot
    /// track.
    pub(crate) fn find_chain_info_at(&self, branch: BranchId, state_id: &str, at: Sequence) -> (r:
        Result<Option<(u64, usize, bool)>, StoreError>)
        requires
            self.wf(),
        ensures
            match r {
                Ok(x) => chain_info(self@, branch, state_id@, at) == Ok::<
                    Option<(u64, usize, bool)>,
                    ErrorView,
                >(x),
                Err(e) => chain_info(self@, branch, state_id@, at) == Err::<
                    Option<(u64, usize, bool)>,
                    ErrorView,
                >(e@),
            },
            past_items_in_order(self@, branch, state_id@, at) && !(strategy_of(
                self@.states.strategies,
                state_id@,
            ) matches Some(StrategyView::Tree { .. })) ==> (r matches Ok(Some((_, n, _))) && n == past_items(
                self@,
                branch,
                state_id@,
                at,
            ).len()),
    {
        let head = match self.state.get_head(branch, state_id) {
            Some(h) => h,
            None => return Ok(None),
        };
        match self.chain_at(branch, state_id, at) {
            Err(e) => Err(e),
            Ok(None) => Ok(None),
            Ok(Some((offset, v))) => {
                let is_tree: bool = match self.state.get_strategy(state_id) {
                    Some(StateStrategy::Tree { .. }) => true,
                    _ => false,
                };
                proof {
                    if past_items_in_order(self@, branch, state_id@, at) {
                        let past = until(chain_of(self@, branch, state_id@), Some(at));
                        lemma_direct_plain(ops_of(past));
                        assert(reads_items(v@, past_items(self@, branch, state_id@, at)));
                    }
                }
                let n: usize = count_items(&v, is_tree);
                match is_edited_at(&self.log, &self.updates, head.head_offset, at) {
                    Ok(edited) => Ok(Some((offset, n, edited))),
                    Err(e) => Err(e),
                }
            },
        }
    }

    /// Get the length of an AppendLog state without loading all items.
    ///
    /// The count is tracked in the state chain head. Returns None if state doesn't exist.
    pub fn get_state_len(&self, state_id: &str) -> (r: Result<Option<usize>, StoreError>)
        requires
            self.wf(),
        ensures
            match self@.branches.current_branch() {
                None => r matches Err(e) && e@ == current_missing(self@.branches.current),
                Some(b) => {
                    &&& match head_at(self@.states, b.id, state_id@) {
                        None => r matches Ok(None),
                        Some(h) => r matches Ok(Some(n)) && n == h.item_count,
                    }
                    &&& items_in_order(self@, b.id, state_id@) ==> (r matches Ok(Some(n)) ==> n
                        == items_in(self@, b.id, state_id@).len())
                },
            },
    {
        match self.branches.current_branch() {
            Err(e) => Err(e),
            Ok(b) => match self.state.get_head(b.id, state_id) {
                Some(h) => Ok(Some(h.item_count)),
                None => Ok(None),
            },
        }
    }

    /// Get a slice of an AppendLog state.
    ///
    /// - `offset`: Starting index (0-based from beginning of array)
    /// - `limit`: Maximum number of items to return
    ///
    /// Returns the items as a JSON array.
    pub fn get_state_slice(&mut self, state_id: &str, offset: usize, limit: usize) -> (r: Result<
        Option<Vec<u8>>,
        StoreError,
    >)
        requires
            old(self).wf(),
            offset + limit <= usize::MAX,
        ensures
            final(self).wf(),
            same_but_cache(old(self)@, final(self)@),
            match old(self)@.branches.current_branch() {
                None => r matches Err(e) && e@ == current_missing(old(self)@.branches.current),
                Some(b) => {
                    &&& match state_value(old(self)@, b.id, state_id@) {
                        Ok(None) => r matches Ok(None),
                        Ok(Some(v)) => match part_of(v, offset as int, limit as int) {
                            Ok(t) => r matches Ok(Some(x)) && x@ == t,
                            Err(e) => r matches Err(x) && x@ == e,
                        },
                        Err(e) => r matches Err(x) && x@ == e,
                    }
                    &&& items_in_order(old(self)@, b.id, state_id@) && head_at(
                        old(self)@.states,
                        b.id,
                        state_id@,
                    ) is Some ==> (r matches Ok(Some(x)) && x@ == array_text(
                        items_between(
                            items_in(old(self)@, b.id, state_id@),
                            offset as int,
                            limit as int,
                        ),
                    ))
                },
            },
    {
        let ghost s = self@;
        let state = match self.get_state(state_id) {
            Ok(Some(v)) => v,
            Ok(None) => return Ok(None),
            Err(e) => return Err(e),
        };
        proof {
            let b = s.branches.current_branch()->0;
            if items_in_order(s, b.id, state_id@) && head_at(s.states, b.id, state_id@) is Some {
                lemma_direct_plain(
                    ops_of(chain_of(s, b.id, state_id@)),
                );
                lemma_chain_nonempty(s, b.id, state_id@);
                assert(reads_items(state@, items_in(s, b.id, state_id@)));
            }
        }
        match slice_of(&state, offset, limit) {
            Ok(t) => Ok(Some(t)),
            Err(e) => Err(e),
        }
    }

    /// Get the last N items from an AppendLog state, as a JSON array: the value itself where
    /// that is all of them.
    pub fn get_state_tail(&mut self, state_id: &str, count: usize) -> (r: Result<
        Option<Vec<u8>>,
        StoreError,
    >)
        requires
            old(self).wf(),
        ensures
            final(self).wf(),
            same_but_cache(old(self)@, final(self)@),
            match old(self)@.branches.current_branch() {
                None => r matches Err(e) && e@ == current_missing(old(self)@.branches.current),
                Some(b) => {
                    &&& match head_at(old(self)@.states, b.id, state_id@) {
                        None => r matches Ok(None),
                        Some(h) => match tail_value(
                            state_value(old(self)@, b.id, state_id@),
                            chain_of(old(self)@, b.id, state_id@),
                            h.item_count as nat,
                            count as nat,
                        ) {
                            Ok(v) => r matches Ok(Some(x)) && x@ == v,
                            Err(e) => r matches Err(x) && x@ == e,
                        },
                    }
                    &&& items_in_order(old(self)@, b.id, state_id@) && head_at(
                        old(self)@.states,
                        b.id,
                        state_id@,
                    ) is Some ==> (r matches Ok(Some(x)) && x@ == (if 0 < count && count
                        >= items_in(old(self)@, b.id, state_id@).len() {
                        text_in(old(self)@, b.id, state_id@)
                    } else {
                        array_text(last_items(items_in(old(self)@, b.id, state_id@), count as nat))
                    }))
                },
            },
    {
        let ghost s = self@;
        let branch = match self.branches.current_branch() {
            Ok(b) => b,
            Err(e) => return Err(e),
        };
        let ghost c = chain_of(s, branch.id, state_id@);
        let ghost items = items_in(s, branch.id, state_id@);
        let head = match self.state.get_head(branch.id, state_id) {
            Some(h) => h,
            None => return Ok(None),
        };
        if count == 0 {
            let none: Vec<Vec<u8>> = Vec::new();
            proof {
                assert(texts(none@) =~= Seq::empty());
                assert(last_items(items, 0) =~= Seq::empty());
            }
            return Ok(Some(write_array(&none)));
        }
        if count >= head.item_count {
            return self.get_state(state_id);
        }
        proof {
            lemma_chain_nonempty(s, branch.id, state_id@);
            if items_in_order(s, branch.id, state_id@) {
                lemma_direct_plain(ops_of(c));
            }
        }
        match walk_tail(&self.log, &self.updates, head.head_offset, count) {
            Err(e) => Err(e),
            Ok(Some(tail)) => Ok(Some(write_array(&tail))),
            Ok(None) => {
                let state = match self.get_state(state_id) {
                    Ok(Some(v)) => v,
                    Ok(None) => Vec::new(),
                    Err(e) => return Err(e),
                };
                match tail_slice(&state, count) {
                    Ok(t) => Ok(Some(t)),
                    Err(e) => Err(e),
                }
            },
        }
    }

    /// The last N items of an AppendLog state by way of its whole chain.
    pub fn get_state_tail_full_reconstruct(&self, state_id: &str, count: usize) -> (r: Result<
        Option<Vec<u8>>,
        StoreError,
    >)
        requires
            self.wf(),
        ensures
            match self@.branches.current_branch() {
                None => r matches Err(e) && e@ == current_missing(self@.branches.current),
                Some(b) => match head_at(self@.states, b.id, state_id@) {
                    None => r matches Ok(None),
                    Some(_) => {
                        &&& if count == 0 {
                            r matches Ok(Some(x)) && x@ == array_text(Seq::empty())
                        } else {
                            match chain_items(chain_of(self@, b.id, state_id@)) {
                                Ok(items) => r matches Ok(Some(x)) && x@ == array_text(
                                    last_items(items, count as nat),
                                ),
                                Err(e) => r matches Err(x) && x@ == e,
                            }
                        }
                        &&& items_in_order(self@, b.id, state_id@) ==> (r matches Ok(Some(x))
                            && x@ == array_text(
                            last_items(items_in(self@, b.id, state_id@), count as nat),
                        ))
                    },
                },
            },
    {
        let branch = match self.branches.current_branch() {
            Ok(b) => b,
            Err(e) => return Err(e),
        };
        let head = match self.state.get_head(branch.id, state_id) {
            Some(h) => h,
            None => return Ok(None),
        };
        if count == 0 {
            let none: Vec<Vec<u8>> = Vec::new();
            proof {
                assert(texts(none@) =~= Seq::empty());
                assert(last_items(items_in(self@, branch.id, state_id@), 0) =~= Seq::empty());
            }
            return Ok(Some(write_array(&none)));
        }
        proof {
            lemma_chain_nonempty(self@, branch.id, state_id@);
        }
        match collect_items(&self.log, &self.updates, head.head_offset) {
            Ok(items) => Ok(Some(write_array(&keep_last(items, count)))),
            Err(e) => Err(e),
        }
    }

    /// Iterate over items in an AppendLog state, oldest first.
    pub fn iter_state_items(&self, state_id: &str) -> (r: Result<
        Option<StateItemIterator<'_>>,
        StoreError,
    >)
        requires
            self.wf(),
        ensures
            match self@.branches.current_branch() {
                None => r matches Err(e) && e@ == current_missing(self@.branches.current),
                Some(b) => match head_at(self@.states, b.id, state_id@) {
                    None => r matches Ok(None),
                    Some(_) => r matches Ok(Some(it)) && it.wf() && it.given() == 0 && it.items()
                        == chain_items(chain_of(self@, b.id, state_id@)) && (items_in_order(
                        self@,
                        b.id,
                        state_id@,
                    ) ==> it.in_order() == Some(items_in(self@, b.id, state_id@))),
                },
            },
    {
        match self.branches.current_branch() {
            Err(e) => Err(e),
            Ok(b) => match self.state.get_head(b.id, state_id) {
                None => Ok(None),
                Some(h) => Ok(
                    Some(
                        StateItemIterator {
                            log: &self.log,
                            updates: &self.updates,
                            head: h.head_offset,
                            buffer: Vec::new(),
                            current: 0,
                            prepared: false,
                        },
                    ),
                ),
            },
        }
    }

    /// Check if a state needs a snapshot.
    pub fn state_needs_snapshot(&self, state_id: &str) -> (r: bool)
        requires
            self.wf(),
        ensures
            r == (match self@.branches.current_branch() {
                Some(b) => snapshot_due(self@.states, b.id, state_id@) is Some,
                None => false,
            }),
    {
        match self.branches.current_branch() {
            Ok(b) => self.state.needs_snapshot(b.id, state_id),
            Err(_) => false,
        }
    }

    /// Get what type of snapshot is needed (if any).
    pub fn snapshot_needed(&self, state_id: &str) -> (r: Option<SnapshotNeeded>)
        requires
            self.wf(),
        ensures
            r == (match self@.branches.current_branch() {
                Some(b) => snapshot_due(self@.states, b.id, state_id@),
                None => None,
            }),
    {
        match self.branches.current_branch() {
            Ok(b) => self.state.snapshot_needed(b.id, state_id),
            Err(_) => None,
        }
    }

    /// Get compaction statistics for a state.
    pub fn get_compaction_stats(&self, state_id: &str) -> (r: Option<CompactionStats>)
        requires
            self.wf(),
        ensures
            r == (match self@.branches.current_branch() {
                Some(b) => match head_at(self@.states, b.id, state_id@) {
                    Some(h) => Some(compaction_stats(h)),
                    None => None,
                },
                None => None,
            }),
    {
        match self.branches.current_branch() {
            Ok(b) => self.state.get_compaction_stats(b.id, state_id),
            Err(_) => None,
        }
    }

    /// Get detailed chain statistics for a state.
    ///
    /// This traverses the entire chain to count operations and bytes.
    pub fn get_chain_stats(&self, state_id: &str) -> (r: Result<Option<ChainStats>, StoreError>)
        requires
            self.wf(),
        ensures
            match self@.branches.current_branch() {
                None => r matches Err(e) && e@ == current_missing(self@.branches.current),
                Some(b) => match stats_of(self@, b.id, state_id@) {
                    None => r matches Ok(None),
                    Some(Ok(s)) => r matches Ok(Some(x)) && x == s,
                    Some(Err(e)) => r matches Err(x) && x@ == e,
                },
            },
    {
        match self.branches.current_branch() {
            Err(e) => Err(e),
            Ok(b) => self.state.count_chain_operations(&self.log, &self.updates, b.id, state_id),
        }
    }
}

/// The statistics of the chain of a state.
pub open spec fn stats_of(s: StoreView, branch: BranchId, id: Seq<char>) -> Option<
    Result<ChainStats, ErrorView>,
> {
    match head_at(s.states, branch, id) {
        None => None,
        Some(_) => Some(chain_stats(chain_of(s, branch, id))),
    }
}

/// The number of items in a value: of files for a tree, else of array items; none where the
/// value does not read.
pub open spec fn item_count_of(v: Seq<u8>, is_tree: bool) -> nat {
    if v.len() == 0 {
        0
    } else if is_tree {
        match tree_of(v) {
            Ok(t) => t.len(),
            Err(_) => 0,
        }
    } else {
        match json_items(v) {
            Ok(items) => items.len(),
            Err(_) => 0,
        }
    }
}

/// The offset of a state's newest update at a sequence, the number of items then, and whether
/// something was recorded since the last snapshot that a delta snapshot cannot track.
pub open spec fn chain_info(s: StoreView, branch: BranchId, id: Seq<char>, at: Sequence) -> Result<
    Option<(u64, usize, bool)>,
    ErrorView,
> {
    let past = until(chain_of(s, branch, id), Some(at));
    match state_value_at(s, branch, id, at) {
        Err(e) => Err(e),
        Ok(None) => Ok(None),
        Ok(Some(v)) => Ok(
            Some(
                (
                    newest(past)->0,
                    item_count_of(
                        v,
                        strategy_of(s.states.strategies, id) matches Some(
                            StrategyView::Tree { .. },
                        ),
                    ) as usize,
                    edited_since(kept(past, false)->Ok_0),
                ),
            ),
        ),
    }
}

fn count_items(v: &Vec<u8>, is_tree: bool) -> (n: usize)
    ensures
        n == item_count_of(v@, is_tree),
        forall|items: Seq<Seq<u8>>| #[trigger]
            reads_items(v@, items) && !is_tree ==> n == items.len(),
{
    proof {
        assert forall|items: Seq<Seq<u8>>| #[trigger] reads_items(v@, items) implies v@.len()
            > 0 by {
            assert(array_text(items).len() >= 2);
        }
    }
    if v.len() == 0 {
        0
    } else if is_tree {
        match TreeState::from_json(v.as_slice()) {
            Ok(t) => t.len(),
            Err(_) => 0,
        }
    } else {
        match parse_items(v.as_slice()) {
            Ok(items) => {
                assert(texts(items@).len() == items@.len());
                items.len()
            },
            Err(_) => 0,
        }
    }
}

/// The items from an index on, up to a limit.
pub open spec fn items_between(items: Seq<Seq<u8>>, offset: int, limit: int) -> Seq<Seq<u8>> {
    let n = items.len() as int;
    let start = if offset < n {
        offset
    } else {
        n
    };
    let end = if offset + limit < n {
        offset + limit
    } else {
        n
    };
    items.subrange(start, end)
}

/// A part of an array that is given as a value.
pub open spec fn part_of(v: Seq<u8>, offset: int, limit: int) -> Result<Seq<u8>, ErrorView> {
    if v.len() == 0 {
        Ok(array_text(Seq::empty()))
    } else {
        match json_items(v) {
            Ok(items) => Ok(array_text(items_between(items, offset, limit))),
            Err(e) => Err(unreadable(e)),
        }
    }
}

/// The last items of an array that is given as a value.
pub open spec fn end_of(v: Seq<u8>, count: nat) -> Result<Seq<u8>, ErrorView> {
    if v.len() == 0 {
        Ok(array_text(Seq::empty()))
    } else {
        match json_items(v) {
            Ok(items) => Ok(array_text(last_items(items, count))),
            Err(e) => Err(unreadable(e)),
        }
    }
}

/// The last items of a state: none are asked for, or all, or as many as a walk from the
/// newest update finds, or what its value gives.
pub open spec fn tail_value(
    value: Result<Option<Seq<u8>>, ErrorView>,
    c: ChainView,
    item_count: nat,
    count: nat,
) -> Result<Seq<u8>, ErrorView> {
    let whole = match value {
        Ok(Some(v)) => Ok(v),
        Ok(None) => Ok(Seq::empty()),
        Err(e) => Err(e),
    };
    if count == 0 {
        Ok(array_text(Seq::empty()))
    } else if count >= item_count {
        whole
    } else {
        match tail_of(c, count, Seq::empty(), false) {
            Err(e) => Err(e),
            Ok(Some(items)) => Ok(array_text(items)),
            Ok(None) => match whole {
                Err(e) => Err(e),
                Ok(v) => end_of(v, count),
            },
        }
    }
}

fn slice_of(state: &Vec<u8>, offset: usize, limit: usize) -> (r: Result<Vec<u8>, StoreError>)
    requires
        offset + limit <= usize::MAX,
    ensures
        match r {
            Ok(t) => part_of(state@, offset as int, limit as int) == Ok::<Seq<u8>, ErrorView>(t@),
            Err(e) => part_of(state@, offset as int, limit as int) == Err::<Seq<u8>, ErrorView>(
                e@,
            ),
        },
        forall|items: Seq<Seq<u8>>| #[trigger]
            reads_items(state@, items) ==> r is Ok && r->Ok_0@ == array_text(items_between(items, offset as int, limit as int)),
{
    if state.len() == 0 {
        let none: Vec<Vec<u8>> = Vec::new();
        assert(texts(none@) =~= Seq::empty());
        proof {
            assert forall|items: Seq<Seq<u8>>| !#[trigger] reads_items(state@, items) by {
                assert(array_text(items).len() >= 2);
            }
        }
        return Ok(write_array(&none));
    }
    let mut items = match parse_items(state.as_slice()) {
        Ok(items) => items,
        Err(e) => return Err(StoreError::Deserialization(e)),
    };
    let ghost all = texts(items@);
    let n: usize = items.len();
    let end: usize = if offset + limit < n {
        offset + limit
    } else {
        n
    };
    let start: usize = if offset < n {
        offset
    } else {
        n
    };
    items.truncate(end);
    let part = items.split_off(start);
    assert(texts(part@) =~= items_between(all, offset as int, limit as int));
    Ok(write_array(&part))
}

fn tail_slice(state: &Vec<u8>, count: usize) -> (r: Result<Vec<u8>, StoreError>)
    ensures
        match r {
            Ok(t) => end_of(state@, count as nat) == Ok::<Seq<u8>, ErrorView>(t@),
            Err(e) => end_of(state@, count as nat) == Err::<Seq<u8>, ErrorView>(e@),
        },
        forall|items: Seq<Seq<u8>>| #[trigger]
            reads_items(state@, items) ==> r is Ok && r->Ok_0@ == array_text(last_items(items, count as nat)),
{
    if state.len() == 0 {
        let none: Vec<Vec<u8>> = Vec::new();
        assert(texts(none@) =~= Seq::empty());
        proof {
            assert forall|items: Seq<Seq<u8>>| !#[trigger] reads_items(state@, items) by {
                assert(array_text(items).len() >= 2);
            }
        }
        return Ok(write_array(&none));
    }
    let items = match parse_items(state.as_slice()) {
        Ok(items) => items,
        Err(e) => return Err(StoreError::Deserialization(e)),
    };
    Ok(write_array(&keep_last(items, count)))
}

/// Iterator over items in an AppendLog state.
///
/// The items are put together at the first call and then given one at a time, oldest first.
pub struct StateItemIterator<'a> {
    log: &'a crate::records::log::RecordLog,
    updates: &'a crate::state::chain::UpdateTable,
    head: u64,
    buffer: Vec<Vec<u8>>,
    current: usize,
    prepared: bool,
}

impl<'a> StateItemIterator<'a> {
    /// The items of the state.
    pub closed spec fn items(self) -> Result<Seq<Seq<u8>>, ErrorView> {
        chain_items(chain(self.log@.bytes, self.updates@, Some(self.head)))
    }

    /// The items of the state, if it is in order.
    pub closed spec fn in_order(self) -> Option<Seq<Seq<u8>>> {
        let c = chain(self.log@.bytes, self.updates@, Some(self.head));
        if readable(c) && faithful_items(ops_of(c)) && c.len() > 0 {
            Some(direct_items(ops_of(c)))
        } else {
            None
        }
    }

    /// How many items were given.
    pub closed spec fn given(self) -> nat {
        self.current as nat
    }

    /// Whether what was put together are the items.
    pub closed spec fn wf(self) -> bool {
        &&& crate::state::chain::table_wf(self.updates@)
        &&& self.prepared ==> self.items() == Ok::<Seq<Seq<u8>>, ErrorView>(texts(self.buffer@))
            && self.current <= self.buffer@.len() && (self.in_order() matches Some(items)
            ==> items == texts(self.buffer@))
        &&& !self.prepared ==> self.current == 0
    }

    /// The next item, as JSON.
    pub fn next(&mut self) -> (r: Option<Result<Vec<u8>, StoreError>>)
        requires
            old(self).wf(),
        ensures
            final(self).wf(),
            final(self).items() == old(self).items(),
            final(self).in_order() == old(self).in_order(),
            old(self).in_order() matches Some(items) ==> (if old(self).given() < items.len() {
                r matches Some(Ok(v)) && v@ == items[old(self).given() as int]
            } else {
                r is None
            }),
            match old(self).items() {
                Err(e) => r matches Some(Err(x)) && x@ == e && final(self).given() == old(self).given(),
                Ok(items) => if old(self).given() < items.len() {
                    r matches Some(Ok(v)) && v@ == items[old(self).given() as int] && final(self).given() == old(self).given() + 1
                } else {
                    r is None && final(self).given() == old(self).given()
                },
            },
    {
        if !self.prepared {
            match collect_items(self.log, self.updates, self.head) {
                Err(e) => return Some(Err(e)),
                Ok(items) => {
                    self.buffer = items;
                    self.prepared = true;
                },
            }
        }
        if self.current >= self.buffer.len() {
            return None;
        }
        let item = crate::bytes::copied(&self.buffer[self.current]);
        assert(texts(self.buffer@)[self.current as int] == item@);
        self.current = self.current + 1;
        Some(Ok(item))
    }
}

} // verus!
