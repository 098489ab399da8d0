//! Branch, blob, subscription and store operations.
use crate::blobs::storage::{are_hashes_of, length_of};
use crate::branches::manager::{by_name, create_error, current_missing, delete_error, lemma_named, new_branch, with_branch, without_name, BranchesView};
use crate::digest::blake3_digest;
use crate::error::{ErrorView, StoreError};
use crate::records::index::offsets_by_id;
use crate::state::chain::{chain, lemma_chain_step, newest, until, ChainView, LinkView};
use crate::state::laws::{lemma_until_readable, readable};
use crate::state::manager::{head_at, heads_copied, strategy_of, taken_over, HeadsView, StateIndexView};
use crate::store::compaction::registered;
use crate::store::history::{branch_at_is_in_order, branching_at_keeps_sound, branching_keeps_sound, deleting_keeps_sound, sound, sound_chains};
use crate::store::laws::{items_in, items_in_order, past_items, past_items_in_order, past_text, past_tree, past_tree_in_order, text_in, tree_in, tree_in_order};
use crate::store::model::{chain_of, state_value, state_value_at};
use crate::store::states::chain_info;
use crate::store::{Store, StoreView};
use crate::subscriptions::manager::SubscribersView;
use crate::subscriptions::types::{branch_summary, EventView, StoreEvent, SubscriptionConfig, SubscriptionId};
use crate::types::{views, Blob, BlobView, Branch, BranchId, BranchView, Sequence, StoreStats, StrategyView};
use vstd::prelude::*;
use vstd::string::*;

verus! {

/// The branch that another is made from: the named one, or the current one.
pub open spec fn parent_of(s: StoreView, from: Option<Seq<char>>) -> Result<BranchView, ErrorView> {
    match from {
        Some(f) => match by_name(s.branches.branches, f) {
            Some(b) => Ok(b),
            None => Err(ErrorView::BranchNotFound(f)),
        },
        None => match s.branches.current_branch() {
            Some(b) => Ok(b),
            None => Err(current_missing(s.branches.current)),
        },
    }
}

/// Why a branch cannot have a name.
pub open spec fn name_error(s: StoreView, name: Seq<char>) -> Option<ErrorView> {
    if name.len() == 0 {
        Some(ErrorView::InvalidOperation("Branch name cannot be empty"@))
    } else if by_name(s.branches.branches, name) is Some {
        Some(ErrorView::BranchExists(name))
    } else {
        None
    }
}

/// The name behind an optional text.
pub open spec fn opt_text(from: Option<&str>) -> Option<Seq<char>> {
    match from {
        Some(f) => Some(f@),
        None => None,
    }
}

/// The store with a new branch, of which subscribers were told.
pub open spec fn with_new_branch(s: StoreView, b: BranchView, parent: Option<Seq<char>>) -> StoreView {
    StoreView {
        branches: with_branch(s.branches, b),
        subscribers: s.subscribers.broadcast(
            EventView::BranchCreated { branch: branch_summary(b, parent) },
        ),
        ..s
    }
}

/// The store once a branch took over the chain heads of another.
pub open spec fn with_heads(s: StoreView, heads: HeadsView) -> StoreView {
    StoreView { states: StateIndexView { heads, ..s.states }, ..s }
}

/// The store once a branch was deleted and subscribers were told.
pub open spec fn with_branch_deleted(s: StoreView, name: Seq<char>) -> StoreView {
    StoreView {
        branches: BranchesView {
            branches: without_name(s.branches.branches, name),
            ..s.branches
        },
        subscribers: s.subscribers.broadcast(EventView::BranchDeleted { name }),
        ..s
    }
}

/// The chain heads once a branch has, for each state, the head that another branch had at a
/// sequence. Where a chain does not read, its error ends it.
pub open spec fn heads_at(
    s: StoreView,
    heads: HeadsView,
    from: BranchId,
    at: Sequence,
    ids: Seq<Seq<char>>,
    to: BranchId,
) -> Result<HeadsView, (HeadsView, ErrorView)>
    decreases ids.len(),
{
    if ids.len() == 0 {
        Ok(heads)
    } else {
        match heads_at(s, heads, from, at, ids.drop_last(), to) {
            Err(e) => Err(e),
            Ok(h) => match chain_info(s, from, ids.last(), at) {
                Err(e) => Err((h, e)),
                Ok(None) => Ok(h),
                Ok(Some((offset, n, edited))) => Ok(
                    h.insert((to, ids.last()), taken_over(offset, n, edited)),
                ),
            },
        }
    }
}

impl Store {
    /// Create a new branch from the current branch head, or from that of another branch. It
    /// starts with the states of its parent.
    pub fn create_branch(&mut self, name: &str, from: Option<&str>) -> (r: Result<
        Branch,
        StoreError,
    >)
        requires
            old(self).wf(),
            old(self)@.branches.next_id < u64::MAX,
        ensures
            final(self).wf(),
            match parent_of(old(self)@, opt_text(from)) {
                Err(e) => r matches Err(x) && x@ == e && final(self)@ == old(self)@,
                Ok(p) => match name_error(old(self)@, name@) {
                    Some(e) => r matches Err(x) && x@ == e && final(self)@ == old(self)@,
                    None => r matches Ok(b) && b@ == new_branch(
                        old(self)@.branches,
                        name@,
                        p.id,
                        p.head,
                        b.created,
                    ) && b.created.0 >= old(self)@.branches.last.0 && final(self)@ == with_heads(
                        with_new_branch(old(self)@, b@, Some(p.name)),
                        heads_copied(old(self)@.states.heads, p.id, b.id),
                    ),
                },
            },
            sound(old(self)@) ==> sound(final(self)@),
    {
        let ghost s = self@;
        let parent = match from {
            Some(f) => match self.branches.get_branch(f) {
                Some(b) => b,
                None => return Err(StoreError::BranchNotFound(f.to_owned())),
            },
            None => match self.branches.current_branch() {
                Ok(b) => b,
                Err(e) => return Err(e),
            },
        };
        proof {
            lemma_named(
                s.branches,
                parent@,
                match from {
                    Some(f) => f@,
                    None => Seq::empty(),
                },
                s.branches.current,
            );
        }
        let branch = match self.branches.create_branch(name, Some(parent.name.as_str())) {
            Ok(b) => b,
            Err(e) => return Err(e),
        };
        self.state.copy_heads_for_branch(parent.id, branch.id);
        self.subscriptions.broadcast_branch_created(&branch, Some(parent.name));
        proof {
            if sound(s) {
                branching_keeps_sound(s, parent@, branch@);
            }
        }
        Ok(branch)
    }

    /// Create a branch without copying state from parent, which is main where none is given.
    pub fn create_empty_branch(&mut self, name: &str, from: Option<&str>) -> (r: Result<
        Branch,
        StoreError,
    >)
        requires
            old(self).wf(),
            old(self)@.branches.next_id < u64::MAX,
        ensures
            final(self).wf(),
            ({
                let told = match from {
                    Some(f) => Some(f@),
                    None => match old(self)@.branches.current_branch() {
                        Some(b) => Some(b.name),
                        None => None,
                    },
                };
                let parent = match from {
                    Some(f) => f@,
                    None => "main"@,
                };
                let error = if name@.len() == 0 {
                    Some(ErrorView::InvalidOperation("Branch name cannot be empty"@))
                } else {
                    create_error(old(self)@.branches, name@, parent)
                };
                match r {
                    Ok(b) => {
                        let p = by_name(old(self)@.branches.branches, parent)->0;
                        &&& error is None
                        &&& b@ == new_branch(
                            old(self)@.branches,
                            name@,
                            p.id,
                            p.head,
                            b.created,
                        )
                        &&& b.created.0 >= old(self)@.branches.last.0
                        &&& final(self)@ == with_new_branch(old(self)@, b@, told)
                    },
                    Err(e) => error == Some(e@) && final(self)@ == old(self)@,
                }
            }),
    {
        let told: Option<String> = match from {
            Some(f) => Some(f.to_owned()),
            None => match self.branches.current_branch() {
                Ok(b) => Some(b.name),
                Err(_) => None,
            },
        };
        let branch = match self.branches.create_branch(name, from) {
            Ok(b) => b,
            Err(e) => return Err(e),
        };
        self.subscriptions.broadcast_branch_created(&branch, told);
        Ok(branch)
    }

    /// Create a branch at a specific sequence (time-travel branching).
    ///
    /// The new branch starts with the states as they were at the given sequence on the
    /// parent branch: its heads point to the same chains, and no records are written. Where
    /// a chain does not read, the branch is there but the error is returned.
    pub fn create_branch_at(&mut self, name: &str, from: &str, at: Sequence) -> (r: Result<
        Branch,
        StoreError,
    >)
        requires
            old(self).wf(),
            old(self)@.branches.next_id < u64::MAX,
        ensures
            final(self).wf(),
            match by_name(old(self)@.branches.branches, from@) {
                None => r matches Err(e) && e@ == ErrorView::BranchNotFound(from@) && final(self)@
                    == old(self)@,
                Some(p) => if by_name(old(self)@.branches.branches, name@) is Some {
                    r matches Err(e) && e@ == ErrorView::BranchExists(name@) && final(self)@
                        == old(self)@
                } else if at.0 > p.head.0 {
                    r matches Err(e) && e@ == ErrorView::InvalidSequence(at, p.head) && final(self)@ == old(self)@
                } else {
                    exists|b: BranchView|
                        b == #[trigger] new_branch(
                            old(self)@.branches,
                            name@,
                            p.id,
                            at,
                            b.created,
                        ) && b.created.0 >= old(self)@.branches.last.0 && (match heads_at(
                            old(self)@,
                            old(self)@.states.heads,
                            p.id,
                            at,
                            registered(old(self)@),
                            b.id,
                        ) {
                            Ok(h) => r matches Ok(x) && x@ == b && final(self)@ == with_heads(
                                with_new_branch(old(self)@, b, Some(from@)),
                                h,
                            ),
                            Err((h, e)) => r matches Err(x) && x@ == e && final(self)@
                                == with_heads(
                                (StoreView {
                                    branches: with_branch(old(self)@.branches, b),
                                    ..old(self)@
                                }),
                                h,
                            ),
                        })
                },
            },
            sound(old(self)@) && r is Ok ==> sound(final(self)@) && states_taken(
                old(self)@,
                by_name(old(self)@.branches.branches, from@)->0.id,
                final(self)@,
                r->Ok_0.id,
                at,
            ),
    {
        let ghost s = self@;
        let parent = match self.branches.get_branch(from) {
            Some(b) => b,
            None => return Err(StoreError::BranchNotFound(from.to_owned())),
        };
        let branch = match self.branches.create_branch_at(name, from, at) {
            Ok(b) => b,
            Err(e) => return Err(e),
        };
        let ids = self.state.state_ids();
        let ghost all = registered(s);
        proof {
            lemma_named(s.branches, parent@, from@, s.branches.current);
            assert(parent.id != branch.id);
            assert(views(ids@) == all);
            assert(all.take(0) =~= Seq::empty());
        }
        let ghost base = StoreView { branches: with_branch(s.branches, branch@), ..s };
        let ghost heads0 = s.states.heads;
        let mut i: usize = 0;
        while i < ids.len()
            invariant
                self.wf(),
                s == old(self)@,
                all == registered(s),
                views(ids@) == all,
                i <= ids@.len(),
                parent.id != branch.id,
                branch@ == new_branch(s.branches, name@, parent.id, at, branch.created),
                branch@.created.0 >= s.branches.last.0,
                by_name(s.branches.branches, from@) == Some(parent@),
                by_name(s.branches.branches, name@) is None,
                at.0 <= parent.head.0,
                base == (StoreView { branches: with_branch(s.branches, branch@), ..s }),
                self@ == with_heads(base, self@.states.heads),
                heads0 == s.states.heads,
                heads_at(s, heads0, parent.id, at, all.take(i as int), branch.id) == Ok::<
                    HeadsView,
                    (HeadsView, ErrorView),
                >(self@.states.heads),
                forall|id: Seq<char>| #[trigger]
                    head_at(self@.states, parent.id, id) == head_at(s.states, parent.id, id),
                forall|k: int| 0 <= k < i ==> is_counted(s, parent.id, #[trigger] all[k], at),
            decreases ids@.len() - i,
        {
            let ghost before = self@.states.heads;
            let ghost mid = self@;
            proof {
                assert(all.take(i + 1).drop_last() =~= all.take(i as int));
                assert(all.take(i + 1).last() == ids@[i as int]@);
                lemma_same_info(s, self@, parent.id, ids@[i as int]@, at);
            }
            let found = self.find_chain_info_at(parent.id, ids[i].as_str(), at);
            assert(found is Ok ==> is_counted(s, parent.id, all[i as int], at));
            match found {
                Err(e) => {
                    proof {
                        lemma_heads_error(
                            s,
                            heads0,
                            parent.id,
                            at,
                            all,
                            branch.id,
                            i + 1,
                            before,
                            e@,
                        );
                        assert(branch@ == new_branch(
                            s.branches,
                            name@,
                            parent@.id,
                            at,
                            branch@.created,
                        ));
                    }
                    return Err(e);
                },
                Ok(None) => {},
                Ok(Some((offset, n, edited))) => {
                    self.state.set_head_for_branch(branch.id, ids[i].as_str(), offset, n);
                    if edited {
                        self.state.mark_edited(branch.id, ids[i].as_str());
                    }
                    proof {
                        let key = (branch.id, ids@[i as int]@);
                        let head = taken_over(offset, n, edited);
                        assert(self@.states.heads =~= before.insert(key, head));
                        assert forall|id: Seq<char>| #[trigger]
                            head_at(self@.states, parent.id, id) == head_at(
                                s.states,
                                parent.id,
                                id,
                            ) by {
                            assert(head_at(mid.states, parent.id, id) == head_at(
                                s.states,
                                parent.id,
                                id,
                            ));
                        }
                    }
                },
            }
            i += 1;
        }
        let ghost h = self@.states.heads;
        proof {
            assert(all.take(i as int) =~= all);
            assert(branch@ == new_branch(s.branches, name@, parent@.id, at, branch@.created));
        }
        self.subscriptions.broadcast_branch_created(&branch, Some(from.to_owned()));
        proof {
            if sound(s) {
                branching_at_keeps_sound(s, parent@, branch@, all, Some(from@));
                lemma_states_taken(s, self@, parent.id, branch.id, at, all, h);
            }
        }
        Ok(branch)
    }

    /// Switch to a different branch.
    pub fn switch_branch(&mut self, name: &str) -> (r: Result<Branch, StoreError>)
        requires
            old(self).wf(),
        ensures
            final(self).wf(),
            match by_name(old(self)@.branches.branches, name@) {
                Some(b) => r matches Ok(x) && x@ == b && final(self)@ == (StoreView {
                    branches: BranchesView { current: b.id, ..old(self)@.branches },
                    ..old(self)@
                }) && final(self)@.branches.current_branch() == Some(b),
                None => r matches Err(e) && e@ == ErrorView::BranchNotFound(name@) && final(self)@
                    == old(self)@,
            },
    {
        self.branches.switch_branch(name)
    }

    /// Get the current branch.
    pub fn current_branch(&self) -> (r: Result<Branch, StoreError>)
        ensures
            match self@.branches.current_branch() {
                Some(b) => r matches Ok(x) && x@ == b,
                None => r matches Err(e) && e@ == current_missing(self@.branches.current),
            },
    {
        self.branches.current_branch()
    }

    /// List all branches, in the order in which they were created.
    pub fn list_branches(&self) -> (r: Vec<Branch>)
        ensures
            views(r@) == self@.branches.branches,
    {
        self.branches.list_branches()
    }

    /// Delete a branch.
    pub fn delete_branch(&mut self, name: &str) -> (r: Result<(), StoreError>)
        requires
            old(self).wf(),
        ensures
            final(self).wf(),
            match delete_error(old(self)@.branches, name@) {
                Some(e) => r matches Err(x) && x@ == e && final(self)@ == old(self)@,
                None => r is Ok && final(self)@ == with_branch_deleted(old(self)@, name@),
            },
            sound(old(self)@) ==> sound(final(self)@),
    {
        let ghost s = self@;
        match self.branches.delete_branch(name) {
            Ok(_) => {},
            Err(e) => return Err(e),
        }
        self.subscriptions.broadcast_branch_deleted(name);
        proof {
            if sound(s) {
                deleting_keeps_sound(s, self@, name@);
            }
        }
        Ok(())
    }

    /// Store a blob.
    pub fn store_blob(&mut self, content: &[u8], content_type: &str) -> (hash: crate::types::Hash)
        requires
            old(self).wf(),
        ensures
            final(self).wf(),
            hash.0@ == blake3_digest(content@),
            final(self)@ == (StoreView {
                blobs: old(self)@.blobs.after_store(content@, content_type@),
                ..old(self)@
            }),
    {
        self.blobs.store(content, content_type)
    }

    /// Get a blob by hash.
    pub fn get_blob(&mut self, hash: &crate::types::Hash) -> (r: Result<Option<Blob>, StoreError>)
        requires
            old(self).wf(),
        ensures
            final(self).wf(),
            final(self)@ == (StoreView {
                blobs: old(self)@.blobs.after_read(hash.0@),
                ..old(self)@
            }),
            match r {
                Ok(Some(blob)) => old(self)@.blobs.read(hash.0@) == Ok::<
                    Option<BlobView>,
                    ErrorView,
                >(Some(blob@)) && blake3_digest(blob.content@) == hash.0@,
                Ok(None) => old(self)@.blobs.read(hash.0@) == Ok::<Option<BlobView>, ErrorView>(
                    None,
                ),
                Err(e) => old(self)@.blobs.read(hash.0@) == Err::<Option<BlobView>, ErrorView>(e@),
            },
    {
        self.blobs.get(hash)
    }

    /// Check if a blob exists.
    pub fn blob_exists(&self, hash: &crate::types::Hash) -> (r: bool)
        requires
            self.wf(),
        ensures
            r == self@.blobs.has(hash.0@),
    {
        self.blobs.contains(hash)
    }

    /// Get store statistics. Sizes stop at the largest number.
    pub fn stats(&self) -> (r: StoreStats)
        requires
            self.wf(),
        ensures
            r.record_count == offsets_by_id(self@.added).len(),
            exists|hashes: Seq<crate::types::Hash>| #[trigger]
                are_hashes_of(self@.blobs.files, hashes) && r.blob_count == hashes.len(),
            r.branch_count == self@.branches.branches.len(),
            r.state_slot_count == self@.states.strategies.len(),
            r.blob_size_bytes == (if length_of(self@.blobs.files) <= u64::MAX {
                length_of(self@.blobs.files) as int
            } else {
                u64::MAX as int
            }),
            r.total_size_bytes == (if self@.log.bytes.len() + r.blob_size_bytes <= u64::MAX {
                self@.log.bytes.len() + r.blob_size_bytes
            } else {
                u64::MAX as int
            }),
            r.index_size_bytes == 0,
    {
        let hashes = self.blobs.list();
        let blob_size: u64 = self.blobs.total_size();
        assert(are_hashes_of(self@.blobs.files, hashes@));
        StoreStats {
            record_count: self.index.count() as u64,
            blob_count: hashes.len() as u64,
            branch_count: self.branches.branch_count() as u64,
            state_slot_count: self.state.state_count() as u64,
            total_size_bytes: self.log.size().saturating_add(blob_size),
            blob_size_bytes: blob_size,
            index_size_bytes: 0,
        }
    }

    /// Subscribe to store events. Nothing is heard of until the subscriber has caught up.
    pub fn subscribe(&mut self, config: SubscriptionConfig) -> (id: SubscriptionId)
        requires
            old(self).wf(),
            old(self)@.subscribers.next_id < u64::MAX,
        ensures
            final(self).wf(),
            id.0 == old(self)@.subscribers.next_id,
            final(self)@ == (StoreView { subscribers: final(self)@.subscribers, ..old(self)@ }),
            final(self)@.subscribers.next_id == old(self)@.subscribers.next_id + 1,
            final(self)@.subscribers.list == old(self)@.subscribers.list.push(
                crate::subscriptions::manager::SubscriptionView {
                    id,
                    config: config@,
                    caught_up: false,
                    queue: Seq::empty(),
                },
            ),
    {
        self.subscriptions.subscribe(config)
    }

    /// Unsubscribe and clean up.
    pub fn unsubscribe(&mut self, id: SubscriptionId)
        requires
            old(self).wf(),
        ensures
            final(self).wf(),
            final(self)@ == (StoreView {
                subscribers: SubscribersView {
                    list: match crate::subscriptions::manager::place_of(
                        old(self)@.subscribers.list,
                        id,
                    ) {
                        Some(i) => old(self)@.subscribers.list.remove(i),
                        None => old(self)@.subscribers.list,
                    },
                    ..old(self)@.subscribers
                },
                ..old(self)@
            }),
    {
        self.subscriptions.unsubscribe(id);
    }

    /// Get the number of active subscriptions.
    pub fn subscription_count(&self) -> (n: usize)
        ensures
            n == self@.subscribers.list.len(),
    {
        self.subscriptions.subscription_count()
    }

    /// Mark a subscription as caught up (for manual catch-up handling).
    pub fn mark_subscription_caught_up(&mut self, id: SubscriptionId) -> (r: Result<
        (),
        StoreError,
    >)
        requires
            old(self).wf(),
        ensures
            final(self).wf(),
            final(self)@ == (StoreView {
                subscribers: old(self)@.subscribers.live(id),
                ..old(self)@
            }),
            match r {
                Ok(_) => old(self)@.subscribers.get(id) matches Some(s) && s.has_room(),
                Err(e) => e@ == ErrorView::SubscriptionDropped && !(old(self)@.subscribers.get(id) matches Some(s) && s.has_room()),
            },
    {
        self.subscriptions.mark_caught_up(id)
    }

    /// Takes the next event that waits for a subscriber.
    pub fn next_event(&mut self, id: SubscriptionId) -> (r: Result<Option<StoreEvent>, StoreError>)
        requires
            old(self).wf(),
        ensures
            final(self).wf(),
            final(self)@ == (StoreView {
                subscribers: old(self)@.subscribers.taken(id),
                ..old(self)@
            }),
            match old(self)@.subscribers.get(id) {
                None => r matches Err(e) && e@ == ErrorView::SubscriptionDropped,
                Some(s) => if s.queue.len() == 0 {
                    r matches Ok(None)
                } else {
                    r matches Ok(Some(e)) && e@ == s.queue[0]
                },
            },
    {
        self.subscriptions.next_event(id)
    }
}

/// Whether the count of items that a branch takes over from an array state in order is right.
pub open spec fn is_counted(s: StoreView, branch: BranchId, id: Seq<char>, at: Sequence) -> bool {
    past_items_in_order(s, branch, id, at) && !(strategy_of(s.states.strategies, id) matches Some(
        StrategyView::Tree { .. },
    )) ==> (chain_info(s, branch, id, at) matches Ok(Some((_, n, _))) && n == past_items(
        s,
        branch,
        id,
        at,
    ).len())
}

/// Whether a branch has a state as another branch had it at a sequence, if it was in order.
pub open spec fn state_taken(
    s: StoreView,
    p: BranchId,
    now: StoreView,
    b: BranchId,
    id: Seq<char>,
    at: Sequence,
) -> bool {
    &&& past_items_in_order(s, p, id, at) && (strategy_of(s.states.strategies, id) matches Some(
        StrategyView::AppendLog { delta_snapshot_every, full_snapshot_every },
    ) && delta_snapshot_every > 0) ==> items_in_order(now, b, id) && items_in(now, b, id)
        == past_items(s, p, id, at) && text_in(now, b, id) == past_text(s, p, id, at)
    &&& past_tree_in_order(s, p, id, at) && (strategy_of(s.states.strategies, id) matches Some(
        StrategyView::Tree { .. },
    )) ==> tree_in_order(now, b, id) && tree_in(now, b, id) == past_tree(s, p, id, at)
}

/// Whether a branch has all registered states as another branch had them at a sequence.
pub open spec fn states_taken(
    s: StoreView,
    p: BranchId,
    now: StoreView,
    b: BranchId,
    at: Sequence,
) -> bool {
    forall|i: int|
        0 <= i < registered(s).len() ==> state_taken(s, p, now, b, #[trigger] registered(s)[i], at)
}

proof fn lemma_heads_taken(
    s: StoreView,
    heads: HeadsView,
    from: BranchId,
    at: Sequence,
    ids: Seq<Seq<char>>,
    to: BranchId,
    k: int,
)
    requires
        heads_at(s, heads, from, at, ids, to) is Ok,
        0 <= k < ids.len(),
    ensures
        chain_info(s, from, ids[k], at) matches Ok(x) && (x matches Some((offset, n, edited)) ==> ({
            let h = heads_at(s, heads, from, at, ids, to)->Ok_0;
            h.contains_key((to, ids[k])) && h[(to, ids[k])] == taken_over(offset, n, edited)
        })),
    decreases ids.len(),
{
    if k < ids.len() - 1 {
        assert(ids.drop_last()[k] == ids[k]);
        lemma_heads_taken(s, heads, from, at, ids.drop_last(), to, k);
    }
}

proof fn lemma_states_taken(
    s: StoreView,
    now: StoreView,
    p: BranchId,
    b: BranchId,
    at: Sequence,
    ids: Seq<Seq<char>>,
    h: HeadsView,
)
    requires
        sound(s),
        ids == registered(s),
        heads_at(s, s.states.heads, p, at, ids, b) == Ok::<HeadsView, (HeadsView, ErrorView)>(h),
        now.log == s.log,
        now.updates == s.updates,
        now.states == (StateIndexView { heads: h, ..s.states }),
        forall|k: int| 0 <= k < ids.len() ==> is_counted(s, p, #[trigger] ids[k], at),
    ensures
        states_taken(s, p, now, b, at),
{
    assert forall|i: int| 0 <= i < registered(s).len() implies state_taken(
        s,
        p,
        now,
        b,
        #[trigger] registered(s)[i],
        at,
    ) by {
        let id = ids[i];
        lemma_heads_taken(s, s.states.heads, p, at, ids, b, i);
        assert(is_counted(s, p, id, at));
        if let Ok(Some((offset, n, edited))) = chain_info(s, p, id, at) {
            branch_at_is_in_order(s, now, p, b, id, at, offset, n, edited);
        } else {
            sound_chains(s, p, id);
            lemma_until_readable(chain_of(s, p, id), at);
        }
    }
}

/// What a branch's chains gave depends on its heads, the log and the updates alone.
proof fn lemma_same_info(s: StoreView, t: StoreView, branch: BranchId, id: Seq<char>, at: Sequence)
    requires
        t.log == s.log,
        t.updates == s.updates,
        t.states.strategies == s.states.strategies,
        head_at(t.states, branch, id) == head_at(s.states, branch, id),
    ensures
        chain_info(t, branch, id, at) == chain_info(s, branch, id, at),
        is_counted(t, branch, id, at) == is_counted(s, branch, id, at),
{
}

proof fn lemma_heads_error(
    s: StoreView,
    heads: HeadsView,
    from: BranchId,
    at: Sequence,
    ids: Seq<Seq<char>>,
    to: BranchId,
    n: int,
    h: HeadsView,
    e: ErrorView,
)
    requires
        0 <= n <= ids.len(),
        heads_at(s, heads, from, at, ids.take(n), to) == Err::<HeadsView, (HeadsView, ErrorView)>(
            (h, e),
        ),
    ensures
        heads_at(s, heads, from, at, ids, to) == Err::<HeadsView, (HeadsView, ErrorView)>((h, e)),
    decreases ids.len() - n,
{
    if n == ids.len() {
        assert(ids.take(n) =~= ids);
    } else {
        assert(ids.take(n + 1).drop_last() =~= ids.take(n));
        lemma_heads_error(s, heads, from, at, ids, to, n + 1, h, e);
    }
}

/// A new branch starts with the states of its parent, and other branches keep theirs.
pub proof fn new_branch_inherits_states(
    s: StoreView,
    p: BranchView,
    b: BranchView,
    id: Seq<char>,
    other: BranchId,
)
    requires
        head_at(s.states, b.id, id) is None,
        other != b.id,
        p.id != b.id,
    ensures
        ({
            let now = with_heads(
                with_new_branch(s, b, Some(p.name)),
                heads_copied(s.states.heads, p.id, b.id),
            );
            &&& state_value(now, b.id, id) == state_value(s, p.id, id)
            &&& state_value(now, other, id) == state_value(s, other, id)
        }),
{
    let heads = heads_copied(s.states.heads, p.id, b.id);
    assert(heads.contains_key((b.id, id)) == s.states.heads.contains_key((p.id, id)));
    assert(heads.contains_key((other, id)) == s.states.heads.contains_key((other, id)));
}

/// Whether the links of a chain get older along it.
pub open spec fn gets_older(c: ChainView) -> bool {
    forall|i: int, j: int|
        0 <= i < j < c.len() && c[i] is Ok && c[j] is Ok ==> (#[trigger] c[i])->Ok_0.sequence.0 >= (
        #[trigger] c[j])->Ok_0.sequence.0
}

/// The part of a chain that is not newer than a sequence is the chain from its newest link.
pub proof fn lemma_until_is_chain(
    b: Seq<u8>,
    t: crate::state::chain::TableView,
    from: Option<u64>,
    at: Sequence,
)
    requires
        readable(chain(b, t, from)),
        gets_older(chain(b, t, from)),
    ensures
        until(chain(b, t, from), Some(at)) == chain(
            b,
            t,
            newest(until(chain(b, t, from), Some(at))),
        ),
    decreases
            (match from {
                Some(off) => off + 1,
                None => 0,
            }),
{
    let c = chain(b, t, from);
    let past = until(c, Some(at));
    reveal_with_fuel(until, 2);
    if let Some(off) = from {
        assert(c[0] is Ok);
        let l = c[0]->Ok_0;
        assert(l.offset == off);
        match l.update.prev_update_offset {
            Some(q) if q >= off => {
                assert(c =~= seq![Ok::<LinkView, ErrorView>(l)]);
                assert(c.skip(1) =~= Seq::empty());
                if l.sequence.0 > at.0 {
                    assert(past =~= Seq::empty());
                } else {
                    assert(past =~= c);
                }
            },
            prev => {
                lemma_chain_step(b, t, off);
                let rest = chain(b, t, prev);
                assert(c.skip(1) =~= rest);
                assert forall|i: int| 0 <= i < rest.len() implies (#[trigger] rest[i]) is Ok by {
                    assert(rest[i] == c[i + 1]);
                }
                assert forall|i: int, j: int|
                    0 <= i < j < rest.len() && rest[i] is Ok && rest[j] is Ok implies (
                #[trigger] rest[i])->Ok_0.sequence.0 >= (#[trigger] rest[j])->Ok_0.sequence.0 by {
                    assert(rest[i] == c[i + 1] && rest[j] == c[j + 1]);
                }
                if l.sequence.0 > at.0 {
                    lemma_until_is_chain(b, t, prev, at);
                } else {
                    assert forall|i: int| 0 <= i < c.len() && (#[trigger] c[i]) is Ok implies
                        c[i]->Ok_0.sequence.0 <= at.0 by {
                        if i > 0 {
                            assert(c[0]->Ok_0.sequence.0 >= c[i]->Ok_0.sequence.0);
                        }
                    }
                    crate::state::laws::lemma_until_same(c, at);
                }
            },
        }
    }
}

/// A branch made at a sequence sees a state as it was then: with the head that
/// `create_branch_at` gives it, its value is the value of the parent at that sequence.
pub proof fn branch_at_sees_past(
    s: StoreView,
    p: BranchId,
    b: BranchId,
    id: Seq<char>,
    at: Sequence,
    offset: u64,
    n: usize,
    edited: bool,
)
    requires
        chain_info(s, p, id, at) == Ok::<Option<(u64, usize, bool)>, ErrorView>(
            Some((offset, n, edited)),
        ),
        sound(s),
    ensures
        state_value(
            with_heads(s, s.states.heads.insert((b, id), taken_over(offset, n, edited))),
            b,
            id,
        ) == state_value_at(s, p, id, at),
{
    let from = match head_at(s.states, p, id) {
        Some(h) => Some(h.head_offset),
        None => None,
    };
    sound_chains(s, p, id);
    lemma_until_is_chain(s.log.bytes, s.updates, from, at);
    let past = until(chain_of(s, p, id), Some(at));
    assert(past.len() > 0);
    assert(past[0] is Ok) by {
        lemma_until_readable(chain_of(s, p, id), at);
    }
}

} // verus!
