//! Record indices for efficient lookups.
//!
//! Indices are rebuilt from the record log on startup rather than persisted.
use crate::error::{ErrorView, StoreError};
use crate::records::log::{records_from, RecordLog};
use crate::text::same_text;
use crate::types::{BranchId, RecordId, RecordView, Sequence};
use std::collections::HashMap;
use vstd::prelude::*;
use vstd::slice::*;
use vstd::string::*;

verus! {

broadcast use vstd::std_specs::hash::group_hash_axioms;

/// Where a record stands.
pub struct PlaceView {
    pub branch: BranchId,
    pub sequence: Sequence,
    pub offset: u64,
    pub record_type: Seq<char>,
}

/// What was added to an index: a record with its links, and where it stands.
pub struct AddedView {
    pub id: RecordId,
    pub place: Option<PlaceView>,
    pub caused_by: Seq<RecordId>,
    pub linked_to: Seq<RecordId>,
}

/// The offset of the record at a sequence of a branch: of the one added last.
pub open spec fn offset_at(added: Seq<AddedView>, branch: BranchId, sequence: Sequence) -> Option<u64>
    decreases added.len(),
{
    if added.len() == 0 {
        None
    } else {
        match added.last().place {
            Some(p) if p.branch == branch && p.sequence == sequence => Some(p.offset),
            _ => offset_at(added.drop_last(), branch, sequence),
        }
    }
}

/// The offsets of records by id.
pub open spec fn offsets_by_id(added: Seq<AddedView>) -> Map<u64, u64>
    decreases added.len(),
{
    if added.len() == 0 {
        Map::empty()
    } else {
        let before = offsets_by_id(added.drop_last());
        match added.last().place {
            Some(p) => before.insert(added.last().id.0, p.offset),
            None => before,
        }
    }
}

/// The ids of the records of a type, in the order in which they were added.
pub open spec fn ids_of_type(added: Seq<AddedView>, record_type: Seq<char>) -> Seq<RecordId>
    decreases added.len(),
{
    if added.len() == 0 {
        Seq::empty()
    } else {
        let before = ids_of_type(added.drop_last(), record_type);
        match added.last().place {
            Some(p) if p.record_type == record_type => before.push(added.last().id),
            _ => before,
        }
    }
}

/// How often an id occurs.
pub open spec fn times(ids: Seq<RecordId>, id: RecordId) -> nat
    decreases ids.len(),
{
    if ids.len() == 0 {
        0
    } else {
        times(ids.drop_last(), id) + (if ids.last() == id {
            1nat
        } else {
            0nat
        })
    }
}

/// The records that have an id in their caused_by, in the order in which they were added.
pub open spec fn effects_of(added: Seq<AddedView>, id: RecordId) -> Seq<RecordId>
    decreases added.len(),
{
    if added.len() == 0 {
        Seq::empty()
    } else {
        let a = added.last();
        effects_of(added.drop_last(), id) + Seq::new(times(a.caused_by, id), |i: int| a.id)
    }
}

/// The records that have an id in their linked_to, in the order in which they were added.
pub open spec fn links_of(added: Seq<AddedView>, id: RecordId) -> Seq<RecordId>
    decreases added.len(),
{
    if added.len() == 0 {
        Seq::empty()
    } else {
        let a = added.last();
        links_of(added.drop_last(), id) + Seq::new(times(a.linked_to, id), |i: int| a.id)
    }
}

/// The records of a branch within a range of sequences, by ascending sequence: `hits` lists
/// each of them once.
pub open spec fn is_range(
    added: Seq<AddedView>,
    branch: BranchId,
    from: Sequence,
    to: Sequence,
    hits: Seq<(Sequence, u64)>,
) -> bool {
    &&& forall|i: int, j: int|
        0 <= i < j < hits.len() ==> (#[trigger] hits[i]).0.0 < (#[trigger] hits[j]).0.0
    &&& forall|i: int|
        0 <= i < hits.len() ==> from.0 <= (#[trigger] hits[i]).0.0 <= to.0 && offset_at(
            added,
            branch,
            hits[i].0,
        ) == Some(hits[i].1)
    &&& forall|s: Sequence|
        #![trigger offset_at(added, branch, s)]
        from.0 <= s.0 <= to.0 && offset_at(added, branch, s) is Some ==> exists|i: int|
            0 <= i < hits.len() && (#[trigger] hits[i]).0 == s
}

/// The first `limit` of some hits, or all.
pub open spec fn limited(hits: Seq<(Sequence, u64)>, limit: nat) -> Seq<(Sequence, u64)> {
    if limit < hits.len() {
        hits.take(limit as int)
    } else {
        hits
    }
}

type Key = (u64, u64, u64);

/// Whether the first pair sorts before the second.
spec fn key_before(a: Key, b: u64, s: u64) -> bool {
    a.0 < b || (a.0 == b && a.1 < s)
}

spec fn keys_sorted(entries: Seq<Key>) -> bool {
    forall|i: int, j: int|
        0 <= i < j < entries.len() ==> key_before(
            #[trigger] entries[i],
            (#[trigger] entries[j]).0,
            entries[j].1,
        )
}

/// Whether entries list just what is placed.
spec fn keys_match(entries: Seq<Key>, added: Seq<AddedView>) -> bool {
    &&& forall|i: int|
        0 <= i < entries.len() ==> offset_at(
            added,
            BranchId((#[trigger] entries[i]).0),
            Sequence(entries[i].1),
        ) == Some(entries[i].2)
    &&& forall|b: BranchId, s: Sequence|
        #![trigger offset_at(added, b, s)]
        offset_at(added, b, s) is Some ==> exists|i: int|
            0 <= i < entries.len() && (#[trigger] entries[i]).0 == b.0 && entries[i].1 == s.0
}

/// Whether a table from types to ids lists just what was added.
spec fn types_match(types: Seq<(String, Vec<RecordId>)>, added: Seq<AddedView>) -> bool {
    &&& forall|i: int|
        0 <= i < types.len() ==> (#[trigger] types[i]).1@ == ids_of_type(added, types[i].0@)
    &&& forall|i: int, j: int|
        0 <= i < j < types.len() ==> (#[trigger] types[i]).0@ != (#[trigger] types[j]).0@
    &&& forall|t: Seq<char>|
        #![trigger ids_of_type(added, t)]
        (forall|i: int| 0 <= i < types.len() ==> (#[trigger] types[i]).0@ != t) ==> ids_of_type(
            added,
            t,
        ) == Seq::<RecordId>::empty()
}

/// The ids that a table lists under an id.
spec fn listed(m: Map<u64, Vec<RecordId>>, id: u64) -> Seq<RecordId> {
    if m.contains_key(id) {
        m[id]@
    } else {
        Seq::empty()
    }
}

/// Index mapping sequence numbers, ids, types and links to records.
pub struct RecordIndex {
    entries: Vec<(u64, u64, u64)>,
    ids: HashMap<u64, u64>,
    types: Vec<(String, Vec<RecordId>)>,
    causes: HashMap<u64, Vec<RecordId>>,
    links: HashMap<u64, Vec<RecordId>>,
    added: Ghost<Seq<AddedView>>,
}

impl RecordIndex {
    /// What was added, in order.
    pub closed spec fn added(self) -> Seq<AddedView> {
        self.added@
    }

    /// Whether every lookup gives what was added.
    pub closed spec fn wf(self) -> bool {
        &&& keys_sorted(self.entries@)
        &&& keys_match(self.entries@, self.added@)
        &&& self.ids@ == offsets_by_id(self.added@)
        &&& types_match(self.types@, self.added@)
        &&& forall|id: u64|
            #![trigger listed(self.causes@, id)]
            listed(self.causes@, id) == effects_of(self.added@, RecordId(id))
        &&& forall|id: u64|
            #![trigger listed(self.links@, id)]
            listed(self.links@, id) == links_of(self.added@, RecordId(id))
    }

    /// Create a new empty index.
    pub fn new() -> (r: Self)
        ensures
            r.wf(),
            r.added() == Seq::<AddedView>::empty(),
    {
        let r = RecordIndex {
            entries: Vec::new(),
            ids: HashMap::new(),
            types: Vec::new(),
            causes: HashMap::new(),
            links: HashMap::new(),
            added: Ghost(Seq::empty()),
        };
        proof {
            assert(r.ids@ =~= Map::empty());
        }
        r
    }

    fn rank(&self, b: u64, s: u64) -> (k: usize)
        requires
            keys_sorted(self.entries@),
        ensures
            k <= self.entries@.len(),
            forall|i: int| 0 <= i < k ==> key_before(#[trigger] self.entries@[i], b, s),
            forall|i: int|
                k <= i < self.entries@.len() ==> !key_before(#[trigger] self.entries@[i], b, s),
    {
        let mut low: usize = 0;
        let mut high: usize = self.entries.len();
        while low < high
            invariant
                keys_sorted(self.entries@),
                low <= high <= self.entries@.len(),
                forall|i: int| 0 <= i < low ==> key_before(#[trigger] self.entries@[i], b, s),
                forall|i: int|
                    high <= i < self.entries@.len() ==> !key_before(
                        #[trigger] self.entries@[i],
                        b,
                        s,
                    ),
            decreases high - low,
        {
            let mid: usize = low + (high - low) / 2;
            let e = self.entries[mid];
            let ghost es = self.entries@;
            if e.0 < b || (e.0 == b && e.1 < s) {
                assert forall|i: int| 0 <= i < mid + 1 implies key_before(#[trigger] es[i], b, s) by {
                    if i < mid {
                        assert(key_before(es[i], es[mid as int].0, es[mid as int].1));
                    }
                }
                low = mid + 1;
            } else {
                assert forall|i: int| mid <= i < es.len() implies !key_before(
                    #[trigger] es[i],
                    b,
                    s,
                ) by {
                    if i > mid {
                        assert(key_before(es[mid as int], es[i].0, es[i].1));
                    }
                }
                high = mid;
            }
        }
        low
    }

    fn put_entry(&mut self, b: u64, s: u64, offset: u64)
        requires
            keys_sorted(old(self).entries@),
        ensures
            keys_sorted(final(self).entries@),
            final(self).ids == old(self).ids,
            final(self).types == old(self).types,
            final(self).causes == old(self).causes,
            final(self).links == old(self).links,
            final(self).added == old(self).added,
            exists|i: int|
                0 <= i < final(self).entries@.len() && #[trigger] final(self).entries@[i] == (
                    b,
                    s,
                    offset,
                ),
            forall|i: int|
                0 <= i < final(self).entries@.len() ==> ((#[trigger] final(self).entries@[i]) == (
                    b,
                    s,
                    offset,
                ) || (old(self).entries@.contains(final(self).entries@[i]) && !(final(self).entries@[i].0 == b && final(self).entries@[i].1 == s))),
            forall|i: int|
                0 <= i < old(self).entries@.len() && !((#[trigger] old(self).entries@[i]).0 == b
                    && old(self).entries@[i].1 == s) ==> final(self).entries@.contains(
                    old(self).entries@[i],
                ),
    {
        let k: usize = self.rank(b, s);
        let ghost before = self.entries@;
        let item = (b, s, offset);
        if k < self.entries.len() && self.entries[k].0 == b && self.entries[k].1 == s {
            self.entries.set(k, item);
            proof {
                let after = self.entries@;
                assert(after[k as int] == item);
                assert forall|i: int, j: int| 0 <= i < j < after.len() implies key_before(
                    #[trigger] after[i],
                    (#[trigger] after[j]).0,
                    after[j].1,
                ) by {
                    assert(key_before(before[i], before[j].0, before[j].1));
                }
                assert forall|i: int| 0 <= i < after.len() implies ((#[trigger] after[i]) == item || (
                before.contains(after[i]) && !(after[i].0 == b && after[i].1 == s))) by {
                    if i != k {
                        assert(after[i] == before[i]);
                        if i < k {
                            assert(key_before(before[i], before[k as int].0, before[k as int].1));
                        } else {
                            assert(key_before(before[k as int], before[i].0, before[i].1));
                        }
                    }
                }
                assert forall|i: int|
                    0 <= i < before.len() && !((#[trigger] before[i]).0 == b && before[i].1
                        == s) implies after.contains(before[i]) by {
                    assert(after[i] == before[i]);
                }
            }
        } else {
            self.entries.insert(k, item);
            proof {
                let after = self.entries@;
                assert(after[k as int] == item);
                assert forall|i: int, j: int| 0 <= i < j < after.len() implies key_before(
                    #[trigger] after[i],
                    (#[trigger] after[j]).0,
                    after[j].1,
                ) by {
                    let p = if i < k { i } else { i - 1 };
                    let q = if j < k { j } else { j - 1 };
                    if i != k && j != k {
                        assert(after[i] == before[p] && after[j] == before[q]);
                        assert(key_before(before[p], before[q].0, before[q].1));
                    } else if i == k {
                        assert(after[j] == before[q]);
                        assert(!key_before(before[q], b, s));
                        if q > k {
                            assert(key_before(before[k as int], before[q].0, before[q].1));
                            assert(!key_before(before[k as int], b, s));
                        }
                    } else {
                        assert(after[i] == before[i]);
                    }
                }
                assert forall|i: int| 0 <= i < after.len() implies ((#[trigger] after[i]) == item || (
                before.contains(after[i]) && !(after[i].0 == b && after[i].1 == s))) by {
                    if i != k {
                        let p = if i < k { i } else { i - 1 };
                        assert(after[i] == before[p]);
                        if p < k {
                            assert(key_before(before[p], b, s));
                        } else {
                            assert(!key_before(before[p], b, s));
                            if p > k {
                                assert(key_before(before[k as int], before[p].0, before[p].1));
                                assert(!key_before(before[k as int], b, s));
                            }
                        }
                    }
                }
                assert forall|i: int|
                    0 <= i < before.len() && !((#[trigger] before[i]).0 == b && before[i].1
                        == s) implies after.contains(before[i]) by {
                    let p = if i < k { i } else { i + 1 };
                    assert(after[p] == before[i]);
                }
            }
        }
    }

    /// Add an entry to the index.
    pub fn add(
        &mut self,
        id: RecordId,
        branch: BranchId,
        sequence: Sequence,
        offset: u64,
        record_type: &str,
        caused_by: &[RecordId],
        linked_to: &[RecordId],
    )
        requires
            old(self).wf(),
        ensures
            final(self).wf(),
            final(self).added() == old(self).added().push(
                AddedView {
                    id,
                    place: Some(
                        PlaceView { branch, sequence, offset, record_type: record_type@ },
                    ),
                    caused_by: caused_by@,
                    linked_to: linked_to@,
                },
            ),
    {
        let ghost a = AddedView {
            id,
            place: Some(PlaceView { branch, sequence, offset, record_type: record_type@ }),
            caused_by: caused_by@,
            linked_to: linked_to@,
        };
        let ghost before = self.added@;
        let ghost after = before.push(a);
        assert(after.drop_last() =~= before);
        let ghost old_entries = self.entries@;
        self.put_entry(branch.0, sequence.0, offset);
        proof {
            let es = self.entries@;
            assert forall|i: int| 0 <= i < es.len() implies offset_at(
                after,
                BranchId((#[trigger] es[i]).0),
                Sequence(es[i].1),
            ) == Some(es[i].2) by {
                if es[i] != (branch.0, sequence.0, offset) {
                    let k = choose|k: int| 0 <= k < old_entries.len() && old_entries[k] == es[i];
                    assert(offset_at(before, BranchId(old_entries[k].0), Sequence(old_entries[k].1))
                        == Some(old_entries[k].2));
                }
            }
            assert forall|b: BranchId, s: Sequence|
                #![trigger offset_at(after, b, s)]
                offset_at(after, b, s) is Some implies exists|i: int|
                0 <= i < es.len() && (#[trigger] es[i]).0 == b.0 && es[i].1 == s.0 by {
                if b == branch && s == sequence {
                    let i = choose|i: int| 0 <= i < es.len() && es[i] == (branch.0, sequence.0, offset);
                    assert(es[i].0 == b.0);
                } else {
                    assert(offset_at(before, b, s) is Some);
                    let k = choose|k: int|
                        0 <= k < old_entries.len() && old_entries[k].0 == b.0 && old_entries[k].1
                            == s.0;
                    assert(es.contains(old_entries[k]));
                    let i = choose|i: int| 0 <= i < es.len() && es[i] == old_entries[k];
                    assert(es[i].0 == b.0);
                }
            }
        }
        self.ids.insert(id.0, offset);
        push_type(&mut self.types, record_type, id, Ghost(before), Ghost(a));
        push_all(&mut self.causes, caused_by, id);
        push_all(&mut self.links, linked_to, id);
        proof {
            assert forall|k: u64| #[trigger]
                listed(self.causes@, k) == effects_of(after, RecordId(k)) by {
                assert(listed(old(self).causes@, k) == effects_of(before, RecordId(k)));
            }
            assert forall|k: u64| #[trigger]
                listed(self.links@, k) == links_of(after, RecordId(k)) by {
                assert(listed(old(self).links@, k) == links_of(before, RecordId(k)));
            }
            self.added@ = after;
        }
    }

    /// Add the causation links of a record alone.
    pub fn rebuild_causation_for(
        &mut self,
        id: RecordId,
        caused_by: &[RecordId],
        linked_to: &[RecordId],
    )
        requires
            old(self).wf(),
        ensures
            final(self).wf(),
            final(self).added() == old(self).added().push(
                AddedView { id, place: None, caused_by: caused_by@, linked_to: linked_to@ },
            ),
    {
        let ghost a = AddedView { id, place: None, caused_by: caused_by@, linked_to: linked_to@ };
        let ghost before = self.added@;
        let ghost after = before.push(a);
        assert(after.drop_last() =~= before);
        push_all(&mut self.causes, caused_by, id);
        push_all(&mut self.links, linked_to, id);
        proof {
            assert forall|k: u64| #[trigger]
                listed(self.causes@, k) == effects_of(after, RecordId(k)) by {
                assert(listed(old(self).causes@, k) == effects_of(before, RecordId(k)));
            }
            assert forall|k: u64| #[trigger]
                listed(self.links@, k) == links_of(after, RecordId(k)) by {
                assert(listed(old(self).links@, k) == links_of(before, RecordId(k)));
            }
            assert forall|b: BranchId, s: Sequence|
                offset_at(after, b, s) == #[trigger] offset_at(before, b, s) by {}
            assert forall|t: Seq<char>|
                ids_of_type(after, t) == #[trigger] ids_of_type(before, t) by {}
            self.added@ = after;
            assert(keys_match(self.entries@, after)) by {
                assert forall|i: int| 0 <= i < self.entries@.len() implies offset_at(
                    after,
                    BranchId((#[trigger] self.entries@[i]).0),
                    Sequence(self.entries@[i].1),
                ) == Some(self.entries@[i].2) by {
                    assert(offset_at(
                        before,
                        BranchId(self.entries@[i].0),
                        Sequence(self.entries@[i].1),
                    ) == Some(self.entries@[i].2));
                }
                assert forall|b: BranchId, s: Sequence|
                    #![trigger offset_at(after, b, s)]
                    offset_at(after, b, s) is Some implies exists|i: int|
                    0 <= i < self.entries@.len() && (#[trigger] self.entries@[i]).0 == b.0
                        && self.entries@[i].1 == s.0 by {
                    assert(offset_at(before, b, s) is Some);
                }
            }
            assert(types_match(self.types@, after)) by {
                assert forall|i: int| 0 <= i < self.types@.len() implies (
                #[trigger] self.types@[i]).1@ == ids_of_type(after, self.types@[i].0@) by {
                    assert(self.types@[i].1@ == ids_of_type(before, self.types@[i].0@));
                }
                assert forall|t: Seq<char>|
                    #![trigger ids_of_type(after, t)]
                    (forall|i: int|
                        0 <= i < self.types@.len() ==> (#[trigger] self.types@[i]).0@ != t) implies ids_of_type(
                    after,
                    t,
                ) == Seq::<RecordId>::empty() by {
                    assert(types_match(old(self).types@, before));
                    assert(old(self).types@ == self.types@);
                    assert forall|i: int| 0 <= i < old(self).types@.len() implies (
                    #[trigger] old(self).types@[i]).0@ != t by {
                        assert(self.types@[i].0@ != t);
                    }
                    assert(ids_of_type(before, t) == Seq::<RecordId>::empty());
                }
            }
        }
    }

    /// Get offset for a sequence on a branch.
    pub fn get_offset(&self, branch: BranchId, sequence: Sequence) -> (r: Option<u64>)
        requires
            self.wf(),
        ensures
            r == offset_at(self.added(), branch, sequence),
    {
        let k: usize = self.rank(branch.0, sequence.0);
        let ghost es = self.entries@;
        if k < self.entries.len() && self.entries[k].0 == branch.0 && self.entries[k].1
            == sequence.0 {
            assert(offset_at(self.added@, BranchId(es[k as int].0), Sequence(es[k as int].1))
                == Some(es[k as int].2));
            return Some(self.entries[k].2);
        }
        proof {
            if offset_at(self.added@, branch, sequence) is Some {
                let i = choose|i: int|
                    0 <= i < es.len() && es[i].0 == branch.0 && es[i].1 == sequence.0;
                if i < k {
                    assert(key_before(es[i], branch.0, sequence.0));
                } else if i > k {
                    assert(key_before(es[k as int], es[i].0, es[i].1));
                    assert(!key_before(es[k as int], branch.0, sequence.0));
                }
            }
        }
        None
    }

    /// Get offset for a record ID.
    pub fn get_offset_by_id(&self, id: RecordId) -> (r: Option<u64>)
        requires
            self.wf(),
        ensures
            match r {
                Some(o) => offsets_by_id(self.added()).contains_key(id.0) && offsets_by_id(
                    self.added(),
                )[id.0] == o,
                None => !offsets_by_id(self.added()).contains_key(id.0),
            },
    {
        match self.ids.get(&id.0) {
            Some(o) => Some(*o),
            None => None,
        }
    }

    /// Get all record IDs of a given type.
    pub fn get_by_type(&self, record_type: &str) -> (r: Vec<RecordId>)
        requires
            self.wf(),
        ensures
            r@ == ids_of_type(self.added(), record_type@),
    {
        let mut i: usize = 0;
        while i < self.types.len()
            invariant
                self.wf(),
                i <= self.types@.len(),
                forall|j: int| 0 <= j < i ==> (#[trigger] self.types@[j]).0@ != record_type@,
            decreases self.types@.len() - i,
        {
            if same_text(self.types[i].0.as_str(), record_type) {
                return crate::bytes::copied(&self.types[i].1);
            }
            i += 1;
        }
        Vec::new()
    }

    /// Get records that have `id` in their caused_by.
    pub fn get_caused_by(&self, id: RecordId) -> (r: Vec<RecordId>)
        requires
            self.wf(),
        ensures
            r@ == effects_of(self.added(), id),
    {
        assert(listed(self.causes@, id.0) == effects_of(self.added@, RecordId(id.0)));
        match self.causes.get(&id.0) {
            Some(v) => crate::bytes::copied(v),
            None => Vec::new(),
        }
    }

    /// Get records that have `id` in their linked_to.
    pub fn get_linked_to(&self, id: RecordId) -> (r: Vec<RecordId>)
        requires
            self.wf(),
        ensures
            r@ == links_of(self.added(), id),
    {
        assert(listed(self.links@, id.0) == links_of(self.added@, RecordId(id.0)));
        match self.links.get(&id.0) {
            Some(v) => crate::bytes::copied(v),
            None => Vec::new(),
        }
    }

    /// Get the highest sequence for a branch.
    pub fn max_sequence(&self, branch: BranchId) -> (r: Option<Sequence>)
        requires
            self.wf(),
        ensures
            match r {
                Some(s) => offset_at(self.added(), branch, s) is Some && forall|q: Sequence|
                    #![trigger offset_at(self.added(), branch, q)]
                    offset_at(self.added(), branch, q) is Some ==> q.0 <= s.0,
                None => forall|q: Sequence| #[trigger]
                    offset_at(self.added(), branch, q) is None,
            },
    {
        let ghost es = self.entries@;
        let mut k: usize = self.rank(branch.0, u64::MAX);
        if k < self.entries.len() && self.entries[k].0 == branch.0 && self.entries[k].1 == u64::MAX {
            k = k + 1;
        }
        proof {
            assert forall|q: Sequence|
                #![trigger offset_at(self.added@, branch, q)]
                offset_at(self.added@, branch, q) is Some implies exists|i: int|
                0 <= i < k && (#[trigger] es[i]).0 == branch.0 && es[i].1 == q.0 by {
                let i = choose|i: int| 0 <= i < es.len() && es[i].0 == branch.0 && es[i].1 == q.0;
                if i >= k {
                    assert(!key_before(es[i], branch.0, u64::MAX));
                    if k > 0 && es[k - 1].0 == branch.0 && es[k - 1].1 == u64::MAX {
                        assert(key_before(es[k - 1], es[i].0, es[i].1));
                    } else if i > k {
                        assert(key_before(es[k as int], es[i].0, es[i].1));
                        assert(!key_before(es[k as int], branch.0, u64::MAX));
                    }
                }
                assert(es[i].0 == branch.0);
            }
        }
        if k > 0 && self.entries[k - 1].0 == branch.0 {
            let e = self.entries[k - 1];
            proof {
                assert(offset_at(self.added@, BranchId(es[k - 1].0), Sequence(es[k - 1].1)) == Some(
                    es[k - 1].2,
                ));
                assert forall|q: Sequence|
                    #![trigger offset_at(self.added@, branch, q)]
                    offset_at(self.added@, branch, q) is Some implies q.0 <= e.1 by {
                    let i = choose|i: int| 0 <= i < k && es[i].0 == branch.0 && es[i].1 == q.0;
                    if i < k - 1 {
                        assert(key_before(es[i], es[k - 1].0, es[k - 1].1));
                    }
                }
            }
            return Some(Sequence(e.1));
        }
        proof {
            assert forall|q: Sequence| #[trigger] offset_at(self.added@, branch, q) is None by {
                if offset_at(self.added@, branch, q) is Some {
                    let i = choose|i: int| 0 <= i < k && es[i].0 == branch.0 && es[i].1 == q.0;
                    if i < k - 1 {
                        assert(key_before(es[i], es[k - 1].0, es[k - 1].1));
                    }
                    assert(key_before(es[k - 1], branch.0, u64::MAX) || (es[k - 1].0 == branch.0));
                }
            }
        }
        None
    }

    /// The records of a branch within a range of sequences.
    pub closed spec fn range(self, branch: BranchId, from: Sequence, to: Sequence) -> Seq<
        (Sequence, u64),
    > {
        hits_among(self.entries@, branch, from, to)
    }

    /// Query records in a sequence range: those of `branch` with sequences from `from` to
    /// `to`, in descending order if `reverse`, at most `limit`.
    pub fn query_range(
        &self,
        branch: BranchId,
        from: Option<Sequence>,
        to: Option<Sequence>,
        limit: usize,
        reverse: bool,
    ) -> (r: Vec<(Sequence, u64)>)
        requires
            self.wf(),
        ensures
            self.range(branch, low_end(from), high_end(to)).len() <= usize::MAX,
            is_range(
                self.added(),
                branch,
                low_end(from),
                high_end(to),
                self.range(branch, low_end(from), high_end(to)),
            ),
            r@ == limited(
                if reverse {
                    self.range(branch, low_end(from), high_end(to)).reverse()
                } else {
                    self.range(branch, low_end(from), high_end(to))
                },
                limit as nat,
            ),
    {
        let start: Sequence = match from {
            Some(s) => s,
            None => Sequence(0),
        };
        let end: Sequence = match to {
            Some(s) => s,
            None => Sequence(u64::MAX),
        };
        let ghost es = self.entries@;
        let ghost hits = self.range(branch, start, end);
        proof {
            lemma_hits(es, branch, start, end);
            lemma_is_range(*self, branch, start, end);
        }
        let mut found: Vec<(Sequence, u64)> = Vec::new();
        let mut i: usize = self.rank(branch.0, start.0);
        proof {
            lemma_hits_below(es, i as int, branch, start, end);
        }
        while i < self.entries.len() && self.entries[i].0 == branch.0 && self.entries[i].1 <= end.0
            invariant
                self.wf(),
                es == self.entries@,
                i <= es.len(),
                forall|k: int| i <= k < es.len() ==> !key_before(#[trigger] es[k], branch.0, start.0),
                found@ == hits_among(es.take(i as int), branch, start, end),
            decreases es.len() - i,
        {
            let e = self.entries[i];
            let ghost before = found@;
            proof {
                assert(es.take(i + 1).drop_last() =~= es.take(i as int));
                assert(!key_before(es[i as int], branch.0, start.0));
            }
            found.push((Sequence(e.1), e.2));
            i += 1;
        }
        proof {
            lemma_hits_above(es, i as int, branch, start, end);
            assert(found@ == hits);
        }
        let count: usize = found.len();
        assert(hits.len() == count);
        if reverse {
            let ghost all = found@;
            let mut out: Vec<(Sequence, u64)> = Vec::new();
            while found.len() > 0 && out.len() < limit
                invariant
                    found@.len() + out@.len() == all.len(),
                    out@.len() <= limit,
                    forall|j: int| 0 <= j < found@.len() ==> found@[j] == all[j],
                    forall|j: int| 0 <= j < out@.len() ==> out@[j] == all[all.len() - 1 - j],
                decreases found@.len(),
            {
                let last = found.pop().unwrap();
                out.push(last);
            }
            assert(out@ =~= limited(all.reverse(), limit as nat));
            out
        } else {
            if limit < found.len() {
                found.truncate(limit);
            }
            found
        }
    }

    /// Get count of records.
    pub fn count(&self) -> (n: usize)
        requires
            self.wf(),
        ensures
            n == offsets_by_id(self.added()).len(),
    {
        self.ids.len()
    }

    /// Create an index by rebuilding from the record log: every record is added, in order.
    pub fn rebuild_from_log(log: &RecordLog) -> (r: Result<Self, StoreError>)
        requires
            log@.bytes.len() <= u64::MAX,
        ensures
            match r {
                Ok(index) => index.wf() && all_read(records_from(log@.bytes, 0)) && index.added()
                    == added_of(records_from(log@.bytes, 0)),
                Err(e) => records_from(log@.bytes, 0).len() > 0 && records_from(
                    log@.bytes,
                    0,
                ).last() == Err::<(u64, RecordView), ErrorView>(e@),
            },
    {
        let mut index = RecordIndex::new();
        let ghost all = records_from(log@.bytes, 0);
        let ghost mut seen: Seq<Result<(u64, RecordView), ErrorView>> = Seq::empty();
        let mut it = log.iter();
        assert(seen + all =~= all);
        assert(added_of(seen) =~= Seq::empty());
        loop
            invariant
                index.wf(),
                it.log() == log@,
                it.end() == log@.bytes.len(),
                all == records_from(log@.bytes, 0),
                all == seen + records_from(log@.bytes, it.offset() as int),
                all_read(seen),
                index.added() == added_of(seen),
            decreases
                    (if it.offset() <= log@.bytes.len() {
                        log@.bytes.len() - it.offset()
                    } else {
                        0
                    }),
        {
            let ghost at = it.offset();
            let ghost rest = records_from(log@.bytes, at as int);
            match it.next() {
                None => {
                    assert(all =~= seen);
                    return Ok(index);
                },
                Some(Err(e)) => {
                    assert(rest =~= seq![Err::<(u64, RecordView), ErrorView>(e@)]);
                    assert(all.last() == rest[0]);
                    return Err(e);
                },
                Some(Ok((offset, record))) => {
                    index.add(
                        record.id,
                        record.branch,
                        record.sequence,
                        offset,
                        record.record_type.as_str(),
                        record.caused_by.as_slice(),
                        record.linked_to.as_slice(),
                    );
                    proof {
                        let item = Ok::<(u64, RecordView), ErrorView>((offset, record@));
                        let next = records_from(log@.bytes, it.offset() as int);
                        assert(rest == seq![item] + next);
                        assert(seen + (seq![item] + next) =~= seen.push(item) + next);
                        assert(added_of(seen.push(item)) =~= added_of(seen).push(
                            added_record(offset, record@),
                        ));
                        seen = seen.push(item);
                    }
                },
            }
        }
    }
}

/// Where a range starts.
pub open spec fn low_end(from: Option<Sequence>) -> Sequence {
    match from {
        Some(s) => s,
        None => Sequence(0),
    }
}

/// Where a range ends.
pub open spec fn high_end(to: Option<Sequence>) -> Sequence {
    match to {
        Some(s) => s,
        None => Sequence(u64::MAX),
    }
}

/// What is added for a record of the log.
pub open spec fn added_record(offset: u64, r: RecordView) -> AddedView {
    AddedView {
        id: r.id,
        place: Some(
            PlaceView {
                branch: r.branch,
                sequence: r.sequence,
                offset,
                record_type: r.record_type,
            },
        ),
        caused_by: r.caused_by,
        linked_to: r.linked_to,
    }
}

/// Whether all records were read.
pub open spec fn all_read(items: Seq<Result<(u64, RecordView), ErrorView>>) -> bool {
    forall|i: int| 0 <= i < items.len() ==> (#[trigger] items[i]) is Ok
}

/// What is added for the records of the log.
pub open spec fn added_of(items: Seq<Result<(u64, RecordView), ErrorView>>) -> Seq<AddedView> {
    items.map_values(
        |i: Result<(u64, RecordView), ErrorView>| added_record(i->Ok_0.0, i->Ok_0.1),
    )
}

/// Rebuilding after a record was appended gives the index with that record added.
pub proof fn rebuild_matches_adding(b: Seq<u8>, r: RecordView)
    requires
        crate::records::log::whole_from(b, 0),
        crate::records::codec::fits(r),
    ensures
        added_of(records_from(b + crate::records::codec::record_bytes(r), 0)) == added_of(
            records_from(b, 0),
        ).push(added_record(b.len() as u64, r)),
{
    crate::records::log::append_extends_log(b, r);
    assert(added_of(records_from(b, 0).push(Ok((b.len() as u64, r)))) =~= added_of(
        records_from(b, 0),
    ).push(added_record(b.len() as u64, r)));
}

/// The entries of a branch within a range of sequences.
spec fn hits_among(entries: Seq<Key>, branch: BranchId, from: Sequence, to: Sequence) -> Seq<
    (Sequence, u64),
>
    decreases entries.len(),
{
    if entries.len() == 0 {
        Seq::empty()
    } else {
        let before = hits_among(entries.drop_last(), branch, from, to);
        let e = entries.last();
        if e.0 == branch.0 && from.0 <= e.1 <= to.0 {
            before.push((Sequence(e.1), e.2))
        } else {
            before
        }
    }
}

proof fn lemma_sorted_init(entries: Seq<Key>)
    requires
        keys_sorted(entries),
        entries.len() > 0,
    ensures
        keys_sorted(entries.drop_last()),
{
    let init = entries.drop_last();
    assert forall|i: int, j: int| 0 <= i < j < init.len() implies key_before(
        #[trigger] init[i],
        (#[trigger] init[j]).0,
        init[j].1,
    ) by {
        assert(init[i] == entries[i] && init[j] == entries[j]);
    }
}

proof fn lemma_hits(entries: Seq<Key>, branch: BranchId, from: Sequence, to: Sequence)
    requires
        keys_sorted(entries),
    ensures
        ({
            let hits = hits_among(entries, branch, from, to);
            &&& forall|i: int, j: int|
                0 <= i < j < hits.len() ==> (#[trigger] hits[i]).0.0 < (#[trigger] hits[j]).0.0
            &&& forall|i: int|
                0 <= i < hits.len() ==> from.0 <= (#[trigger] hits[i]).0.0 <= to.0
                    && entries.contains((branch.0, hits[i].0.0, hits[i].1))
            &&& forall|k: int|
                0 <= k < entries.len() && (#[trigger] entries[k]).0 == branch.0 && from.0
                    <= entries[k].1 <= to.0 ==> exists|i: int|
                    0 <= i < hits.len() && #[trigger] hits[i] == (
                        Sequence(entries[k].1),
                        entries[k].2,
                    )
        }),
    decreases entries.len(),
{
    if entries.len() > 0 {
        let init = entries.drop_last();
        let last = entries.last();
        lemma_sorted_init(entries);
        lemma_hits(init, branch, from, to);
        let before = hits_among(init, branch, from, to);
        let hits = hits_among(entries, branch, from, to);
        assert(entries[entries.len() - 1] == last);
        assert forall|x: Key| init.contains(x) implies #[trigger] entries.contains(x) by {
            let k = choose|k: int| 0 <= k < init.len() && init[k] == x;
            assert(entries[k] == x);
        }
        if last.0 == branch.0 && from.0 <= last.1 <= to.0 {
            assert forall|i: int, j: int| 0 <= i < j < hits.len() implies (#[trigger] hits[i]).0.0
                < (#[trigger] hits[j]).0.0 by {
                assert(hits[i] == before[i]);
                if j < before.len() {
                    assert(hits[j] == before[j]);
                } else {
                    assert(init.contains((branch.0, before[i].0.0, before[i].1)));
                    let k = choose|k: int|
                        0 <= k < init.len() && init[k] == (branch.0, before[i].0.0, before[i].1);
                    assert(entries[k] == init[k]);
                    assert(key_before(entries[k], last.0, last.1));
                }
            }
            assert forall|i: int| 0 <= i < hits.len() implies from.0 <= (#[trigger] hits[i]).0.0
                <= to.0 && entries.contains((branch.0, hits[i].0.0, hits[i].1)) by {
                if i < before.len() {
                    assert(hits[i] == before[i]);
                } else {
                    assert(entries[entries.len() - 1] == (branch.0, hits[i].0.0, hits[i].1));
                }
            }
        }
        assert forall|k: int|
            0 <= k < entries.len() && (#[trigger] entries[k]).0 == branch.0 && from.0
                <= entries[k].1 <= to.0 implies exists|i: int|
            0 <= i < hits.len() && #[trigger] hits[i] == (Sequence(entries[k].1), entries[k].2) by {
            if k < init.len() {
                assert(init[k] == entries[k]);
                let i = choose|i: int|
                    0 <= i < before.len() && before[i] == (Sequence(init[k].1), init[k].2);
                assert(hits[i] == before[i]);
            } else {
                assert(hits[hits.len() - 1] == (Sequence(entries[k].1), entries[k].2));
            }
        }
    }
}

proof fn lemma_is_range(index: RecordIndex, branch: BranchId, from: Sequence, to: Sequence)
    requires
        index.wf(),
    ensures
        is_range(index.added(), branch, from, to, index.range(branch, from, to)),
{
    let es = index.entries@;
    let hits = index.range(branch, from, to);
    lemma_hits(es, branch, from, to);
    assert forall|i: int| 0 <= i < hits.len() implies from.0 <= (#[trigger] hits[i]).0.0 <= to.0
        && offset_at(index.added@, branch, hits[i].0) == Some(hits[i].1) by {
        let k = choose|k: int|
            0 <= k < es.len() && es[k] == (branch.0, hits[i].0.0, hits[i].1);
        assert(offset_at(index.added@, BranchId(es[k].0), Sequence(es[k].1)) == Some(es[k].2));
    }
    assert forall|s: Sequence|
        #![trigger offset_at(index.added@, branch, s)]
        from.0 <= s.0 <= to.0 && offset_at(index.added@, branch, s) is Some implies exists|i: int|
        0 <= i < hits.len() && (#[trigger] hits[i]).0 == s by {
        let k = choose|k: int| 0 <= k < es.len() && es[k].0 == branch.0 && es[k].1 == s.0;
        let i = choose|i: int| 0 <= i < hits.len() && hits[i] == (Sequence(es[k].1), es[k].2);
        assert(hits[i].0 == s);
    }
}

proof fn lemma_hits_below(es: Seq<Key>, n: int, branch: BranchId, from: Sequence, to: Sequence)
    requires
        0 <= n <= es.len(),
        forall|i: int| 0 <= i < n ==> key_before(#[trigger] es[i], branch.0, from.0),
    ensures
        hits_among(es.take(n), branch, from, to) == Seq::<(Sequence, u64)>::empty(),
    decreases n,
{
    if n > 0 {
        lemma_hits_below(es, n - 1, branch, from, to);
        assert(es.take(n).drop_last() =~= es.take(n - 1));
        assert(key_before(es[n - 1], branch.0, from.0));
    }
}

proof fn lemma_hits_above(es: Seq<Key>, n: int, branch: BranchId, from: Sequence, to: Sequence)
    requires
        keys_sorted(es),
        0 <= n <= es.len(),
        forall|i: int| n <= i < es.len() ==> !key_before(#[trigger] es[i], branch.0, from.0),
        n < es.len() ==> !(es[n].0 == branch.0 && es[n].1 <= to.0),
    ensures
        hits_among(es.take(n), branch, from, to) == hits_among(es, branch, from, to),
    decreases es.len() - n,
{
    if n == es.len() {
        assert(es.take(n) =~= es);
    } else {
        assert(!key_before(es[n], branch.0, from.0));
        if n + 1 < es.len() {
            assert(key_before(es[n], es[n + 1].0, es[n + 1].1));
        }
        lemma_hits_above(es, n + 1, branch, from, to);
        assert(es.take(n + 1).drop_last() =~= es.take(n));
    }
}

/// Adds an id under each of the keys.
fn push_all(m: &mut HashMap<u64, Vec<RecordId>>, keys: &[RecordId], id: RecordId)
    ensures
        forall|k: u64| #[trigger]
            listed(final(m)@, k) == listed(old(m)@, k) + Seq::new(
                times(keys@, RecordId(k)),
                |i: int| id,
            ),
{
    let ghost start = m@;
    let mut i: usize = 0;
    assert(keys@.take(0) =~= Seq::empty());
    proof {
        assert forall|k: u64| #[trigger]
            listed(m@, k) == listed(start, k) + Seq::new(
                times(keys@.take(0), RecordId(k)),
                |j: int| id,
            ) by {
            assert(listed(start, k) + Seq::new(0, |j: int| id) =~= listed(start, k));
        }
    }
    while i < keys.len()
        invariant
            i <= keys@.len(),
            forall|k: u64| #[trigger]
                listed(m@, k) == listed(start, k) + Seq::new(
                    times(keys@.take(i as int), RecordId(k)),
                    |j: int| id,
                ),
        decreases keys@.len() - i,
    {
        let key: u64 = keys[i].0;
        let ghost before = m@;
        let mut v: Vec<RecordId> = match m.get(&key) {
            Some(v) => crate::bytes::copied(v),
            None => Vec::new(),
        };
        assert(v@ == listed(before, key));
        v.push(id);
        m.insert(key, v);
        proof {
            let t = keys@.take(i + 1);
            assert(t.drop_last() =~= keys@.take(i as int));
            assert(t.last() == keys@[i as int]);
            assert forall|k: u64| #[trigger]
                listed(m@, k) == listed(start, k) + Seq::new(
                    times(t, RecordId(k)),
                    |j: int| id,
                ) by {
                assert(listed(before, k) == listed(start, k) + Seq::new(
                    times(keys@.take(i as int), RecordId(k)),
                    |j: int| id,
                ));
                if k == key {
                    assert(m@[k]@ =~= listed(start, k) + Seq::new(
                        times(t, RecordId(k)),
                        |j: int| id,
                    ));
                }
            }
        }
        i += 1;
    }
    assert(keys@.take(i as int) =~= keys@);
}

/// Adds an id under its type.
fn push_type(
    types: &mut Vec<(String, Vec<RecordId>)>,
    record_type: &str,
    id: RecordId,
    Ghost(before): Ghost<Seq<AddedView>>,
    Ghost(a): Ghost<AddedView>,
)
    requires
        types_match(old(types)@, before),
        a.id == id,
        a.place matches Some(p) && p.record_type == record_type@,
    ensures
        types_match(final(types)@, before.push(a)),
{
    let ghost after = before.push(a);
    assert(after.drop_last() =~= before);
    let ghost start = types@;
    let mut i: usize = 0;
    while i < types.len()
        invariant
            i <= types@.len(),
            types@ == start,
            types_match(start, before),
            after == before.push(a),
            after.drop_last() == before,
            a.id == id,
            a.place matches Some(p) && p.record_type == record_type@,
            forall|j: int| 0 <= j < i ==> (#[trigger] types@[j]).0@ != record_type@,
        decreases types@.len() - i,
    {
        if same_text(types[i].0.as_str(), record_type) {
            let name = types[i].0.clone();
            let mut ids = crate::bytes::copied(&types[i].1);
            ids.push(id);
            types.set(i, (name, ids));
            proof {
                let now = types@;
                assert forall|k: int| 0 <= k < now.len() implies (#[trigger] now[k]).1@
                    == ids_of_type(after, now[k].0@) by {
                    assert(start[k].1@ == ids_of_type(before, start[k].0@));
                    if k != i {
                        if k < i {
                            assert(start[k].0@ != start[i as int].0@);
                        } else {
                            assert(start[i as int].0@ != start[k].0@);
                        }
                    }
                }
                assert forall|x: int, y: int| 0 <= x < y < now.len() implies (#[trigger] now[x]).0@
                    != (#[trigger] now[y]).0@ by {
                    assert(start[x].0@ != start[y].0@);
                }
                assert forall|t: Seq<char>|
                    #![trigger ids_of_type(after, t)]
                    (forall|k: int| 0 <= k < now.len() ==> (#[trigger] now[k]).0@ != t) implies ids_of_type(
                    after,
                    t,
                ) == Seq::<RecordId>::empty() by {
                    assert forall|k: int| 0 <= k < start.len() implies (#[trigger] start[k]).0@ != t by {
                        assert(now[k].0@ == start[k].0@);
                    }
                    assert(now[i as int].0@ != t);
                    assert(ids_of_type(before, t) == Seq::<RecordId>::empty());
                }
            }
            return ;
        }
        i += 1;
    }
    let mut ids: Vec<RecordId> = Vec::new();
    ids.push(id);
    types.push((record_type.to_owned(), ids));
    proof {
        let now = types@;
        assert(ids_of_type(before, record_type@) == Seq::<RecordId>::empty());
        assert forall|k: int| 0 <= k < now.len() implies (#[trigger] now[k]).1@ == ids_of_type(
            after,
            now[k].0@,
        ) by {
            if k < start.len() {
                assert(now[k] == start[k]);
                assert(start[k].1@ == ids_of_type(before, start[k].0@));
            } else {
                assert(now[k].1@ =~= ids_of_type(after, now[k].0@));
            }
        }
        assert forall|x: int, y: int| 0 <= x < y < now.len() implies (#[trigger] now[x]).0@ != (
        #[trigger] now[y]).0@ by {
            assert(now[x] == start[x]);
            if y < start.len() {
                assert(now[y] == start[y]);
            }
        }
        assert forall|t: Seq<char>|
            #![trigger ids_of_type(after, t)]
            (forall|k: int| 0 <= k < now.len() ==> (#[trigger] now[k]).0@ != t) implies ids_of_type(
            after,
            t,
        ) == Seq::<RecordId>::empty() by {
            assert(now[start.len() as int].0@ != t);
            assert forall|k: int| 0 <= k < start.len() implies (#[trigger] start[k]).0@ != t by {
                assert(now[k] == start[k]);
            }
            assert(ids_of_type(before, t) == Seq::<RecordId>::empty());
        }
    }
}

} // verus!
