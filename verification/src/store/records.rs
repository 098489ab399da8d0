//! Record operations.
use crate::branches::manager::current_missing;
use crate::error::{ErrorView, StoreError};
use crate::records::codec::{byte_of_encoding, record_at};
use crate::records::index::{effects_of, high_end, ids_of_type, is_range, limited, links_of, low_end, offset_at, offsets_by_id, AddedView};
use crate::records::log::RecordIterator;
use crate::state::laws::same_below;
use crate::state::manager::cache_survives_append;
use crate::store::history::{appending_keeps_sound, sound};
use crate::store::model::{after, append_intent, appended, logged_and_committed, next_record, raw_ids, with_record};
use crate::store::{Store, StoreView};
use crate::subscriptions::types::{contains_text, lets_through};
use crate::types::{views, BranchId, Record, RecordId, RecordInput, RecordView, Sequence};
use crate::wal::log::{WalOperation, WalView};
use vstd::prelude::*;
use vstd::string::*;

verus! {

/// The numbers of record ids.
pub fn ids_raw(ids: &Vec<RecordId>) -> (r: Vec<u64>)
    ensures
        r@ == raw_ids(ids@),
{
    let mut out: Vec<u64> = Vec::new();
    let mut i: usize = 0;
    while i < ids.len()
        invariant
            i <= ids@.len(),
            out@ =~= raw_ids(ids@.take(i as int)),
        decreases ids@.len() - i,
    {
        out.push(ids[i].0);
        i += 1;
        assert(ids@.take(i as int).drop_last() =~= ids@.take(i - 1));
    }
    assert(ids@.take(i as int) =~= ids@);
    out
}

/// A log that grew keeps updates within it and cached values valid.
pub proof fn lemma_with_record(s: StoreView, r: RecordView, wal: WalView)
    requires
        s.wf(),
        wal.wf(),
        s.log.appended(r).wf(),
        crate::store::model::moved_head(s.branches, r.branch, r.sequence).wf(),
    ensures
        with_record(s, r, wal).wf(),
{
    let more = crate::records::codec::record_bytes(r);
    assert(same_below(s.updates, s.updates, s.log.bytes.len() as int));
    cache_survives_append(s.cached, s.log.bytes, s.updates, more, s.updates);
}

impl Store {
    /// Append a record to the current branch.
    pub fn append(&mut self, input: RecordInput) -> (r: Result<Record, StoreError>)
        requires
            old(self).wf(),
            old(self)@.has_room(1),
        ensures
            final(self).wf(),
            match r {
                Ok(record) => {
                    &&& old(self)@.branches.current_branch() matches Some(b) && record@
                        == next_record(old(self)@, input@, b, record.timestamp)
                        && record.timestamp.0 >= old(self)@.log.last.0 && final(self)@
                        == appended(old(self)@, record@, b, final(self)@.wal)
                        && logged_and_committed(
                        old(self)@.wal,
                        append_intent(old(self)@, input@, b),
                        final(self)@.wal,
                    )
                },
                Err(e) => old(self)@.branches.current_branch() is None && e@ == current_missing(
                    old(self)@.branches.current,
                ) && final(self)@ == old(self)@,
            },
            sound(old(self)@) ==> sound(final(self)@),
    {
        let ghost before = self@;
        let branch = match self.branches.current_branch() {
            Ok(b) => b,
            Err(e) => return Err(e),
        };
        let next_seq = branch.head.next();
        let seq: u64 = self.wal.log(
            WalOperation::AppendRecord {
                record_type: input.record_type.clone(),
                payload: crate::bytes::copied(&input.payload),
                encoding: byte_of_encoding(input.encoding),
                caused_by: ids_raw(&input.caused_by),
                linked_to: ids_raw(&input.linked_to),
                branch_id: branch.id.0,
                log_fence: self.log.size(),
            },
        );
        let ghost wal1 = self.wal@;
        let (record, offset) = self.log.append(input, branch.id, next_seq);
        self.index.add(
            record.id,
            branch.id,
            next_seq,
            offset,
            record.record_type.as_str(),
            record.caused_by.as_slice(),
            record.linked_to.as_slice(),
        );
        match self.branches.update_head(branch.id, next_seq) {
            Ok(_) => {},
            Err(e) => {
                assert(false);
                return Err(e);
            },
        }
        self.wal.commit(seq);
        proof {
            let op = append_intent(before, input@, branch@);
            let t1 = choose|t1: u64| wal1 == #[trigger] before.wal.logged(op, t1);
            let t2 = choose|t2: u64| self.wal@ == #[trigger] wal1.committed(seq, t2);
            assert(self.wal@ == before.wal.logged(op, t1).committed(before.wal.next_seq, t2));
            lemma_with_record(before, record@, self.wal@);
        }
        self.subscriptions.broadcast_record(&record);
        self.subscriptions.broadcast_branch_head(branch.name.as_str(), next_seq);
        proof {
            assert(self@ == appended(before, record@, branch@, self@.wal));
            if sound(before) {
                appending_keeps_sound(before, input@, branch@, record.timestamp, self@.wal);
            }
        }
        Ok(record)
    }

    /// Get a record by ID.
    pub fn get_record(&self, id: RecordId) -> (r: Result<Option<Record>, StoreError>)
        requires
            self.wf(),
        ensures
            ({
                let offsets = offsets_by_id(self@.added);
                match r {
                    Ok(None) => !offsets.contains_key(id.0),
                    Ok(Some(record)) => offsets.contains_key(id.0) && (record_at(
                        self@.log.bytes,
                        offsets[id.0] as int,
                    ) matches Ok((v, _)) && v == record@),
                    Err(e) => offsets.contains_key(id.0) && record_at(
                        self@.log.bytes,
                        offsets[id.0] as int,
                    ) == Err::<(RecordView, int), ErrorView>(e@),
                }
            }),
    {
        match self.index.get_offset_by_id(id) {
            Some(offset) => match self.log.read_at(offset) {
                Ok(record) => Ok(Some(record)),
                Err(e) => Err(e),
            },
            None => Ok(None),
        }
    }

    /// Get records by type.
    pub fn get_records_by_type(&self, record_type: &str) -> (r: Vec<RecordId>)
        requires
            self.wf(),
        ensures
            r@ == ids_of_type(self@.added, record_type@),
    {
        self.index.get_by_type(record_type)
    }

    /// Iterate records from a sequence: from the first record of the current branch that is
    /// not older. Without a current branch it is from the first record of all.
    pub fn iter_from(&self, seq: Sequence) -> (it: RecordIterator<'_>)
        requires
            self.wf(),
        ensures
            it.log() == self@.log,
            it.end() == self@.log.bytes.len(),
            it.offset() == start_of(self@, seq),
    {
        let offset: u64 = match self.branches.current_branch() {
            Ok(b) => self.first_offset(b.id, seq),
            Err(_) => 0,
        };
        self.log.iter_from(offset)
    }

    /// The offset of the first record of the current branch from a sequence on, or the end
    /// of the log.
    pub(crate) fn first_offset(&self, branch: BranchId, seq: Sequence) -> (offset: u64)
        requires
            self.wf(),
            self@.branches.current_branch() matches Some(b) && b.id == branch,
        ensures
            offset == start_of(self@, seq),
    {
        let hits = self.index.query_range(branch, Some(seq), None, 1, false);
        proof {
            lemma_start(self@, branch, seq, self.index.range(branch, seq, Sequence(u64::MAX)));
        }
        if hits.len() > 0 {
            hits[0].1
        } else {
            self.log.size()
        }
    }

    /// Query records in a sequence range.
    ///
    /// - `from`: Start sequence (inclusive), None for beginning
    /// - `to`: End sequence (inclusive), None for end
    /// - `limit`: Maximum records to return
    /// - `reverse`: If true, return records in descending sequence order
    /// - `types`: Optional record type filter (applied after fetching)
    pub fn query_range(
        &self,
        from: Option<Sequence>,
        to: Option<Sequence>,
        limit: usize,
        reverse: bool,
        types: Option<&[String]>,
    ) -> (r: Result<Vec<Record>, StoreError>)
        requires
            self.wf(),
        ensures
            match self@.branches.current_branch() {
                None => r matches Err(e) && e@ == current_missing(self@.branches.current),
                Some(b) => queried(
                    self@,
                    b.id,
                    (low_end(from), high_end(to)),
                    limit as nat,
                    reverse,
                    slice_texts(types),
                    match r {
                        Ok(v) => Ok(views(v@)),
                        Err(e) => Err(e@),
                    },
                ),
            },
    {
        let branch = match self.branches.current_branch() {
            Ok(b) => b,
            Err(e) => return Err(e),
        };
        let fetch_limit: usize = if types.is_some() {
            usize::MAX
        } else {
            limit
        };
        let offsets = self.index.query_range(branch.id, from, to, fetch_limit, reverse);
        let ghost hits = self.index.range(branch.id, low_end(from), high_end(to));
        let ghost all = offsets@;
        proof {
            lemma_enough_fetched(
                self@.log.bytes,
                in_turn(hits, reverse),
                limit as nat,
                slice_texts(types),
            );
        }
        let ghost b = self@.log.bytes;
        let ghost wanted = slice_texts(types);
        let ghost range = (low_end(from), high_end(to));
        proof {
            lemma_queried(self@, branch@.id, range, limit as nat, reverse, wanted, hits);
        }
        let mut records: Vec<Record> = Vec::new();
        let mut i: usize = 0;
        assert(all.take(0) =~= Seq::empty());
        assert(views(records@) =~= Seq::empty());
        while i < offsets.len()
            invariant
                all == offsets@,
                b == self@.log.bytes,
                wanted == slice_texts(types),
                i <= all.len(),
                collected(b, all.take(i as int), limit as nat, wanted) == Ok::<
                    Seq<RecordView>,
                    ErrorView,
                >(views(records@)),
                range == (low_end(from), high_end(to)),
                queried(
                    self@,
                    branch@.id,
                    range,
                    limit as nat,
                    reverse,
                    wanted,
                    collected(b, in_turn(hits, reverse), limit as nat, wanted),
                ),
                collected(b, all, limit as nat, wanted) == collected(
                    b,
                    in_turn(hits, reverse),
                    limit as nat,
                    wanted,
                ),
                self@.branches.current_branch() == Some(branch@),
            decreases all.len() - i,
        {
            proof {
                assert(all.take(i + 1).drop_last() =~= all.take(i as int));
                assert(all.take(i + 1).last() == all[i as int]);
            }
            if records.len() >= limit {
                proof {
                    lemma_collected_full(b, all, i as int, limit as nat, wanted, views(records@));
                }
                return Ok(records);
            }
            let record = match self.log.read_at(offsets[i].1) {
                Ok(record) => record,
                Err(e) => {
                    proof {
                        lemma_collected_error(b, all, i + 1, limit as nat, wanted, e@);
                    }
                    return Err(e);
                },
            };
            let keep: bool = match types {
                Some(list) => contains_text(list, record.record_type.as_str()),
                None => true,
            };
            if keep {
                let ghost got = views(records@);
                let ghost item = record@;
                records.push(record);
                assert(views(records@) =~= got.push(item));
            }
            i += 1;
        }
        assert(all.take(i as int) =~= all);
        Ok(records)
    }

    /// Get records that were caused by a given record (reverse lookup).
    ///
    /// Returns record IDs that have `record_id` in their `caused_by` field.
    pub fn get_effects(&self, record_id: RecordId) -> (r: Vec<RecordId>)
        requires
            self.wf(),
        ensures
            r@ == effects_of(self@.added, record_id),
    {
        self.index.get_caused_by(record_id)
    }

    /// Get records that link to a given record (reverse lookup).
    ///
    /// Returns record IDs that have `record_id` in their `linked_to` field.
    pub fn get_links_to(&self, record_id: RecordId) -> (r: Vec<RecordId>)
        requires
            self.wf(),
        ensures
            r@ == links_of(self@.added, record_id),
    {
        self.index.get_linked_to(record_id)
    }
}

/// Whether a sequence is the first one on a branch, from another on, that has a record.
pub open spec fn is_first_from(
    added: Seq<AddedView>,
    branch: BranchId,
    seq: Sequence,
    first: Sequence,
) -> bool {
    &&& seq.0 <= first.0
    &&& offset_at(added, branch, first) is Some
    &&& forall|q: Sequence|
        seq.0 <= q.0 < first.0 ==> #[trigger] offset_at(added, branch, q) is None
}

/// The offset from which records are read for a sequence: where the first record of the
/// current branch stands that is not older, or the end of the log. Without a current branch
/// it is the start of the log.
pub open spec fn start_of(s: StoreView, seq: Sequence) -> u64 {
    match s.branches.current_branch() {
        Some(b) => if exists|q: Sequence| is_first_from(s.added, b.id, seq, q) {
            let q = choose|q: Sequence| is_first_from(s.added, b.id, seq, q);
            offset_at(s.added, b.id, q)->0
        } else {
            s.log.bytes.len() as u64
        },
        None => 0,
    }
}

proof fn lemma_start(s: StoreView, b: BranchId, seq: Sequence, hits: Seq<(Sequence, u64)>)
    requires
        s.branches.current_branch() matches Some(x) && x.id == b,
        is_range(s.added, b, seq, Sequence(u64::MAX), hits),
    ensures
        start_of(s, seq) == (if hits.len() > 0 {
            hits[0].1
        } else {
            s.log.bytes.len() as u64
        }),
{
    if hits.len() > 0 {
        let first = hits[0].0;
        assert forall|q: Sequence| seq.0 <= q.0 < first.0 implies #[trigger] offset_at(
            s.added,
            b,
            q,
        ) is None by {
            if offset_at(s.added, b, q) is Some {
                let i = choose|i: int| 0 <= i < hits.len() && (#[trigger] hits[i]).0 == q;
                if i > 0 {
                    assert(hits[0].0.0 < hits[i].0.0);
                }
            }
        }
        assert(is_first_from(s.added, b, seq, first));
        let q = choose|q: Sequence| is_first_from(s.added, b, seq, q);
        assert(is_first_from(s.added, b, seq, q));
        if q.0 < first.0 {
            assert(offset_at(s.added, b, q) is None);
        } else if first.0 < q.0 {
            assert(offset_at(s.added, b, first) is None);
        }
        assert(q == first);
    } else {
        assert forall|q: Sequence| !is_first_from(s.added, b, seq, q) by {
            if is_first_from(s.added, b, seq, q) {
                assert(offset_at(s.added, b, q) is Some);
            }
        }
    }
}

/// The texts of an optional list of types.
pub open spec fn slice_texts(types: Option<&[String]>) -> Option<Seq<Seq<char>>> {
    match types {
        Some(l) => Some(views(l@)),
        None => None,
    }
}

/// The hits in the order of a query.
pub open spec fn in_turn(hits: Seq<(Sequence, u64)>, reverse: bool) -> Seq<(Sequence, u64)> {
    if reverse {
        hits.reverse()
    } else {
        hits
    }
}

/// Whether `found` is what a query of a branch finds: of the records within a range of
/// sequences that are of the given types the first ones up to the limit, by ascending or by
/// descending sequence, or the error of the one among these that does not read.
#[verifier::opaque]
pub open spec fn queried(
    s: StoreView,
    branch: BranchId,
    range: (Sequence, Sequence),
    limit: nat,
    reverse: bool,
    types: Option<Seq<Seq<char>>>,
    found: Result<Seq<RecordView>, ErrorView>,
) -> bool {
    exists|hits: Seq<(Sequence, u64)>| #[trigger]
        is_range(s.added, branch, range.0, range.1, hits) && collected(
            s.log.bytes,
            in_turn(hits, reverse),
            limit,
            types,
        ) == found
}

/// The records at some hits that are of the given types, up to the limit.
pub open spec fn collected(
    b: Seq<u8>,
    hits: Seq<(Sequence, u64)>,
    limit: nat,
    types: Option<Seq<Seq<char>>>,
) -> Result<Seq<RecordView>, ErrorView>
    decreases hits.len(),
{
    if hits.len() == 0 {
        Ok(Seq::empty())
    } else {
        match collected(b, hits.drop_last(), limit, types) {
            Err(e) => Err(e),
            Ok(got) => if got.len() >= limit {
                Ok(got)
            } else {
                match record_at(b, hits.last().1 as int) {
                    Err(e) => Err(e),
                    Ok((r, _)) => if lets_through(types, r.record_type) {
                        Ok(got.push(r))
                    } else {
                        Ok(got)
                    },
                }
            },
        }
    }
}

proof fn lemma_queried(
    s: StoreView,
    branch: BranchId,
    range: (Sequence, Sequence),
    limit: nat,
    reverse: bool,
    types: Option<Seq<Seq<char>>>,
    hits: Seq<(Sequence, u64)>,
)
    requires
        is_range(s.added, branch, range.0, range.1, hits),
    ensures
        queried(
            s,
            branch,
            range,
            limit,
            reverse,
            types,
            collected(s.log.bytes, in_turn(hits, reverse), limit, types),
        ),
{
    reveal(queried);
}

/// Where all types are let through, as many hits as records are wanted are enough.
proof fn lemma_enough_fetched(
    b: Seq<u8>,
    hits: Seq<(Sequence, u64)>,
    limit: nat,
    types: Option<Seq<Seq<char>>>,
)
    ensures
        types is None ==> collected(b, limited(hits, limit), limit, types) == collected(
            b,
            hits,
            limit,
            types,
        ),
{
    if types is None && limit < hits.len() {
        lemma_collected_count(b, hits.take(limit as int), limit);
        match collected(b, hits.take(limit as int), limit, types) {
            Ok(got) => lemma_collected_full(b, hits, limit as int, limit, types, got),
            Err(e) => lemma_collected_error(b, hits, limit as int, limit, types, e),
        }
    }
}

proof fn lemma_collected_count(b: Seq<u8>, hits: Seq<(Sequence, u64)>, limit: nat)
    requires
        hits.len() <= limit,
    ensures
        collected(b, hits, limit, None) matches Ok(got) ==> got.len() == hits.len(),
    decreases hits.len(),
{
    if hits.len() > 0 {
        lemma_collected_count(b, hits.drop_last(), limit);
    }
}

proof fn lemma_collected_full(
    b: Seq<u8>,
    hits: Seq<(Sequence, u64)>,
    n: int,
    limit: nat,
    types: Option<Seq<Seq<char>>>,
    got: Seq<RecordView>,
)
    requires
        0 <= n <= hits.len(),
        collected(b, hits.take(n), limit, types) == Ok::<Seq<RecordView>, ErrorView>(got),
        got.len() >= limit,
    ensures
        collected(b, hits, limit, types) == Ok::<Seq<RecordView>, ErrorView>(got),
    decreases hits.len() - n,
{
    if n == hits.len() {
        assert(hits.take(n) =~= hits);
    } else {
        assert(hits.take(n + 1).drop_last() =~= hits.take(n));
        lemma_collected_full(b, hits, n + 1, limit, types, got);
    }
}

proof fn lemma_collected_error(
    b: Seq<u8>,
    hits: Seq<(Sequence, u64)>,
    n: int,
    limit: nat,
    types: Option<Seq<Seq<char>>>,
    e: ErrorView,
)
    requires
        0 <= n <= hits.len(),
        collected(b, hits.take(n), limit, types) == Err::<Seq<RecordView>, ErrorView>(e),
    ensures
        collected(b, hits, limit, types) == Err::<Seq<RecordView>, ErrorView>(e),
    decreases hits.len() - n,
{
    if n == hits.len() {
        assert(hits.take(n) =~= hits);
    } else {
        assert(hits.take(n + 1).drop_last() =~= hits.take(n));
        lemma_collected_error(b, hits, n + 1, limit, types, e);
    }
}

} // verus!
