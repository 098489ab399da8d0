//! Laws of the record log and its index: what is read, and what lookups give of the records
//! that were added.
use crate::error::ErrorView;
use crate::records::codec::{record_at, record_bytes};
use crate::records::index::{added_of, added_record, effects_of, high_end, ids_of_type, limited, links_of, low_end, offset_at, offsets_by_id, times, AddedView};
use crate::records::log::{next_id_of, records_from, scan_max_id, RecordLogView};
use crate::records::meta::{meta_bytes, meta_round_trip};
use crate::types::{BranchId, RecordId, RecordView, Sequence};
use vstd::prelude::*;

verus! {

proof fn lemma_times(ids: Seq<RecordId>, id: RecordId)
    ensures
        times(ids, id) == ids.to_multiset().count(id),
        times(ids, id) > 0 <==> ids.contains(id),
    decreases ids.len(),
{
    broadcast use vstd::seq_lib::group_to_multiset_ensures;

    if ids.len() > 0 {
        let init = ids.drop_last();
        lemma_times(init, id);
        assert(init.push(ids.last()) =~= ids);
        assert(ids.to_multiset() == init.to_multiset().insert(ids.last()));
        assert(ids[ids.len() - 1] == ids.last());
        if init.contains(id) {
            let k = choose|k: int| 0 <= k < init.len() && init[k] == id;
            assert(ids[k] == id);
        }
        if ids.contains(id) && id != ids.last() {
            let k = choose|k: int| 0 <= k < ids.len() && ids[k] == id;
            assert(init[k] == id);
        }
    } else {
        assert(ids.to_multiset().len() == 0);
    }
}

/// A record is an effect of just the records in its caused_by, at whichever place of that
/// list they stand. Nothing else is an effect.
pub proof fn effects_are_those_caused(added: Seq<AddedView>, cause: RecordId, effect: RecordId)
    ensures
        effects_of(added, cause).contains(effect) <==> exists|k: int|
            0 <= k < added.len() && (#[trigger] added[k]).id == effect
                && added[k].caused_by.contains(cause),
    decreases added.len(),
{
    if added.len() > 0 {
        let init = added.drop_last();
        let a = added.last();
        effects_are_those_caused(init, cause, effect);
        lemma_times(a.caused_by, cause);
        let before = effects_of(init, cause);
        let all = effects_of(added, cause);
        assert(added[added.len() - 1] == a);
        if before.contains(effect) {
            let i = choose|i: int| 0 <= i < before.len() && before[i] == effect;
            assert(all[i] == effect);
            let k = choose|k: int|
                0 <= k < init.len() && (#[trigger] init[k]).id == effect
                    && init[k].caused_by.contains(cause);
            assert(added[k] == init[k]);
        }
        if a.id == effect && a.caused_by.contains(cause) {
            assert(all[before.len() as int] == effect);
        }
        if all.contains(effect) && !before.contains(effect) {
            let i = choose|i: int| 0 <= i < all.len() && all[i] == effect;
            assert(i >= before.len()) by {
                if i < before.len() {
                    assert(before[i] == effect);
                }
            }
        }
        if exists|k: int|
            0 <= k < added.len() && (#[trigger] added[k]).id == effect
                && added[k].caused_by.contains(cause) {
            let k = choose|k: int|
                0 <= k < added.len() && (#[trigger] added[k]).id == effect
                    && added[k].caused_by.contains(cause);
            if k < init.len() {
                assert(init[k].id == effect && init[k].caused_by.contains(cause));
            }
        }
    }
}

/// A record links to just the records in its linked_to, at whichever place of that list they
/// stand. Nothing else links to them.
pub proof fn links_are_those_linking(added: Seq<AddedView>, target: RecordId, source: RecordId)
    ensures
        links_of(added, target).contains(source) <==> exists|k: int|
            0 <= k < added.len() && (#[trigger] added[k]).id == source
                && added[k].linked_to.contains(target),
    decreases added.len(),
{
    if added.len() > 0 {
        let init = added.drop_last();
        let a = added.last();
        links_are_those_linking(init, target, source);
        lemma_times(a.linked_to, target);
        let before = links_of(init, target);
        let all = links_of(added, target);
        assert(added[added.len() - 1] == a);
        if before.contains(source) {
            let i = choose|i: int| 0 <= i < before.len() && before[i] == source;
            assert(all[i] == source);
            let k = choose|k: int|
                0 <= k < init.len() && (#[trigger] init[k]).id == source
                    && init[k].linked_to.contains(target);
            assert(added[k] == init[k]);
        }
        if a.id == source && a.linked_to.contains(target) {
            assert(all[before.len() as int] == source);
        }
        if all.contains(source) && !before.contains(source) {
            let i = choose|i: int| 0 <= i < all.len() && all[i] == source;
            assert(i >= before.len()) by {
                if i < before.len() {
                    assert(before[i] == source);
                }
            }
        }
        if exists|k: int|
            0 <= k < added.len() && (#[trigger] added[k]).id == source
                && added[k].linked_to.contains(target) {
            let k = choose|k: int|
                0 <= k < added.len() && (#[trigger] added[k]).id == source
                    && added[k].linked_to.contains(target);
            if k < init.len() {
                assert(init[k].id == source && init[k].linked_to.contains(target));
            }
        }
    }
}

/// Adding a record puts it behind the effects that were there, once for each time that the
/// cause stands in its caused_by; likewise for links.
pub proof fn added_links_come_last(added: Seq<AddedView>, a: AddedView, id: RecordId)
    ensures
        ({
            let before = effects_of(added, id);
            let after = effects_of(added.push(a), id);
            &&& after.len() == before.len() + a.caused_by.to_multiset().count(id)
            &&& forall|i: int|
                0 <= i < after.len() ==> #[trigger] after[i] == (if i < before.len() {
                    before[i]
                } else {
                    a.id
                })
        }),
        ({
            let before = links_of(added, id);
            let after = links_of(added.push(a), id);
            &&& after.len() == before.len() + a.linked_to.to_multiset().count(id)
            &&& forall|i: int|
                0 <= i < after.len() ==> #[trigger] after[i] == (if i < before.len() {
                    before[i]
                } else {
                    a.id
                })
        }),
        effects_of(Seq::empty(), id).len() == 0,
        links_of(Seq::empty(), id).len() == 0,
{
    assert(added.push(a).drop_last() =~= added);
    lemma_times(a.caused_by, id);
    lemma_times(a.linked_to, id);
}

/// Just the records of a type are listed under it.
pub proof fn types_list_their_records(added: Seq<AddedView>, record_type: Seq<char>, id: RecordId)
    ensures
        ids_of_type(added, record_type).contains(id) <==> exists|k: int|
            0 <= k < added.len() && (#[trigger] added[k]).id == id && added[k].place is Some
                && added[k].place->0.record_type == record_type,
    decreases added.len(),
{
    if added.len() > 0 {
        let init = added.drop_last();
        let a = added.last();
        types_list_their_records(init, record_type, id);
        let before = ids_of_type(init, record_type);
        let all = ids_of_type(added, record_type);
        assert(added[added.len() - 1] == a);
        if before.contains(id) {
            let i = choose|i: int| 0 <= i < before.len() && before[i] == id;
            assert(all[i] == id);
            let k = choose|k: int|
                0 <= k < init.len() && (#[trigger] init[k]).id == id && init[k].place is Some
                    && init[k].place->0.record_type == record_type;
            assert(added[k] == init[k]);
        }
        if a.id == id && a.place is Some && a.place->0.record_type == record_type {
            assert(all[before.len() as int] == id);
        }
        if all.contains(id) && !before.contains(id) {
            let i = choose|i: int| 0 <= i < all.len() && all[i] == id;
            assert(i >= before.len()) by {
                if i < before.len() {
                    assert(before[i] == id);
                }
            }
        }
        if exists|k: int|
            0 <= k < added.len() && (#[trigger] added[k]).id == id && added[k].place is Some
                && added[k].place->0.record_type == record_type {
            let k = choose|k: int|
                0 <= k < added.len() && (#[trigger] added[k]).id == id && added[k].place is Some
                    && added[k].place->0.record_type == record_type;
            if k < init.len() {
                assert(init[k].id == id);
            }
        }
    }
}

/// Adding a record puts it behind those of its type and leaves the other types as they are.
pub proof fn added_record_is_last_of_its_type(
    added: Seq<AddedView>,
    a: AddedView,
    record_type: Seq<char>,
)
    ensures
        ({
            let before = ids_of_type(added, record_type);
            let after = ids_of_type(added.push(a), record_type);
            if a.place is Some && a.place->0.record_type == record_type {
                &&& after.len() == before.len() + 1
                &&& after[before.len() as int] == a.id
                &&& forall|i: int| 0 <= i < before.len() ==> #[trigger] after[i] == before[i]
            } else {
                after == before
            }
        }),
        ids_of_type(Seq::empty(), record_type).len() == 0,
{
    assert(added.push(a).drop_last() =~= added);
}

/// A sequence of a branch leads to the last record that was added there, and to none if
/// none was.
pub proof fn sequence_leads_to_last_added(added: Seq<AddedView>, branch: BranchId, sequence: Sequence)
    ensures
        offset_at(added, branch, sequence) is None <==> forall|k: int|
            0 <= k < added.len() ==> !((#[trigger] added[k]).place is Some
                && added[k].place->0.branch == branch && added[k].place->0.sequence == sequence),
        offset_at(added, branch, sequence) matches Some(o) ==> exists|k: int|
            0 <= k < added.len() && (#[trigger] added[k]).place is Some
                && added[k].place->0.branch == branch && added[k].place->0.sequence == sequence
                && added[k].place->0.offset == o && forall|j: int|
                k < j < added.len() ==> !((#[trigger] added[j]).place is Some
                    && added[j].place->0.branch == branch && added[j].place->0.sequence
                    == sequence),
    decreases added.len(),
{
    if added.len() > 0 {
        let init = added.drop_last();
        let a = added.last();
        sequence_leads_to_last_added(init, branch, sequence);
        assert(added[added.len() - 1] == a);
        assert(forall|k: int| 0 <= k < init.len() ==> #[trigger] init[k] == added[k]);
        assert(forall|k: int| 0 <= k < init.len() ==> #[trigger] added[k] == init[k]);
        if !(a.place is Some && a.place->0.branch == branch && a.place->0.sequence == sequence) {
            if let Some(o) = offset_at(init, branch, sequence) {
                let k = choose|k: int|
                    0 <= k < init.len() && (#[trigger] init[k]).place is Some
                        && init[k].place->0.branch == branch && init[k].place->0.sequence
                        == sequence && init[k].place->0.offset == o && forall|j: int|
                        k < j < init.len() ==> !((#[trigger] init[j]).place is Some
                            && init[j].place->0.branch == branch && init[j].place->0.sequence
                            == sequence);
                assert(added[k] == init[k]);
                assert forall|j: int| k < j < added.len() implies !((
                #[trigger] added[j]).place is Some && added[j].place->0.branch == branch
                    && added[j].place->0.sequence == sequence) by {
                    if j < init.len() {
                        assert(init[j] == added[j]);
                    }
                }
            }
        }
    }
}

/// An id leads to the last record that was added under it, and to none if none was.
pub proof fn id_leads_to_last_added(added: Seq<AddedView>, id: RecordId)
    ensures
        offsets_by_id(added).contains_key(id.0) <==> exists|k: int|
            0 <= k < added.len() && (#[trigger] added[k]).id == id && added[k].place is Some,
        forall|k: int|
            0 <= k < added.len() && (#[trigger] added[k]).id == id && added[k].place is Some && (
            forall|j: int|
                k < j < added.len() ==> !((#[trigger] added[j]).id == id
                    && added[j].place is Some)) ==> offsets_by_id(added)[id.0]
                == added[k].place->0.offset,
    decreases added.len(),
{
    if added.len() > 0 {
        let init = added.drop_last();
        let a = added.last();
        id_leads_to_last_added(init, id);
        assert(added[added.len() - 1] == a);
        assert(forall|k: int| 0 <= k < init.len() ==> #[trigger] init[k] == added[k]);
        assert(forall|k: int| 0 <= k < init.len() ==> #[trigger] added[k] == init[k]);
        if offsets_by_id(init).contains_key(id.0) {
            let k = choose|k: int|
                0 <= k < init.len() && (#[trigger] init[k]).id == id && init[k].place is Some;
            assert(added[k].id == id);
        }
        if a.place is Some && a.id.0 == id.0 {
            assert(a.id == id);
        }
        assert forall|k: int|
            0 <= k < added.len() && (#[trigger] added[k]).id == id && added[k].place is Some && (
            forall|j: int|
                k < j < added.len() ==> !((#[trigger] added[j]).id == id
                    && added[j].place is Some)) implies offsets_by_id(added)[id.0]
            == added[k].place->0.offset by {
            if k < init.len() {
                assert(!(added[added.len() - 1].id == id && added[added.len() - 1].place is Some));
                assert(init[k].id == id && init[k].place is Some);
                assert forall|j: int| k < j < init.len() implies !((#[trigger] init[j]).id == id
                    && init[j].place is Some) by {
                    assert(added[j] == init[j]);
                }
            }
        }
    }
}

/// A range that is cut to a limit holds the first hits, as many as there are up to the limit.
pub proof fn limit_keeps_the_first(hits: Seq<(Sequence, u64)>, limit: nat)
    ensures
        limited(hits, limit).len() == (if limit < hits.len() {
            limit
        } else {
            hits.len()
        }),
        forall|i: int|
            0 <= i < limited(hits, limit).len() ==> #[trigger] limited(hits, limit)[i] == hits[i],
{
}

/// A record of the log is added with its id, place, type and links.
pub proof fn records_are_added_whole(offset: u64, r: RecordView)
    ensures
        ({
            let a = added_record(offset, r);
            &&& a.id == r.id
            &&& a.caused_by == r.caused_by
            &&& a.linked_to == r.linked_to
            &&& a.place matches Some(p) && p.branch == r.branch && p.sequence == r.sequence
                && p.offset == offset && p.record_type == r.record_type
        }),
{
}

/// Without bounds a range takes in all sequences; else the bounds themselves.
pub proof fn bounds_are_inclusive(s: Sequence)
    ensures
        low_end(None).0 == 0,
        high_end(None).0 == u64::MAX,
        low_end(Some(s)) == s,
        high_end(Some(s)) == s,
{
}

/// A log counts the writes since the last sync, and syncs when a full interval of them was
/// collected.
pub proof fn log_syncs_at_the_interval(log: RecordLogView, r: RecordView)
    requires
        log.wf(),
        log.next_id < u64::MAX,
    ensures
        log.appended(r).bytes == log.bytes + record_bytes(r),
        log.appended(r).next_id == log.next_id + 1,
        log.appended(r).last == r.timestamp,
        log.appended(r).sync_interval == log.sync_interval,
        log.unsynced + 1 < log.sync_interval ==> log.appended(r).unsynced == log.unsynced + 1,
        log.unsynced + 1 == log.sync_interval ==> log.appended(r).unsynced == 0,
{
}

/// Reading from an offset gives the record there, then those behind it; what does not read
/// ends it.
pub proof fn records_are_read_one_by_one(b: Seq<u8>, off: int, r: RecordView, end: int, e: ErrorView)
    requires
        0 <= off < b.len(),
    ensures
        record_at(b, off) == Ok::<(RecordView, int), ErrorView>((r, end)) && end > off
            ==> records_from(b, off).len() == records_from(b, end).len() + 1 && records_from(
            b,
            off,
        )[0] == Ok::<(u64, RecordView), ErrorView>((off as u64, r)) && records_from(b, off).skip(1)
            == records_from(b, end),
        record_at(b, off) == Err::<(RecordView, int), ErrorView>(e) ==> records_from(b, off).len()
            == 1 && records_from(b, off)[0] == Err::<(u64, RecordView), ErrorView>(e),
        records_from(b, b.len() as int).len() == 0,
{
    if record_at(b, off) == Ok::<(RecordView, int), ErrorView>((r, end)) && end > off {
        assert(records_from(b, off).skip(1) =~= records_from(b, end));
    }
}

/// The next id is behind the largest one: of the file beside the log, if it belongs to the
/// log, else of the log itself.
pub proof fn next_id_follows_the_largest(b: Seq<u8>, max: u64)
    requires
        b.len() <= u64::MAX,
    ensures
        max < u64::MAX ==> next_id_of(b, Some(meta_bytes(max, b.len() as u64))) == max + 1,
        scan_max_id(b, 0, 0) < u64::MAX ==> next_id_of(b, None) == scan_max_id(b, 0, 0) + 1,
{
    meta_round_trip(max, b.len() as u64, b.len() as u64);
}

/// Rebuilding an index adds every record of the log, in order.
pub proof fn every_record_is_added(items: Seq<Result<(u64, RecordView), ErrorView>>, i: int)
    requires
        0 <= i < items.len(),
        items[i] is Ok,
    ensures
        added_of(items).len() == items.len(),
        ({
            let (offset, r) = items[i]->Ok_0;
            let a = added_of(items)[i];
            &&& a.id == r.id
            &&& a.caused_by == r.caused_by
            &&& a.linked_to == r.linked_to
            &&& a.place matches Some(p) && p.branch == r.branch && p.sequence == r.sequence
                && p.offset == offset && p.record_type == r.record_type
        }),
{
}

} // verus!
