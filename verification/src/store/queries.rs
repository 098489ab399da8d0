//! Laws of queries: which records a query gives, and in which order.
use crate::error::ErrorView;
use crate::records::codec::record_at;
use crate::records::index::{high_end, is_range, low_end, offset_at};
use crate::store::records::{collected, in_turn, is_first_from, queried, start_of};
use crate::store::StoreView;
use crate::types::{BranchId, RecordView, Sequence};
use vstd::prelude::*;

verus! {

/// Where the collected records stand among the hits.
proof fn lemma_collected_places(
    b: Seq<u8>,
    hits: Seq<(Sequence, u64)>,
    limit: nat,
    types: Option<Seq<Seq<char>>>,
    rs: Seq<RecordView>,
) -> (at: Seq<int>)
    requires
        collected(b, hits, limit, types) == Ok::<Seq<RecordView>, ErrorView>(rs),
    ensures
        rs.len() <= limit,
        at.len() == rs.len(),
        forall|i: int, j: int| 0 <= i < j < at.len() ==> #[trigger] at[i] < #[trigger] at[j],
        forall|i: int|
            0 <= i < at.len() ==> 0 <= (#[trigger] at[i]) < hits.len() && (record_at(
                b,
                hits[at[i]].1 as int,
            ) matches Ok((r, _)) && r == rs[i] && (types is None || types->0.contains(
                r.record_type,
            ))),
        forall|k: int|
            #![trigger hits[k]]
            0 <= k < hits.len() ==> at.contains(k) || (rs.len() == limit && forall|i: int|
                0 <= i < at.len() ==> (#[trigger] at[i]) < k) || (record_at(
                b,
                hits[k].1 as int,
            ) matches Ok((r, _)) && types is Some && !types->0.contains(r.record_type)),
    decreases hits.len(),
{
    if hits.len() == 0 {
        Seq::empty()
    } else {
        let init = hits.drop_last();
        let got = collected(b, init, limit, types)->Ok_0;
        let before = lemma_collected_places(b, init, limit, types, got);
        let n = hits.len() - 1;
        assert(hits[n] == hits.last());
        assert(forall|k: int| 0 <= k < n ==> #[trigger] init[k] == hits[k]);
        if got.len() >= limit {
            assert forall|k: int| #![trigger hits[k]] 0 <= k < hits.len() implies before.contains(k)
                || (rs.len() == limit && forall|i: int|
                0 <= i < before.len() ==> (#[trigger] before[i]) < k) || (record_at(
                b,
                hits[k].1 as int,
            ) matches Ok((r, _)) && types is Some && !types->0.contains(r.record_type)) by {
                if k < n {
                    assert(init[k] == hits[k]);
                }
            }
            before
        } else {
            let r = record_at(b, hits.last().1 as int)->Ok_0.0;
            let at = if rs.len() > got.len() {
                before.push(n)
            } else {
                before
            };
            assert forall|k: int| #![trigger hits[k]] 0 <= k < hits.len() implies at.contains(k) || (
            rs.len() == limit && forall|i: int| 0 <= i < at.len() ==> (#[trigger] at[i]) < k) || (
            record_at(b, hits[k].1 as int) matches Ok((r, _)) && types is Some
                && !types->0.contains(r.record_type)) by {
                if k < n {
                    assert(init[k] == hits[k]);
                    if before.contains(k) {
                        let i = choose|i: int| 0 <= i < before.len() && before[i] == k;
                        assert(at[i] == k);
                    }
                } else if rs.len() > got.len() {
                    assert(at[before.len() as int] == k);
                }
            }
            assert forall|i: int| 0 <= i < at.len() implies 0 <= (#[trigger] at[i]) < hits.len() && (
            record_at(b, hits[at[i]].1 as int) matches Ok((r, _)) && r == rs[i] && (types is None
                || types->0.contains(r.record_type))) by {
                if i < before.len() {
                    assert(at[i] == before[i]);
                    assert(init[before[i]] == hits[before[i]]);
                }
            }
            at
        }
    }
}

/// What stands among the hits in the order of a query.
proof fn lemma_turn(
    s: StoreView,
    branch: BranchId,
    lo: Sequence,
    hi: Sequence,
    hits: Seq<(Sequence, u64)>,
    reverse: bool,
)
    requires
        is_range(s.added, branch, lo, hi, hits),
    ensures
        ({
            let turn = in_turn(hits, reverse);
            &&& forall|i: int, j: int|
                0 <= i < j < turn.len() ==> if reverse {
                    (#[trigger] turn[i]).0.0 > (#[trigger] turn[j]).0.0
                } else {
                    turn[i].0.0 < turn[j].0.0
                }
            &&& forall|i: int|
                0 <= i < turn.len() ==> lo.0 <= (#[trigger] turn[i]).0.0 <= hi.0 && offset_at(
                    s.added,
                    branch,
                    turn[i].0,
                ) == Some(turn[i].1)
            &&& forall|q: Sequence|
                lo.0 <= q.0 <= hi.0 && #[trigger] offset_at(s.added, branch, q) is Some ==> exists|
                    k: int,
                |
                    0 <= k < turn.len() && (#[trigger] turn[k]).0 == q
        }),
{
    let turn = in_turn(hits, reverse);
    assert forall|i: int, j: int| 0 <= i < j < turn.len() implies if reverse {
        (#[trigger] turn[i]).0.0 > (#[trigger] turn[j]).0.0
    } else {
        turn[i].0.0 < turn[j].0.0
    } by {
        if reverse {
            assert(hits[hits.len() - 1 - j].0.0 < hits[hits.len() - 1 - i].0.0);
        }
    }
    assert forall|i: int| 0 <= i < turn.len() implies lo.0 <= (#[trigger] turn[i]).0.0 <= hi.0
        && offset_at(s.added, branch, turn[i].0) == Some(turn[i].1) by {
        let k = if reverse {
            hits.len() - 1 - i
        } else {
            i
        };
        assert(turn[i] == hits[k]);
    }
    assert forall|q: Sequence|
        lo.0 <= q.0 <= hi.0 && #[trigger] offset_at(s.added, branch, q) is Some implies exists|
        k: int,
    |
        0 <= k < turn.len() && (#[trigger] turn[k]).0 == q by {
        let j = choose|j: int| 0 <= j < hits.len() && (#[trigger] hits[j]).0 == q;
        let k = if reverse {
            hits.len() - 1 - j
        } else {
            j
        };
        assert(turn[k] == hits[j]);
    }
}

/// A query that does not reach its limit gives just the records of the branch that lie
/// within its bounds and are of one of its types, whichever place the type has in the list.
pub proof fn query_gives_what_lies_within(
    s: StoreView,
    branch: BranchId,
    from: Option<Sequence>,
    to: Option<Sequence>,
    limit: nat,
    reverse: bool,
    types: Option<Seq<Seq<char>>>,
    rs: Seq<RecordView>,
    q: Sequence,
)
    requires
        queried(s, branch, (low_end(from), high_end(to)), limit, reverse, types, Ok(rs)),
        rs.len() < limit,
        from matches Some(f) ==> f.0 <= q.0,
        to matches Some(t) ==> q.0 <= t.0,
        offset_at(s.added, branch, q) is Some,
    ensures
        record_at(s.log.bytes, offset_at(s.added, branch, q)->0 as int) matches Ok((r, _)) && (
        rs.contains(r) <==> (types is None || types->0.contains(r.record_type))),
{
    reveal(queried);
    let hits = choose|hits: Seq<(Sequence, u64)>| #[trigger]
        is_range(s.added, branch, low_end(from), high_end(to), hits) && collected(
            s.log.bytes,
            in_turn(hits, reverse),
            limit,
            types,
        ) == Ok::<Seq<RecordView>, ErrorView>(rs);
    let turn = in_turn(hits, reverse);
    let at = lemma_collected_places(s.log.bytes, turn, limit, types, rs);
    lemma_turn(s, branch, low_end(from), high_end(to), hits, reverse);
    let k = choose|k: int| 0 <= k < turn.len() && (#[trigger] turn[k]).0 == q;
    if at.contains(k) {
        let i = choose|i: int| 0 <= i < at.len() && at[i] == k;
        assert(rs[i] == record_at(s.log.bytes, turn[at[i]].1 as int)->Ok_0.0);
        assert(rs.contains(rs[i]));
    } else {
        let r = record_at(s.log.bytes, turn[k].1 as int)->Ok_0.0;
        if rs.contains(r) {
            let i = choose|i: int| 0 <= i < rs.len() && rs[i] == r;
            assert(types->0.contains(
                record_at(s.log.bytes, turn[at[i]].1 as int)->Ok_0.0.record_type,
            ));
        }
    }
}

/// A query gives records of the branch within its bounds, of one of its types, by ascending
/// or by descending sequence, and no more than its limit says. Where one of its types is
/// missing, the limit is reached and it comes behind all those given.
pub proof fn query_gives_the_first_in_order(
    s: StoreView,
    branch: BranchId,
    from: Option<Sequence>,
    to: Option<Sequence>,
    limit: nat,
    reverse: bool,
    types: Option<Seq<Seq<char>>>,
    rs: Seq<RecordView>,
    q: Sequence,
) -> (qs: Seq<Sequence>)
    requires
        queried(s, branch, (low_end(from), high_end(to)), limit, reverse, types, Ok(rs)),
    ensures
        rs.len() <= limit,
        qs.len() == rs.len(),
        forall|i: int, j: int|
            0 <= i < j < qs.len() ==> if reverse {
                (#[trigger] qs[i]).0 > (#[trigger] qs[j]).0
            } else {
                qs[i].0 < qs[j].0
            },
        forall|i: int|
            0 <= i < qs.len() ==> (from matches Some(f) ==> f.0 <= (#[trigger] qs[i]).0) && (
            to matches Some(t) ==> qs[i].0 <= t.0) && (offset_at(
                s.added,
                branch,
                qs[i],
            ) matches Some(o) && (record_at(s.log.bytes, o as int) matches Ok((r, _)) && r == rs[i]
                && (types is None || types->0.contains(r.record_type)))),
        (from matches Some(f) ==> f.0 <= q.0) && (to matches Some(t) ==> q.0 <= t.0) && (offset_at(
            s.added,
            branch,
            q,
        ) matches Some(o) && (record_at(s.log.bytes, o as int) matches Ok((r, _)) && (types is None
            || types->0.contains(r.record_type)))) ==> qs.contains(q) || (rs.len() == limit
            && forall|i: int|
            0 <= i < qs.len() ==> if reverse {
                q.0 < (#[trigger] qs[i]).0
            } else {
                q.0 > qs[i].0
            }),
{
    reveal(queried);
    let hits = choose|hits: Seq<(Sequence, u64)>| #[trigger]
        is_range(s.added, branch, low_end(from), high_end(to), hits) && collected(
            s.log.bytes,
            in_turn(hits, reverse),
            limit,
            types,
        ) == Ok::<Seq<RecordView>, ErrorView>(rs);
    let turn = in_turn(hits, reverse);
    let at = lemma_collected_places(s.log.bytes, turn, limit, types, rs);
    lemma_turn(s, branch, low_end(from), high_end(to), hits, reverse);
    let qs = Seq::new(at.len(), |i: int| turn[at[i]].0);
    assert forall|i: int, j: int| 0 <= i < j < qs.len() implies if reverse {
        (#[trigger] qs[i]).0 > (#[trigger] qs[j]).0
    } else {
        qs[i].0 < qs[j].0
    } by {
        assert(at[i] < at[j]);
        assert(qs[i] == turn[at[i]].0 && qs[j] == turn[at[j]].0);
    }
    if (from matches Some(f) ==> f.0 <= q.0) && (to matches Some(t) ==> q.0 <= t.0) && offset_at(
        s.added,
        branch,
        q,
    ) is Some {
        let k = choose|k: int| 0 <= k < turn.len() && (#[trigger] turn[k]).0 == q;
        if at.contains(k) {
            let i = choose|i: int| 0 <= i < at.len() && at[i] == k;
            assert(qs[i] == q);
        } else if rs.len() == limit && forall|i: int|
            0 <= i < at.len() ==> (#[trigger] at[i]) < k {
            assert forall|i: int| 0 <= i < qs.len() implies if reverse {
                q.0 < (#[trigger] qs[i]).0
            } else {
                q.0 > qs[i].0
            } by {
                assert(at[i] < k);
                assert(qs[i] == turn[at[i]].0);
            }
        }
    }
    qs
}

proof fn lemma_collected_failure(
    b: Seq<u8>,
    hits: Seq<(Sequence, u64)>,
    limit: nat,
    types: Option<Seq<Seq<char>>>,
    e: ErrorView,
) -> (k: int)
    requires
        collected(b, hits, limit, types) == Err::<Seq<RecordView>, ErrorView>(e),
    ensures
        0 <= k < hits.len(),
        record_at(b, hits[k].1 as int) == Err::<(RecordView, int), ErrorView>(e),
    decreases hits.len(),
{
    let init = hits.drop_last();
    match collected(b, init, limit, types) {
        Err(_) => {
            let k = lemma_collected_failure(b, init, limit, types, e);
            assert(init[k] == hits[k]);
            k
        },
        Ok(_) => {
            assert(hits[hits.len() - 1] == hits.last());
            hits.len() - 1
        },
    }
}

/// A query fails only with the error of a record within its bounds that does not read.
pub proof fn query_fails_with_a_record(
    s: StoreView,
    branch: BranchId,
    from: Option<Sequence>,
    to: Option<Sequence>,
    limit: nat,
    reverse: bool,
    types: Option<Seq<Seq<char>>>,
    e: ErrorView,
)
    requires
        queried(s, branch, (low_end(from), high_end(to)), limit, reverse, types, Err(e)),
    ensures
        exists|q: Sequence|
            (from matches Some(f) ==> f.0 <= q.0) && (to matches Some(t) ==> q.0 <= t.0) && (
            #[trigger] offset_at(s.added, branch, q) matches Some(o) && record_at(
                s.log.bytes,
                o as int,
            ) == Err::<(RecordView, int), ErrorView>(e)),
{
    reveal(queried);
    let hits = choose|hits: Seq<(Sequence, u64)>| #[trigger]
        is_range(s.added, branch, low_end(from), high_end(to), hits) && collected(
            s.log.bytes,
            in_turn(hits, reverse),
            limit,
            types,
        ) == Err::<Seq<RecordView>, ErrorView>(e);
    let turn = in_turn(hits, reverse);
    let i = lemma_collected_failure(s.log.bytes, turn, limit, types, e);
    let k = if reverse {
        hits.len() - 1 - i
    } else {
        i
    };
    assert(turn[i] == hits[k]);
    assert(offset_at(s.added, branch, hits[k].0) == Some(hits[k].1));
}

/// Reading from a sequence on starts at the record of the current branch with the least
/// sequence that is not before it, or at the end of the log if there is none.
pub proof fn reading_starts_at_the_first(s: StoreView, seq: Sequence, q: Sequence)
    requires
        s.branches.current_branch() is Some,
    ensures
        ({
            let b = s.branches.current_branch()->0.id;
            &&& seq.0 <= q.0 && offset_at(s.added, b, q) is Some && (forall|p: Sequence|
                seq.0 <= p.0 && #[trigger] offset_at(s.added, b, p) is Some ==> q.0 <= p.0)
                ==> start_of(s, seq) == offset_at(s.added, b, q)->0
            &&& (forall|p: Sequence|
                seq.0 <= p.0 ==> #[trigger] offset_at(s.added, b, p) is None) ==> start_of(s, seq)
                == s.log.bytes.len() as u64
        }),
{
    let b = s.branches.current_branch()->0.id;
    if seq.0 <= q.0 && offset_at(s.added, b, q) is Some && (forall|p: Sequence|
        seq.0 <= p.0 && #[trigger] offset_at(s.added, b, p) is Some ==> q.0 <= p.0) {
        assert(is_first_from(s.added, b, seq, q));
        let p = choose|p: Sequence| is_first_from(s.added, b, seq, p);
        assert(is_first_from(s.added, b, seq, p));
        if p.0 > q.0 {
            assert(offset_at(s.added, b, q) is None);
        }
        assert(p == q);
    }
    if forall|p: Sequence| seq.0 <= p.0 ==> #[trigger] offset_at(s.added, b, p) is None {
        assert forall|p: Sequence| !is_first_from(s.added, b, seq, p) by {
            if is_first_from(s.added, b, seq, p) {
                assert(offset_at(s.added, b, p) is Some);
            }
        }
    }
}

/// Without a current branch reading starts at the first record of all.
pub proof fn reading_starts_at_the_front(s: StoreView, seq: Sequence)
    requires
        s.branches.current_branch() is None,
    ensures
        start_of(s, seq) == 0,
{
}

} // verus!
