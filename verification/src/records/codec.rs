//! The byte layout of one record.
use crate::bytes::{get_bytes, get_u16, get_u32, get_u64, has_magic, le16, le32, le64, lemma_le, lemma_piece, lemma_window_extends, put_slice, put_u16, put_u32, put_u64, u16_at, u32_at, u64_at, window};
use crate::digest::{checksum, crc32};
use crate::error::{end_of_file, invalid_format, unexpected_eof, ErrorView, StoreError};
use crate::format::record_log::{MAGIC, MAX_PAYLOAD_SIZE, VERSION};
use crate::text::{decimal, decimal_string, joined, lemma_text_round_trip, lossy_text, text_from_utf8_lossy};
use crate::types::{BranchId, PayloadEncoding, Record, RecordId, RecordView, Sequence, Timestamp};
use vstd::prelude::*;
use vstd::slice::*;
use vstd::string::*;
use vstd::utf8::encode_utf8;

verus! {

/// The byte that stands for an encoding.
pub open spec fn encoding_byte(e: PayloadEncoding) -> u8 {
    match e {
        PayloadEncoding::Json => 0,
        PayloadEncoding::MessagePack => 1,
        PayloadEncoding::Raw => 2,
    }
}

/// The encoding that a byte stands for; an unknown byte is raw data.
pub open spec fn encoding_of(b: u8) -> PayloadEncoding {
    if b == 0 {
        PayloadEncoding::Json
    } else if b == 1 {
        PayloadEncoding::MessagePack
    } else {
        PayloadEncoding::Raw
    }
}

/// Record ids, one after the other.
pub open spec fn id_bytes(ids: Seq<RecordId>) -> Seq<u8>
    decreases ids.len(),
{
    if ids.len() == 0 {
        Seq::empty()
    } else {
        id_bytes(ids.drop_last()) + le64(ids.last().0)
    }
}

/// The `n` record ids at `pos`.
pub open spec fn ids_at(b: Seq<u8>, pos: int, n: nat) -> Seq<RecordId> {
    Seq::new(n, |i: int| RecordId(u64_at(b, pos + 8 * i)))
}

/// The bytes that a record's checksum covers: all of its fields.
pub open spec fn covered(r: RecordView) -> Seq<u8> {
    le64(r.id.0) + le64(r.sequence.0) + le64(r.branch.0) + le64(r.timestamp.0 as u64) + encode_utf8(
        r.record_type,
    ) + seq![encoding_byte(r.encoding)] + r.payload + id_bytes(r.caused_by) + id_bytes(r.linked_to)
}

/// The fixed-size start of a record, up to its type.
pub open spec fn record_head(r: RecordView) -> Seq<u8> {
    MAGIC@ + seq![VERSION] + seq![0u8] + le64(r.id.0) + le64(r.sequence.0) + le64(r.branch.0)
        + le64(r.timestamp.0 as u64)
}

/// The bytes of a record. Lengths are cut to the width of their fields.
pub open spec fn record_bytes(r: RecordView) -> Seq<u8> {
    record_head(r) + le16(encode_utf8(r.record_type).len() as u16) + encode_utf8(r.record_type)
        + seq![encoding_byte(r.encoding)] + le32(r.payload.len() as u32) + r.payload + le16(
        r.caused_by.len() as u16,
    ) + id_bytes(r.caused_by) + le16(r.linked_to.len() as u16) + id_bytes(r.linked_to) + le32(
        crc32(covered(r)),
    )
}

/// Whether the lengths of a record fit the fields that hold them, and its payload
/// the limit that readers accept.
pub open spec fn fits(r: RecordView) -> bool {
    &&& encode_utf8(r.record_type).len() <= u16::MAX
    &&& r.payload.len() <= MAX_PAYLOAD_SIZE
    &&& r.caused_by.len() <= u16::MAX
    &&& r.linked_to.len() <= u16::MAX
}

/// Where the parts of a record at `off` lie, going by the length fields.
pub struct Layout {
    /// Where the encoding byte lies.
    pub type_end: int,
    /// Where the causes are counted.
    pub payload_end: int,
    /// Where the links are counted.
    pub caused_end: int,
    /// Where the checksum lies.
    pub linked_end: int,
}

/// The layout of the record at `off`.
pub open spec fn layout(b: Seq<u8>, off: int) -> Layout {
    let type_end = off + 40 + u16_at(b, off + 38);
    let payload_end = type_end + 5 + u32_at(b, type_end + 1);
    let caused_end = payload_end + 2 + 8 * u16_at(b, payload_end);
    let linked_end = caused_end + 2 + 8 * u16_at(b, caused_end);
    Layout { type_end, payload_end, caused_end, linked_end }
}

/// The bytes under the checksum of the record at `off`.
pub open spec fn covered_at(b: Seq<u8>, off: int) -> Seq<u8> {
    let l = layout(b, off);
    window(b, off + 6, 32) + window(b, off + 40, l.type_end - off - 40) + window(b, l.type_end, 1)
        + window(b, l.type_end + 5, l.payload_end - l.type_end - 5) + window(
        b,
        l.payload_end + 2,
        l.caused_end - l.payload_end - 2,
    ) + window(b, l.caused_end + 2, l.linked_end - l.caused_end - 2)
}

/// The fields of the record at `off`, whatever its checksum.
pub open spec fn fields_at(b: Seq<u8>, off: int) -> RecordView {
    let l = layout(b, off);
    RecordView {
        id: RecordId(u64_at(b, off + 6)),
        sequence: Sequence(u64_at(b, off + 14)),
        branch: BranchId(u64_at(b, off + 22)),
        timestamp: Timestamp(u64_at(b, off + 30) as i64),
        record_type: lossy_text(window(b, off + 40, l.type_end - off - 40)),
        payload: window(b, l.type_end + 5, l.payload_end - l.type_end - 5),
        encoding: encoding_of(b[l.type_end]),
        caused_by: ids_at(b, l.payload_end + 2, u16_at(b, l.payload_end) as nat),
        linked_to: ids_at(b, l.caused_end + 2, u16_at(b, l.caused_end) as nat),
    }
}

/// The error text for a record of another version.
pub open spec fn unsupported_version(v: u8) -> ErrorView {
    ErrorView::InvalidFormat("Unsupported log version: "@ + decimal(v as nat))
}

/// What reading a record at `off` gives: the record and the offset behind it, or the
/// first thing that is wrong with the bytes.
pub open spec fn record_at(b: Seq<u8>, off: int) -> Result<(RecordView, int), ErrorView> {
    let l = layout(b, off);
    if b.len() < off + 4 {
        Err(end_of_file())
    } else if window(b, off, 4) != MAGIC@ {
        Err(ErrorView::InvalidFormat("Invalid record magic"@))
    } else if b.len() < off + 5 {
        Err(end_of_file())
    } else if b[off + 4] != VERSION {
        Err(unsupported_version(b[off + 4]))
    } else if b.len() < off + 40 || b.len() < l.type_end + 5 {
        Err(end_of_file())
    } else if u32_at(b, l.type_end + 1) > MAX_PAYLOAD_SIZE {
        Err(
            ErrorView::PayloadTooLarge {
                size: u32_at(b, l.type_end + 1) as u64,
                limit: MAX_PAYLOAD_SIZE as u64,
            },
        )
    } else if b.len() < l.payload_end + 2 || b.len() < l.caused_end + 2 || b.len() < l.linked_end + 4 {
        Err(end_of_file())
    } else if u32_at(b, l.linked_end) != crc32(covered_at(b, off)) {
        Err(
            ErrorView::ChecksumMismatch {
                expected: u32_at(b, l.linked_end),
                got: crc32(covered_at(b, off)),
            },
        )
    } else {
        Ok((fields_at(b, off), l.linked_end + 4))
    }
}

fn put_ids(out: &mut Vec<u8>, ids: &Vec<RecordId>)
    ensures
        final(out)@ == old(out)@ + id_bytes(ids@),
{
    let ghost start = out@;
    let mut i: usize = 0;
    assert(ids@.take(0) =~= Seq::empty());
    assert(start + id_bytes(ids@.take(0)) =~= start);
    while i < ids.len()
        invariant
            i <= ids@.len(),
            out@ == start + id_bytes(ids@.take(i as int)),
        decreases ids@.len() - i,
    {
        put_u64(out, ids[i].0);
        proof {
            let t = ids@.take(i + 1);
            assert(t.drop_last() =~= ids@.take(i as int));
            assert(out@ =~= start + id_bytes(t));
        }
        i += 1;
    }
    assert(ids@.take(i as int) =~= ids@);
}

fn get_ids(b: &[u8], pos: usize, n: usize) -> (ids: Vec<RecordId>)
    requires
        pos + 8 * n <= b@.len(),
    ensures
        ids@ == ids_at(b@, pos as int, n as nat),
{
    let mut ids: Vec<RecordId> = Vec::new();
    let mut i: usize = 0;
    assert(b.len() == b@.len());
    while i < n
        invariant
            i <= n,
            pos + 8 * n <= b@.len() <= usize::MAX,
            ids@ == ids_at(b@, pos as int, i as nat),
        decreases n - i,
    {
        ids.push(RecordId(get_u64(b, pos + 8 * i)));
        assert(ids@ =~= ids_at(b@, pos as int, (i + 1) as nat));
        i += 1;
    }
    ids
}

/// The byte that stands for an encoding.
pub(crate) fn byte_of_encoding(e: PayloadEncoding) -> (b: u8)
    ensures
        b == encoding_byte(e),
{
    match e {
        PayloadEncoding::Json => 0,
        PayloadEncoding::MessagePack => 1,
        PayloadEncoding::Raw => 2,
    }
}

/// The encoding that a byte stands for.
pub(crate) fn encoding_of_byte(b: u8) -> (e: PayloadEncoding)
    ensures
        e == encoding_of(b),
{
    match b {
        0 => PayloadEncoding::Json,
        1 => PayloadEncoding::MessagePack,
        _ => PayloadEncoding::Raw,
    }
}

/// The checksum of a record's fields.
fn record_checksum(record: &Record) -> (c: u32)
    ensures
        c == crc32(covered(record@)),
{
    let mut out: Vec<u8> = Vec::new();
    put_u64(&mut out, record.id.0);
    put_u64(&mut out, record.sequence.0);
    put_u64(&mut out, record.branch.0);
    put_u64(&mut out, #[verifier::truncate] (record.timestamp.0 as u64));
    put_slice(&mut out, record.record_type.as_str().as_bytes());
    out.push(byte_of_encoding(record.encoding));
    put_slice(&mut out, record.payload.as_slice());
    put_ids(&mut out, &record.caused_by);
    put_ids(&mut out, &record.linked_to);
    assert(out@ =~= covered(record@));
    checksum(out.as_slice())
}

/// Appends the bytes of a record.
pub fn write_record(out: &mut Vec<u8>, record: &Record)
    ensures
        final(out)@ == old(out)@ + record_bytes(record@),
{
    let ghost start = out@;
    put_slice(out, MAGIC.as_slice());
    out.push(VERSION);
    out.push(0u8);
    put_u64(out, record.id.0);
    put_u64(out, record.sequence.0);
    put_u64(out, record.branch.0);
    put_u64(out, #[verifier::truncate] (record.timestamp.0 as u64));
    assert(out@ =~= start + record_head(record@));
    let type_bytes = record.record_type.as_str().as_bytes();
    put_u16(out, #[verifier::truncate] (type_bytes.len() as u16));
    put_slice(out, type_bytes);
    out.push(byte_of_encoding(record.encoding));
    put_u32(out, #[verifier::truncate] (record.payload.len() as u32));
    put_slice(out, record.payload.as_slice());
    put_u16(out, #[verifier::truncate] (record.caused_by.len() as u16));
    put_ids(out, &record.caused_by);
    put_u16(out, #[verifier::truncate] (record.linked_to.len() as u16));
    put_ids(out, &record.linked_to);
    put_u32(out, record_checksum(record));
    assert(out@ =~= start + record_bytes(record@));
}

/// The bytes under the checksum of the record at `off`.
fn covered_bytes(b: &[u8], off: usize, type_end: usize, payload_end: usize, caused_end: usize, linked_end: usize) -> (r: Vec<u8>)
    requires
        off + 40 <= type_end,
        type_end + 5 <= payload_end,
        payload_end + 2 <= caused_end,
        caused_end + 2 <= linked_end <= b@.len(),
        layout(b@, off as int) == (Layout {
            type_end: type_end as int,
            payload_end: payload_end as int,
            caused_end: caused_end as int,
            linked_end: linked_end as int,
        }),
    ensures
        r@ == covered_at(b@, off as int),
{
    assert(b.len() == b@.len());
    let mut out = get_bytes(b, off + 6, 32);
    put_slice(&mut out, slice_subrange(b, off + 40, type_end));
    out.push(b[type_end]);
    assert(window(b@, type_end as int, 1) =~= seq![b@[type_end as int]]);
    put_slice(&mut out, slice_subrange(b, type_end + 5, payload_end));
    put_slice(&mut out, slice_subrange(b, payload_end + 2, caused_end));
    put_slice(&mut out, slice_subrange(b, caused_end + 2, linked_end));
    assert(out@ =~= covered_at(b@, off as int));
    out
}

/// Reads the record at `off`: the record and the offset behind it.
pub fn read_record(b: &[u8], off: usize) -> (r: Result<(Record, usize), StoreError>)
    ensures
        match r {
            Ok((record, end)) => record_at(b@, off as int) == Ok::<(RecordView, int), ErrorView>(
                (record@, end as int),
            ) && off + 38 <= end <= b@.len(),
            Err(e) => record_at(b@, off as int) == Err::<(RecordView, int), ErrorView>(e@),
        },
{
    let len: usize = b.len();
    if off >= len || len - off < 4 {
        return Err(unexpected_eof());
    }
    if !has_magic(b, off, MAGIC) {
        return Err(invalid_format("Invalid record magic"));
    }
    if len - off < 5 {
        return Err(unexpected_eof());
    }
    let version: u8 = b[off + 4];
    if version != VERSION {
        return Err(
            StoreError::InvalidFormat(
                joined("Unsupported log version: ", decimal_string(version as u64).as_str()),
            ),
        );
    }
    if len - off < 40 {
        return Err(unexpected_eof());
    }
    let type_len: usize = get_u16(b, off + 38) as usize;
    if len - off - 40 < type_len || len - off - 40 - type_len < 5 {
        return Err(unexpected_eof());
    }
    let type_end: usize = off + 40 + type_len;
    let payload_len: u32 = get_u32(b, type_end + 1);
    if payload_len > MAX_PAYLOAD_SIZE {
        return Err(
            StoreError::PayloadTooLarge {
                size: payload_len as u64,
                limit: MAX_PAYLOAD_SIZE as u64,
            },
        );
    }
    if len - type_end - 5 < payload_len as usize || len - type_end - 5 - (payload_len as usize) < 2 {
        return Err(unexpected_eof());
    }
    let payload_end: usize = type_end + 5 + payload_len as usize;
    let caused_len: usize = get_u16(b, payload_end) as usize;
    if len - payload_end - 2 < 8 * caused_len || len - payload_end - 2 - 8 * caused_len < 2 {
        return Err(unexpected_eof());
    }
    let caused_end: usize = payload_end + 2 + 8 * caused_len;
    let linked_len: usize = get_u16(b, caused_end) as usize;
    if len - caused_end - 2 < 8 * linked_len || len - caused_end - 2 - 8 * linked_len < 4 {
        return Err(unexpected_eof());
    }
    let linked_end: usize = caused_end + 2 + 8 * linked_len;
    let stored: u32 = get_u32(b, linked_end);
    let computed: u32 = checksum(
        covered_bytes(b, off, type_end, payload_end, caused_end, linked_end).as_slice(),
    );
    if stored != computed {
        return Err(StoreError::ChecksumMismatch { expected: stored, got: computed });
    }
    let record = Record {
        id: RecordId(get_u64(b, off + 6)),
        sequence: Sequence(get_u64(b, off + 14)),
        branch: BranchId(get_u64(b, off + 22)),
        timestamp: Timestamp(#[verifier::truncate] (get_u64(b, off + 30) as i64)),
        record_type: text_from_utf8_lossy(slice_subrange(b, off + 40, type_end)),
        payload: get_bytes(b, type_end + 5, payload_len as usize),
        encoding: encoding_of_byte(b[type_end]),
        caused_by: get_ids(b, payload_end + 2, caused_len),
        linked_to: get_ids(b, caused_end + 2, linked_len),
    };
    assert(record@ == fields_at(b@, off as int));
    Ok((record, linked_end + 4))
}

proof fn lemma_id_bytes(ids: Seq<RecordId>, b: Seq<u8>, pos: int)
    requires
        0 <= pos,
        pos + id_bytes(ids).len() <= b.len(),
        window(b, pos, id_bytes(ids).len() as int) == id_bytes(ids),
    ensures
        id_bytes(ids).len() == 8 * ids.len(),
        ids_at(b, pos, ids.len()) == ids,
    decreases ids.len(),
{
    if ids.len() > 0 {
        let init = ids.drop_last();
        let w = id_bytes(ids);
        lemma_le(0, 0, ids.last().0);
        assert(w.len() == id_bytes(init).len() + 8);
        assert(window(b, pos, id_bytes(init).len() as int) =~= id_bytes(init)) by {
            assert forall|i: int| 0 <= i < id_bytes(init).len() implies window(
                b,
                pos,
                id_bytes(init).len() as int,
            )[i] == id_bytes(init)[i] by {
                assert(window(b, pos, w.len() as int)[i] == w[i]);
            }
        }
        lemma_id_bytes(init, b, pos);
        assert(window(b, pos + 8 * init.len(), 8) =~= le64(ids.last().0)) by {
            assert forall|i: int| 0 <= i < 8 implies window(b, pos + 8 * init.len(), 8)[i] == le64(
                ids.last().0,
            )[i] by {
                assert(window(b, pos, w.len() as int)[8 * init.len() + i] == w[8 * init.len() + i]);
            }
        }
        assert forall|i: int| 0 <= i < ids.len() implies ids_at(b, pos, ids.len())[i] == ids[i] by {
            if i < init.len() {
                assert(ids_at(b, pos, init.len())[i] == init[i]);
            }
        }
    }
    assert(ids_at(b, pos, ids.len()) =~= ids);
}

/// The parts of a written record, each at its place.
proof fn lemma_record_parts(before: Seq<u8>, r: RecordView, after: Seq<u8>)
    requires
        fits(r),
    ensures
        ({
            let b = before + record_bytes(r) + after;
            let off = before.len() as int;
            let t = encode_utf8(r.record_type);
            let e1 = off + 40 + t.len();
            let e2 = e1 + 5 + r.payload.len();
            let e3 = e2 + 2 + 8 * r.caused_by.len();
            let e4 = e3 + 2 + 8 * r.linked_to.len();
            &&& b.len() >= e4 + 4
            &&& record_bytes(r).len() == e4 + 4 - off
            &&& window(b, off, 4) == MAGIC@
            &&& window(b, off + 4, 1) == seq![VERSION]
            &&& window(b, off + 6, 8) == le64(r.id.0)
            &&& window(b, off + 14, 8) == le64(r.sequence.0)
            &&& window(b, off + 22, 8) == le64(r.branch.0)
            &&& window(b, off + 30, 8) == le64(r.timestamp.0 as u64)
            &&& window(b, off + 38, 2) == le16(t.len() as u16)
            &&& window(b, off + 40, t.len() as int) == t
            &&& window(b, e1, 1) == seq![encoding_byte(r.encoding)]
            &&& window(b, e1 + 1, 4) == le32(r.payload.len() as u32)
            &&& window(b, e1 + 5, r.payload.len() as int) == r.payload
            &&& window(b, e2, 2) == le16(r.caused_by.len() as u16)
            &&& window(b, e2 + 2, id_bytes(r.caused_by).len() as int) == id_bytes(r.caused_by)
            &&& id_bytes(r.caused_by).len() == 8 * r.caused_by.len()
            &&& window(b, e3, 2) == le16(r.linked_to.len() as u16)
            &&& window(b, e3 + 2, id_bytes(r.linked_to).len() as int) == id_bytes(r.linked_to)
            &&& id_bytes(r.linked_to).len() == 8 * r.linked_to.len()
            &&& window(b, e4, 4) == le32(crc32(covered(r)))
        }),
{
    let b = before + record_bytes(r) + after;
    let q0 = Seq::<u8>::empty();
    let q1 = MAGIC@;
    let q2 = q1 + seq![VERSION];
    let q3 = q2 + seq![0u8];
    let q4 = q3 + le64(r.id.0);
    let q5 = q4 + le64(r.sequence.0);
    let q6 = q5 + le64(r.branch.0);
    let q7 = q6 + le64(r.timestamp.0 as u64);
    let q8 = q7 + le16(encode_utf8(r.record_type).len() as u16);
    let q9 = q8 + encode_utf8(r.record_type);
    let q10 = q9 + seq![encoding_byte(r.encoding)];
    let q11 = q10 + le32(r.payload.len() as u32);
    let q12 = q11 + r.payload;
    let q13 = q12 + le16(r.caused_by.len() as u16);
    let q14 = q13 + id_bytes(r.caused_by);
    let q15 = q14 + le16(r.linked_to.len() as u16);
    let q16 = q15 + id_bytes(r.linked_to);
    let q17 = q16 + le32(crc32(covered(r)));
    assert(q17 == record_bytes(r));
    assert((before + q17).is_prefix_of(b)) by {
        assert(before + q17 =~= b.subrange(0, (before + q17).len() as int));
    }
    lemma_le(encode_utf8(r.record_type).len() as u16, r.payload.len() as u32, r.id.0);
    lemma_le(r.caused_by.len() as u16, crc32(covered(r)), r.sequence.0);
    lemma_le(r.linked_to.len() as u16, 0, r.branch.0);
    lemma_le(0, 0, r.timestamp.0 as u64);
    lemma_id_bytes_len(r.caused_by);
    lemma_id_bytes_len(r.linked_to);
    lemma_inner_piece(b, before, q16, le32(crc32(covered(r))));
    lemma_inner_piece(b, before, q15, id_bytes(r.linked_to));
    lemma_inner_piece(b, before, q14, le16(r.linked_to.len() as u16));
    lemma_inner_piece(b, before, q13, id_bytes(r.caused_by));
    lemma_inner_piece(b, before, q12, le16(r.caused_by.len() as u16));
    lemma_inner_piece(b, before, q11, r.payload);
    lemma_inner_piece(b, before, q10, le32(r.payload.len() as u32));
    lemma_inner_piece(b, before, q9, seq![encoding_byte(r.encoding)]);
    lemma_inner_piece(b, before, q8, encode_utf8(r.record_type));
    lemma_inner_piece(b, before, q7, le16(encode_utf8(r.record_type).len() as u16));
    lemma_inner_piece(b, before, q6, le64(r.timestamp.0 as u64));
    lemma_inner_piece(b, before, q5, le64(r.branch.0));
    lemma_inner_piece(b, before, q4, le64(r.sequence.0));
    lemma_inner_piece(b, before, q3, le64(r.id.0));
    lemma_inner_piece(b, before, q2, seq![0u8]);
    lemma_inner_piece(b, before, q1, seq![VERSION]);
    lemma_piece(b, before, MAGIC@);
}

proof fn lemma_id_bytes_len(ids: Seq<RecordId>)
    ensures
        id_bytes(ids).len() == 8 * ids.len(),
    decreases ids.len(),
{
    if ids.len() > 0 {
        lemma_id_bytes_len(ids.drop_last());
        lemma_le(0, 0, ids.last().0);
    }
}

proof fn lemma_inner_piece(b: Seq<u8>, before: Seq<u8>, q: Seq<u8>, p: Seq<u8>)
    requires
        (before + (q + p)).is_prefix_of(b),
    ensures
        (before + q).is_prefix_of(b),
        before.len() + q.len() + p.len() <= b.len(),
        window(b, (before.len() + q.len()) as int, p.len() as int) == p,
{
    assert(before + (q + p) =~= (before + q) + p);
    lemma_piece(b, before + q, p);
}

/// Reading back a record that was written gives the record, wherever in a log it
/// stands, and the offset behind it.
pub proof fn record_round_trip(before: Seq<u8>, r: RecordView, after: Seq<u8>)
    requires
        fits(r),
    ensures
        record_at(before + record_bytes(r) + after, before.len() as int) == Ok::<
            (RecordView, int),
            ErrorView,
        >((r, (before.len() + record_bytes(r).len()) as int)),
{
    let b = before + record_bytes(r) + after;
    let off = before.len() as int;
    let t = encode_utf8(r.record_type);
    let ts = r.timestamp.0 as u64;
    lemma_record_parts(before, r, after);
    lemma_le(t.len() as u16, r.payload.len() as u32, r.id.0);
    lemma_le(r.caused_by.len() as u16, crc32(covered(r)), r.sequence.0);
    lemma_le(r.linked_to.len() as u16, 0, r.branch.0);
    lemma_le(0, 0, ts);
    let l = layout(b, off);
    assert(l.type_end == off + 40 + t.len());
    assert(l.payload_end == l.type_end + 5 + r.payload.len());
    assert(l.caused_end == l.payload_end + 2 + 8 * r.caused_by.len());
    assert(l.linked_end == l.caused_end + 2 + 8 * r.linked_to.len());
    lemma_id_bytes(r.caused_by, b, l.payload_end + 2);
    lemma_id_bytes(r.linked_to, b, l.caused_end + 2);
    assert(window(b, off + 4, 1)[0] == VERSION);
    assert(window(b, l.type_end, 1)[0] == encoding_byte(r.encoding));
    let signed = r.timestamp.0;
    assert((signed as u64) as i64 == signed) by (bit_vector);
    lemma_text_round_trip(r.record_type);
    let w = window(b, off + 6, 32);
    assert(w.subrange(0, 8) =~= window(b, off + 6, 8));
    assert(w.subrange(8, 16) =~= window(b, off + 14, 8));
    assert(w.subrange(16, 24) =~= window(b, off + 22, 8));
    assert(w.subrange(24, 32) =~= window(b, off + 30, 8));
    assert(w =~= w.subrange(0, 8) + w.subrange(8, 16) + w.subrange(16, 24) + w.subrange(24, 32));
    assert(covered_at(b, off) == covered(r));
    assert(fields_at(b, off) == r);
}

/// Bytes added behind a record leave it as it reads.
pub proof fn record_survives_append(b: Seq<u8>, more: Seq<u8>, off: int)
    requires
        0 <= off,
        record_at(b, off) is Ok,
    ensures
        record_at(b + more, off) == record_at(b, off),
{
    let l = layout(b, off);
    let c = b + more;
    lemma_window_extends(b, more, off, 4);
    lemma_window_extends(b, more, off + 38, 2);
    lemma_window_extends(b, more, l.type_end + 1, 4);
    lemma_window_extends(b, more, l.payload_end, 2);
    lemma_window_extends(b, more, l.caused_end, 2);
    lemma_window_extends(b, more, l.linked_end, 4);
    assert(layout(c, off) == l);
    lemma_window_extends(b, more, off + 6, 32);
    lemma_window_extends(b, more, off + 40, l.type_end - off - 40);
    lemma_window_extends(b, more, l.type_end, 1);
    lemma_window_extends(b, more, l.type_end + 5, l.payload_end - l.type_end - 5);
    lemma_window_extends(b, more, l.payload_end + 2, l.caused_end - l.payload_end - 2);
    lemma_window_extends(b, more, l.caused_end + 2, l.linked_end - l.caused_end - 2);
    assert(covered_at(c, off) == covered_at(b, off));
    lemma_window_extends(b, more, off + 6, 8);
    lemma_window_extends(b, more, off + 14, 8);
    lemma_window_extends(b, more, off + 22, 8);
    lemma_window_extends(b, more, off + 30, 8);
    assert(ids_at(c, l.payload_end + 2, u16_at(b, l.payload_end) as nat) =~= ids_at(
        b,
        l.payload_end + 2,
        u16_at(b, l.payload_end) as nat,
    )) by {
        let n = u16_at(b, l.payload_end) as nat;
        assert forall|i: int| 0 <= i < n implies #[trigger] ids_at(c, l.payload_end + 2, n)[i]
            == ids_at(b, l.payload_end + 2, n)[i] by {
            lemma_window_extends(b, more, l.payload_end + 2 + 8 * i, 8);
        }
    }
    assert(ids_at(c, l.caused_end + 2, u16_at(b, l.caused_end) as nat) =~= ids_at(
        b,
        l.caused_end + 2,
        u16_at(b, l.caused_end) as nat,
    )) by {
        let n = u16_at(b, l.caused_end) as nat;
        assert forall|i: int| 0 <= i < n implies #[trigger] ids_at(c, l.caused_end + 2, n)[i]
            == ids_at(b, l.caused_end + 2, n)[i] by {
            lemma_window_extends(b, more, l.caused_end + 2 + 8 * i, 8);
        }
    }
    assert(fields_at(c, off) == fields_at(b, off));
}

} // verus!
