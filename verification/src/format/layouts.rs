//! Laws of the file formats: what stands where in a file.
use crate::blobs::codec::blob_bytes;
use crate::digest::crc32;
use crate::format::envelope::sealed;
use crate::format::manifest::manifest_bytes;
use crate::records::codec::{covered, encoding_byte, id_bytes, record_bytes, record_head};
use crate::records::meta::meta_bytes;
use crate::types::{PayloadEncoding, RecordId, RecordView};
use crate::wal::frames::{frame_bytes, header_bytes};
use vstd::bytes::*;
use vstd::prelude::*;
use vstd::utf8::encode_utf8;

verus! {

/// Ids stand one after the other, eight bytes each.
pub proof fn ids_take_eight_bytes_each(ids: Seq<RecordId>, i: int)
    ensures
        id_bytes(ids).len() == 8 * ids.len(),
        0 <= i < ids.len() ==> id_bytes(ids).subrange(8 * i, 8 * i + 8) == spec_u64_to_le_bytes(
            ids[i].0,
        ),
    decreases ids.len(),
{
    lemma_auto_spec_u64_to_from_le_bytes();
    if ids.len() > 0 {
        let init = ids.drop_last();
        ids_take_eight_bytes_each(init, i);
        let last = spec_u64_to_le_bytes(ids.last().0);
        assert(last.len() == 8);
        if 0 <= i < init.len() {
            assert(init[i] == ids[i]);
            assert(id_bytes(ids).subrange(8 * i, 8 * i + 8) =~= id_bytes(init).subrange(
                8 * i,
                8 * i + 8,
            ));
        } else if i == init.len() {
            assert(id_bytes(ids).subrange(8 * i, 8 * i + 8) =~= last);
        }
    }
}

/// A record starts with its magic bytes, its version and an empty flag byte, behind which
/// its numbers stand, then its type behind the type's length.
pub proof fn record_head_layout(r: RecordView)
    ensures
        ({
            let b = record_bytes(r);
            let t = encode_utf8(r.record_type);
            &&& b.take(6) == seq![0x52u8, 0x45u8, 0x43u8, 0u8, 2u8, 0u8]
            &&& b.subrange(6, 14) == spec_u64_to_le_bytes(r.id.0)
            &&& b.subrange(14, 22) == spec_u64_to_le_bytes(r.sequence.0)
            &&& b.subrange(22, 30) == spec_u64_to_le_bytes(r.branch.0)
            &&& b.subrange(30, 38) == spec_u64_to_le_bytes(r.timestamp.0 as u64)
            &&& b.subrange(38, 40) == spec_u16_to_le_bytes(t.len() as u16)
            &&& b.subrange(40, 40 + t.len() as int) == t
        }),
{
    lemma_auto_spec_u16_to_from_le_bytes();
    lemma_auto_spec_u32_to_from_le_bytes();
    lemma_auto_spec_u64_to_from_le_bytes();
    let b = record_bytes(r);
    let t = encode_utf8(r.record_type);
    let head = record_head(r);
    assert(head.len() == 38);
    assert(head.take(6) =~= seq![0x52u8, 0x45u8, 0x43u8, 0u8, 2u8, 0u8]);
    assert(head.subrange(6, 14) =~= spec_u64_to_le_bytes(r.id.0));
    assert(head.subrange(14, 22) =~= spec_u64_to_le_bytes(r.sequence.0));
    assert(head.subrange(22, 30) =~= spec_u64_to_le_bytes(r.branch.0));
    assert(head.subrange(30, 38) =~= spec_u64_to_le_bytes(r.timestamp.0 as u64));
    let rest = record_rest(r);
    lemma_record_split(r);
    assert(b.take(6) =~= head.take(6));
    assert(b.subrange(6, 14) =~= head.subrange(6, 14));
    assert(b.subrange(14, 22) =~= head.subrange(14, 22));
    assert(b.subrange(22, 30) =~= head.subrange(22, 30));
    assert(b.subrange(30, 38) =~= head.subrange(30, 38));
    assert(b.subrange(38, 40) =~= rest.take(2));
    assert(b.subrange(40, 40 + t.len() as int) =~= rest.subrange(2, 2 + t.len() as int));
}

/// What stands behind the numbers of a record.
spec fn record_rest(r: RecordView) -> Seq<u8> {
    spec_u16_to_le_bytes(encode_utf8(r.record_type).len() as u16) + (encode_utf8(r.record_type)
        + record_tail(r))
}

/// What stands behind the type of a record.
spec fn record_tail(r: RecordView) -> Seq<u8> {
    seq![encoding_byte(r.encoding)] + (spec_u32_to_le_bytes(r.payload.len() as u32) + (r.payload + (
    spec_u16_to_le_bytes(r.caused_by.len() as u16) + (id_bytes(r.caused_by) + (
    spec_u16_to_le_bytes(r.linked_to.len() as u16) + (id_bytes(r.linked_to)
        + spec_u32_to_le_bytes(crc32(covered(r)))))))))
}

proof fn lemma_record_split(r: RecordView)
    ensures
        record_bytes(r) == record_head(r) + record_rest(r),
        record_head(r).len() == 38,
        record_rest(r).take(2) == spec_u16_to_le_bytes(encode_utf8(r.record_type).len() as u16),
        record_rest(r).subrange(2, 2 + encode_utf8(r.record_type).len() as int) == encode_utf8(
            r.record_type,
        ),
        record_rest(r).skip(2 + encode_utf8(r.record_type).len() as int) == record_tail(r),
        record_rest(r).len() == 2 + encode_utf8(r.record_type).len() + record_tail(r).len(),
{
    lemma_auto_spec_u16_to_from_le_bytes();
    lemma_auto_spec_u32_to_from_le_bytes();
    lemma_auto_spec_u64_to_from_le_bytes();
    assert(record_bytes(r) =~= record_head(r) + record_rest(r));
    assert(record_rest(r).take(2) =~= spec_u16_to_le_bytes(
        encode_utf8(r.record_type).len() as u16,
    ));
    assert(record_rest(r).subrange(2, 2 + encode_utf8(r.record_type).len() as int) =~= encode_utf8(
        r.record_type,
    ));
    assert(record_rest(r).skip(2 + encode_utf8(r.record_type).len() as int) =~= record_tail(r));
}

/// Behind its type a record holds the encoding, then its payload and links, each behind its
/// length; a checksum over its numbers, type, encoding, payload and links comes last.
pub proof fn record_tail_layout(r: RecordView)
    ensures
        ({
            let t = encode_utf8(r.record_type);
            let b = record_bytes(r).skip(40 + t.len() as int);
            let c = 5 + r.payload.len() as int;
            let l = c + 2 + 8 * r.caused_by.len();
            let end = l + 2 + 8 * r.linked_to.len();
            &&& b.len() == end + 4
            &&& b[0] == (match r.encoding {
                PayloadEncoding::Json => 0u8,
                PayloadEncoding::MessagePack => 1u8,
                PayloadEncoding::Raw => 2u8,
            })
            &&& b.subrange(1, 5) == spec_u32_to_le_bytes(r.payload.len() as u32)
            &&& b.subrange(5, c) == r.payload
            &&& b.subrange(c, c + 2) == spec_u16_to_le_bytes(r.caused_by.len() as u16)
            &&& b.subrange(c + 2, l) == id_bytes(r.caused_by)
            &&& b.subrange(l, l + 2) == spec_u16_to_le_bytes(r.linked_to.len() as u16)
            &&& b.subrange(l + 2, end) == id_bytes(r.linked_to)
            &&& b.subrange(end, end + 4) == spec_u32_to_le_bytes(
                crc32(
                    spec_u64_to_le_bytes(r.id.0) + spec_u64_to_le_bytes(r.sequence.0)
                        + spec_u64_to_le_bytes(r.branch.0) + spec_u64_to_le_bytes(
                        r.timestamp.0 as u64,
                    ) + t + b.take(1) + r.payload + id_bytes(r.caused_by) + id_bytes(r.linked_to),
                ),
            )
        }),
{
    lemma_auto_spec_u16_to_from_le_bytes();
    lemma_auto_spec_u32_to_from_le_bytes();
    lemma_auto_spec_u64_to_from_le_bytes();
    ids_take_eight_bytes_each(r.caused_by, 0);
    ids_take_eight_bytes_each(r.linked_to, 0);
    lemma_record_split(r);
    let t = encode_utf8(r.record_type);
    let b = record_tail(r);
    assert(record_bytes(r).skip(40 + t.len() as int) =~= record_rest(r).skip(2 + t.len() as int));
    let c = 5 + r.payload.len() as int;
    let l = c + 2 + 8 * r.caused_by.len();
    let end = l + 2 + 8 * r.linked_to.len();
    assert(b.len() == end + 4);
    assert(b.subrange(1, 5) =~= spec_u32_to_le_bytes(r.payload.len() as u32));
    assert(b.subrange(5, c) =~= r.payload);
    assert(b.subrange(c, c + 2) =~= spec_u16_to_le_bytes(r.caused_by.len() as u16));
    assert(b.subrange(c + 2, l) =~= id_bytes(r.caused_by));
    assert(b.subrange(l, l + 2) =~= spec_u16_to_le_bytes(r.linked_to.len() as u16));
    assert(b.subrange(l + 2, end) =~= id_bytes(r.linked_to));
    assert(b.take(1) =~= seq![encoding_byte(r.encoding)]);
    assert(b.subrange(end, end + 4) =~= spec_u32_to_le_bytes(crc32(covered(r))));
}

/// A blob stands in its file behind its content type, each with its length in front, and
/// with a checksum behind it.
pub proof fn blob_layout(content: Seq<u8>, content_type: Seq<char>)
    ensures
        ({
            let b = blob_bytes(content, content_type);
            let t = encode_utf8(content_type);
            let p = 7 + t.len() as int;
            let end = p + 8 + content.len();
            &&& b.len() == end + 4
            &&& b.take(5) == seq![0x42u8, 0x4Cu8, 0x42u8, 0u8, 1u8]
            &&& b.subrange(5, 7) == spec_u16_to_le_bytes(t.len() as u16)
            &&& b.subrange(7, p) == t
            &&& b.subrange(p, p + 8) == spec_u64_to_le_bytes(content.len() as u64)
            &&& b.subrange(p + 8, end) == content
            &&& b.subrange(end, end + 4) == spec_u32_to_le_bytes(crc32(content))
        }),
{
    lemma_auto_spec_u16_to_from_le_bytes();
    lemma_auto_spec_u32_to_from_le_bytes();
    lemma_auto_spec_u64_to_from_le_bytes();
    let b = blob_bytes(content, content_type);
    let t = encode_utf8(content_type);
    let p = 7 + t.len() as int;
    let end = p + 8 + content.len();
    assert(b.take(5) =~= seq![0x42u8, 0x4Cu8, 0x42u8, 0u8, 1u8]);
    assert(b.subrange(5, 7) =~= spec_u16_to_le_bytes(t.len() as u16));
    assert(b.subrange(7, p) =~= t);
    assert(b.subrange(p, p + 8) =~= spec_u64_to_le_bytes(content.len() as u64));
    assert(b.subrange(p + 8, end) =~= content);
    assert(b.subrange(end, end + 4) =~= spec_u32_to_le_bytes(crc32(content)));
}

/// The write-ahead log starts with its magic bytes and version; each entry has its length in
/// front and a checksum behind it. An index stands in its file likewise, with a longer
/// length.
pub proof fn framed_layouts(body: Seq<u8>)
    ensures
        header_bytes() == seq![0x57u8, 0x41u8, 0x4Cu8, 0u8, 1u8],
        manifest_bytes() == seq![0x52u8, 0x53u8, 0x54u8, 0u8, 2u8],
        ({
            let b = frame_bytes(body);
            let end = 4 + body.len() as int;
            &&& b.len() == end + 4
            &&& b.take(4) == spec_u32_to_le_bytes(body.len() as u32)
            &&& b.subrange(4, end) == body
            &&& b.subrange(end, end + 4) == spec_u32_to_le_bytes(crc32(body))
        }),
        ({
            let b = sealed(body);
            let end = 8 + body.len() as int;
            &&& b.len() == end + 4
            &&& b.take(8) == spec_u64_to_le_bytes(body.len() as u64)
            &&& b.subrange(8, end) == body
            &&& b.subrange(end, end + 4) == spec_u32_to_le_bytes(crc32(body))
        }),
{
    lemma_auto_spec_u32_to_from_le_bytes();
    lemma_auto_spec_u64_to_from_le_bytes();
    assert(header_bytes() =~= seq![0x57u8, 0x41u8, 0x4Cu8, 0u8, 1u8]);
    assert(manifest_bytes() =~= seq![0x52u8, 0x53u8, 0x54u8, 0u8, 2u8]);
    let b = frame_bytes(body);
    let end = 4 + body.len() as int;
    assert(b.take(4) =~= spec_u32_to_le_bytes(body.len() as u32));
    assert(b.subrange(4, end) =~= body);
    assert(b.subrange(end, end + 4) =~= spec_u32_to_le_bytes(crc32(body)));
    let c = sealed(body);
    let stop = 8 + body.len() as int;
    assert(c.take(8) =~= spec_u64_to_le_bytes(body.len() as u64));
    assert(c.subrange(8, stop) =~= body);
    assert(c.subrange(stop, stop + 4) =~= spec_u32_to_le_bytes(crc32(body)));
}

/// The file beside the log holds the last id and the size of the log, under a checksum.
pub proof fn meta_layout(max_id: u64, log_size: u64)
    ensures
        ({
            let b = meta_bytes(max_id, log_size);
            &&& b.len() == 25
            &&& b.take(5) == seq![0x52u8, 0x4Du8, 0x54u8, 0u8, 1u8]
            &&& b.subrange(5, 13) == spec_u64_to_le_bytes(max_id)
            &&& b.subrange(13, 21) == spec_u64_to_le_bytes(log_size)
            &&& b.subrange(21, 25) == spec_u32_to_le_bytes(crc32(b.take(21)))
        }),
{
    lemma_auto_spec_u32_to_from_le_bytes();
    lemma_auto_spec_u64_to_from_le_bytes();
    let b = meta_bytes(max_id, log_size);
    assert(b.take(5) =~= seq![0x52u8, 0x4Du8, 0x54u8, 0u8, 1u8]);
    assert(b.subrange(5, 13) =~= spec_u64_to_le_bytes(max_id));
    assert(b.subrange(13, 21) =~= spec_u64_to_le_bytes(log_size));
    assert(b.take(21) =~= crate::records::meta::meta_body(max_id, log_size));
    assert(b.subrange(21, 25) =~= spec_u32_to_le_bytes(
        crc32(crate::records::meta::meta_body(max_id, log_size)),
    ));
}

} // verus!
