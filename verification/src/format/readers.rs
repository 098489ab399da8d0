//! Laws of reading files: what reads has its magic bytes, a version that is known, sizes
//! within the limits, and the checksum that was written.
use crate::blobs::codec::blob_in;
use crate::digest::{blake3_digest, crc32};
use crate::error::ErrorView;
use crate::format::branch_index::branch_body;
use crate::format::manifest::manifest_error;
use crate::format::state_index::state_body;
use crate::records::codec::{covered_at, encoding_byte, encoding_of, record_at};
use crate::records::meta::meta_max_id;
use crate::types::{BlobView, PayloadEncoding, RecordView};
use crate::wal::frames::{frame_at, header_error};
use vstd::bytes::*;
use vstd::prelude::*;

verus! {

/// A record that reads has its magic bytes and version, a payload within the limit, and the
/// checksum of its fields right before its end; its numbers stand at their places.
pub proof fn readable_record_is_sound(b: Seq<u8>, off: int, r: RecordView, end: int)
    requires
        0 <= off,
        record_at(b, off) == Ok::<(RecordView, int), ErrorView>((r, end)),
    ensures
        off + 49 <= end <= b.len(),
        b.subrange(off, off + 4) == seq![0x52u8, 0x45u8, 0x43u8, 0u8],
        b[off + 4] == 2,
        r.payload.len() <= 256 * 1024 * 1024,
        spec_u32_from_le_bytes(b.subrange(end - 4, end)) == crc32(covered_at(b, off)),
        r.id.0 == spec_u64_from_le_bytes(b.subrange(off + 6, off + 14)),
        r.sequence.0 == spec_u64_from_le_bytes(b.subrange(off + 14, off + 22)),
        r.branch.0 == spec_u64_from_le_bytes(b.subrange(off + 22, off + 30)),
        end == off + 40 + spec_u16_from_le_bytes(b.subrange(off + 38, off + 40)) + 5
            + r.payload.len() + 2 + 8 * r.caused_by.len() + 2 + 8 * r.linked_to.len() + 4,
{
    assert(b.subrange(off, off + 4) =~= seq![0x52u8, 0x45u8, 0x43u8, 0u8]);
}

/// A record whose checksum does not fit its fields is refused for that.
pub proof fn damaged_record_is_refused(b: Seq<u8>, off: int, r: RecordView, end: int, c: Seq<u8>)
    requires
        0 <= off,
        record_at(b, off) == Ok::<(RecordView, int), ErrorView>((r, end)),
        c.len() == b.len(),
        forall|i: int| off <= i < end - 4 ==> #[trigger] c[i] == b[i],
        spec_u32_from_le_bytes(c.subrange(end - 4, end)) != spec_u32_from_le_bytes(
            b.subrange(end - 4, end),
        ),
    ensures
        record_at(c, off) == Err::<(RecordView, int), ErrorView>(
            ErrorView::ChecksumMismatch {
                expected: spec_u32_from_le_bytes(c.subrange(end - 4, end)),
                got: spec_u32_from_le_bytes(b.subrange(end - 4, end)),
            },
        ),
{
    let l = crate::records::codec::layout(b, off);
    assert(c.subrange(off, off + 4) =~= b.subrange(off, off + 4));
    assert(c.subrange(off + 38, off + 40) =~= b.subrange(off + 38, off + 40));
    assert(c[off + 4] == b[off + 4]);
    assert(c.subrange(l.type_end + 1, l.type_end + 5) =~= b.subrange(l.type_end + 1, l.type_end + 5));
    assert(c.subrange(l.payload_end, l.payload_end + 2) =~= b.subrange(
        l.payload_end,
        l.payload_end + 2,
    ));
    assert(c.subrange(l.caused_end, l.caused_end + 2) =~= b.subrange(
        l.caused_end,
        l.caused_end + 2,
    ));
    assert(crate::records::codec::layout(c, off) == l);
    assert(c.subrange(off + 6, off + 38) =~= b.subrange(off + 6, off + 38));
    assert(c.subrange(off + 40, l.type_end) =~= b.subrange(off + 40, l.type_end));
    assert(c.subrange(l.type_end, l.type_end + 1) =~= b.subrange(l.type_end, l.type_end + 1));
    assert(c.subrange(l.type_end + 5, l.payload_end) =~= b.subrange(l.type_end + 5, l.payload_end));
    assert(c.subrange(l.payload_end + 2, l.caused_end) =~= b.subrange(
        l.payload_end + 2,
        l.caused_end,
    ));
    assert(c.subrange(l.caused_end + 2, l.linked_end) =~= b.subrange(
        l.caused_end + 2,
        l.linked_end,
    ));
    assert(covered_at(c, off) =~= covered_at(b, off));
}

/// A blob that reads has its magic bytes and version, a content within the limit with the
/// hash that was asked for, and its checksum behind it.
pub proof fn readable_blob_is_sound(b: Seq<u8>, hash: Seq<u8>, blob: BlobView)
    requires
        blob_in(b, hash) == Ok::<BlobView, ErrorView>(blob),
    ensures
        blob.hash == hash,
        blake3_digest(blob.content) == hash,
        blob.content.len() <= 1024 * 1024 * 1024,
        b.take(5) == seq![0x42u8, 0x4Cu8, 0x42u8, 0u8, 1u8],
        ({
            let p = 7 + spec_u16_from_le_bytes(b.subrange(5, 7));
            let end = p + 8 + blob.content.len();
            &&& end + 4 <= b.len()
            &&& b.subrange(p + 8, end) == blob.content
            &&& spec_u32_from_le_bytes(b.subrange(end, end + 4)) == crc32(blob.content)
        }),
{
    assert(b.subrange(0, 4) =~= seq![0x42u8, 0x4Cu8, 0x42u8, 0u8]);
    assert(b.take(5) =~= b.subrange(0, 4).push(b[4]));
    assert(b.take(5) =~= seq![0x42u8, 0x4Cu8, 0x42u8, 0u8, 1u8]);
}

/// An entry of the write-ahead log reads just if it is whole, within the limit, and has its
/// checksum behind it.
pub proof fn readable_entry_is_sound(b: Seq<u8>, pos: int)
    requires
        0 <= pos,
    ensures
        frame_at(b, pos) is Ok <==> {
            let n = spec_u32_from_le_bytes(b.subrange(pos, pos + 4));
            &&& pos + 8 + n <= b.len()
            &&& n <= 16 * 1024 * 1024
            &&& spec_u32_from_le_bytes(b.subrange(pos + 4 + n, pos + 8 + n)) == crc32(
                b.subrange(pos + 4, pos + 4 + n),
            )
        },
        frame_at(b, pos) matches Ok((body, end)) ==> {
            let n = spec_u32_from_le_bytes(b.subrange(pos, pos + 4));
            body == b.subrange(pos + 4, pos + 4 + n) && end == pos + 8 + n
        },
{
}

/// A manifest and a write-ahead log are accepted just with their magic bytes and version.
pub proof fn files_start_with_magic_and_version(b: Seq<u8>)
    ensures
        manifest_error(b) is None <==> b.len() >= 5 && b.take(5) == seq![
            0x52u8,
            0x53u8,
            0x54u8,
            0u8,
            2u8,
        ],
        header_error(b) is None <==> b.len() >= 5 && b.take(5) == seq![
            0x57u8,
            0x41u8,
            0x4Cu8,
            0u8,
            1u8,
        ],
{
    if b.len() >= 5 {
        let head = b.subrange(0, 4);
        assert(b.take(5) =~= head.push(b[4]));
        let store = seq![0x52u8, 0x53u8, 0x54u8, 0u8, 2u8];
        let wal = seq![0x57u8, 0x41u8, 0x4Cu8, 0u8, 1u8];
        assert(crate::format::manifest::MAGIC@ =~= store.take(4));
        assert(crate::format::wal::MAGIC@ =~= wal.take(4));
        assert(store =~= store.take(4).push(2u8));
        assert(wal =~= wal.take(4).push(1u8));
        if b.take(5) == store {
            assert(b.take(5)[4] == b[4]);
            assert(b.take(5).take(4) =~= head);
        }
        if b.take(5) == wal {
            assert(b.take(5)[4] == b[4]);
            assert(b.take(5).take(4) =~= head);
        }
    }
}

/// An index file that reads has its magic bytes, a version that is known, and a body within
/// the limit; files of the newest version also have its checksum.
pub proof fn readable_index_is_sound(b: Seq<u8>)
    ensures
        branch_body(b) matches Ok((current, body)) ==> {
            &&& b.take(4) == seq![0x42u8, 0x52u8, 0x49u8, 0u8]
            &&& 1 <= b[4] <= 2
            &&& current == spec_u64_from_le_bytes(b.subrange(5, 13))
            &&& body.len() <= 64 * 1024 * 1024
            &&& body == b.subrange(21, 21 + body.len() as int)
            &&& b[4] == 2 ==> spec_u32_from_le_bytes(
                b.subrange(21 + body.len() as int, 25 + body.len() as int),
            ) == crc32(body)
        },
        state_body(b) matches Ok(body) ==> {
            &&& b.take(4) == seq![0x53u8, 0x54u8, 0x49u8, 0u8]
            &&& 2 <= b[4] <= 3
            &&& body.len() <= 64 * 1024 * 1024
            &&& body == b.subrange(13, 13 + body.len() as int)
            &&& b[4] == 3 ==> spec_u32_from_le_bytes(
                b.subrange(13 + body.len() as int, 17 + body.len() as int),
            ) == crc32(body)
        },
{
    if b.len() >= 5 {
        assert(b.take(4) == b.subrange(0, 4));
        assert(crate::format::branch_index::MAGIC@ =~= seq![0x42u8, 0x52u8, 0x49u8, 0u8]);
        assert(crate::format::state_index::MAGIC@ =~= seq![0x53u8, 0x54u8, 0x49u8, 0u8]);
    }
}

/// The file beside the log is believed only if it is whole, unchanged, and of a log of the
/// same size.
pub proof fn readable_meta_is_sound(meta: Seq<u8>, log_size: u64, max: u64)
    requires
        meta_max_id(meta, log_size) == Some(max),
    ensures
        meta.len() == 25,
        meta.take(4) == seq![0x52u8, 0x4Du8, 0x54u8, 0u8],
        meta[4] == 1,
        max == spec_u64_from_le_bytes(meta.subrange(5, 13)),
        log_size == spec_u64_from_le_bytes(meta.subrange(13, 21)),
        spec_u32_from_le_bytes(meta.subrange(21, 25)) == crc32(meta.subrange(0, 21)),
{
    assert(meta.take(4) == meta.subrange(0, 4));
    assert(crate::format::records_meta::MAGIC@ =~= seq![0x52u8, 0x4Du8, 0x54u8, 0u8]);
}

/// The byte of an encoding reads back as the encoding; any other byte is raw data.
pub proof fn encodings_read_back(e: PayloadEncoding, b: u8)
    ensures
        encoding_of(encoding_byte(e)) == e,
        b > 1 ==> encoding_of(b) == PayloadEncoding::Raw,
{
}

} // verus!
