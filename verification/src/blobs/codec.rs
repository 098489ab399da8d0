//! The byte layout of a blob file.
use crate::bytes::{get_bytes, get_u16, get_u32, get_u64, has_magic, le16, le32, le64, lemma_le, lemma_piece, put_slice, put_u16, put_u32, put_u64, u16_at, u32_at, u64_at, window};
use crate::digest::{blake3_digest, checksum, crc32};
use crate::error::{end_of_file, invalid_format, unexpected_eof, ErrorView, StoreError};
use crate::format::blob::{MAGIC, MAX_SIZE, VERSION};
use crate::text::{decimal, decimal_string, joined, lemma_text_round_trip, lossy_text, text_from_utf8_lossy};
use crate::types::{Blob, BlobView};
use vstd::prelude::*;
use vstd::slice::*;
use vstd::string::*;
use vstd::utf8::encode_utf8;

verus! {

/// The bytes of the file of a blob.
pub open spec fn blob_bytes(content: Seq<u8>, content_type: Seq<char>) -> Seq<u8> {
    MAGIC@ + seq![VERSION] + le16(encode_utf8(content_type).len() as u16) + encode_utf8(
        content_type,
    ) + le64(content.len() as u64) + content + le32(crc32(content))
}

/// Whether the length fields of a blob file hold the lengths, and the content is within
/// the limit.
pub open spec fn blob_fits(content: Seq<u8>, content_type: Seq<char>) -> bool {
    encode_utf8(content_type).len() <= u16::MAX && content.len() <= MAX_SIZE
}

/// Where the content type ends.
pub open spec fn type_end(b: Seq<u8>) -> int {
    7 + u16_at(b, 5)
}

/// Where the content ends.
pub open spec fn content_end(b: Seq<u8>) -> int {
    type_end(b) + 8 + u64_at(b, type_end(b))
}

/// The content that a blob file holds.
pub open spec fn content_in(b: Seq<u8>) -> Seq<u8> {
    b.subrange(type_end(b) + 8, content_end(b))
}

/// What reading the file of the blob with the given hash gives.
pub open spec fn blob_in(b: Seq<u8>, hash: Seq<u8>) -> Result<BlobView, ErrorView> {
    if b.len() < 4 {
        Err(end_of_file())
    } else if window(b, 0, 4) != MAGIC@ {
        Err(ErrorView::InvalidFormat("Invalid blob magic"@))
    } else if b.len() < 5 {
        Err(end_of_file())
    } else if b[4] != VERSION {
        Err(ErrorView::InvalidFormat("Unsupported blob version: "@ + decimal(b[4] as nat)))
    } else if b.len() < 7 || b.len() < type_end(b) + 8 {
        Err(end_of_file())
    } else if u64_at(b, type_end(b)) > MAX_SIZE {
        Err(ErrorView::PayloadTooLarge { size: u64_at(b, type_end(b)), limit: MAX_SIZE })
    } else if b.len() < content_end(b) + 4 {
        Err(end_of_file())
    } else if u32_at(b, content_end(b)) != crc32(content_in(b)) {
        Err(
            ErrorView::ChecksumMismatch {
                expected: u32_at(b, content_end(b)),
                got: crc32(content_in(b)),
            },
        )
    } else if blake3_digest(content_in(b)) != hash {
        Err(ErrorView::HashMismatch { expected: hash, got: blake3_digest(content_in(b)) })
    } else {
        Ok(
            BlobView {
                hash,
                content: content_in(b),
                content_type: lossy_text(b.subrange(7, type_end(b))),
            },
        )
    }
}

/// Writes the file of a blob.
pub fn write_blob(content: &[u8], content_type: &str) -> (out: Vec<u8>)
    ensures
        out@ == blob_bytes(content@, content_type@),
{
    let mut out: Vec<u8> = Vec::new();
    let magic: [u8; 4] = MAGIC;
    put_slice(&mut out, magic.as_slice());
    out.push(VERSION);
    assert(out@ =~= MAGIC@ + seq![VERSION]);
    let type_bytes = content_type.as_bytes();
    put_u16(&mut out, #[verifier::truncate] (type_bytes.len() as u16));
    put_slice(&mut out, type_bytes);
    put_u64(&mut out, content.len() as u64);
    put_slice(&mut out, content);
    put_u32(&mut out, checksum(content));
    out
}

/// Reads the file of the blob with the given hash: its magic, version, length and checksum
/// are checked, and that the content has the hash.
pub fn read_blob(b: &[u8], hash: crate::types::Hash) -> (r: Result<Blob, StoreError>)
    ensures
        match r {
            Ok(blob) => blob_in(b@, hash.0@) == Ok::<BlobView, ErrorView>(blob@),
            Err(e) => blob_in(b@, hash.0@) == Err::<BlobView, ErrorView>(e@),
        },
{
    let len: usize = b.len();
    if len < 4 {
        return Err(unexpected_eof());
    }
    if !has_magic(b, 0, MAGIC) {
        return Err(invalid_format("Invalid blob magic"));
    }
    if len < 5 {
        return Err(unexpected_eof());
    }
    let version: u8 = b[4];
    if version != VERSION {
        return Err(
            StoreError::InvalidFormat(
                joined("Unsupported blob version: ", decimal_string(version as u64).as_str()),
            ),
        );
    }
    if len < 7 {
        return Err(unexpected_eof());
    }
    let type_len: usize = get_u16(b, 5) as usize;
    if len - 7 < type_len || len - 7 - type_len < 8 {
        return Err(unexpected_eof());
    }
    let type_stop: usize = 7 + type_len;
    let content_len: u64 = get_u64(b, type_stop);
    if content_len > MAX_SIZE {
        return Err(StoreError::PayloadTooLarge { size: content_len, limit: MAX_SIZE });
    }
    let n: usize = content_len as usize;
    if len - type_stop - 8 < n || len - type_stop - 8 - n < 4 {
        return Err(unexpected_eof());
    }
    let content = get_bytes(b, type_stop + 8, n);
    assert(content@ =~= content_in(b@));
    let stored: u32 = get_u32(b, type_stop + 8 + n);
    let computed: u32 = checksum(content.as_slice());
    if stored != computed {
        return Err(StoreError::ChecksumMismatch { expected: stored, got: computed });
    }
    let got = crate::types::Hash::from_bytes(content.as_slice());
    if !same_hash(&got, &hash) {
        return Err(StoreError::HashMismatch { expected: hash, got });
    }
    let content_type = text_from_utf8_lossy(slice_subrange(b, 7, type_stop));
    Ok(Blob { hash, content, content_type })
}

/// Whether two hashes are the same.
pub fn same_hash(a: &crate::types::Hash, b: &crate::types::Hash) -> (r: bool)
    ensures
        r == (a.0@ == b.0@),
{
    crate::bytes::same_bytes(a.0.as_slice(), b.0.as_slice())
}

/// Reading the file of a blob under the hash of its content gives the blob.
pub proof fn blob_round_trip(content: Seq<u8>, content_type: Seq<char>)
    requires
        blob_fits(content, content_type),
    ensures
        blob_in(blob_bytes(content, content_type), blake3_digest(content)) == Ok::<
            BlobView,
            ErrorView,
        >(BlobView { hash: blake3_digest(content), content, content_type }),
{
    let b = blob_bytes(content, content_type);
    let t = encode_utf8(content_type);
    let p1 = MAGIC@;
    let p2 = p1 + seq![VERSION];
    let p3 = p2 + le16(t.len() as u16);
    let p4 = p3 + t;
    let p5 = p4 + le64(content.len() as u64);
    let p6 = p5 + content;
    let p7 = p6 + le32(crc32(content));
    assert(p7 == b);
    assert(p7.is_prefix_of(b)) by {
        assert(p7 =~= b.subrange(0, p7.len() as int));
    }
    lemma_le(t.len() as u16, crc32(content), content.len() as u64);
    lemma_piece(b, p6, le32(crc32(content)));
    lemma_piece(b, p5, content);
    lemma_piece(b, p4, le64(content.len() as u64));
    lemma_piece(b, p3, t);
    lemma_piece(b, p2, le16(t.len() as u16));
    lemma_piece(b, p1, seq![VERSION]);
    assert(Seq::<u8>::empty() + MAGIC@ =~= MAGIC@);
    lemma_piece(b, Seq::<u8>::empty(), MAGIC@);
    assert(window(b, 4, 1)[0] == VERSION);
    assert(type_end(b) == 7 + t.len());
    assert(content_end(b) == type_end(b) + 8 + content.len());
    assert(content_in(b) =~= content);
    assert(b.subrange(7, type_end(b)) =~= t);
    lemma_text_round_trip(content_type);
}

/// A blob that is read has the hash it was asked for under.
pub proof fn blob_has_its_hash(b: Seq<u8>, hash: Seq<u8>)
    ensures
        blob_in(b, hash) matches Ok(blob) ==> blake3_digest(blob.content) == hash,
{
}

} // verus!
