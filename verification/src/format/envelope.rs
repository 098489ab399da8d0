//! An encoded index with its length and checksum, as `state.bin` and `branches.bin` end.
use crate::bytes::{get_bytes, get_u32, get_u64, le32, le64, lemma_le, lemma_piece, put_slice, put_u32, put_u64, u32_at, u64_at, window};
use crate::digest::{checksum, crc32};
use crate::error::{end_of_file, unexpected_eof, ErrorView, StoreError};
use vstd::prelude::*;

verus! {

/// An encoded index with its length in front and its checksum behind it.
pub open spec fn sealed(body: Seq<u8>) -> Seq<u8> {
    le64(body.len() as u64) + body + le32(crc32(body))
}

/// The encoded index at a position. Its length is held to a limit; older files have no
/// checksum.
pub open spec fn unsealed(b: Seq<u8>, pos: int, limit: u64, has_checksum: bool) -> Result<
    Seq<u8>,
    ErrorView,
> {
    let n = u64_at(b, pos);
    let body = window(b, pos + 8, n as int);
    if b.len() < pos + 8 {
        Err(end_of_file())
    } else if n > limit {
        Err(ErrorView::PayloadTooLarge { size: n, limit })
    } else if b.len() < pos + 8 + n {
        Err(end_of_file())
    } else if !has_checksum {
        Ok(body)
    } else if b.len() < pos + 12 + n {
        Err(end_of_file())
    } else if u32_at(b, pos + 8 + n) != crc32(body) {
        Err(ErrorView::ChecksumMismatch { expected: u32_at(b, pos + 8 + n), got: crc32(body) })
    } else {
        Ok(body)
    }
}

/// Appends an encoded index with its length and checksum.
pub fn seal(out: &mut Vec<u8>, body: &[u8])
    ensures
        final(out)@ == old(out)@ + sealed(body@),
{
    let ghost before = out@;
    put_u64(out, body.len() as u64);
    put_slice(out, body);
    put_u32(out, checksum(body));
    assert(out@ =~= before + sealed(body@));
}

/// Reads the encoded index at a position.
pub fn unseal(b: &[u8], pos: usize, limit: u64, has_checksum: bool) -> (r: Result<
    Vec<u8>,
    StoreError,
>)
    ensures
        match r {
            Ok(body) => unsealed(b@, pos as int, limit, has_checksum) == Ok::<Seq<u8>, ErrorView>(
                body@,
            ),
            Err(e) => unsealed(b@, pos as int, limit, has_checksum) == Err::<Seq<u8>, ErrorView>(
                e@,
            ),
        },
{
    let len: usize = b.len();
    if pos >= len || len - pos < 8 {
        return Err(unexpected_eof());
    }
    let size: u64 = get_u64(b, pos);
    if size > limit {
        return Err(StoreError::PayloadTooLarge { size, limit });
    }
    if ((len - pos - 8) as u64) < size {
        return Err(unexpected_eof());
    }
    let n: usize = size as usize;
    let body = get_bytes(b, pos + 8, n);
    if !has_checksum {
        return Ok(body);
    }
    if len - pos - 8 - n < 4 {
        return Err(unexpected_eof());
    }
    let stored: u32 = get_u32(b, pos + 8 + n);
    let computed: u32 = checksum(body.as_slice());
    if stored != computed {
        return Err(StoreError::ChecksumMismatch { expected: stored, got: computed });
    }
    Ok(body)
}

/// What was sealed is read back.
pub proof fn sealed_round_trip(before: Seq<u8>, body: Seq<u8>, limit: u64)
    requires
        body.len() <= limit,
    ensures
        unsealed(before + sealed(body), before.len() as int, limit, true) == Ok::<
            Seq<u8>,
            ErrorView,
        >(body),
        unsealed(before + sealed(body), before.len() as int, limit, false) == Ok::<
            Seq<u8>,
            ErrorView,
        >(body),
{
    let b = before + sealed(body);
    let n = body.len() as u64;
    lemma_le(0, crc32(body), n);
    let p1 = before + le64(n);
    let p2 = p1 + body;
    let p3 = p2 + le32(crc32(body));
    assert(p3 =~= b);
    assert(p3.is_prefix_of(b)) by {
        assert(p3 =~= b.subrange(0, p3.len() as int));
    }
    lemma_piece(b, p2, le32(crc32(body)));
    lemma_piece(b, p1, body);
    lemma_piece(b, before, le64(n));
}

/// An index whose bytes were changed to others with another checksum is refused.
pub proof fn changed_index_is_refused(before: Seq<u8>, body: Seq<u8>, other: Seq<u8>, limit: u64)
    requires
        body.len() == other.len() <= limit,
        crc32(body) != crc32(other),
    ensures
        unsealed(
            before + le64(body.len() as u64) + other + le32(crc32(body)),
            before.len() as int,
            limit,
            true,
        ) == Err::<Seq<u8>, ErrorView>(
            ErrorView::ChecksumMismatch { expected: crc32(body), got: crc32(other) },
        ),
{
    let n = body.len() as u64;
    let b = before + le64(n) + other + le32(crc32(body));
    lemma_le(0, crc32(body), n);
    let p1 = before + le64(n);
    let p2 = p1 + other;
    assert(b.is_prefix_of(b)) by {
        assert(b =~= b.subrange(0, b.len() as int));
    }
    lemma_piece(b, p2, le32(crc32(body)));
    lemma_piece(b, p1, other);
    lemma_piece(b, before, le64(n));
}

} // verus!
