//! The `records.meta` file.
use crate::bytes::{get_u32, get_u64, has_magic, le32, le64, lemma_le, lemma_piece, put_slice, put_u32, put_u64, u32_at, u64_at, window};
use crate::digest::{checksum, crc32};
use crate::format::records_meta::{MAGIC, VERSION};
use vstd::prelude::*;
use vstd::slice::*;

verus! {

/// The fields under the checksum.
pub open spec fn meta_body(max_id: u64, log_size: u64) -> Seq<u8> {
    MAGIC@ + seq![VERSION] + le64(max_id) + le64(log_size)
}

/// The file for a log of `log_size` bytes whose last record has id `max_id`.
pub open spec fn meta_bytes(max_id: u64, log_size: u64) -> Seq<u8> {
    meta_body(max_id, log_size) + le32(crc32(meta_body(max_id, log_size)))
}

/// The last record id that the file gives for a log of `log_size` bytes; nothing where
/// the file is damaged or belongs to a log of another size.
pub open spec fn meta_max_id(meta: Seq<u8>, log_size: u64) -> Option<u64> {
    if meta.len() == 25 && window(meta, 0, 4) == MAGIC@ && meta[4] == VERSION && u32_at(meta, 21)
        == crc32(window(meta, 0, 21)) && u64_at(meta, 13) == log_size {
        Some(u64_at(meta, 5))
    } else {
        None
    }
}

/// Builds the file.
pub fn encode_meta(max_id: u64, log_size: u64) -> (r: Vec<u8>)
    ensures
        r@ == meta_bytes(max_id, log_size),
{
    let mut out: Vec<u8> = Vec::new();
    put_slice(&mut out, MAGIC.as_slice());
    out.push(VERSION);
    put_u64(&mut out, max_id);
    put_u64(&mut out, log_size);
    assert(out@ =~= meta_body(max_id, log_size));
    let sum: u32 = checksum(out.as_slice());
    put_u32(&mut out, sum);
    out
}

/// Reads the file.
pub fn decode_meta(meta: &[u8], log_size: u64) -> (r: Option<u64>)
    ensures
        r == meta_max_id(meta@, log_size),
{
    if meta.len() != 25 || !has_magic(meta, 0, MAGIC) || meta[4] != VERSION {
        return None;
    }
    if get_u32(meta, 21) != checksum(slice_subrange(meta, 0, 21)) {
        return None;
    }
    if get_u64(meta, 13) != log_size {
        return None;
    }
    Some(get_u64(meta, 5))
}

/// The file reads back for the log it was written for, and only for a log of that size.
pub proof fn meta_round_trip(max_id: u64, log_size: u64, other_size: u64)
    ensures
        meta_bytes(max_id, log_size).len() == 25,
        meta_max_id(meta_bytes(max_id, log_size), log_size) == Some(max_id),
        other_size != log_size ==> meta_max_id(meta_bytes(max_id, log_size), other_size) is None,
{
    let b = meta_bytes(max_id, log_size);
    let body = meta_body(max_id, log_size);
    lemma_le(0, crc32(body), max_id);
    lemma_le(0, 0, log_size);
    assert(b =~= b.subrange(0, b.len() as int));
    lemma_piece(b, body, le32(crc32(body)));
    assert(window(b, 0, 21) =~= body);
    lemma_piece(b, MAGIC@ + seq![VERSION] + le64(max_id), le64(log_size));
    lemma_piece(b, MAGIC@ + seq![VERSION], le64(max_id));
    lemma_piece(b, MAGIC@, seq![VERSION]);
    assert(window(b, 4, 1)[0] == VERSION);
    assert(window(b, 0, 4) =~= MAGIC@);
}

} // verus!
