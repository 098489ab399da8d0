//! Branch index (`branches.bin`): branch metadata.
use crate::bytes::{get_u64, has_magic, le64, lemma_le, lemma_piece, put_slice, put_u64, u64_at, window};
use crate::error::{end_of_file, invalid_format, unexpected_eof, ErrorView, StoreError};
use crate::format::envelope::{seal, sealed, sealed_round_trip, unseal, unsealed};
use crate::text::{decimal, decimal_string, joined};
use vstd::prelude::*;
use vstd::string::*;

verus! {

/// Magic bytes at offset 0. ASCII "BRI\0".
pub const MAGIC: [u8; 4] = [0x42, 0x52, 0x49, 0x00];

/// Current branch index version: a CRC32 over the encoded index stands at the end.
pub const VERSION: u8 = 2;

/// Minimum readable version; it has no checksum.
pub const MIN_READABLE_VERSION: u8 = 1;

/// Maximum size of the encoded branch index.
pub const MAX_SIZE: u64 = 64 * 1024 * 1024;

/// The bytes of the file that holds the current branch and an encoded branch index.
pub open spec fn branch_file(current: u64, body: Seq<u8>) -> Seq<u8> {
    MAGIC@ + seq![VERSION] + le64(current) + sealed(body)
}

/// The current branch and the encoded branch index that a file holds.
pub open spec fn branch_body(b: Seq<u8>) -> Result<(u64, Seq<u8>), ErrorView> {
    if b.len() < 4 {
        Err(end_of_file())
    } else if window(b, 0, 4) != MAGIC@ {
        Err(ErrorView::InvalidFormat("Invalid branch index magic"@))
    } else if b.len() < 5 {
        Err(end_of_file())
    } else if !(MIN_READABLE_VERSION <= b[4] <= VERSION) {
        Err(
            ErrorView::InvalidFormat(
                "Unsupported branch index version: "@ + decimal(b[4] as nat)
                    + " (supported: 1..=2)"@,
            ),
        )
    } else if b.len() < 13 {
        Err(end_of_file())
    } else {
        match unsealed(b, 13, MAX_SIZE, b[4] >= 2) {
            Ok(body) => Ok((u64_at(b, 5), body)),
            Err(e) => Err(e),
        }
    }
}

/// Writes the file that holds the current branch and an encoded branch index.
pub fn write_branch_file(current: u64, body: &[u8]) -> (out: Vec<u8>)
    ensures
        out@ == branch_file(current, body@),
{
    let mut out: Vec<u8> = Vec::new();
    let magic: [u8; 4] = MAGIC;
    put_slice(&mut out, magic.as_slice());
    out.push(VERSION);
    assert(out@ =~= MAGIC@ + seq![VERSION]);
    put_u64(&mut out, current);
    seal(&mut out, body);
    out
}

/// Reads the current branch and the encoded branch index that a file holds.
pub fn read_branch_file(b: &[u8]) -> (r: Result<(u64, Vec<u8>), StoreError>)
    ensures
        match r {
            Ok((current, body)) => branch_body(b@) == Ok::<(u64, Seq<u8>), ErrorView>(
                (current, body@),
            ),
            Err(e) => branch_body(b@) == Err::<(u64, Seq<u8>), ErrorView>(e@),
        },
{
    if b.len() < 4 {
        return Err(unexpected_eof());
    }
    if !has_magic(b, 0, MAGIC) {
        return Err(invalid_format("Invalid branch index magic"));
    }
    if b.len() < 5 {
        return Err(unexpected_eof());
    }
    let version: u8 = b[4];
    if version < MIN_READABLE_VERSION || version > VERSION {
        let mut text = joined(
            "Unsupported branch index version: ",
            decimal_string(version as u64).as_str(),
        );
        text.append(" (supported: 1..=2)");
        return Err(StoreError::InvalidFormat(text));
    }
    if b.len() < 13 {
        return Err(unexpected_eof());
    }
    let current: u64 = get_u64(b, 5);
    match unseal(b, 13, MAX_SIZE, version >= 2) {
        Ok(body) => Ok((current, body)),
        Err(e) => Err(e),
    }
}

/// The current branch and an encoded branch index within the limit are read back.
pub proof fn branch_file_round_trip(current: u64, body: Seq<u8>)
    requires
        body.len() <= MAX_SIZE,
    ensures
        branch_body(branch_file(current, body)) == Ok::<(u64, Seq<u8>), ErrorView>(
            (current, body),
        ),
{
    let head = MAGIC@ + seq![VERSION] + le64(current);
    let b = branch_file(current, body);
    lemma_le(0, 0, current);
    assert(b == head + sealed(body));
    assert(window(b, 0, 4) =~= MAGIC@);
    assert(b[4] == head[4]);
    assert(head.is_prefix_of(b)) by {
        assert(head =~= b.subrange(0, head.len() as int));
    }
    lemma_piece(b, MAGIC@ + seq![VERSION], le64(current));
    sealed_round_trip(head, body, MAX_SIZE);
}

} // verus!
