//! State index (`state.bin`): per-state chain head metadata.
use crate::bytes::{has_magic, put_slice, window};
use crate::error::{end_of_file, invalid_format, unexpected_eof, ErrorView, StoreError};
use crate::format::envelope::{seal, sealed, sealed_round_trip, unseal, unsealed};
use crate::text::{decimal, decimal_string, joined};
use vstd::prelude::*;
use vstd::string::*;

verus! {

/// Magic bytes at offset 0. ASCII "STI\0".
pub const MAGIC: [u8; 4] = [0x53, 0x54, 0x49, 0x00];

/// Current state index version: a CRC32 over the encoded index stands at the end.
pub const VERSION: u8 = 3;

/// Minimum readable version; it has no checksum.
pub const MIN_READABLE_VERSION: u8 = 2;

/// Maximum size of the encoded state index.
pub const MAX_SIZE: u64 = 64 * 1024 * 1024;

/// The bytes of the file that holds an encoded state index.
pub open spec fn state_file(body: Seq<u8>) -> Seq<u8> {
    MAGIC@ + seq![VERSION] + sealed(body)
}

/// The encoded state index that a file holds.
pub open spec fn state_body(b: Seq<u8>) -> Result<Seq<u8>, ErrorView> {
    if b.len() < 4 {
        Err(end_of_file())
    } else if window(b, 0, 4) != MAGIC@ {
        Err(ErrorView::InvalidFormat("Invalid state index magic"@))
    } else if b.len() < 5 {
        Err(end_of_file())
    } else if !(MIN_READABLE_VERSION <= b[4] <= VERSION) {
        Err(ErrorView::InvalidFormat("Unsupported state index version: "@ + decimal(b[4] as nat)))
    } else {
        unsealed(b, 5, MAX_SIZE, b[4] >= 3)
    }
}

/// Writes the file that holds an encoded state index.
pub fn write_state_file(body: &[u8]) -> (out: Vec<u8>)
    ensures
        out@ == state_file(body@),
{
    let mut out: Vec<u8> = Vec::new();
    let magic: [u8; 4] = MAGIC;
    put_slice(&mut out, magic.as_slice());
    out.push(VERSION);
    assert(out@ =~= MAGIC@ + seq![VERSION]);
    seal(&mut out, body);
    out
}

/// Reads the encoded state index that a file holds.
pub fn read_state_file(b: &[u8]) -> (r: Result<Vec<u8>, StoreError>)
    ensures
        match r {
            Ok(body) => state_body(b@) == Ok::<Seq<u8>, ErrorView>(body@),
            Err(e) => state_body(b@) == Err::<Seq<u8>, ErrorView>(e@),
        },
{
    if b.len() < 4 {
        return Err(unexpected_eof());
    }
    if !has_magic(b, 0, MAGIC) {
        return Err(invalid_format("Invalid state index magic"));
    }
    if b.len() < 5 {
        return Err(unexpected_eof());
    }
    let version: u8 = b[4];
    if version < MIN_READABLE_VERSION || version > VERSION {
        return Err(
            StoreError::InvalidFormat(
                joined(
                    "Unsupported state index version: ",
                    decimal_string(version as u64).as_str(),
                ),
            ),
        );
    }
    unseal(b, 5, MAX_SIZE, version >= 3)
}

/// An encoded state index within the limit is read back from its file.
pub proof fn state_file_round_trip(body: Seq<u8>)
    requires
        body.len() <= MAX_SIZE,
    ensures
        state_body(state_file(body)) == Ok::<Seq<u8>, ErrorView>(body),
{
    let head = MAGIC@ + seq![VERSION];
    let b = state_file(body);
    assert(b == head + sealed(body));
    assert(window(b, 0, 4) =~= MAGIC@);
    assert(b[4] == head[4]);
    sealed_round_trip(head, body, MAX_SIZE);
}

} // verus!
