//! Manifest file format: gates the store against incompatible readers.
use crate::bytes::{has_magic, put_slice, window};
use crate::error::{end_of_file, invalid_format, unexpected_eof, ErrorView, StoreError};
use crate::text::{decimal, decimal_string, joined};
use vstd::prelude::*;
use vstd::string::*;

verus! {

/// Magic bytes at offset 0. ASCII "RST\0".
pub const MAGIC: [u8; 4] = [0x52, 0x53, 0x54, 0x00];

/// Current version byte.
pub const VERSION: u8 = 2;

/// The bytes of the manifest.
pub open spec fn manifest_bytes() -> Seq<u8> {
    MAGIC@ + seq![VERSION]
}

/// Why a manifest is refused.
pub open spec fn manifest_error(b: Seq<u8>) -> Option<ErrorView> {
    if b.len() < 4 {
        Some(end_of_file())
    } else if window(b, 0, 4) != MAGIC@ {
        Some(ErrorView::InvalidFormat("Invalid store magic"@))
    } else if b.len() < 5 {
        Some(end_of_file())
    } else if b[4] != VERSION {
        Some(ErrorView::InvalidFormat("Unsupported store version: "@ + decimal(b[4] as nat)))
    } else {
        None
    }
}

/// Writes the manifest.
pub fn write_manifest() -> (out: Vec<u8>)
    ensures
        out@ == manifest_bytes(),
        manifest_error(out@) is None,
{
    let mut out: Vec<u8> = Vec::new();
    let magic: [u8; 4] = MAGIC;
    put_slice(&mut out, magic.as_slice());
    out.push(VERSION);
    assert(out@ =~= manifest_bytes());
    assert(window(out@, 0, 4) =~= MAGIC@);
    out
}

/// Checks a manifest.
pub fn verify_manifest(b: &[u8]) -> (r: Result<(), StoreError>)
    ensures
        match r {
            Ok(_) => manifest_error(b@) is None,
            Err(e) => manifest_error(b@) == Some(e@),
        },
{
    if b.len() < 4 {
        return Err(unexpected_eof());
    }
    if !has_magic(b, 0, MAGIC) {
        return Err(invalid_format("Invalid store magic"));
    }
    if b.len() < 5 {
        return Err(unexpected_eof());
    }
    if b[4] != VERSION {
        return Err(
            StoreError::InvalidFormat(
                joined("Unsupported store version: ", decimal_string(b[4] as u64).as_str()),
            ),
        );
    }
    Ok(())
}

} // verus!
