//! Checksums, content hashes and hexadecimal text.
use crate::types::FromHexError;
use vstd::prelude::*;
use vstd::string::*;
use vstd::utf8::*;

verus! {

/// The CRC-32 checksum (IEEE polynomial) of a byte sequence, as `crc32fast`
/// computes it.
pub uninterp spec fn crc32(data: Seq<u8>) -> u32;

/// The 32-byte BLAKE3 digest of a byte sequence, as `blake3` computes it.
pub uninterp spec fn blake3_digest(data: Seq<u8>) -> Seq<u8>;

/// Calls `crc32fast::hash`. The contract gives the checksum its name: it is a
/// function of the bytes alone.
#[verifier::external_body]
pub(crate) fn checksum(data: &[u8]) -> (c: u32)
    ensures
        c == crc32(data@),
{
    crc32fast::hash(data)
}

/// Calls `blake3::hash` and hands out the digest's 32 bytes. The contract gives
/// the digest its name: it is a function of the bytes alone.
#[verifier::external_body]
pub(crate) fn content_digest(data: &[u8]) -> (d: [u8; 32])
    ensures
        d@ == blake3_digest(data@),
{
    *blake3::hash(data).as_bytes()
}

/// The lower-case hexadecimal character of a value below 16.
pub open spec fn hex_char(d: nat) -> char {
    if d < 10 {
        (48 + d) as char
    } else {
        (87 + d) as char
    }
}

/// Two lower-case hexadecimal characters per byte, high half first.
pub open spec fn hex_text(data: Seq<u8>) -> Seq<char> {
    Seq::new(
        2 * data.len(),
        |i: int|
            hex_char(
                if i % 2 == 0 {
                    (data[i / 2] / 16) as nat
                } else {
                    (data[i / 2] % 16) as nat
                },
            ),
    )
}

/// Whether a byte is a hexadecimal digit in either case.
pub open spec fn is_hex_digit(c: u8) -> bool {
    48 <= c <= 57 || 65 <= c <= 70 || 97 <= c <= 102
}

/// The value of a hexadecimal digit.
pub open spec fn hex_value(c: u8) -> int {
    if c <= 57 {
        c - 48
    } else if c <= 70 {
        c - 55
    } else {
        c - 87
    }
}

/// What hexadecimal text, given as its UTF-8 bytes, decodes to: an odd length is
/// refused first, then the first byte that is no hexadecimal digit.
pub open spec fn hex_decoded(text: Seq<u8>, r: Result<Seq<u8>, FromHexError>) -> bool {
    match r {
        Ok(data) => {
            &&& text.len() == 2 * data.len()
            &&& forall|i: int| 0 <= i < text.len() ==> is_hex_digit(#[trigger] text[i])
            &&& forall|i: int|
                0 <= i < data.len() ==> #[trigger] data[i] == 16 * hex_value(text[2 * i])
                    + hex_value(text[2 * i + 1])
        },
        Err(FromHexError::OddLength) => text.len() % 2 == 1,
        Err(FromHexError::InvalidHexCharacter { c, index }) => {
            &&& text.len() % 2 == 0
            &&& index < text.len()
            &&& !is_hex_digit(text[index as int])
            &&& c == text[index as int] as char
            &&& forall|i: int| 0 <= i < index ==> is_hex_digit(#[trigger] text[i])
        },
        Err(FromHexError::InvalidStringLength) => false,
    }
}

/// Calls `hex::encode`, which writes each byte as two lower-case hexadecimal
/// digits.
#[verifier::external_body]
pub(crate) fn hex_encode(data: &[u8]) -> (s: String)
    ensures
        s@ == hex_text(data@),
{
    hex::encode(data)
}

/// Calls `hex::decode`, which reads two digits of either case per byte, and maps
/// its error to the library's own, variant for variant.
#[verifier::external_body]
pub(crate) fn hex_decode(s: &str) -> (r: Result<Vec<u8>, FromHexError>)
    ensures
        hex_decoded(
            s.spec_bytes(),
            match r {
                Ok(v) => Ok(v@),
                Err(e) => Err(e),
            },
        ),
{
    match hex::decode(s) {
        Ok(data) => Ok(data),
        Err(hex::FromHexError::OddLength) => Err(FromHexError::OddLength),
        Err(hex::FromHexError::InvalidHexCharacter { c, index }) => {
            Err(FromHexError::InvalidHexCharacter { c, index })
        },
        Err(hex::FromHexError::InvalidStringLength) => Err(FromHexError::InvalidStringLength),
    }
}

/// Hexadecimal text decodes to the bytes it was made from, and to nothing else.
pub proof fn hex_text_decodes(data: Seq<u8>, r: Result<Seq<u8>, FromHexError>)
    ensures
        hex_decoded(encode_utf8(hex_text(data)), r) <==> r == Ok::<Seq<u8>, FromHexError>(data),
{
    let text = hex_text(data);
    assert forall|i: int| 0 <= i < text.len() implies (#[trigger] text[i] as nat) < 128 by {}
    is_ascii_chars_encode_utf8(text);
    let bytes = encode_utf8(text);
    assert(bytes.len() == text.len());
    assert forall|i: int| 0 <= i < bytes.len() implies is_hex_digit(#[trigger] bytes[i]) by {
        assert(bytes[i] == text[i] as u8);
    }
    assert forall|i: int| 0 <= i < data.len() implies #[trigger] data[i] == 16 * hex_value(
        bytes[2 * i],
    ) + hex_value(bytes[2 * i + 1]) by {
        assert(bytes[2 * i] == text[2 * i] as u8);
        assert(bytes[2 * i + 1] == text[2 * i + 1] as u8);
        assert((2 * i) / 2 == i && (2 * i) % 2 == 0);
        assert((2 * i + 1) / 2 == i && (2 * i + 1) % 2 == 1);
        assert(data[i] == 16 * (data[i] / 16) + data[i] % 16);
    }
    if hex_decoded(bytes, r) {
        assert(r is Ok);
        let d = r->Ok_0;
        assert forall|i: int| 0 <= i < d.len() implies d[i] == data[i] by {}
        assert(d =~= data);
    }
}

/// Different bytes have different hexadecimal texts.
pub proof fn hex_text_tells_apart(a: Seq<u8>, b: Seq<u8>)
    requires
        a != b,
    ensures
        hex_text(a) != hex_text(b),
{
    hex_text_decodes(a, Ok(a));
    hex_text_decodes(b, Ok(a));
}

/// Hexadecimal text has two characters for each byte, that of the high half first: digits,
/// then small letters from a on.
pub proof fn hex_text_by_halves(data: Seq<u8>, i: int)
    requires
        0 <= i < data.len(),
    ensures
        hex_text(data).len() == 2 * data.len(),
        ({
            let high = hex_text(data)[2 * i];
            let low = hex_text(data)[2 * i + 1];
            &&& data[i] < 160 ==> high as int == '0' as int + data[i] / 16
            &&& data[i] >= 160 ==> high as int == 'a' as int + (data[i] / 16 - 10)
            &&& data[i] % 16 < 10 ==> low as int == '0' as int + data[i] % 16
            &&& data[i] % 16 >= 10 ==> low as int == 'a' as int + (data[i] % 16 - 10)
        }),
{
    assert((2 * i) / 2 == i && (2 * i) % 2 == 0);
    assert((2 * i + 1) / 2 == i && (2 * i + 1) % 2 == 1);
}

} // verus!
