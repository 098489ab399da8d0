//! The framing of entries in the file of a write-ahead log.
use crate::bytes::{get_bytes, get_u32, has_magic, le32, lemma_le, lemma_piece, lemma_window_extends, put_slice, put_u32, u32_at, window};
use crate::digest::{checksum, crc32};
use crate::error::{end_of_file, invalid_format, unexpected_eof, ErrorView, StoreError};
use crate::format::wal::{MAGIC, MAX_ENTRY_SIZE, VERSION};
use crate::text::{decimal, decimal_string, joined};
use crate::types::views;
use vstd::prelude::*;
use vstd::string::*;

verus! {

/// The bytes at the start of the file.
pub open spec fn header_bytes() -> Seq<u8> {
    MAGIC@ + seq![VERSION]
}

/// Why a file is not one of a write-ahead log.
pub open spec fn header_error(b: Seq<u8>) -> Option<ErrorView> {
    if b.len() < 4 {
        Some(end_of_file())
    } else if window(b, 0, 4) != MAGIC@ {
        Some(ErrorView::InvalidFormat("Invalid WAL magic"@))
    } else if b.len() < 5 {
        Some(end_of_file())
    } else if b[4] != VERSION {
        Some(ErrorView::InvalidFormat("Unsupported WAL version: "@ + decimal(b[4] as nat)))
    } else {
        None
    }
}

/// The bytes of an entry: its length, the entry, its checksum.
pub open spec fn frame_bytes(body: Seq<u8>) -> Seq<u8> {
    le32(body.len() as u32) + body + le32(crc32(body))
}

/// The entry at a position, and where it ends.
pub open spec fn frame_at(b: Seq<u8>, pos: int) -> Result<(Seq<u8>, int), ErrorView> {
    let n = u32_at(b, pos) as int;
    if b.len() < pos + 4 {
        Err(end_of_file())
    } else if n > MAX_ENTRY_SIZE {
        Err(ErrorView::Corruption("WAL entry too large"@))
    } else if b.len() < pos + 8 + n {
        Err(end_of_file())
    } else if u32_at(b, pos + 4 + n) != crc32(window(b, pos + 4, n)) {
        Err(ErrorView::Corruption("WAL checksum mismatch"@))
    } else {
        Ok((window(b, pos + 4, n), pos + 8 + n))
    }
}

/// The entries from a position on, up to the first that does not read.
pub open spec fn frames_from(b: Seq<u8>, pos: int) -> Seq<Seq<u8>>
    decreases b.len() - pos,
{
    match frame_at(b, pos) {
        Ok((body, end)) if pos < end <= b.len() => seq![body] + frames_from(b, end),
        _ => Seq::empty(),
    }
}

/// Whether entries that read fill the rest of the file.
pub open spec fn frames_fill(b: Seq<u8>, pos: int) -> bool
    decreases b.len() - pos,
{
    pos == b.len() || match frame_at(b, pos) {
        Ok((body, end)) if pos < end <= b.len() => frames_fill(b, end),
        _ => false,
    }
}

/// The file of a log without entries.
pub fn write_header() -> (out: Vec<u8>)
    ensures
        out@ == header_bytes(),
{
    let mut out: Vec<u8> = Vec::new();
    let magic: [u8; 4] = MAGIC;
    put_slice(&mut out, magic.as_slice());
    out.push(VERSION);
    assert(out@ =~= header_bytes());
    out
}

/// Appends an encoded entry.
pub fn write_entry(out: &mut Vec<u8>, body: &[u8])
    ensures
        final(out)@ == old(out)@ + frame_bytes(body@),
{
    let ghost before = out@;
    put_u32(out, #[verifier::truncate] (body.len() as u32));
    put_slice(out, body);
    put_u32(out, checksum(body));
    assert(out@ =~= before + frame_bytes(body@));
}

/// Reads the entry at a position. Returns it with the position behind it.
pub fn read_entry(b: &[u8], pos: usize) -> (r: Result<(Vec<u8>, usize), StoreError>)
    ensures
        match r {
            Ok((body, end)) => frame_at(b@, pos as int) == Ok::<(Seq<u8>, int), ErrorView>(
                (body@, end as int),
            ) && pos < end <= b@.len(),
            Err(e) => frame_at(b@, pos as int) == Err::<(Seq<u8>, int), ErrorView>(e@),
        },
{
    let len: usize = b.len();
    if pos >= len || len - pos < 4 {
        return Err(unexpected_eof());
    }
    let size: u32 = get_u32(b, pos);
    if size > MAX_ENTRY_SIZE {
        return Err(StoreError::Corruption("WAL entry too large".to_owned()));
    }
    let n: usize = size as usize;
    if len - pos - 4 < n || len - pos - 4 - n < 4 {
        return Err(unexpected_eof());
    }
    let body = get_bytes(b, pos + 4, n);
    let stored: u32 = get_u32(b, pos + 4 + n);
    if stored != checksum(body.as_slice()) {
        return Err(StoreError::Corruption("WAL checksum mismatch".to_owned()));
    }
    Ok((body, pos + 8 + n))
}

/// Checks the start of the file.
pub fn check_header(b: &[u8]) -> (r: Result<(), StoreError>)
    ensures
        match r {
            Ok(_) => header_error(b@) is None && b@.len() >= 5,
            Err(e) => header_error(b@) == Some(e@),
        },
{
    if b.len() < 4 {
        return Err(unexpected_eof());
    }
    if !has_magic(b, 0, MAGIC) {
        return Err(invalid_format("Invalid WAL magic"));
    }
    if b.len() < 5 {
        return Err(unexpected_eof());
    }
    if b[4] != VERSION {
        return Err(
            StoreError::InvalidFormat(
                joined("Unsupported WAL version: ", decimal_string(b[4] as u64).as_str()),
            ),
        );
    }
    Ok(())
}

/// Reads the encoded entries of a file, up to the first that does not read.
pub fn read_entries(b: &[u8]) -> (r: Result<Vec<Vec<u8>>, StoreError>)
    ensures
        match r {
            Ok(bodies) => header_error(b@) is None && views(bodies@) == frames_from(b@, 5),
            Err(e) => header_error(b@) == Some(e@),
        },
{
    match check_header(b) {
        Ok(_) => {},
        Err(e) => return Err(e),
    }
    let mut bodies: Vec<Vec<u8>> = Vec::new();
    let mut pos: usize = 5;
    assert(views(bodies@) + frames_from(b@, 5) =~= frames_from(b@, 5));
    loop
        invariant
            header_error(b@) is None,
            5 <= pos <= b@.len(),
            views(bodies@) + frames_from(b@, pos as int) == frames_from(b@, 5),
        decreases b@.len() - pos,
    {
        match read_entry(b, pos) {
            Err(_) => {
                assert(views(bodies@) + Seq::<Seq<u8>>::empty() =~= views(bodies@));
                return Ok(bodies);
            },
            Ok((body, end)) => {
                let ghost before = views(bodies@);
                let ghost item = body@;
                bodies.push(body);
                proof {
                    assert(views(bodies@) =~= before.push(item));
                    let rest = frames_from(b@, end as int);
                    assert(before + (seq![item] + rest) =~= before.push(item) + rest);
                }
                pos = end;
            },
        }
    }
}

/// An entry that is written is read back.
pub proof fn entry_round_trip(before: Seq<u8>, body: Seq<u8>, after: Seq<u8>)
    requires
        body.len() <= MAX_ENTRY_SIZE,
    ensures
        frame_at(before + frame_bytes(body) + after, before.len() as int) == Ok::<
            (Seq<u8>, int),
            ErrorView,
        >((body, (before.len() + frame_bytes(body).len()) as int)),
{
    let b = before + frame_bytes(body) + after;
    let n = body.len() as u32;
    lemma_le(0, n, 0);
    lemma_le(0, crc32(body), 0);
    let p1 = before + le32(n);
    let p2 = p1 + body;
    let p3 = p2 + le32(crc32(body));
    assert(p3 =~= before + frame_bytes(body));
    assert(p3.is_prefix_of(b)) by {
        assert(p3 =~= b.subrange(0, p3.len() as int));
    }
    lemma_piece(b, p2, le32(crc32(body)));
    lemma_piece(b, p1, body);
    lemma_piece(b, before, le32(n));
}

/// An entry written behind others is read behind them.
pub proof fn entries_are_read_in_order(b: Seq<u8>, pos: int, body: Seq<u8>)
    requires
        0 <= pos <= b.len(),
        frames_fill(b, pos),
        body.len() <= MAX_ENTRY_SIZE,
    ensures
        frames_from(b + frame_bytes(body), pos) == frames_from(b, pos).push(body),
        frames_fill(b + frame_bytes(body), pos),
    decreases b.len() - pos,
{
    let f = frame_bytes(body);
    let more = b + f;
    lemma_le(0, body.len() as u32, 0);
    lemma_le(0, crc32(body), 0);
    if pos == b.len() {
        entry_round_trip(b, body, Seq::empty());
        assert(b + f + Seq::<u8>::empty() =~= more);
        assert(frame_at(more, pos) == Ok::<(Seq<u8>, int), ErrorView>(
            (body, more.len() as int),
        ));
        assert(frames_from(more, more.len() as int) =~= Seq::empty());
        assert(frames_from(b, pos) =~= Seq::empty());
        assert(frames_from(more, pos) =~= seq![body]);
        assert(frames_fill(more, more.len() as int));
    } else {
        let end = frame_at(b, pos)->Ok_0.1;
        let got = frame_at(b, pos)->Ok_0.0;
        let n = u32_at(b, pos) as int;
        lemma_window_extends(b, f, pos, 4);
        lemma_window_extends(b, f, pos + 4, n);
        lemma_window_extends(b, f, pos + 4 + n, 4);
        assert(frame_at(more, pos) == frame_at(b, pos));
        entries_are_read_in_order(b, end, body);
        assert(seq![got] + frames_from(b, end).push(body) =~= (seq![got] + frames_from(
            b,
            end,
        )).push(body));
    }
}

/// A file cut short at the end of an entry or within the next one loses nothing before
/// the cut: what reads of it is what was read before.
pub proof fn torn_entry_is_dropped(b: Seq<u8>, pos: int, torn: Seq<u8>)
    requires
        0 <= pos <= b.len(),
        frames_fill(b, pos),
        frame_at(b + torn, b.len() as int) is Err,
    ensures
        frames_from(b + torn, pos) == frames_from(b, pos),
    decreases b.len() - pos,
{
    let more = b + torn;
    if pos < b.len() {
        let end = frame_at(b, pos)->Ok_0.1;
        let n = u32_at(b, pos) as int;
        lemma_window_extends(b, torn, pos, 4);
        lemma_window_extends(b, torn, pos + 4, n);
        lemma_window_extends(b, torn, pos + 4 + n, 4);
        torn_entry_is_dropped(b, end, torn);
    }
}

} // verus!
