//! Little-endian integers in byte sequences, and slices of them.
use vstd::bytes::*;
use vstd::prelude::*;
use vstd::slice::*;

verus! {

/// A copy of a vector's items.
pub fn copied<T: Copy>(v: &Vec<T>) -> (r: Vec<T>)
    ensures
        r@ == v@,
{
    slice_to_vec(v.as_slice())
}

/// The `n` bytes at `pos`.
pub open spec fn window(b: Seq<u8>, pos: int, n: int) -> Seq<u8> {
    b.subrange(pos, pos + n)
}

/// The little-endian `u16` at `pos`.
pub open spec fn u16_at(b: Seq<u8>, pos: int) -> u16 {
    spec_u16_from_le_bytes(window(b, pos, 2))
}

/// The little-endian `u32` at `pos`.
pub open spec fn u32_at(b: Seq<u8>, pos: int) -> u32 {
    spec_u32_from_le_bytes(window(b, pos, 4))
}

/// The little-endian `u64` at `pos`.
pub open spec fn u64_at(b: Seq<u8>, pos: int) -> u64 {
    spec_u64_from_le_bytes(window(b, pos, 8))
}

/// The two bytes of a `u16`, lowest first.
pub open spec fn le16(x: u16) -> Seq<u8> {
    spec_u16_to_le_bytes(x)
}

/// The four bytes of a `u32`, lowest first.
pub open spec fn le32(x: u32) -> Seq<u8> {
    spec_u32_to_le_bytes(x)
}

/// The eight bytes of a `u64`, lowest first.
pub open spec fn le64(x: u64) -> Seq<u8> {
    spec_u64_to_le_bytes(x)
}

/// Reads a `u16`.
pub fn get_u16(b: &[u8], pos: usize) -> (x: u16)
    requires
        pos + 2 <= b@.len(),
    ensures
        x == u16_at(b@, pos as int),
{
    assert(b.len() == b@.len());
    u16_from_le_bytes(slice_subrange(b, pos, pos + 2))
}

/// Reads a `u32`.
pub fn get_u32(b: &[u8], pos: usize) -> (x: u32)
    requires
        pos + 4 <= b@.len(),
    ensures
        x == u32_at(b@, pos as int),
{
    assert(b.len() == b@.len());
    u32_from_le_bytes(slice_subrange(b, pos, pos + 4))
}

/// Reads a `u64`.
pub fn get_u64(b: &[u8], pos: usize) -> (x: u64)
    requires
        pos + 8 <= b@.len(),
    ensures
        x == u64_at(b@, pos as int),
{
    assert(b.len() == b@.len());
    u64_from_le_bytes(slice_subrange(b, pos, pos + 8))
}

/// Copies the `n` bytes at `pos`.
pub fn get_bytes(b: &[u8], pos: usize, n: usize) -> (r: Vec<u8>)
    requires
        pos + n <= b@.len(),
    ensures
        r@ == window(b@, pos as int, n as int),
{
    assert(b.len() == b@.len());
    slice_to_vec(slice_subrange(b, pos, pos + n))
}

/// Appends a slice.
pub fn put_slice(out: &mut Vec<u8>, data: &[u8])
    ensures
        final(out)@ == old(out)@ + data@,
{
    let mut tail = slice_to_vec(data);
    out.append(&mut tail);
}

/// Appends a `u16`.
pub fn put_u16(out: &mut Vec<u8>, x: u16)
    ensures
        final(out)@ == old(out)@ + le16(x),
{
    let mut tail = u16_to_le_bytes(x);
    out.append(&mut tail);
}

/// Appends a `u32`.
pub fn put_u32(out: &mut Vec<u8>, x: u32)
    ensures
        final(out)@ == old(out)@ + le32(x),
{
    let mut tail = u32_to_le_bytes(x);
    out.append(&mut tail);
}

/// Appends a `u64`.
pub fn put_u64(out: &mut Vec<u8>, x: u64)
    ensures
        final(out)@ == old(out)@ + le64(x),
{
    let mut tail = u64_to_le_bytes(x);
    out.append(&mut tail);
}

/// Whether two byte slices are equal.
pub fn same_bytes(a: &[u8], b: &[u8]) -> (r: bool)
    ensures
        r == (a@ == b@),
{
    if a.len() != b.len() {
        return false;
    }
    let mut i: usize = 0;
    while i < a.len()
        invariant
            a@.len() == b@.len(),
            i <= a@.len(),
            forall|j: int| 0 <= j < i ==> a@[j] == b@[j],
        decreases a@.len() - i,
    {
        if a[i] != b[i] {
            return false;
        }
        i += 1;
    }
    assert(a@ =~= b@);
    true
}

/// Whether the bytes at `pos` are the four of a magic number.
pub fn has_magic(b: &[u8], pos: usize, magic: [u8; 4]) -> (r: bool)
    requires
        pos + 4 <= b@.len(),
    ensures
        r == (window(b@, pos as int, 4) == magic@),
{
    let r = b[pos] == magic[0] && b[pos + 1] == magic[1] && b[pos + 2] == magic[2] && b[pos + 3]
        == magic[3];
    let ghost w = window(b@, pos as int, 4);
    assert(w[0] == b@[pos as int] && w[1] == b@[pos + 1] && w[2] == b@[pos + 2] && w[3] == b@[pos
        + 3]);
    assert(r ==> w =~= magic@);
    r
}

/// What precedes and what follows a piece in a byte sequence that starts with both.
pub proof fn lemma_piece(b: Seq<u8>, s: Seq<u8>, p: Seq<u8>)
    requires
        (s + p).is_prefix_of(b),
    ensures
        s.is_prefix_of(b),
        s.len() + p.len() <= b.len(),
        window(b, s.len() as int, p.len() as int) == p,
{
    assert(s =~= (s + p).subrange(0, s.len() as int));
    assert(s =~= b.subrange(0, s.len() as int));
    assert(window(b, s.len() as int, p.len() as int) =~= p) by {
        assert forall|i: int| 0 <= i < p.len() implies window(b, s.len() as int, p.len() as int)[i]
            == p[i] by {
            assert((s + p)[s.len() + i] == p[i]);
            assert(b.subrange(0, (s + p).len() as int)[s.len() + i] == b[s.len() + i]);
        }
    }
}

/// Bytes added at the end leave every window that fitted before unchanged.
pub proof fn lemma_window_extends(b: Seq<u8>, more: Seq<u8>, pos: int, n: int)
    requires
        0 <= pos,
        0 <= n,
        pos + n <= b.len(),
    ensures
        window(b + more, pos, n) == window(b, pos, n),
{
    assert(window(b + more, pos, n) =~= window(b, pos, n));
}

/// Little-endian integers have fixed widths and read back as they were written.
pub proof fn lemma_le(a: u16, b: u32, c: u64)
    ensures
        le16(a).len() == 2,
        spec_u16_from_le_bytes(le16(a)) == a,
        le32(b).len() == 4,
        spec_u32_from_le_bytes(le32(b)) == b,
        le64(c).len() == 8,
        spec_u64_from_le_bytes(le64(c)) == c,
{
    lemma_auto_spec_u16_to_from_le_bytes();
    lemma_auto_spec_u32_to_from_le_bytes();
    lemma_auto_spec_u64_to_from_le_bytes();
}

} // verus!
