//! Big-endian integers and byte-buffer splicing shared by the record codecs.
use byteorder::{BigEndian, ByteOrder};
use vstd::prelude::*;

verus! {

/// The two big-endian bytes of `n`.
pub open spec fn be16(n: u16) -> Seq<u8> {
    seq![(n / 256) as u8, (n % 256) as u8]
}

/// The four big-endian bytes of `n`.
pub open spec fn be32(n: u32) -> Seq<u8> {
    seq![(n / 0x100_0000) as u8, (n / 0x1_0000 % 256) as u8, (n / 256 % 256) as u8, (n % 256) as u8]
}

/// The big-endian `u16` stored at `i` and `i + 1`.
pub open spec fn u16_at(s: Seq<u8>, i: int) -> u16 {
    (s[i] * 256 + s[i + 1]) as u16
}

/// The big-endian `u32` stored at `i` to `i + 3`.
pub open spec fn u32_at(s: Seq<u8>, i: int) -> u32 {
    (s[i] * 0x100_0000 + s[i + 1] * 0x1_0000 + s[i + 2] * 256 + s[i + 3]) as u32
}

/// `s` with the bytes from `pos` on replaced by `t`; the length stays when `t` fits.
pub open spec fn splice(s: Seq<u8>, pos: int, t: Seq<u8>) -> Seq<u8> {
    s.take(pos) + t + s.skip(pos + t.len())
}

/// Reading back a big-endian `u16` gives the value written.
pub proof fn lemma_u16_roundtrip(n: u16, s: Seq<u8>, i: int)
    requires
        0 <= i,
        i + 2 <= s.len(),
        s.subrange(i, i + 2) == be16(n),
    ensures
        u16_at(s, i) == n,
{
    assert(s[i] == s.subrange(i, i + 2)[0]);
    assert(s[i + 1] == s.subrange(i, i + 2)[1]);
}

/// Writing the bytes read as a big-endian `u16` gives those bytes back.
pub proof fn lemma_u16_bytes(s: Seq<u8>, i: int)
    requires
        0 <= i,
        i + 2 <= s.len(),
    ensures
        be16(u16_at(s, i)) == s.subrange(i, i + 2),
{
    assert(be16(u16_at(s, i)) =~= s.subrange(i, i + 2));
}

/// Writing the bytes read as a big-endian `u32` gives those bytes back.
pub proof fn lemma_u32_bytes(s: Seq<u8>, i: int)
    requires
        0 <= i,
        i + 4 <= s.len(),
    ensures
        be32(u32_at(s, i)) == s.subrange(i, i + 4),
{
    let x = u32_at(s, i);
    let (b0, b1, b2, b3) = (s[i], s[i + 1], s[i + 2], s[i + 3]);
    lemma_be32_split(b0 as int, b1 as int, b2 as int, b3 as int, x as int);
    assert(be32(x) =~= s.subrange(i, i + 4));
}

proof fn lemma_be32_split(b0: int, b1: int, b2: int, b3: int, x: int)
    by (nonlinear_arith)
    requires
        0 <= b0 < 256,
        0 <= b1 < 256,
        0 <= b2 < 256,
        0 <= b3 < 256,
        x == b0 * 0x100_0000 + b1 * 0x1_0000 + b2 * 256 + b3,
    ensures
        x / 0x100_0000 == b0,
        x / 0x1_0000 % 256 == b1,
        x / 256 % 256 == b2,
        x % 256 == b3,
{
}

/// Reading back a big-endian `u32` gives the value written.
pub proof fn lemma_u32_roundtrip(n: u32, s: Seq<u8>, i: int)
    requires
        0 <= i,
        i + 4 <= s.len(),
        s.subrange(i, i + 4) == be32(n),
    ensures
        u32_at(s, i) == n,
{
    assert(s[i] == s.subrange(i, i + 4)[0]);
    assert(s[i + 1] == s.subrange(i, i + 4)[1]);
    assert(s[i + 2] == s.subrange(i, i + 4)[2]);
    assert(s[i + 3] == s.subrange(i, i + 4)[3]);
}

/// The big-endian `u16` at `pos`.
pub fn get_u16(buf: &[u8], pos: usize) -> (n: u16)
    requires
        pos + 2 <= buf@.len(),
    ensures
        n == u16_at(buf@, pos as int),
{
    (buf[pos] as u16) * 256 + (buf[pos + 1] as u16)
}

/// The big-endian `u32` at `pos`.
pub fn get_u32(buf: &[u8], pos: usize) -> (n: u32)
    requires
        pos + 4 <= buf@.len(),
    ensures
        n == u32_at(buf@, pos as int),
{
    (buf[pos] as u32) * 0x100_0000 + (buf[pos + 1] as u32) * 0x1_0000 + (buf[pos + 2] as u32) * 256
        + (buf[pos + 3] as u32)
}

/// Stores the big-endian bytes of `n` at `pos`.
pub fn put_u16(buf: &mut [u8], pos: usize, n: u16)
    requires
        pos + 2 <= old(buf)@.len(),
    ensures
        final(buf)@ == splice(old(buf)@, pos as int, be16(n)),
{
    buf[pos] = (n / 256) as u8;
    buf[pos + 1] = (n % 256) as u8;
    assert(buf@ =~= splice(old(buf)@, pos as int, be16(n)));
}

/// Stores the big-endian bytes of `n` at `pos`.
pub fn put_u32(buf: &mut [u8], pos: usize, n: u32)
    requires
        pos + 4 <= old(buf)@.len(),
    ensures
        final(buf)@ == splice(old(buf)@, pos as int, be32(n)),
{
    buf[pos] = (n / 0x100_0000) as u8;
    buf[pos + 1] = (n / 0x1_0000 % 256) as u8;
    buf[pos + 2] = (n / 256 % 256) as u8;
    buf[pos + 3] = (n % 256) as u8;
    assert(buf@ =~= splice(old(buf)@, pos as int, be32(n)));
}

/// `byteorder::BigEndian::write_u16`, given the part of `buf` from `pos` on: it stores the
/// two big-endian bytes of `n` at `pos` and `pos + 1` and leaves every other byte as it was.
/// byteorder panics when fewer than two bytes follow `pos`; `requires` leaves that out.
#[verifier::external_body]
pub(crate) fn write_u16_big_endian(buf: &mut [u8], pos: usize, n: u16)
    requires
        pos + 2 <= old(buf)@.len(),
    ensures
        final(buf)@ == splice(old(buf)@, pos as int, be16(n)),
{
    BigEndian::write_u16(&mut buf[pos..], n)
}

/// Two writes side by side are one write of both.
pub proof fn lemma_splice_twice(o: Seq<u8>, pos: int, a: Seq<u8>, c: Seq<u8>)
    requires
        0 <= pos,
        pos + a.len() + c.len() <= o.len(),
    ensures
        splice(splice(o, pos, a), pos + a.len(), c) == splice(o, pos, a + c),
{
    assert(splice(splice(o, pos, a), pos + a.len(), c) =~= splice(o, pos, a + c));
}

} // verus!
