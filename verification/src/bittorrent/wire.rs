//! Big-endian integers on the wire (through the `byteorder` crate).
use vstd::prelude::*;
use byteorder::ByteOrder;

verus! {

/// The number four big-endian bytes denote.
pub open spec fn from_be32(s: Seq<u8>) -> u32 {
    (s[0] as int * 16777216 + s[1] as int * 65536 + s[2] as int * 256 + s[3] as int) as u32
}

/// The number two big-endian bytes denote.
pub open spec fn from_be16(s: Seq<u8>) -> u16 {
    (s[0] as int * 256 + s[1] as int) as u16
}

/// The four big-endian bytes of a number.
pub open spec fn be32(x: u32) -> Seq<u8> {
    seq![
        (x / 16777216) as u8,
        (x / 65536 % 256) as u8,
        (x / 256 % 256) as u8,
        (x % 256) as u8,
    ]
}

/// The two big-endian bytes of a number.
pub open spec fn be16(x: u16) -> Seq<u8> {
    seq![(x / 256) as u8, (x % 256) as u8]
}

/// Reads a big-endian `u32` from the first four bytes (`byteorder`'s `BigEndian::read_u32`).
#[verifier::external_body]
pub(crate) fn read_u32(buf: &[u8]) -> (r: u32)
    requires
        buf@.len() >= 4,
    ensures
        r == from_be32(buf@),
{
    byteorder::BigEndian::read_u32(buf)
}

/// Reads a big-endian `u16` from the first two bytes (`byteorder`'s `BigEndian::read_u16`).
#[verifier::external_body]
pub(crate) fn read_u16(buf: &[u8]) -> (r: u16)
    requires
        buf@.len() >= 2,
    ensures
        r == from_be16(buf@),
{
    byteorder::BigEndian::read_u16(buf)
}

/// The big-endian bytes of `n` (`byteorder`'s `BigEndian::write_u32`).
#[verifier::external_body]
pub(crate) fn write_u32(n: u32) -> (r: [u8; 4])
    ensures
        r@ == be32(n),
{
    let mut buf = [0u8; 4];
    byteorder::BigEndian::write_u32(&mut buf, n);
    buf
}

/// The big-endian bytes of `n` (`byteorder`'s `BigEndian::write_u16`).
#[verifier::external_body]
pub(crate) fn write_u16(n: u16) -> (r: [u8; 2])
    ensures
        r@ == be16(n),
{
    let mut buf = [0u8; 2];
    byteorder::BigEndian::write_u16(&mut buf, n);
    buf
}

/// Reading the bytes a number is written as gives the number back.
pub proof fn lemma_be32_roundtrip(x: u32)
    ensures
        from_be32(be32(x)) == x,
        be32(x).len() == 4,
{
    let s = be32(x);
    assert(s[0] as int == x / 16777216);
    assert(s[1] as int == x / 65536 % 256);
    assert(s[2] as int == x / 256 % 256);
    assert(s[3] as int == x % 256);
    assert((x / 16777216) * 16777216 + (x / 65536 % 256) * 65536 + (x / 256 % 256) * 256 + x % 256
        == x) by (nonlinear_arith);
}

/// Reading the bytes a number is written as gives the number back.
pub proof fn lemma_be16_roundtrip(x: u16)
    ensures
        from_be16(be16(x)) == x,
        be16(x).len() == 2,
{
    let s = be16(x);
    assert(s[0] as int == x / 256);
    assert(s[1] as int == x % 256);
    assert((x / 256) * 256 + x % 256 == x) by (nonlinear_arith);
}

/// Appends the big-endian bytes of `n` to `v`.
pub fn push_u32(v: &mut Vec<u8>, n: u32)
    ensures
        final(v)@ == old(v)@ + be32(n),
{
    let b = write_u32(n);
    v.push(b[0]);
    v.push(b[1]);
    v.push(b[2]);
    v.push(b[3]);
    assert(final(v)@ =~= old(v)@ + be32(n));
}

/// The length of the first whole message in received bytes: its four-byte
/// big-endian length prefix and that many bytes after it; `None` while the
/// message is not all there yet.
pub fn frame_length(buf: &[u8]) -> (r: Option<usize>)
    ensures
        buf@.len() < 4 ==> r is None,
        buf@.len() >= 4 ==> {
            let n = 4 + from_be32(buf@);
            &&& r is Some <==> n <= buf@.len()
            &&& r matches Some(k) ==> k == n
        },
{
    if buf.len() < 4 {
        return None;
    }
    let len = read_u32(buf) as usize;
    if buf.len() - 4 >= len {
        Some(4 + len)
    } else {
        None
    }
}

} // verus!
