//! Bit fields of pieces held (the `bit_vec` crate's `BitVec`).
use vstd::prelude::*;
use bit_vec::BitVec;

verus! {

/// Declares the `bit_vec` crate's `BitVec` so that values of it can be held;
/// what they hold is seen only through `bits` and the wrappers below.
#[verifier::external_type_specification]
#[verifier::external_body]
#[verifier::reject_recursive_types(B)]
pub struct ExBitVec<B>(bit_vec::BitVec<B>);

/// The bits a bit vector holds, first bit first.
pub uninterp spec fn bits(b: BitVec) -> Seq<bool>;

/// Bit `j` (0 is the most significant) of a byte.
pub open spec fn byte_bit(byte: u8, j: int) -> bool {
    (byte as int / pow2((7 - j) as nat)) % 2 == 1
}

pub open spec fn pow2(n: nat) -> int
    decreases n,
{
    if n == 0 {
        1
    } else {
        2 * pow2((n - 1) as nat)
    }
}

/// The bits of bytes, most significant bit of each byte first.
pub open spec fn bytes_to_bits(b: Seq<u8>) -> Seq<bool> {
    Seq::new(b.len() * 8, |i: int| byte_bit(b[i / 8], i % 8))
}

/// Whether bit `i` is set (bits past the end count as unset).
pub open spec fn bit_at(s: Seq<bool>, i: int) -> bool {
    0 <= i < s.len() && s[i]
}

/// Byte `k` of bits packed eight to a byte, most significant bit first,
/// with missing trailing bits unset.
pub open spec fn packed_byte(s: Seq<bool>, k: int) -> u8 {
    ((if bit_at(s, 8 * k) { 128int } else { 0 }) + (if bit_at(s, 8 * k + 1) { 64int } else { 0 })
        + (if bit_at(s, 8 * k + 2) { 32int } else { 0 }) + (if bit_at(s, 8 * k + 3) { 16int } else { 0 })
        + (if bit_at(s, 8 * k + 4) { 8int } else { 0 }) + (if bit_at(s, 8 * k + 5) { 4int } else { 0 })
        + (if bit_at(s, 8 * k + 6) { 2int } else { 0 }) + (if bit_at(s, 8 * k + 7) { 1int } else { 0 })) as u8
}

/// Bits packed eight to a byte.
pub open spec fn bits_to_bytes(s: Seq<bool>) -> Seq<u8> {
    Seq::new((s.len() + 7) / 8, |k: int| packed_byte(s, k))
}

/// The number of set bits.
pub open spec fn count_set(s: Seq<bool>) -> nat
    decreases s.len(),
{
    if s.len() == 0 {
        0
    } else {
        count_set(s.drop_last()) + if s.last() {
            1nat
        } else {
            0
        }
    }
}

/// `len` bits, each `bit` (`BitVec::from_elem`).
#[verifier::external_body]
pub(crate) fn bv_from_elem(len: usize, bit: bool) -> (r: BitVec)
    ensures
        bits(r) == Seq::new(len as nat, |i: int| bit),
{
    BitVec::from_elem(len, bit)
}

/// The bits of bytes, most significant first (`BitVec::from_bytes`).
#[verifier::external_body]
pub(crate) fn bv_from_bytes(bytes: &[u8]) -> (r: BitVec)
    requires
        bytes@.len() * 8 <= usize::MAX,
    ensures
        bits(r) == bytes_to_bits(bytes@),
{
    BitVec::from_bytes(bytes)
}

/// The number of bits (`BitVec::len`).
#[verifier::external_body]
pub(crate) fn bv_len(b: &BitVec) -> (r: usize)
    ensures
        r == bits(*b).len(),
{
    b.len()
}

/// Bit `i`, if there is one (`BitVec::get`).
#[verifier::external_body]
pub(crate) fn bv_get(b: &BitVec, i: usize) -> (r: Option<bool>)
    ensures
        i < bits(*b).len() ==> r == Some(bits(*b)[i as int]),
        i >= bits(*b).len() ==> r is None,
{
    b.get(i)
}

/// Sets bit `i` (`BitVec::set`).
#[verifier::external_body]
pub(crate) fn bv_set(b: &mut BitVec, i: usize, x: bool)
    requires
        i < bits(*old(b)).len(),
    ensures
        bits(*final(b)) == bits(*old(b)).update(i as int, x),
{
    b.set(i, x)
}

/// Appends a bit (`BitVec::push`).
#[verifier::external_body]
pub(crate) fn bv_push(b: &mut BitVec, x: bool)
    requires
        bits(*old(b)).len() < usize::MAX,
    ensures
        bits(*final(b)) == bits(*old(b)).push(x),
{
    b.push(x)
}

/// Sets each bit that is set in `other` (`BitVec::or`); true when a bit changed.
#[verifier::external_body]
pub(crate) fn bv_or(b: &mut BitVec, other: &BitVec) -> (r: bool)
    requires
        bits(*old(b)).len() == bits(*other).len(),
    ensures
        bits(*final(b)) == Seq::new(
            bits(*old(b)).len(),
            |i: int| bits(*old(b))[i] || bits(*other)[i],
        ),
        r == (bits(*final(b)) != bits(*old(b))),
{
    b.or(other)
}

/// The bits packed eight to a byte, most significant first (`BitVec::to_bytes`).
#[verifier::external_body]
pub(crate) fn bv_to_bytes(b: &BitVec) -> (r: Vec<u8>)
    ensures
        r@ == bits_to_bytes(bits(*b)),
{
    b.to_bytes()
}

/// A copy (`BitVec::clone`).
#[verifier::external_body]
pub(crate) fn bv_clone(b: &BitVec) -> (r: BitVec)
    ensures
        bits(r) == bits(*b),
{
    b.clone()
}

/// The number of set bits (`BitVec::count_ones`).
#[verifier::external_body]
pub(crate) fn bv_count_ones(b: &BitVec) -> (r: u64)
    ensures
        r == count_set(bits(*b)),
{
    b.count_ones()
}

} // verus!
