//! Fixed-width integers in little- and big-endian byte order, read and
//! written through the `byteorder` crate.

use byteorder::{BigEndian, ByteOrder, LittleEndian};
use vstd::prelude::*;

verus! {

/// Value of the first two bytes of `b`, least significant first.
pub open spec fn le_u16_value(b: Seq<u8>) -> int {
    b[0] + b[1] * 0x100
}

/// Value of the first four bytes of `b`, least significant first.
pub open spec fn le_u32_value(b: Seq<u8>) -> int {
    b[0] + b[1] * 0x100 + b[2] * 0x1_0000 + b[3] * 0x100_0000
}

/// Value of the first eight bytes of `b`, least significant first.
pub open spec fn le_u64_value(b: Seq<u8>) -> int {
    le_u32_value(b) + le_u32_value(b.subrange(4, 8)) * 0x1_0000_0000
}

/// Value of the first four bytes of `b`, most significant first.
pub open spec fn be_u32_value(b: Seq<u8>) -> int {
    b[3] + b[2] * 0x100 + b[1] * 0x1_0000 + b[0] * 0x100_0000
}

/// Value of the first eight bytes of `b`, most significant first.
pub open spec fn be_u64_value(b: Seq<u8>) -> int {
    be_u32_value(b.subrange(4, 8)) + be_u32_value(b) * 0x1_0000_0000
}

/// The four bytes of `n`, most significant first.
pub open spec fn be_u32_bytes(n: u32) -> Seq<u8> {
    seq![
        (n / 0x100_0000) as u8,
        ((n / 0x1_0000) % 0x100) as u8,
        ((n / 0x100) % 0x100) as u8,
        (n % 0x100) as u8,
    ]
}

/// The eight bytes of `n`, most significant first.
pub open spec fn be_u64_bytes(n: u64) -> Seq<u8> {
    be_u32_bytes((n / 0x1_0000_0000) as u32) + be_u32_bytes((n % 0x1_0000_0000) as u32)
}

/// Reading back the four bytes written for `n` gives `n`.
pub proof fn lemma_be_u32_roundtrip(n: u32)
    ensures
        be_u32_bytes(n).len() == 4,
        be_u32_value(be_u32_bytes(n)) == n,
{
}

/// Reading back the eight bytes written for `n` gives `n`.
pub proof fn lemma_be_u64_roundtrip(n: u64)
    ensures
        be_u64_bytes(n).len() == 8,
        be_u64_value(be_u64_bytes(n)) == n,
{
    let hi = (n / 0x1_0000_0000) as u32;
    let lo = (n % 0x1_0000_0000) as u32;
    lemma_be_u32_roundtrip(hi);
    lemma_be_u32_roundtrip(lo);
    let b = be_u64_bytes(n);
    assert(b.subrange(4, 8) =~= be_u32_bytes(lo));
    assert(be_u32_value(b) == be_u32_value(be_u32_bytes(hi)));
}

/// The two bytes of `n`, least significant first.
pub open spec fn le_u16_bytes(n: u16) -> Seq<u8> {
    seq![(n % 0x100) as u8, (n / 0x100) as u8]
}

/// The four bytes of `n`, least significant first.
pub open spec fn le_u32_bytes(n: u32) -> Seq<u8> {
    seq![
        (n % 0x100) as u8,
        ((n / 0x100) % 0x100) as u8,
        ((n / 0x1_0000) % 0x100) as u8,
        (n / 0x100_0000) as u8,
    ]
}

/// The eight bytes of `n`, least significant first.
pub open spec fn le_u64_bytes(n: u64) -> Seq<u8> {
    le_u32_bytes((n % 0x1_0000_0000) as u32) + le_u32_bytes((n / 0x1_0000_0000) as u32)
}

/// Reading back the two bytes written for `n` gives `n`.
pub proof fn lemma_le_u16_roundtrip(n: u16)
    ensures
        le_u16_bytes(n).len() == 2,
        le_u16_value(le_u16_bytes(n)) == n,
{
}

/// Reading back the four bytes written for `n` gives `n`.
pub proof fn lemma_le_u32_roundtrip(n: u32)
    ensures
        le_u32_bytes(n).len() == 4,
        le_u32_value(le_u32_bytes(n)) == n,
{
}

/// Reading back the eight bytes written for `n` gives `n`.
pub proof fn lemma_le_u64_roundtrip(n: u64)
    ensures
        le_u64_bytes(n).len() == 8,
        le_u64_value(le_u64_bytes(n)) == n,
{
    let lo = (n % 0x1_0000_0000) as u32;
    let hi = (n / 0x1_0000_0000) as u32;
    lemma_le_u32_roundtrip(lo);
    lemma_le_u32_roundtrip(hi);
    let b = le_u64_bytes(n);
    assert(b.subrange(4, 8) =~= le_u32_bytes(hi));
    assert(le_u32_value(b) == le_u32_value(le_u32_bytes(lo)));
}

/// `LittleEndian::read_u16`: the first two bytes of `buf` as a little-endian integer.
#[verifier::external_body]
pub(crate) fn read_le_u16(buf: &[u8]) -> (r: u16)
    requires
        buf.len() >= 2,
    ensures
        r as int == le_u16_value(buf@),
{
    LittleEndian::read_u16(buf)
}

/// `LittleEndian::read_u32`: the first four bytes of `buf` as a little-endian integer.
#[verifier::external_body]
pub(crate) fn read_le_u32(buf: &[u8]) -> (r: u32)
    requires
        buf.len() >= 4,
    ensures
        r as int == le_u32_value(buf@),
{
    LittleEndian::read_u32(buf)
}

/// `LittleEndian::read_u64`: the first eight bytes of `buf` as a little-endian integer.
#[verifier::external_body]
pub(crate) fn read_le_u64(buf: &[u8]) -> (r: u64)
    requires
        buf.len() >= 8,
    ensures
        r as int == le_u64_value(buf@),
{
    LittleEndian::read_u64(buf)
}

/// `BigEndian::read_u32`: the first four bytes of `buf` as a big-endian integer.
#[verifier::external_body]
pub(crate) fn read_be_u32(buf: &[u8]) -> (r: u32)
    requires
        buf.len() >= 4,
    ensures
        r as int == be_u32_value(buf@),
{
    BigEndian::read_u32(buf)
}

/// `BigEndian::read_u64`: the first eight bytes of `buf` as a big-endian integer.
#[verifier::external_body]
pub(crate) fn read_be_u64(buf: &[u8]) -> (r: u64)
    requires
        buf.len() >= 8,
    ensures
        r as int == be_u64_value(buf@),
{
    BigEndian::read_u64(buf)
}

/// `BigEndian::write_u32` into a fresh four-byte buffer.
#[verifier::external_body]
pub(crate) fn be_u32_to_bytes(n: u32) -> (r: Vec<u8>)
    ensures
        r@ == be_u32_bytes(n),
{
    let mut buf = vec![0u8; 4];
    BigEndian::write_u32(&mut buf, n);
    buf
}

/// `BigEndian::write_u64` into a fresh eight-byte buffer.
#[verifier::external_body]
pub(crate) fn be_u64_to_bytes(n: u64) -> (r: Vec<u8>)
    ensures
        r@ == be_u64_bytes(n),
{
    let mut buf = vec![0u8; 8];
    BigEndian::write_u64(&mut buf, n);
    buf
}

} // verus!
