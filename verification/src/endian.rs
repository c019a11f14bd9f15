//! Little-endian integers, as the record table stores them.

use byteorder::{ByteOrder, LittleEndian};
use vstd::prelude::*;

verus! {

/// The number whose little-endian representation is the first four bytes of `b`.
pub open spec fn u32_of_le(b: Seq<u8>) -> u32
    recommends
        b.len() >= 4,
{
    (b[0] as int + b[1] as int * 0x100 + b[2] as int * 0x1_0000 + b[3] as int * 0x100_0000) as u32
}

/// The four bytes that represent `n`, least significant first.
pub open spec fn le_of_u32(n: u32) -> Seq<u8> {
    seq![
        (n as int % 0x100) as u8,
        (n as int / 0x100 % 0x100) as u8,
        (n as int / 0x1_0000 % 0x100) as u8,
        (n as int / 0x100_0000 % 0x100) as u8,
    ]
}

/// The number whose little-endian representation is the first eight bytes of `b`.
pub open spec fn u64_of_le(b: Seq<u8>) -> u64
    recommends
        b.len() >= 8,
{
    (u32_of_le(b) as int + u32_of_le(b.skip(4)) as int * 0x1_0000_0000) as u64
}

/// The eight bytes that represent `n`, least significant first.
pub open spec fn le_of_u64(n: u64) -> Seq<u8> {
    le_of_u32((n as int % 0x1_0000_0000) as u32) + le_of_u32((n as int / 0x1_0000_0000) as u32)
}

/// Decoding what was encoded gives the number back.
pub proof fn lemma_u32_le_round_trip(n: u32)
    ensures
        le_of_u32(n).len() == 4,
        u32_of_le(le_of_u32(n)) == n,
{
    let x = n as int;
    let b = le_of_u32(n);
    assert(x == x % 0x100 + 0x100 * (x / 0x100));
    assert(x / 0x100 == x / 0x100 % 0x100 + 0x100 * (x / 0x1_0000));
    assert(x / 0x1_0000 == x / 0x1_0000 % 0x100 + 0x100 * (x / 0x100_0000));
    assert(x / 0x100_0000 < 0x100);
    assert(b[0] == x % 0x100 && b[1] == x / 0x100 % 0x100 && b[2] == x / 0x1_0000 % 0x100 && b[3]
        == x / 0x100_0000);
}

/// Encoding what was decoded gives the four bytes back.
pub proof fn lemma_le_u32_round_trip(b: Seq<u8>)
    requires
        b.len() == 4,
    ensures
        le_of_u32(u32_of_le(b)) == b,
{
    let (b0, b1, b2, b3) = (b[0] as int, b[1] as int, b[2] as int, b[3] as int);
    let x = u32_of_le(b) as int;
    assert(x == b0 + 0x100 * (b1 + 0x100 * b2 + 0x1_0000 * b3));
    assert(x % 0x100 == b0 && x / 0x100 == b1 + 0x100 * b2 + 0x1_0000 * b3);
    assert(x == (b0 + 0x100 * b1) + 0x1_0000 * (b2 + 0x100 * b3));
    assert(x / 0x1_0000 == b2 + 0x100 * b3);
    assert(x == (b0 + 0x100 * b1 + 0x1_0000 * b2) + 0x100_0000 * b3);
    assert(x / 0x100_0000 == b3);
    assert(le_of_u32(u32_of_le(b)) =~= b);
}

/// Decoding what was encoded gives the number back.
pub proof fn lemma_u64_le_round_trip(n: u64)
    ensures
        le_of_u64(n).len() == 8,
        u64_of_le(le_of_u64(n)) == n,
{
    let lo = (n as int % 0x1_0000_0000) as u32;
    let hi = (n as int / 0x1_0000_0000) as u32;
    lemma_u32_le_round_trip(lo);
    lemma_u32_le_round_trip(hi);
    let b = le_of_u64(n);
    assert(b.skip(4) =~= le_of_u32(hi));
    assert(u32_of_le(b) == u32_of_le(le_of_u32(lo)));
}

/// Encoding what was decoded gives the eight bytes back.
pub proof fn lemma_le_u64_round_trip(b: Seq<u8>)
    requires
        b.len() == 8,
    ensures
        le_of_u64(u64_of_le(b)) == b,
{
    let lo = u32_of_le(b);
    let hi = u32_of_le(b.skip(4));
    let n = u64_of_le(b);
    assert(n as int == lo as int + hi as int * 0x1_0000_0000);
    assert((n as int % 0x1_0000_0000) as u32 == lo);
    assert((n as int / 0x1_0000_0000) as u32 == hi);
    assert(u32_of_le(b.take(4)) == lo);
    lemma_le_u32_round_trip(b.take(4));
    lemma_le_u32_round_trip(b.skip(4));
    assert(le_of_u64(n) == b.take(4) + b.skip(4));
    assert(b.take(4) + b.skip(4) =~= b);
}

/// `byteorder`'s `LittleEndian::read_u32`: reads the first four bytes of `buf`
/// as a little-endian number. It panics on a shorter buffer, which the
/// precondition rules out.
#[verifier::external_body]
pub(crate) fn read_u32_le(buf: &[u8]) -> (n: u32)
    requires
        buf@.len() >= 4,
    ensures
        n == u32_of_le(buf@),
{
    LittleEndian::read_u32(buf)
}

/// `byteorder`'s `LittleEndian::read_u64`: reads the first eight bytes of
/// `buf` as a little-endian number. It panics on a shorter buffer, which the
/// precondition rules out.
#[verifier::external_body]
pub(crate) fn read_u64_le(buf: &[u8]) -> (n: u64)
    requires
        buf@.len() >= 8,
    ensures
        n == u64_of_le(buf@),
{
    LittleEndian::read_u64(buf)
}

/// `byteorder`'s `LittleEndian::write_u32`, on a buffer of exactly four bytes:
/// the buffer then holds `n`, least significant byte first.
#[verifier::external_body]
pub(crate) fn u32_le_bytes(n: u32) -> (out: [u8; 4])
    ensures
        out@ == le_of_u32(n),
{
    let mut out = [0u8; 4];
    LittleEndian::write_u32(&mut out, n);
    out
}

/// `byteorder`'s `LittleEndian::write_u64`, on a buffer of exactly eight
/// bytes: the buffer then holds `n`, least significant byte first.
#[verifier::external_body]
pub(crate) fn u64_le_bytes(n: u64) -> (out: [u8; 8])
    ensures
        out@ == le_of_u64(n),
{
    let mut out = [0u8; 8];
    LittleEndian::write_u64(&mut out, n);
    out
}

} // verus!
