//! The writing half of the codec: every byte that reaches the sink is
//! obfuscated on its way.

use crate::cipher::{lemma_transform_seq_concat, transform, transformed, transformed_seq};
use crate::endian::{le_of_u32, le_of_u64, u32_le_bytes, u64_le_bytes};
use crate::error::{Failure, PakError};
use crate::MAX_NAME_LEN;
use vstd::prelude::*;

verus! {

/// Writes one byte.
pub fn write_u8(sink: &mut Vec<u8>, b: u8)
    ensures
        final(sink)@ == old(sink)@ + transformed_seq(seq![b]),
{
    sink.push(transform(b));
    assert(sink@ =~= old(sink)@ + transformed_seq(seq![b]));
}

/// Writes all of `bytes`.
pub fn write_all(sink: &mut Vec<u8>, bytes: &[u8])
    ensures
        final(sink)@ == old(sink)@ + transformed_seq(bytes@),
{
    let n = bytes.len();
    sink.reserve(n);
    let mut i: usize = 0;
    while i < n
        invariant
            i <= n,
            n == bytes@.len(),
            sink@ == old(sink)@ + transformed_seq(bytes@).take(i as int),
        decreases n - i,
    {
        sink.push(transform(bytes[i]));
        i = i + 1;
        assert(sink@ =~= old(sink)@ + transformed_seq(bytes@).take(i as int));
    }
    assert(transformed_seq(bytes@).take(n as int) =~= transformed_seq(bytes@));
}

/// Writes `n` as four bytes, least significant first.
pub fn write_u32(sink: &mut Vec<u8>, n: u32)
    ensures
        final(sink)@ == old(sink)@ + transformed_seq(le_of_u32(n)),
{
    let bytes = u32_le_bytes(n);
    write_all(sink, bytes.as_slice());
}

/// Writes `n` as eight bytes, least significant first.
pub fn write_u64(sink: &mut Vec<u8>, n: u64)
    ensures
        final(sink)@ == old(sink)@ + transformed_seq(le_of_u64(n)),
{
    let bytes = u64_le_bytes(n);
    write_all(sink, bytes.as_slice());
}

/// Writes a name: one byte that gives its length, then its bytes. A name
/// of more than [`MAX_NAME_LEN`] bytes is refused, and nothing is written.
pub fn write_filename(sink: &mut Vec<u8>, name: &[u8]) -> (res: Result<(), PakError>)
    ensures
        match res {
            Ok(_) => name@.len() <= MAX_NAME_LEN && final(sink)@ == old(sink)@ + transformed_seq(
                seq![name@.len() as u8] + name@,
            ),
            Err(e) => name@.len() > MAX_NAME_LEN && e@ == Failure::InvalidNameLength(name@.len())
                && final(sink)@ == old(sink)@,
        },
{
    let n = name.len();
    if n > MAX_NAME_LEN {
        return Err(PakError::InvalidNameLength(n));
    }
    write_u8(sink, n as u8);
    write_all(sink, name);
    proof {
        lemma_transform_seq_concat(seq![n as u8], name@);
        assert(sink@ =~= old(sink)@ + (transformed_seq(seq![n as u8]) + transformed_seq(name@)));
    }
    Ok(())
}

} // verus!
