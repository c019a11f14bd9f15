//! The obfuscation transform: every byte of a pak stream is stored XORed
//! with one fixed key.

use vstd::prelude::*;

verus! {

/// The key every byte on the wire is XORed with.
pub const KEY: u8 = 0xf7;

/// The transform as a mathematical function on one byte.
pub open spec fn transformed(b: u8) -> u8 {
    b ^ KEY
}

/// The transform applied to every byte of a sequence.
pub open spec fn transformed_seq(s: Seq<u8>) -> Seq<u8> {
    Seq::new(s.len(), |i: int| transformed(s[i]))
}

/// Applies the transform to one byte. The same function encodes and decodes.
pub fn transform(b: u8) -> (out: u8)
    ensures
        out == transformed(b),
        transformed(out) == b,
{
    proof {
        lemma_transform_involution(b);
    }
    b ^ KEY
}

/// Applying the transform twice gives the byte back.
pub proof fn lemma_transform_involution(b: u8)
    ensures
        transformed(transformed(b)) == b,
{
    assert((b ^ 0xf7u8) ^ 0xf7u8 == b) by (bit_vector);
}

/// Applying the transform twice to a sequence gives the sequence back.
pub proof fn lemma_transform_seq_involution(s: Seq<u8>)
    ensures
        transformed_seq(transformed_seq(s)) == s,
{
    assert forall|i: int| 0 <= i < s.len() implies transformed_seq(transformed_seq(s))[i]
        == s[i] by {
        lemma_transform_involution(s[i]);
    }
    assert(transformed_seq(transformed_seq(s)) =~= s);
}

/// The transform goes through a concatenation.
pub proof fn lemma_transform_seq_concat(a: Seq<u8>, b: Seq<u8>)
    ensures
        transformed_seq(a + b) == transformed_seq(a) + transformed_seq(b),
{
    assert(transformed_seq(a + b) =~= transformed_seq(a) + transformed_seq(b));
}

} // verus!
