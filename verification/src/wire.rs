//! The primitive byte form of a number: eight little-endian bytes. Kept
//! opaque so that composite encodings reason only through its length and its
//! round-trip lemma.

use vstd::prelude::*;

verus! {

/// The eight little-endian bytes of `v`.
#[verifier::opaque]
pub open spec fn spec_enc_u64(v: u64) -> Seq<u8> {
    seq![
        (v & 0xff) as u8,
        ((v >> 8) & 0xff) as u8,
        ((v >> 16) & 0xff) as u8,
        ((v >> 24) & 0xff) as u8,
        ((v >> 32) & 0xff) as u8,
        ((v >> 40) & 0xff) as u8,
        ((v >> 48) & 0xff) as u8,
        ((v >> 56) & 0xff) as u8,
    ]
}

/// A number's encoding is eight bytes long.
pub broadcast proof fn lemma_enc_u64_len(v: u64)
    ensures
        (#[trigger] spec_enc_u64(v)).len() == 8,
{
    reveal(spec_enc_u64);
}

} // verus!
