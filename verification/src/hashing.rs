//! The one hash this crate relies on: BLAKE2s with a 32-byte digest.
//!
//! The digest itself is computed by the `blake2` crate; this crate only gives
//! its value a name, `blake2s_of`, and states what the documentation promises:
//! the digest has 32 bytes and depends on the input bytes alone.

use vstd::prelude::*;

use blake2::{Blake2s256, Digest};

verus! {

/// The BLAKE2s-256 digest of a byte string, as the `blake2` crate computes it.
pub uninterp spec fn blake2s_of(data: Seq<u8>) -> Seq<u8>;

/// Relies on `blake2::Blake2s256` (via the `Digest` trait): the digest is a
/// pure function of the input bytes and is exactly 32 bytes long.
#[verifier::external_body]
pub fn blake2s(data: &Vec<u8>) -> (r: Vec<u8>)
    ensures
        r@ == blake2s_of(data@),
        r@.len() == 32,
{
    let mut hasher = Blake2s256::new();
    hasher.update(data.as_slice());
    hasher.finalize().to_vec()
}

} // verus!
