//! The one cryptographic primitive the tree engine uses: a 256-bit
//! BLAKE2s digest of a byte sequence. The digest itself is opaque to the
//! proofs; every contract speaks of it through the name `blake2s_of`.

use blake2::Digest;
use vstd::prelude::*;

verus! {

/// The digest that BLAKE2s-256 assigns to a byte sequence. The result is a
/// function of the bytes alone; nothing more is assumed of it.
pub uninterp spec fn blake2s_of(bytes: Seq<u8>) -> Seq<u8>;

/// Width in bytes of every digest `blake2s_of` stands for.
pub const DIGEST_LEN: usize = 32;

/// Relies on blake2's `Blake2s256` (via the `digest::Digest` trait): hashing
/// `data` yields the 32-byte BLAKE2s-256 digest, a function of `data` alone.
#[verifier::external_body]
pub(crate) fn blake2s_hash(data: &[u8]) -> (r: Vec<u8>)
    ensures
        r@ == blake2s_of(data@),
        r@.len() == DIGEST_LEN,
{
    blake2::Blake2s256::digest(data).to_vec()
}

} // verus!
