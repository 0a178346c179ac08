//! The computation behind the two sync operations.
//!
//! The transport reads blobs and indices off the wire and writes responses
//! back; everything it needs to decide is computed here, on plain values.
//! A responder answers "give me the blob at index `i` and its proof" by
//! rebuilding the tree over its current blob sequence; a requester decides
//! "is this blob still coherent with my pinned root" by folding the proof
//! and comparing digests.

use vstd::prelude::*;

use crate::hashing::blake2s_of;
use crate::tree::MerkleTree;
use crate::tree::Order;
use crate::tree::blobs_view;
use crate::tree::bytes_eq;
use crate::tree::copy_bytes;
use crate::tree::fold_proof;
use crate::tree::next_pow2;
use crate::tree::next_pow2_exec;
use crate::tree::proof_view;
use crate::tree::tree_proof;

verus! {

/// Answer a fetch request: the blob stored at `i` (absent when `i` is at or
/// beyond the stored count) together with the inclusion proof for `i` from
/// the tree rebuilt over `files`. An index inside the padded tree but past
/// the stored blobs gets the pad leaf's proof and an absent blob; an index
/// outside the padded tree gets an empty proof.
pub fn fetch_with_proof(files: &Vec<Vec<u8>>, i: usize) -> (r: (
    Option<Vec<u8>>,
    Vec<(Vec<u8>, Order)>,
))
    requires
        files@.len() <= usize::MAX / 4,
    ensures
        i < files@.len() ==> (r.0 matches Some(b) && b@ == files@[i as int]@),
        i >= files@.len() ==> r.0 is None,
        (files@.len() == 0 || (i as nat) < next_pow2(files@.len())) ==> proof_view(r.1@)
            == tree_proof(blobs_view(files@), i as nat),
        (files@.len() > 0 && (i as nat) >= next_pow2(files@.len())) ==> r.1@.len() == 0,
{
    let tree = MerkleTree::new(files.as_slice());
    let proof_path = if files.len() == 0 {
        tree.merkle_proof(i)
    } else {
        let padded_count = next_pow2_exec(files.len());
        if i < padded_count {
            tree.merkle_proof(i)
        } else {
            Vec::new()
        }
    };
    let blob = if i < files.len() {
        Some(copy_bytes(&files[i]))
    } else {
        None
    };
    (blob, proof_path)
}

/// Decide coherence: recompute the root from the blob bytes and the proof,
/// and compare it byte for byte with the pinned root. Equality is the sole
/// criterion; a mismatch means the blob, the proof, or the root is stale,
/// and the causes cannot be told apart.
pub fn verify_inclusion(file: &[u8], proof_path: Vec<(Vec<u8>, Order)>, expected_root: &Vec<u8>)
    -> (coherent: bool)
    ensures
        coherent == (fold_proof(blake2s_of(file@), proof_view(proof_path@)) == expected_root@),
{
    let recomputed = MerkleTree::root_from_proof(file, proof_path);
    bytes_eq(&recomputed, expected_root)
}

} // verus!
