//! The laws the engine obeys, proved once and for all over the
//! specification model: determinism of the root, the proof round trip, the
//! proof-length invariant, and the two boundary cases (a single blob, no
//! blobs).

use vstd::prelude::*;

use crate::hashing::blake2s_of;
use crate::tree::MerkleTree;
use crate::tree::Order;
use crate::tree::combine;
use crate::tree::fold_proof;
use crate::tree::is_pow2;
use crate::tree::leaf_hashes;
use crate::tree::lemma_next_pow2_ge;
use crate::tree::lemma_next_pow2_is_pow2;
use crate::tree::lemma_pow2_half;
use crate::tree::lemma_wf_root;
use crate::tree::log2;
use crate::tree::next_pow2;
use crate::tree::padded_leaves;
use crate::tree::proof_entries;
use crate::tree::root_of_level;
use crate::tree::tree_nodes;
use crate::tree::tree_proof;
use crate::tree::tree_root;

verus! {

/// Folding one proof entry: the head sibling is hashed onto the running
/// digest on the side its tag names, and the fold continues with the tail.
proof fn lemma_fold_step(e: (Seq<u8>, Order), rest: Seq<(Seq<u8>, Order)>, acc: Seq<u8>)
    ensures
        fold_proof(acc, seq![e] + rest) == fold_proof(
            match e.1 {
                Order::Before => blake2s_of(e.0 + acc),
                Order::After => blake2s_of(acc + e.0),
            },
            rest,
        ),
{
    let s = seq![e] + rest;
    assert(s[0] == e);
    assert(s.subrange(1, s.len() as int) =~= rest);
}

/// Folding the inclusion proof for any index of a power-of-two level,
/// starting from that index's own digest, reaches the level's root.
pub proof fn lemma_fold_proof_root(level: Seq<Seq<u8>>, i: nat)
    requires
        is_pow2(level.len()),
        i < level.len(),
    ensures
        fold_proof(level[i as int], proof_entries(level, i)) == root_of_level(level),
    decreases level.len(),
{
    if level.len() >= 2 {
        lemma_pow2_half(level.len());
        let next = combine(level);
        let j: int = i as int / 2;
        assert(next[j] == blake2s_of(level[2 * j] + level[2 * j + 1]));
        if i % 2 == 0 {
            assert(2 * j == i);
            lemma_fold_step((level[i as int + 1], Order::After), proof_entries(next, i / 2),
                level[i as int]);
        } else {
            assert(2 * j == i - 1);
            lemma_fold_step((level[i as int - 1], Order::Before), proof_entries(next, i / 2),
                level[i as int]);
        }
        lemma_fold_proof_root(next, i / 2);
    }
}

/// Round trip: for every valid blob index of a non-empty sequence, folding
/// the tree's inclusion proof from that blob's digest yields exactly the
/// tree's root.
pub proof fn lemma_proof_round_trip(blobs: Seq<Seq<u8>>, i: nat)
    requires
        i < blobs.len(),
    ensures
        tree_root(blobs) == Some(fold_proof(blake2s_of(blobs[i as int]), tree_proof(blobs, i))),
{
    let padded = padded_leaves(blobs);
    lemma_next_pow2_ge(blobs.len());
    lemma_next_pow2_is_pow2(blobs.len());
    assert(padded.len() == next_pow2(blobs.len()));
    assert(padded[i as int] == leaf_hashes(blobs)[i as int]);
    assert(padded[i as int] == blake2s_of(blobs[i as int]));
    lemma_fold_proof_root(padded, i);
}

/// The root is a deterministic function of the blob sequence alone: two
/// well-formed trees over equal blob sequences hold equal roots.
pub proof fn lemma_root_deterministic(t1: MerkleTree, t2: MerkleTree)
    requires
        t1.wf(),
        t2.wf(),
        t1.blobs() == t2.blobs(),
    ensures
        t1.root_view() == t2.root_view(),
{
    lemma_wf_root(t1);
    lemma_wf_root(t2);
}

/// An inclusion proof holds one entry per level below the root: the
/// base-two logarithm of the (power-of-two) level length.
pub proof fn lemma_proof_entries_len(level: Seq<Seq<u8>>, i: nat)
    requires
        is_pow2(level.len()),
        i < level.len(),
    ensures
        proof_entries(level, i).len() == log2(level.len()),
    decreases level.len(),
{
    if level.len() >= 2 {
        lemma_pow2_half(level.len());
        lemma_proof_entries_len(combine(level), i / 2);
    }
}

/// A tree's inclusion proof has exactly log2 of the padded leaf count
/// entries, whichever in-tree index it is for.
pub proof fn lemma_tree_proof_len(blobs: Seq<Seq<u8>>, i: nat)
    requires
        blobs.len() > 0,
        i < next_pow2(blobs.len()),
    ensures
        tree_proof(blobs, i).len() == log2(next_pow2(blobs.len())),
{
    lemma_next_pow2_ge(blobs.len());
    lemma_next_pow2_is_pow2(blobs.len());
    lemma_proof_entries_len(padded_leaves(blobs), i);
}

/// A single-blob tree: the proof for index 0 is empty, and the root is that
/// blob's own leaf digest.
pub proof fn lemma_single_blob(blobs: Seq<Seq<u8>>)
    requires
        blobs.len() == 1,
    ensures
        tree_proof(blobs, 0).len() == 0,
        tree_root(blobs) == Some(blake2s_of(blobs[0])),
{
    let padded = padded_leaves(blobs);
    assert(next_pow2(1nat) == 1);
    assert(padded.len() == 1);
    assert(padded[0] == blake2s_of(blobs[0]));
    assert(root_of_level(padded) == padded[0]);
}

/// An empty blob sequence: no levels, no root, and an empty proof at every
/// index.
pub proof fn lemma_empty_tree(blobs: Seq<Seq<u8>>, i: nat)
    requires
        blobs.len() == 0,
    ensures
        tree_root(blobs) is None,
        tree_proof(blobs, i).len() == 0,
        tree_nodes(blobs).len() == 0,
{
}

} // verus!
