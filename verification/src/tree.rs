//! The Merkle hash-tree engine.
//!
//! A tree is built over an ordered sequence of byte blobs: each blob is
//! hashed to form the leaf level, the leaf level is padded on the right with
//! the empty digest up to the next power of two, and every further level
//! holds the digest of each consecutive pair of the level below, down to a
//! single root digest. All levels are stored flattened, leaves first, in one
//! node array.
//!
//! Padding policy: a synthetic pad leaf is the empty byte sequence (not the
//! digest of the empty string, and not a copy of the last real leaf). Clients
//! and servers must agree on this choice, since it decides which sibling
//! digests appear in proofs for trees whose blob count is not a power of two.

use vstd::prelude::*;

use crate::hashing::blake2s_hash;
use crate::hashing::blake2s_of;

verus! {

/// Whether the sibling digest of a proof entry is concatenated before or
/// after the running digest when the proof is folded. Hashing is not
/// commutative over concatenation, so the side is recorded explicitly.
#[derive(Debug, Clone, PartialEq, Eq, Structural)]
pub enum Order {
    Before,
    After,
}

/// The byte sequences held by a sequence of digest vectors.
pub open spec fn digests_view(v: Seq<Vec<u8>>) -> Seq<Seq<u8>> {
    v.map_values(|d: Vec<u8>| d@)
}

/// The byte sequences held by a sequence of blob vectors.
pub open spec fn blobs_view(v: Seq<Vec<u8>>) -> Seq<Seq<u8>> {
    v.map_values(|b: Vec<u8>| b@)
}

/// The pairs of byte sequence and order tag held by a proof vector.
pub open spec fn proof_view(p: Seq<(Vec<u8>, Order)>) -> Seq<(Seq<u8>, Order)> {
    p.map_values(|e: (Vec<u8>, Order)| (e.0@, e.1))
}

/// Whether `n` is a power of two.
pub open spec fn is_pow2(n: nat) -> bool
    decreases n,
{
    if n == 0 {
        false
    } else if n == 1 {
        true
    } else {
        n % 2 == 0 && is_pow2(n / 2)
    }
}

/// The least power of two that is at least `n` (and 1 when `n` is 0).
pub open spec fn next_pow2(n: nat) -> nat
    decreases n,
{
    if n <= 1 {
        1
    } else {
        2 * next_pow2((n + 1) / 2)
    }
}

/// The base-two logarithm of a power of two (and, in general, the number of
/// halvings that reach 1).
pub open spec fn log2(n: nat) -> nat
    decreases n,
{
    if n <= 1 {
        0
    } else {
        1 + log2(n / 2)
    }
}

/// The digest of one pad leaf: the empty byte sequence.
pub open spec fn pad_digest() -> Seq<u8> {
    Seq::empty()
}

/// The digests of the blobs, in blob order.
pub open spec fn leaf_hashes(blobs: Seq<Seq<u8>>) -> Seq<Seq<u8>> {
    blobs.map_values(|b: Seq<u8>| blake2s_of(b))
}

/// The leaf level: the blob digests padded on the right with the empty
/// digest up to the next power of two.
pub open spec fn padded_leaves(blobs: Seq<Seq<u8>>) -> Seq<Seq<u8>> {
    leaf_hashes(blobs) + Seq::new((next_pow2(blobs.len()) - blobs.len()) as nat, |j: int| pad_digest())
}

/// The level above `level`: the digest of each consecutive pair.
pub open spec fn combine(level: Seq<Seq<u8>>) -> Seq<Seq<u8>> {
    Seq::new((level.len() + 1) / 2, |j: int| blake2s_of(level[2 * j] + level[2 * j + 1]))
}

/// All levels from `level` up to the single-digest level, flattened in
/// bottom-to-top order.
pub open spec fn levels_nodes(level: Seq<Seq<u8>>) -> Seq<Seq<u8>>
    decreases level.len(),
{
    if level.len() <= 1 {
        level
    } else {
        level + levels_nodes(combine(level))
    }
}

/// The digest of the topmost level reached from `level`.
pub open spec fn root_of_level(level: Seq<Seq<u8>>) -> Seq<u8>
    decreases level.len(),
{
    if level.len() <= 1 {
        level[0]
    } else {
        root_of_level(combine(level))
    }
}

/// The node array of the tree over `blobs`: empty for an empty blob
/// sequence, otherwise every level of the padded leaf sequence.
pub open spec fn tree_nodes(blobs: Seq<Seq<u8>>) -> Seq<Seq<u8>> {
    if blobs.len() == 0 {
        Seq::empty()
    } else {
        levels_nodes(padded_leaves(blobs))
    }
}

/// The root of the tree over `blobs`: absent exactly when `blobs` is empty.
pub open spec fn tree_root(blobs: Seq<Seq<u8>>) -> Option<Seq<u8>> {
    if blobs.len() == 0 {
        None
    } else {
        Some(root_of_level(padded_leaves(blobs)))
    }
}

/// The inclusion proof for index `i` of `level`: at each level the sibling
/// digest of the running index, tagged with the side on which it is
/// concatenated, bottom-to-top, up to but not including the root level.
pub open spec fn proof_entries(level: Seq<Seq<u8>>, i: nat) -> Seq<(Seq<u8>, Order)>
    decreases level.len(),
{
    if level.len() <= 1 {
        Seq::empty()
    } else if i % 2 == 0 {
        seq![(level[i as int + 1], Order::After)] + proof_entries(combine(level), i / 2)
    } else {
        seq![(level[i as int - 1], Order::Before)] + proof_entries(combine(level), i / 2)
    }
}

/// The inclusion proof for leaf index `i` of the tree over `blobs`.
pub open spec fn tree_proof(blobs: Seq<Seq<u8>>, i: nat) -> Seq<(Seq<u8>, Order)> {
    if blobs.len() == 0 {
        Seq::empty()
    } else {
        proof_entries(padded_leaves(blobs), i)
    }
}

/// Folding a proof: starting from `acc`, each entry replaces the running
/// digest by the digest of sibling-then-running or running-then-sibling,
/// according to its tag.
pub open spec fn fold_proof(acc: Seq<u8>, entries: Seq<(Seq<u8>, Order)>) -> Seq<u8>
    decreases entries.len(),
{
    if entries.len() == 0 {
        acc
    } else {
        let next = match entries[0].1 {
            Order::Before => blake2s_of(entries[0].0 + acc),
            Order::After => blake2s_of(acc + entries[0].0),
        };
        fold_proof(next, entries.subrange(1, entries.len() as int))
    }
}

/// A power of two is positive.
pub proof fn lemma_pow2_pos(n: nat)
    requires
        is_pow2(n),
    ensures
        n >= 1,
{
}

/// Halving an even power of two greater than one gives a power of two.
pub proof fn lemma_pow2_half(n: nat)
    requires
        is_pow2(n),
        n >= 2,
    ensures
        n % 2 == 0,
        is_pow2(n / 2),
{
}

/// `next_pow2(n)` is at least `n` and at least 1.
pub proof fn lemma_next_pow2_ge(n: nat)
    ensures
        next_pow2(n) >= n,
        next_pow2(n) >= 1,
    decreases n,
{
    if n > 1 {
        lemma_next_pow2_ge((n + 1) / 2);
    }
}

/// `next_pow2(n)` is a power of two.
pub proof fn lemma_next_pow2_is_pow2(n: nat)
    ensures
        is_pow2(next_pow2(n)),
    decreases n,
{
    if n > 1 {
        lemma_next_pow2_is_pow2((n + 1) / 2);
        lemma_next_pow2_ge((n + 1) / 2);
    }
}

/// For positive `n`, `next_pow2(n)` is less than twice `n`.
pub proof fn lemma_next_pow2_le_double(n: nat)
    requires
        n >= 1,
    ensures
        next_pow2(n) <= 2 * n,
        n >= 2 ==> next_pow2(n) <= 2 * (n - 1),
    decreases n,
{
    if n >= 2 {
        lemma_next_pow2_le_double((n + 1) / 2);
    }
}

/// Between a power of two and any larger power of two there is a factor of
/// at least two.
pub proof fn lemma_pow2_lt_double(a: nat, b: nat)
    requires
        is_pow2(a),
        is_pow2(b),
        a < b,
    ensures
        2 * a <= b,
    decreases b,
{
    if a >= 2 {
        lemma_pow2_lt_double(a / 2, b / 2);
    } else {
        lemma_pow2_pos(b);
    }
}

/// `next_pow2(n)` is the least power of two at or above positive `n`.
pub proof fn lemma_next_pow2_min(m: nat, n: nat)
    requires
        is_pow2(m),
        1 <= n <= m,
    ensures
        next_pow2(n) <= m,
    decreases n,
{
    if n >= 2 {
        lemma_pow2_half(m);
        lemma_next_pow2_min(m / 2, (n + 1) / 2);
    }
}

/// A Merkle tree: the flattened node array, the root digest (absent exactly
/// for an empty blob sequence), and, for specification only, the blob
/// sequence the tree was built over.
#[derive(Clone)]
pub struct MerkleTree {
    root: Option<Vec<u8>>,
    nodes: Vec<Vec<u8>>,
    blobs: Ghost<Seq<Seq<u8>>>,
}

impl MerkleTree {
    /// The blob sequence this tree was built over.
    pub closed spec fn blobs(self) -> Seq<Seq<u8>> {
        self.blobs@
    }

    /// The root digest held by the tree, as a byte sequence.
    pub closed spec fn root_view(self) -> Option<Seq<u8>> {
        match self.root {
            Some(d) => Some(d@),
            None => None,
        }
    }

    /// Well-formedness: the node array holds exactly the levels of the tree
    /// over `blobs`, and the stored root is the root of that tree.
    pub closed spec fn wf(self) -> bool {
        &&& digests_view(self.nodes@) == tree_nodes(self.blobs@)
        &&& self.root_view() == tree_root(self.blobs@)
    }
}

impl MerkleTree {
    /// Build the tree over `data`, in order: hash each blob into the leaf
    /// level, pad that level on the right with the empty digest up to the
    /// next power of two, then repeatedly hash consecutive pairs until a
    /// single digest is left, appending every level to the node array. An
    /// empty `data` yields a tree with no levels and no root. The bound on
    /// `data`'s length keeps the node array, which holds one node short of
    /// twice the padded leaf count, addressable.
    pub fn new(data: &[Vec<u8>]) -> (t: MerkleTree)
        requires
            data@.len() <= usize::MAX / 4,
        ensures
            t.wf(),
            t.blobs() == blobs_view(data@),
    {
        let ghost blobs = blobs_view(data@);
        let mut leaves: Vec<Vec<u8>> = Vec::new();
        let mut k: usize = 0;
        while k < data.len()
            invariant
                data@.len() <= usize::MAX / 4,
                k <= data@.len(),
                leaves@.len() == k,
                forall|j: int| 0 <= j < k ==> leaves@[j]@ == blake2s_of(data@[j]@),
            decreases data@.len() - k,
        {
            let h = blake2s_hash(data[k].as_slice());
            leaves.push(h);
            k += 1;
        }
        if data.len() == 0 {
            let t = MerkleTree { root: None, nodes: Vec::new(), blobs: Ghost(blobs) };
            proof {
                assert(digests_view(t.nodes@) =~= tree_nodes(blobs));
            }
            return t;
        }
        let n = data.len();
        let ceil = next_pow2_exec(n);
        proof {
            lemma_next_pow2_le_double(n as nat);
            assert(2 * (ceil as int) <= usize::MAX);
        }
        while leaves.len() < ceil
            invariant
                data@.len() <= leaves@.len() <= ceil,
                forall|j: int| 0 <= j < data@.len() ==> leaves@[j]@ == blake2s_of(data@[j]@),
                forall|j: int| data@.len() <= j < leaves@.len() ==> leaves@[j]@ == pad_digest(),
            decreases ceil - leaves@.len(),
        {
            leaves.push(Vec::new());
        }
        proof {
            assert(digests_view(leaves@) =~= padded_leaves(blobs));
        }
        let ghost padded = padded_leaves(blobs);
        let mut nodes: Vec<Vec<u8>> = Vec::new();
        let mut idx: usize = 0;
        while idx < leaves.len()
            invariant
                idx <= leaves@.len(),
                nodes@.len() == idx,
                forall|j: int| 0 <= j < idx ==> nodes@[j]@ == leaves@[j]@,
            decreases leaves@.len() - idx,
        {
            let d = copy_bytes(&leaves[idx]);
            nodes.push(d);
            idx += 1;
        }
        proof {
            assert(digests_view(nodes@) =~= digests_view(leaves@));
        }
        let ghost mut cur: Seq<Seq<u8>> = padded;
        let mut level_start: usize = 0;
        let mut level_len: usize = ceil;
        proof {
            assert(digests_view(nodes@) == padded);
            assert(digests_view(nodes@).subrange(0int, nodes@.len() as int) =~= padded);
            assert(digests_view(nodes@).take(0int) =~= Seq::<Seq<u8>>::empty());
            assert(levels_nodes(padded) =~= digests_view(nodes@).take(0int)
                + levels_nodes(padded));
        }
        while level_len > 1
            invariant
                cur.len() == level_len,
                is_pow2(cur.len()),
                2 * (ceil as int) <= usize::MAX,
                level_len <= ceil,
                nodes@.len() == 2 * (ceil as int) - level_len,
                level_start + level_len == nodes@.len(),
                digests_view(nodes@).subrange(level_start as int, nodes@.len() as int) == cur,
                levels_nodes(padded) == digests_view(nodes@).take(level_start as int)
                    + levels_nodes(cur),
                root_of_level(cur) == root_of_level(padded),
            decreases level_len,
        {
            proof {
                lemma_pow2_half(cur.len());
            }
            let ghost base = digests_view(nodes@);
            let half = level_len / 2;
            let mut j: usize = 0;
            while j < half
                invariant
                    half == level_len / 2,
                    cur.len() == level_len >= 2,
                    cur.len() % 2 == 0,
                    2 * (ceil as int) <= usize::MAX,
                    level_len <= ceil,
                    base.len() == 2 * (ceil as int) - level_len,
                    level_start + level_len == base.len(),
                    base.subrange(level_start as int, base.len() as int) == cur,
                    j <= half,
                    nodes@.len() == base.len() + j,
                    digests_view(nodes@) == base + combine(cur).take(j as int),
                decreases half - j,
            {
                let left = level_start + 2 * j;
                let ghost before = nodes@;
                proof {
                    assert(digests_view(before)[left as int] == base[left as int]);
                    assert(digests_view(before)[left + 1] == base[left + 1]);
                    assert(before[left as int]@ == cur[2 * (j as int)]);
                    assert(before[left + 1]@ == cur[2 * (j as int) + 1]);
                }
                let h = hash_pair(&nodes[left], &nodes[left + 1]);
                proof {
                    assert(h@ == blake2s_of(cur[2 * (j as int)] + cur[2 * (j as int) + 1]));
                    assert(h@ == combine(cur)[j as int]);
                }
                nodes.push(h);
                j += 1;
                proof {
                    assert(nodes@ == before.push(h));
                    assert forall|m: int| 0 <= m < nodes@.len() implies digests_view(nodes@)[m]
                        == (base + combine(cur).take(j as int))[m] by {
                        if m < before.len() {
                            assert(nodes@[m] == before[m]);
                            assert(digests_view(nodes@)[m] == digests_view(before)[m]);
                            assert(digests_view(before)[m] == (base + combine(cur).take(
                                j as int - 1,
                            ))[m]);
                        } else {
                            assert(nodes@[m] == h);
                            assert(digests_view(nodes@)[m] == h@);
                        }
                    }
                    assert(digests_view(nodes@) =~= base + combine(cur).take(j as int));
                }
            }
            proof {
                assert(combine(cur).take(half as int) =~= combine(cur));
                assert(digests_view(nodes@) == base + combine(cur));
            }
            proof {
                let next = combine(cur);
                let ns: int = level_start + level_len;
                assert(digests_view(nodes@).subrange(ns, nodes@.len() as int) =~= next);
                assert(base =~= base.take(level_start as int) + cur);
                assert(digests_view(nodes@).take(ns) =~= base);
                assert(levels_nodes(cur) == cur + levels_nodes(next));
                assert(levels_nodes(padded) =~= digests_view(nodes@).take(ns)
                    + levels_nodes(next));
                cur = next;
            }
            level_start = level_start + level_len;
            level_len = half;
        }
        proof {
            lemma_pow2_pos(cur.len());
            assert(cur.len() == 1);
            assert(levels_nodes(cur) == cur);
            assert(root_of_level(cur) == cur[0]);
            assert(digests_view(nodes@) =~= digests_view(nodes@).take(level_start as int)
                + digests_view(nodes@).subrange(level_start as int, nodes@.len() as int));
            assert(digests_view(nodes@) == levels_nodes(padded));
            assert(digests_view(nodes@)[level_start as int] == cur[0]);
        }
        let root_digest = copy_bytes(&nodes[level_start]);
        let t = MerkleTree { root: Some(root_digest), nodes, blobs: Ghost(blobs) };
        proof {
            assert(t.wf());
        }
        t
    }
}

impl MerkleTree {
    /// The inclusion proof for leaf index `i`: walk the node array level by
    /// level, recording at each level the sibling digest of the running
    /// index together with the side it is concatenated on, until the level
    /// with a single node (the root) is reached. For an empty tree the
    /// proof is empty.
    pub fn merkle_proof(&self, i: usize) -> (out: Vec<(Vec<u8>, Order)>)
        requires
            self.wf(),
            self.blobs().len() > 0 ==> (i as nat) < next_pow2(self.blobs().len()),
        ensures
            proof_view(out@) == tree_proof(self.blobs(), i as nat),
    {
        let ghost blobs = self.blobs@;
        let mut out: Vec<(Vec<u8>, Order)> = Vec::new();
        if self.nodes.len() == 0 {
            proof {
                if blobs.len() > 0 {
                    let padded = padded_leaves(blobs);
                    lemma_next_pow2_ge(blobs.len());
                    assert(levels_nodes(padded).len() >= padded.len());
                    assert(digests_view(self.nodes@).len() == 0);
                    assert(false);
                }
                assert(proof_view(out@) =~= tree_proof(blobs, i as nat));
            }
            return out;
        }
        proof {
            if blobs.len() == 0 {
                assert(digests_view(self.nodes@).len() == self.nodes@.len());
                assert(digests_view(self.nodes@) =~= Seq::<Seq<u8>>::empty());
                assert(false);
            }
        }
        let ghost padded = padded_leaves(blobs);
        let ghost i0 = i as nat;
        proof {
            lemma_next_pow2_ge(blobs.len());
            lemma_next_pow2_is_pow2(blobs.len());
            lemma_levels_nodes_len(padded);
        }
        let total = self.nodes.len();
        let mut i_cur = i;
        let mut level_start: usize = 0;
        let mut level_count = total - total / 2;
        let ghost mut cur: Seq<Seq<u8>> = padded;
        proof {
            assert(digests_view(self.nodes@).subrange(0int, self.nodes@.len() as int)
                =~= levels_nodes(cur));
            assert(proof_view(out@) + proof_entries(cur, i0) =~= proof_entries(padded, i0));
        }
        loop
            invariant_except_break
                self.wf(),
                blobs == self.blobs@,
                blobs.len() > 0,
                padded == padded_leaves(blobs),
                digests_view(self.nodes@) == levels_nodes(padded),
                cur.len() == level_count,
                is_pow2(cur.len()),
                i_cur < cur.len(),
                level_start + levels_nodes(cur).len() == self.nodes@.len(),
                digests_view(self.nodes@).subrange(level_start as int, self.nodes@.len() as int)
                    == levels_nodes(cur),
                proof_view(out@) + proof_entries(cur, i_cur as nat) == proof_entries(padded, i0),
            ensures
                proof_view(out@) == proof_entries(padded, i0),
            decreases cur.len(),
        {
            let nlen = self.nodes.len();
            let (order, sibling) = if i_cur % 2 == 0 {
                (Order::After, i_cur + 1)
            } else {
                (Order::Before, i_cur - 1)
            };
            proof {
                lemma_levels_nodes_len(cur);
                assert(sibling <= cur.len());
                assert(levels_nodes(cur).len() >= cur.len());
                assert(level_start + sibling <= self.nodes@.len());
            }
            if level_start + sibling < nlen {
                proof {
                    if cur.len() == 1 {
                        assert(levels_nodes(cur) == cur);
                        assert(false);
                    }
                    lemma_pow2_half(cur.len());
                    assert(sibling < cur.len());
                    assert(levels_nodes(cur)[sibling as int] == cur[sibling as int]);
                    assert(digests_view(self.nodes@)[level_start + sibling]
                        == levels_nodes(cur)[sibling as int]);
                }
                let node = copy_bytes(&self.nodes[level_start + sibling]);
                let ghost out_before = out@;
                out.push((node, order));
                let ghost next = combine(cur);
                proof {
                    assert(proof_view(out@) =~= proof_view(out_before)
                        + seq![(cur[sibling as int], order)]);
                    assert(proof_entries(cur, i_cur as nat) == seq![(cur[sibling as int], order)]
                        + proof_entries(next, (i_cur as nat) / 2));
                    assert(proof_view(out@) + proof_entries(next, (i_cur as nat) / 2)
                        =~= proof_view(out_before) + proof_entries(cur, i_cur as nat));
                    assert(levels_nodes(cur) == cur + levels_nodes(next));
                    assert forall|m: int| 0 <= m < levels_nodes(next).len() implies
                        digests_view(self.nodes@).subrange(
                            level_start + cur.len(),
                            self.nodes@.len() as int,
                        )[m] == levels_nodes(next)[m] by {
                        assert(digests_view(self.nodes@).subrange(
                            level_start as int,
                            self.nodes@.len() as int,
                        )[cur.len() + m] == levels_nodes(cur)[cur.len() + m]);
                    }
                    assert(digests_view(self.nodes@).subrange(
                        level_start + cur.len(),
                        self.nodes@.len() as int,
                    ) =~= levels_nodes(next));
                    assert(next.len() == cur.len() / 2);
                    assert((i_cur as nat) / 2 < next.len());
                    cur = next;
                }
                level_start = level_start + level_count;
                level_count = level_count / 2;
                i_cur = i_cur / 2;
            } else {
                proof {
                    if cur.len() >= 2 {
                        assert(sibling < cur.len());
                        assert(levels_nodes(cur).len() >= cur.len());
                        assert(level_start + sibling < self.nodes@.len());
                        assert(false);
                    }
                    assert(proof_entries(cur, i_cur as nat)
                        =~= Seq::<(Seq<u8>, Order)>::empty());
                    assert(proof_view(out@) =~= proof_entries(padded, i0));
                }
                break;
            }
        }
        out
    }
}

impl MerkleTree {
    /// Recompute a root digest from raw blob bytes and an inclusion proof:
    /// hash the bytes, then fold the proof entries in order, concatenating
    /// each sibling digest on the side its tag names before hashing again.
    /// Runs without access to any tree; comparing the result with a pinned
    /// root decides coherence.
    pub fn root_from_proof(file: &[u8], proof_path: Vec<(Vec<u8>, Order)>) -> (r: Vec<u8>)
        ensures
            r@ == fold_proof(blake2s_of(file@), proof_view(proof_path@)),
    {
        let ghost entries = proof_view(proof_path@);
        let mut acc = blake2s_hash(file);
        let mut k: usize = 0;
        proof {
            assert(entries.subrange(0int, entries.len() as int) =~= entries);
        }
        while k < proof_path.len()
            invariant
                k <= proof_path@.len(),
                entries == proof_view(proof_path@),
                fold_proof(blake2s_of(file@), entries) == fold_proof(
                    acc@,
                    entries.subrange(k as int, entries.len() as int),
                ),
            decreases proof_path@.len() - k,
        {
            let ghost before = entries.subrange(k as int, entries.len() as int);
            let entry = &proof_path[k];
            let next = match &entry.1 {
                Order::Before => hash_pair(&entry.0, &acc),
                Order::After => hash_pair(&acc, &entry.0),
            };
            proof {
                assert(before[0] == entries[k as int]);
                assert(before.subrange(1, before.len() as int) =~= entries.subrange(
                    k + 1,
                    entries.len() as int,
                ));
                assert(fold_proof(acc@, before) == fold_proof(
                    next@,
                    entries.subrange(k + 1, entries.len() as int),
                ));
            }
            acc = next;
            k += 1;
        }
        proof {
            assert(entries.subrange(k as int, entries.len() as int)
                =~= Seq::<(Seq<u8>, Order)>::empty());
        }
        acc
    }

    /// The tree's root digest: absent exactly when the tree was built over
    /// an empty blob sequence.
    pub fn root(&self) -> (r: Option<&Vec<u8>>)
        requires
            self.wf(),
        ensures
            match r {
                Some(d) => tree_root(self.blobs()) == Some(d@),
                None => tree_root(self.blobs()) is None,
            },
    {
        match &self.root {
            Some(d) => Some(d),
            None => None,
        }
    }
}

/// A well-formed tree's root is determined by its blob sequence.
pub proof fn lemma_wf_root(t: MerkleTree)
    requires
        t.wf(),
    ensures
        t.root_view() == tree_root(t.blobs()),
{
}

/// The flattened levels over a power-of-two level hold one node short of
/// twice the level's length.
pub proof fn lemma_levels_nodes_len(level: Seq<Seq<u8>>)
    requires
        is_pow2(level.len()),
    ensures
        levels_nodes(level).len() == 2 * level.len() - 1,
    decreases level.len(),
{
    if level.len() >= 2 {
        lemma_pow2_half(level.len());
        lemma_levels_nodes_len(combine(level));
    }
}

/// A fresh vector holding the same bytes.
pub(crate) fn copy_bytes(d: &Vec<u8>) -> (r: Vec<u8>)
    ensures
        r@ == d@,
{
    let mut r: Vec<u8> = Vec::new();
    let mut k: usize = 0;
    while k < d.len()
        invariant
            k <= d@.len(),
            r@.len() == k,
            forall|j: int| 0 <= j < k ==> r@[j] == d@[j],
        decreases d@.len() - k,
    {
        r.push(d[k]);
        k += 1;
    }
    assert(r@ =~= d@);
    r
}

/// Whether two byte vectors hold the same bytes.
pub(crate) fn bytes_eq(a: &Vec<u8>, b: &Vec<u8>) -> (r: bool)
    ensures
        r == (a@ == b@),
{
    if a.len() != b.len() {
        assert(a@ != b@);
        return false;
    }
    let mut k: usize = 0;
    while k < a.len()
        invariant
            a@.len() == b@.len(),
            k <= a@.len(),
            forall|j: int| 0 <= j < k ==> a@[j] == b@[j],
        decreases a@.len() - k,
    {
        if a[k] != b[k] {
            return false;
        }
        k += 1;
    }
    assert(a@ =~= b@);
    true
}

/// The digest of the concatenation of two digests, as used for every
/// non-leaf node.
pub(crate) fn hash_pair(l: &Vec<u8>, r: &Vec<u8>) -> (d: Vec<u8>)
    ensures
        d@ == blake2s_of(l@ + r@),
{
    let mut buf: Vec<u8> = Vec::new();
    let mut k: usize = 0;
    while k < l.len()
        invariant
            k <= l@.len(),
            buf@.len() == k,
            forall|j: int| 0 <= j < k ==> buf@[j] == l@[j],
        decreases l@.len() - k,
    {
        buf.push(l[k]);
        k += 1;
    }
    let mut m: usize = 0;
    while m < r.len()
        invariant
            m <= r@.len(),
            buf@.len() == l@.len() + m,
            forall|j: int| 0 <= j < l@.len() ==> buf@[j] == l@[j],
            forall|j: int| 0 <= j < m ==> buf@[l@.len() + j] == r@[j],
        decreases r@.len() - m,
    {
        buf.push(r[m]);
        m += 1;
    }
    assert(buf@ =~= l@ + r@);
    blake2s_hash(buf.as_slice())
}

/// The next power of two at or above positive `n`.
pub(crate) fn next_pow2_exec(n: usize) -> (p: usize)
    requires
        1 <= n,
        n <= usize::MAX / 2,
    ensures
        p as nat == next_pow2(n as nat),
        is_pow2(p as nat),
        n <= p,
{
    proof {
        lemma_next_pow2_ge(n as nat);
    }
    let mut p: usize = 1;
    while p < n
        invariant
            1 <= p,
            n <= usize::MAX / 2,
            is_pow2(p as nat),
            p as nat <= next_pow2(n as nat),
        decreases 2 * (n as int) - p,
    {
        proof {
            lemma_next_pow2_is_pow2(n as nat);
            lemma_next_pow2_ge(n as nat);
            lemma_next_pow2_min(next_pow2(n as nat), n as nat);
            lemma_pow2_lt_double(p as nat, next_pow2(n as nat));
            lemma_next_pow2_le_double(n as nat);
        }
        p = p * 2;
    }
    proof {
        lemma_next_pow2_min(p as nat, n as nat);
        lemma_next_pow2_ge(n as nat);
    }
    p
}

} // verus!
