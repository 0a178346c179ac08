use blake2::Digest;
use mtree::fetch_with_proof;
use rand::Rng;
use rand::RngCore;
use mtree::verify_inclusion;
use mtree::MerkleTree;
use mtree::Order;

fn blobs(items: &[&str]) -> Vec<Vec<u8>> {
    items.iter().map(|s| s.as_bytes().to_vec()).collect()
}

#[test]
fn basics_randomized() {
    let upper = rand::thread_rng().gen_range(1..512);
    let i = rand::thread_rng().gen_range(0..upper);
    let data: Vec<Vec<u8>> = (0..upper)
        .map(|_| {
            let mut data = [0u8; 8];
            rand::thread_rng().fill_bytes(&mut data);
            data.into()
        })
        .collect();

    let mtree = MerkleTree::new(&data);
    let root = mtree.root().unwrap();
    let proof_i = mtree.merkle_proof(i);

    assert_eq!(*root, MerkleTree::root_from_proof(&data[i], proof_i));
}

#[test]
fn four_blobs_proof_for_third() {
    let data = blobs(&["a", "b", "c", "d"]);
    let tree = MerkleTree::new(&data);
    let root = tree.root().unwrap().clone();
    let proof = tree.merkle_proof(2);
    assert_eq!(proof.len(), 2);
    assert!(verify_inclusion(b"c", proof.clone(), &root));
    assert!(!verify_inclusion(b"x", proof, &root));
}

#[test]
fn three_blobs_padding() {
    let data = blobs(&["a", "b", "c"]);
    let tree = MerkleTree::new(&data);
    let root = tree.root().unwrap().clone();

    // The tree is padded to four leaves; index 2 is the last real blob and
    // its first sibling is the pad leaf: the empty digest, hashed after.
    let proof = tree.merkle_proof(2);
    assert_eq!(proof.len(), 2);
    assert_eq!(proof[0].0, Vec::<u8>::new());
    assert!(matches!(proof[0].1, Order::After));
    assert!(verify_inclusion(b"c", proof, &root));

    // Index 3 is inside the padded tree but has no stored blob: the fetch
    // answers with the absence marker and a proof of the same shape.
    let (blob, pad_proof) = fetch_with_proof(&data, 3);
    assert!(blob.is_none());
    assert_eq!(pad_proof.len(), 2);

    // An index outside the padded tree gets an absent blob and no proof.
    let (blob, far_proof) = fetch_with_proof(&data, 100);
    assert!(blob.is_none());
    assert!(far_proof.is_empty());
}

#[test]
fn fetch_returns_stored_blob() {
    let data = blobs(&["a", "b", "c"]);
    let root = MerkleTree::new(&data).root().unwrap().clone();
    let (blob, proof) = fetch_with_proof(&data, 1);
    assert_eq!(blob, Some(b"b".to_vec()));
    assert!(verify_inclusion(b"b", proof, &root));
}

#[test]
fn single_blob_tree() {
    let data = blobs(&["a"]);
    let tree = MerkleTree::new(&data);
    let root = tree.root().unwrap().clone();
    let proof = tree.merkle_proof(0);
    assert!(proof.is_empty());
    let leaf: Vec<u8> = blake2::Blake2s256::digest(b"a").to_vec();
    assert_eq!(root, leaf);
    assert!(verify_inclusion(b"a", proof, &root));
}

#[test]
fn single_blob_known_digest() {
    // BLAKE2s-256 of "abc", an independently published value: a single-blob
    // tree's root must equal it exactly.
    let expected: Vec<u8> = vec![
        0x50, 0x8c, 0x5e, 0x8c, 0x32, 0x7c, 0x14, 0xe2, 0xe1, 0xa7, 0x2b, 0xa3, 0x4e, 0xeb,
        0x45, 0x2f, 0x37, 0x45, 0x8b, 0x20, 0x9e, 0xd6, 0x3a, 0x29, 0x4d, 0x99, 0x9b, 0x4c,
        0x86, 0x67, 0x59, 0x82,
    ];
    let data = blobs(&["abc"]);
    let tree = MerkleTree::new(&data);
    assert_eq!(tree.root().unwrap(), &expected);
}

#[test]
fn empty_tree_has_no_root() {
    let data: Vec<Vec<u8>> = Vec::new();
    let tree = MerkleTree::new(&data);
    assert!(tree.root().is_none());
    assert!(tree.merkle_proof(0).is_empty());

    let (blob, proof) = fetch_with_proof(&data, 0);
    assert!(blob.is_none());
    assert!(proof.is_empty());
    let (blob, proof) = fetch_with_proof(&data, 7);
    assert!(blob.is_none());
    assert!(proof.is_empty());
}

#[test]
fn root_is_order_sensitive() {
    let ab = MerkleTree::new(&blobs(&["a", "b"]));
    let ba = MerkleTree::new(&blobs(&["b", "a"]));
    assert_ne!(ab.root().unwrap(), ba.root().unwrap());

    let again = MerkleTree::new(&blobs(&["a", "b"]));
    assert_eq!(ab.root().unwrap(), again.root().unwrap());
}

#[test]
fn tamper_detection() {
    let data = blobs(&["alpha", "bravo", "charlie", "delta"]);
    let tree = MerkleTree::new(&data);
    let root = tree.root().unwrap().clone();
    let proof = tree.merkle_proof(1);
    assert!(verify_inclusion(b"bravo", proof.clone(), &root));
    for pos in 0..b"bravo".len() {
        for bit in 0..8 {
            let mut tampered = b"bravo".to_vec();
            tampered[pos] ^= 1u8 << bit;
            assert!(!verify_inclusion(&tampered, proof.clone(), &root));
        }
    }
}

#[test]
fn stale_proof_detection() {
    let old = blobs(&["a", "b", "c", "d"]);
    let new = blobs(&["a", "x", "c", "d"]);
    let old_tree = MerkleTree::new(&old);
    let new_root = MerkleTree::new(&new).root().unwrap().clone();
    let stale = old_tree.merkle_proof(0);
    assert!(!verify_inclusion(b"a", stale, &new_root));
}

#[test]
fn proof_length_is_log_of_padded_count() {
    let data = blobs(&["a", "b", "c", "d", "e"]);
    let tree = MerkleTree::new(&data);
    for i in 0..5 {
        assert_eq!(tree.merkle_proof(i).len(), 3);
    }
    let root = tree.root().unwrap().clone();
    assert!(verify_inclusion(b"e", tree.merkle_proof(4), &root));
}
