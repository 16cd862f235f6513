use basics::digest::hash_pair;
use basics::merkle_path::MerklePath;
use basics::merkle_tree::{MerkleNode, MerkleTree, SiblingDirection};
use sha2::{Digest, Sha256};

// Helper to create a dummy hash filled with `v`
fn mock_hash(v: u8) -> [u8; 32] {
    [v; 32]
}

/// Helper function for tests: manually hash raw bytes using SHA-256
fn sha256_hash(data: &[u8]) -> [u8; 32] {
    let mut hasher = Sha256::new();
    hasher.update(data);
    hasher.finalize().try_into().expect("SHA-256 always produces 32 bytes")
}

fn hex_digest(text: &str) -> [u8; 32] {
    let mut out = [0u8; 32];
    for i in 0..32 {
        out[i] = u8::from_str_radix(&text[2 * i..2 * i + 2], 16).unwrap();
    }
    out
}

#[test]
fn week2_iterations_test_lifecycle() {
    // 1. Creation
    let mut path = MerklePath::new();
    assert_eq!(path.len(), 0);

    // 2. Addition (Mutation)
    path.add_sibling(mock_hash(1));
    path.add_sibling(mock_hash(2));
    assert_eq!(path.len(), 2);

    // 3. Removal (Mutation + Option)
    let last = path.pop_sibling();

    // Verify we retrieved Something (Some) and it is hash 2
    match last {
        Some(h) => assert_eq!(h, mock_hash(2)),
        None => panic!("Should contain a value!"),
    }

    assert_eq!(path.len(), 1);
}

#[test]
fn week2_vectors_test_lifecycle() {
    // 1. Creation
    let mut path = MerklePath::new();
    assert_eq!(path.len(), 0);

    // 2. Addition (Mutation)
    path.add_sibling(mock_hash(1));
    path.add_sibling(mock_hash(2));
    assert_eq!(path.len(), 2);

    // 3. Removal (Mutation + Option)
    let last = path.pop_sibling();

    // Verify we retrieved Something (Some) and it is hash 2
    match last {
        Some(h) => assert_eq!(h, mock_hash(2)),
        None => panic!("Should contain a value!"),
    }

    assert_eq!(path.len(), 1);
}

#[test]
fn test_path_logic() {
    let mut path = MerklePath::new();
    // Fill with 3 dummy hashes
    path.add_sibling([10u8; 32]); // Level 0
    path.add_sibling([20u8; 32]); // Level 1
    path.add_sibling([30u8; 32]); // Level 2

    // I am leaf 2 (binary 010)
    // Level 0 (idx 2, even) -> Sibling on Right. New idx -> 1
    // Level 1 (idx 1, odd)  -> Sibling on Left.  New idx -> 0
    // Level 2 (idx 0, even) -> Sibling on Right. New idx -> 0
    assert_eq!(
        path.trace(2),
        vec![
            (2, SiblingDirection::Right),
            (1, SiblingDirection::Left),
            (0, SiblingDirection::Right)
        ]
    );
}

#[test]
fn test_hash_pair_non_commutative() {
    // Test that hash_pair is non-commutative (order matters)
    let left = [0xAAu8; 32];
    let right = [0xBBu8; 32];

    let hash_lr = hash_pair(left, right);
    let hash_rl = hash_pair(right, left);

    assert_ne!(hash_lr, hash_rl, "Hashing is non-commutative; order must be respected");
}

#[test]
fn test_hash_pair_consistency() {
    // Test that hash_pair is deterministic
    let left = [0x11u8; 32];
    let right = [0x22u8; 32];

    let hash_1 = hash_pair(left, right);
    let hash_2 = hash_pair(left, right);

    assert_eq!(hash_1, hash_2, "Hashing the same pair twice must yield the same result");
}

#[test]
fn test_verify_valid_proof() {
    // Manually construct a small 4-leaf Merkle tree and verify a proof

    // Step 1: Define 4 leaf values and hash them
    let leaf_0 = sha256_hash(b"leaf_0");
    let leaf_1 = sha256_hash(b"leaf_1");
    let leaf_2 = sha256_hash(b"leaf_2");
    let leaf_3 = sha256_hash(b"leaf_3");

    // Step 2: Compute level-1 parents
    let parent_0_1 = hash_pair(leaf_0, leaf_1); // left node
    let parent_2_3 = hash_pair(leaf_2, leaf_3); // right node

    // Step 3: Compute root (level 2)
    let root = hash_pair(parent_0_1, parent_2_3);

    // Step 4: Construct proof for leaf_0 (index 0)
    // At depth 0: sibling is leaf_1
    // At depth 1: sibling is parent_2_3
    let proof_0 = MerklePath { hashes: vec![leaf_1, parent_2_3] };

    // Verify the proof for leaf_0
    assert!(proof_0.verify(root, leaf_0, 0), "Proof for leaf_0 should be valid");

    // Verify that an invalid root is rejected
    let invalid_root = [0xFFu8; 32];
    assert!(!proof_0.verify(invalid_root, leaf_0, 0), "Proof should fail with incorrect root");
}

#[test]
fn test_verify_leaf_1_proof() {
    // Verify leaf_1 in the same tree (4 leaves)

    let leaf_0 = sha256_hash(b"leaf_0");
    let leaf_1 = sha256_hash(b"leaf_1");
    let leaf_2 = sha256_hash(b"leaf_2");
    let leaf_3 = sha256_hash(b"leaf_3");

    let parent_0_1 = hash_pair(leaf_0, leaf_1);
    let parent_2_3 = hash_pair(leaf_2, leaf_3);
    let root = hash_pair(parent_0_1, parent_2_3);

    // Proof for leaf_1 (index 1): at depth 0, sibling is leaf_0 (and it's to the LEFT)
    let proof_1 = MerklePath { hashes: vec![leaf_0, parent_2_3] };

    assert!(
        proof_1.verify(root, leaf_1, 1),
        "Proof for leaf_1 should be valid with leaf_0 on the left"
    );
}

#[test]
fn test_verify_leaf_2_proof() {
    // Verify leaf_2 (index 2) in the same 4-leaf tree

    let leaf_0 = sha256_hash(b"leaf_0");
    let leaf_1 = sha256_hash(b"leaf_1");
    let leaf_2 = sha256_hash(b"leaf_2");
    let leaf_3 = sha256_hash(b"leaf_3");

    let parent_0_1 = hash_pair(leaf_0, leaf_1);
    let parent_2_3 = hash_pair(leaf_2, leaf_3);
    let root = hash_pair(parent_0_1, parent_2_3);

    // Proof for leaf_2 (index 2): sibling is leaf_3, then parent_0_1
    let proof_2 = MerklePath { hashes: vec![leaf_3, parent_0_1] };

    assert!(proof_2.verify(root, leaf_2, 2), "Proof for leaf_2 should be valid");
}

#[test]
fn test_verify_wrong_sibling() {
    // Test that the proof fails if a sibling hash is corrupted

    let leaf_0 = sha256_hash(b"leaf_0");
    let leaf_1 = sha256_hash(b"leaf_1");
    let leaf_2 = sha256_hash(b"leaf_2");
    let leaf_3 = sha256_hash(b"leaf_3");

    let parent_0_1 = hash_pair(leaf_0, leaf_1);
    let parent_2_3 = hash_pair(leaf_2, leaf_3);
    let root = hash_pair(parent_0_1, parent_2_3);

    // Corrupted proof: wrong sibling at depth 0
    let corrupted_proof = MerklePath { hashes: vec![[0xCCu8; 32], parent_2_3] };

    assert!(!corrupted_proof.verify(root, leaf_0, 0), "Corrupted proof should fail verification");
}

#[test]
fn hash_pair_exact_values() {
    assert_eq!(
        hash_pair([0xAAu8; 32], [0xBBu8; 32]),
        hex_digest("e2d80f78d79027556d6619a1400605abbdca6bb6eb24e0831e33ecd5466fa5f6")
    );
    assert_eq!(
        hash_pair([0xBBu8; 32], [0xAAu8; 32]),
        hex_digest("0393ab96b890b91266b63c748c51063fc8d8b802d25382b203bb302bb8864bde")
    );
}

#[test]
fn hash_pair_is_sha256_of_the_concatenation() {
    let left = sha256_hash(b"l");
    let right = sha256_hash(b"r");
    let mut joined = left.to_vec();
    joined.extend_from_slice(&right);
    assert_eq!(hash_pair(left, right), sha256_hash(&joined));
    assert_ne!(hash_pair(left, right), left);
    assert_ne!(hash_pair(left, right), right);
}

#[test]
fn four_leaf_root_exact_value() {
    let leaves: Vec<[u8; 32]> = (0..4).map(|i| sha256_hash(format!("leaf_{}", i).as_bytes())).collect();
    let root = hash_pair(hash_pair(leaves[0], leaves[1]), hash_pair(leaves[2], leaves[3]));
    assert_eq!(
        root,
        hex_digest("2b2e590963c0228060e79ecb5f310ef07c6043d8664c3039f647a51d6c126ff7")
    );
    let proof_3 = MerklePath { hashes: vec![leaves[2], hash_pair(leaves[0], leaves[1])] };
    assert!(proof_3.verify(root, leaves[3], 3));
    assert!(!proof_3.verify(root, leaves[3], 2));
    assert!(!proof_3.verify(root, leaves[3], 1));
    assert!(!proof_3.verify(root, leaves[3], 0));
}

#[test]
fn empty_path_accepts_the_leaf_itself() {
    let path = MerklePath::new();
    let leaf = mock_hash(5);
    assert!(path.verify(leaf, leaf, 0));
    assert!(path.verify(leaf, leaf, 12345));
    assert!(!path.verify(mock_hash(6), leaf, 0));
    assert_eq!(path.trace(9), Vec::<(usize, SiblingDirection)>::new());
}

#[test]
fn pop_from_empty_path_gives_nothing() {
    let mut path = MerklePath::new();
    assert_eq!(path.pop_sibling(), None);
    assert_eq!(path.len(), 0);
    path.add_sibling(mock_hash(1));
    assert_eq!(path.pop_sibling(), Some(mock_hash(1)));
    assert_eq!(path.pop_sibling(), None);
}

#[test]
fn siblings_come_back_last_in_first_out() {
    let mut path = MerklePath::new();
    for v in 0..10u8 {
        path.add_sibling(mock_hash(v));
        assert_eq!(path.len(), v as usize + 1);
        assert_eq!(path.hashes[v as usize], mock_hash(v));
    }
    for v in (0..10u8).rev() {
        assert_eq!(path.pop_sibling(), Some(mock_hash(v)));
        assert_eq!(path.len(), v as usize);
    }
}

#[test]
fn sides_are_the_bits_of_the_index() {
    let mut path = MerklePath::new();
    for v in 0..5u8 {
        path.add_sibling(mock_hash(v));
    }
    let (l, r) = (SiblingDirection::Left, SiblingDirection::Right);
    assert_eq!(path.trace(0), vec![(0, r), (0, r), (0, r), (0, r), (0, r)]);
    assert_eq!(path.trace(1), vec![(1, l), (0, r), (0, r), (0, r), (0, r)]);
    assert_eq!(path.trace(0b10110), vec![(22, r), (11, l), (5, l), (2, r), (1, l)]);
    assert_eq!(path.trace(31), vec![(31, l), (15, l), (7, l), (3, l), (1, l)]);
    assert_eq!(path.trace(32), vec![(32, r), (16, r), (8, r), (4, r), (2, r)]);
    let top = usize::MAX;
    assert_eq!(
        path.trace(top),
        vec![(top, l), (top >> 1, l), (top >> 2, l), (top >> 3, l), (top >> 4, l)]
    );
}

#[test]
fn siblings_of_a_tree_proof_verify_by_index() {
    let blocks: Vec<Vec<u8>> = (0..16).map(|i| format!("n{}", i).into_bytes()).collect();
    let tree = MerkleTree::new(blocks.iter().map(|b| b.as_slice()).collect());
    let root = tree.root();
    for i in 0..16usize {
        let proof = tree.proof_path(i).unwrap();
        let path = MerklePath { hashes: proof.iter().map(|step| step.0).collect() };
        let sides: Vec<SiblingDirection> = proof.iter().map(|step| step.1).collect();
        let walked: Vec<SiblingDirection> = path.trace(i).iter().map(|step| step.1).collect();
        assert_eq!(walked, sides);
        let leaf = MerkleNode::leaf(&blocks[i]).hash;
        assert!(path.verify(root, leaf, i));
        assert!(!path.verify(root, leaf, i ^ 1));
        assert!(!path.verify(root, MerkleNode::leaf(b"other").hash, i));
    }
}
