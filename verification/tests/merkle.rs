use merkle_tree::inclusion::MerkleProof;
use merkle_tree::model::Side;
use merkle_tree::tree::{MerkleError, MerkleTree};
use sha2::Digest;

fn h(data: &[u8]) -> Vec<u8> {
    sha2::Sha256::digest(data).to_vec()
}

fn h2(left: &[u8], right: &[u8]) -> Vec<u8> {
    let mut joined = left.to_vec();
    joined.extend_from_slice(right);
    h(&joined)
}

fn leaves(values: &[&str]) -> Vec<Vec<u8>> {
    values.iter().map(|v| v.as_bytes().to_vec()).collect()
}

fn build(values: &[&str]) -> MerkleTree {
    MerkleTree::new(&leaves(values)).unwrap()
}

#[test]
fn empty_input_is_rejected() {
    let no_leaves: Vec<Vec<u8>> = Vec::new();
    let result = MerkleTree::new(&no_leaves);
    assert!(matches!(result, Err(MerkleError::InvalidInput)));
}

#[test]
fn levels_and_length_follow_leaf_count() {
    let cases: &[(&[&str], usize, usize)] = &[
        (&["a"], 1, 1),
        (&["a", "b"], 2, 3),
        (&["a", "b", "c"], 3, 7),
        (&["a", "b", "c", "d"], 3, 7),
        (&["a", "b", "c", "d", "e"], 4, 15),
        (&["a", "b", "c", "d", "e", "f", "g", "h"], 4, 15),
        (&["a", "b", "c", "d", "e", "f", "g", "h", "i"], 5, 31),
    ];
    for (values, expected_levels, expected_len) in cases {
        let tree = build(values);
        assert_eq!(tree.levels(), *expected_levels);
        assert_eq!(tree.digest_count(), *expected_len);
        assert_eq!(tree.leaf_count(), values.len());
    }
}

#[test]
fn building_twice_gives_identical_root() {
    let tree_a = build(&["Hello", "world", "3", "4"]);
    let tree_b = build(&["Hello", "world", "3", "4"]);
    assert_eq!(tree_a.root(), tree_b.root());
    assert_eq!(tree_a.root_hex(), tree_b.root_hex());
}

#[test]
fn flipping_one_leaf_byte_changes_the_root() {
    let baseline = build(&["Hello", "world", "3", "4"]);
    let mut altered_leaves = leaves(&["Hello", "world", "3", "4"]);
    altered_leaves[1][0] ^= 0x01;
    let altered = MerkleTree::new(&altered_leaves).unwrap();
    assert_ne!(baseline.root(), altered.root());
}

#[test]
fn every_real_leaf_proves_and_verifies() {
    for values in [
        vec!["Hello"],
        vec!["Hello", "world"],
        vec!["Hello", "world", "3"],
        vec!["Hello", "world", "3", "4"],
        vec!["a", "b", "c", "d", "e"],
    ] {
        let tree = build(&values);
        for value in &values {
            let proof = tree.compute_merkle_proof(value.as_bytes()).unwrap();
            assert!(MerkleTree::verify_merkle_proof(
                value.as_bytes(),
                &proof,
                tree.root()
            ));
        }
    }
}

#[test]
fn wrong_claimed_leaf_fails_verification() {
    let tree = build(&["Hello", "world", "3", "4"]);
    let proof = tree.compute_merkle_proof(b"world").unwrap();
    assert!(!MerkleTree::verify_merkle_proof(b"mallory", &proof, tree.root()));
    assert!(!MerkleTree::verify_merkle_proof(b"Hello", &proof, tree.root()));
}

#[test]
fn altered_sibling_or_side_fails_verification() {
    let tree = build(&["Hello", "world", "3", "4"]);
    let proof = tree.compute_merkle_proof(b"world").unwrap();

    let mut flipped_byte = MerkleProof {
        index: proof.index,
        siblings: proof.siblings.clone(),
    };
    flipped_byte.siblings[0].0[0] ^= 0x01;
    assert!(!MerkleTree::verify_merkle_proof(b"world", &flipped_byte, tree.root()));

    let mut flipped_side = MerkleProof {
        index: proof.index,
        siblings: proof.siblings.clone(),
    };
    flipped_side.siblings[1].1 = match flipped_side.siblings[1].1 {
        Side::Left => Side::Right,
        Side::Right => Side::Left,
    };
    assert!(!MerkleTree::verify_merkle_proof(b"world", &flipped_side, tree.root()));

    let truncated = MerkleProof {
        index: proof.index,
        siblings: proof.siblings[..1].to_vec(),
    };
    assert!(!MerkleTree::verify_merkle_proof(b"world", &truncated, tree.root()));
}

#[test]
fn proof_from_another_tree_fails_verification() {
    let tree = build(&["Hello", "world", "3", "4"]);
    let other = build(&["w", "x", "y", "z"]);
    let proof = other.compute_merkle_proof(b"x").unwrap();
    assert!(!MerkleTree::verify_merkle_proof(b"x", &proof, tree.root()));
}

#[test]
fn single_leaf_tree_degenerates_to_its_own_hash() {
    let tree = build(&["Hello"]);
    assert_eq!(tree.levels(), 1);
    assert_eq!(tree.digest_count(), 1);
    assert_eq!(tree.root(), &h(b"Hello"));
    let proof = tree.compute_merkle_proof(b"Hello").unwrap();
    assert_eq!(proof.index, 0);
    assert!(proof.siblings.is_empty());
    assert!(MerkleTree::verify_merkle_proof(b"Hello", &proof, tree.root()));
}

#[test]
fn scenario_four_leaves() {
    let tree = build(&["Hello", "world", "3", "4"]);
    assert_eq!(tree.leaf_count(), 4);
    assert_eq!(tree.levels(), 3);

    let expected_root = h2(
        &h2(&h(b"Hello"), &h(b"world")),
        &h2(&h(b"3"), &h(b"4")),
    );
    assert_eq!(tree.root(), &expected_root);

    let proof = tree.compute_merkle_proof(b"world").unwrap();
    assert_eq!(proof.index, 1);
    assert_eq!(proof.siblings.len(), 2);
    assert_eq!(proof.siblings[0].0, h(b"Hello"));
    assert_eq!(proof.siblings[0].1, Side::Left);
    assert_eq!(proof.siblings[1].0, h2(&h(b"3"), &h(b"4")));
    assert_eq!(proof.siblings[1].1, Side::Right);

    assert!(MerkleTree::verify_merkle_proof(b"world", &proof, tree.root()));
    assert!(!MerkleTree::verify_merkle_proof(b"mallory", &proof, tree.root()));
}

#[test]
fn scenario_three_leaves_with_padding() {
    let tree = build(&["Hello", "world", "3"]);
    assert_eq!(tree.leaf_count(), 3);
    assert_eq!(tree.levels(), 3);
    assert_eq!(tree.digest_count(), 7);

    // The fourth leaf slot holds the digest of empty input.
    let padding = h(b"");
    assert_eq!(tree.digest_hex(3), Some(hex::encode(&padding)));

    let expected_root = h2(
        &h2(&h(b"Hello"), &h(b"world")),
        &h2(&h(b"3"), &padding),
    );
    assert_eq!(tree.root(), &expected_root);

    // The proof for "3" leans on the padding leaf as its first sibling.
    let proof = tree.compute_merkle_proof(b"3").unwrap();
    assert_eq!(proof.index, 2);
    assert_eq!(proof.siblings.len(), 2);
    assert_eq!(proof.siblings[0].0, padding);
    assert_eq!(proof.siblings[0].1, Side::Right);
    assert!(MerkleTree::verify_merkle_proof(b"3", &proof, tree.root()));
}

#[test]
fn absent_value_is_not_found() {
    let tree = build(&["Hello", "world", "3"]);
    let result = tree.compute_merkle_proof(b"mallory");
    assert!(matches!(result, Err(MerkleError::LeafNotFound)));
    // The padding digest itself is stored past the real leaves, so even the
    // empty value, whose hash equals the padding digest, is not matched here.
    let empty_result = tree.compute_merkle_proof(b"");
    assert!(matches!(empty_result, Err(MerkleError::LeafNotFound)));
}

#[test]
fn empty_value_as_real_leaf_is_provable() {
    let tree = build(&["Hello", ""]);
    let proof = tree.compute_merkle_proof(b"").unwrap();
    assert_eq!(proof.index, 1);
    assert!(MerkleTree::verify_merkle_proof(b"", &proof, tree.root()));
}

#[test]
fn duplicate_leaves_resolve_to_the_lowest_index() {
    let tree = build(&["same", "same", "other", "same"]);
    let proof = tree.compute_merkle_proof(b"same").unwrap();
    assert_eq!(proof.index, 0);
    assert!(MerkleTree::verify_merkle_proof(b"same", &proof, tree.root()));
}

#[test]
fn hex_rendering_matches_the_digests() {
    let tree = build(&["Hello", "world", "3", "4"]);
    assert_eq!(tree.root_hex(), hex::encode(tree.root()));
    assert_eq!(tree.digest_hex(0), Some(hex::encode(&h(b"Hello"))));
    assert_eq!(tree.digest_hex(6), Some(tree.root_hex()));
    assert_eq!(tree.digest_hex(7), None);
    // A known rendering, fixed once by hand.
    let single = MerkleTree::new(&vec![vec![0x00u8, 0xffu8]]).unwrap();
    assert_eq!(single.root_hex(), hex::encode(&h(&[0x00, 0xff])));
    assert_eq!(hex::encode(&[0x00u8, 0xffu8, 0x1au8]), "00ff1a");
}
