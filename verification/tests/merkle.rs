use merkle_tree::digest_from_hex;
use merkle_tree::digest_of;
use merkle_tree::digest_of_pair;
use merkle_tree::digest_to_hex;
use merkle_tree::verify;
use merkle_tree::InclusionProof;
use merkle_tree::MerkleError;
use merkle_tree::MerkleTree;
use merkle_tree::ProofEntry;
use merkle_tree::Side;
use sha2::Digest;

fn blocks(strs: &[&str]) -> Vec<Vec<u8>> {
    strs.iter().map(|s| s.as_bytes().to_vec()).collect()
}

#[test]
fn test_merkle_root_consistency() {
    let data1 = blocks(&["a", "b", "c", "d"]);
    let tree1 = MerkleTree::new(data1);

    let data2 = blocks(&["a", "b", "c", "d"]);
    let tree2 = MerkleTree::new(data2);

    assert_eq!(tree1.root_hash(), tree2.root_hash());
}

#[test]
fn test_merkle_root_changes_on_data_change() {
    let data1 = blocks(&["a", "b", "c", "d"]);
    let tree1 = MerkleTree::new(data1);

    let data2 = blocks(&["a", "b", "x", "d"]);
    let tree2 = MerkleTree::new(data2);

    assert_ne!(tree1.root_hash(), tree2.root_hash());
}

#[test]
fn test_merkle_root_with_odd_number_of_leaves() {
    let data = blocks(&["a", "b", "c"]);
    let tree = MerkleTree::new(data);
    assert!(!tree.root_hash().unwrap().is_empty());
}

#[test]
fn test_single_element_merkle_tree() {
    let data = blocks(&["only"]);
    let tree = MerkleTree::new(data);
    assert_eq!(tree.root_hash(), Some(digest_of(b"only")));
}

#[test]
fn balanced_four_block_root_formula() {
    let tree = MerkleTree::new(blocks(&["a", "b", "c", "d"]));
    let expected = digest_of_pair(
        &digest_of_pair(&digest_of(b"a"), &digest_of(b"b")),
        &digest_of_pair(&digest_of(b"c"), &digest_of(b"d")),
    );
    assert_eq!(tree.root_hash(), Some(expected));
}

#[test]
fn odd_three_block_root_promotes_last_leaf() {
    let tree = MerkleTree::new(blocks(&["a", "b", "c"]));
    let expected = digest_of_pair(
        &digest_of_pair(&digest_of(b"a"), &digest_of(b"b")),
        &digest_of(b"c"),
    );
    assert_eq!(tree.root_hash(), Some(expected));
}

#[test]
fn empty_tree_has_no_root() {
    let tree = MerkleTree::new(Vec::new());
    assert_eq!(tree.root_hash(), None);
}

#[test]
fn empty_tree_refuses_every_proof_request() {
    let tree = MerkleTree::new(Vec::new());
    assert_eq!(tree.prove(0).unwrap_err(), MerkleError::InvalidIndex);
}

#[test]
fn out_of_range_index_is_an_error() {
    let tree = MerkleTree::new(blocks(&["a", "b", "c", "d"]));
    assert_eq!(tree.prove(4).unwrap_err(), MerkleError::InvalidIndex);
    assert!(tree.prove(3).is_ok());
}

#[test]
fn round_trip_proofs_verify_for_every_leaf() {
    let names = ["a", "b", "c", "d", "e", "f"];
    for n in 1..=names.len() {
        let data: Vec<&str> = names[..n].to_vec();
        let tree = MerkleTree::new(blocks(&data));
        let root = tree.root_hash().unwrap();
        for (i, block) in data.iter().enumerate() {
            let proof = tree.prove(i).unwrap();
            assert!(verify(block.as_bytes(), &proof, &root));
        }
    }
}

#[test]
fn promoted_leaf_has_shorter_proof() {
    let tree = MerkleTree::new(blocks(&["a", "b", "c"]));
    // Leaves `a` and `b` are paired twice; leaf `c` is promoted past level 0
    // and joins the path only at the top.
    assert_eq!(tree.prove(0).unwrap().entries.len(), 2);
    assert_eq!(tree.prove(1).unwrap().entries.len(), 2);
    assert_eq!(tree.prove(2).unwrap().entries.len(), 1);
}

#[test]
fn single_block_proof_is_empty() {
    let tree = MerkleTree::new(blocks(&["only"]));
    let proof = tree.prove(0).unwrap();
    assert_eq!(proof.entries.len(), 0);
    let root = tree.root_hash().unwrap();
    assert!(verify(b"only", &proof, &root));
}

#[test]
fn wrong_data_is_rejected() {
    let tree = MerkleTree::new(blocks(&["a", "b", "c", "d"]));
    let root = tree.root_hash().unwrap();
    let proof = tree.prove(2).unwrap();
    assert!(!verify(b"x", &proof, &root));
}

#[test]
fn mutated_sibling_digest_is_rejected() {
    let tree = MerkleTree::new(blocks(&["a", "b", "c", "d"]));
    let root = tree.root_hash().unwrap();
    for level in 0..2 {
        let mut proof = tree.prove(1).unwrap();
        proof.entries[level].sibling[7] ^= 0x01;
        assert!(!verify(b"b", &proof, &root));
    }
}

#[test]
fn flipped_side_flag_is_rejected() {
    let tree = MerkleTree::new(blocks(&["a", "b", "c", "d"]));
    let root = tree.root_hash().unwrap();
    for level in 0..2 {
        let mut proof = tree.prove(1).unwrap();
        proof.entries[level].side = match proof.entries[level].side {
            Side::Left => Side::Right,
            Side::Right => Side::Left,
        };
        assert!(!verify(b"b", &proof, &root));
    }
}

#[test]
fn mutated_root_is_rejected() {
    let tree = MerkleTree::new(blocks(&["a", "b", "c", "d"]));
    let mut root = tree.root_hash().unwrap();
    let proof = tree.prove(0).unwrap();
    root[0] ^= 0x80;
    assert!(!verify(b"a", &proof, &root));
}

#[test]
fn tree_verify_replays_parallel_sequences() {
    let tree = MerkleTree::new(blocks(&["a", "b", "c", "d", "e"]));
    for (i, block) in ["a", "b", "c", "d", "e"].iter().enumerate() {
        let proof = tree.prove(i).unwrap();
        let sibs: Vec<Vec<u8>> = proof.entries.iter().map(|e| e.sibling.clone()).collect();
        let flags: Vec<bool> = proof.entries.iter().map(|e| e.side == Side::Left).collect();
        assert!(tree.verify(block.as_bytes(), &sibs, &flags));
    }
}

#[test]
fn tree_verify_rejects_mismatched_lengths_and_empty_tree() {
    let tree = MerkleTree::new(blocks(&["a", "b"]));
    let sib = digest_of(b"b");
    assert!(!tree.verify(b"a", &vec![sib.clone()], &vec![]));
    let empty = MerkleTree::new(Vec::new());
    assert!(!empty.verify(b"a", &vec![sib], &vec![false]));
}

#[test]
fn handmade_proof_verifies_against_computed_root() {
    // The verifier needs no tree at all: replay a two-level path by hand.
    let h_a = digest_of(b"a");
    let h_b = digest_of(b"b");
    let h_c = digest_of(b"c");
    let h_d = digest_of(b"d");
    let root = digest_of_pair(&digest_of_pair(&h_a, &h_b), &digest_of_pair(&h_c, &h_d));
    let proof = InclusionProof {
        entries: vec![
            ProofEntry { sibling: h_d, side: Side::Right },
            ProofEntry { sibling: digest_of_pair(&h_a, &h_b), side: Side::Left },
        ],
    };
    assert!(verify(b"c", &proof, &root));
}

#[test]
fn digest_of_matches_sha256() {
    assert_eq!(digest_of(b"a"), sha2::Sha256::digest(b"a").to_vec());
    assert_eq!(digest_of(b""), sha2::Sha256::digest(b"").to_vec());
}

#[test]
fn digest_of_pair_concatenates_left_then_right() {
    let left = digest_of(b"left");
    let right = digest_of(b"right");
    let mut joined = left.clone();
    joined.extend_from_slice(&right);
    assert_eq!(
        digest_of_pair(&left, &right),
        sha2::Sha256::digest(&joined).to_vec()
    );
    assert_ne!(digest_of_pair(&left, &right), digest_of_pair(&right, &left));
}

#[test]
fn hex_text_of_known_digest() {
    assert_eq!(
        digest_to_hex(&digest_of(b"abc")),
        "ba7816bf8f01cfea414140de5dae2223b00361a396177a9cb410ff61f20015ad"
    );
}

#[test]
fn hex_text_matches_reference_encoder() {
    let d = digest_of(b"hello");
    assert_eq!(digest_to_hex(&d), hex::encode(&d));
    assert_eq!(digest_to_hex(&vec![0x00, 0xab, 0x5f]), "00ab5f");
    assert_eq!(digest_to_hex(&Vec::new()), "");
}

#[test]
fn hex_text_parses_back() {
    let d = digest_of(b"round trip");
    assert_eq!(digest_from_hex(&digest_to_hex(&d)), Some(d));
    assert_eq!(digest_from_hex("00ff10"), Some(vec![0x00, 0xff, 0x10]));
    assert_eq!(digest_from_hex(""), Some(Vec::new()));
}

#[test]
fn hex_parse_rejects_malformed_text() {
    assert_eq!(digest_from_hex("abc"), None); // odd length
    assert_eq!(digest_from_hex("AB"), None); // uppercase is not produced here
    assert_eq!(digest_from_hex("zz"), None); // not hexadecimal
}
