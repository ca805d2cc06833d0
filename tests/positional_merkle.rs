use positional_merkle::{calculate_balanced_root, tree_height, Digest, MerkleError, Node, PositionalMerkleTree};
use rs_merkle::{Hasher, MerkleTree};
use std::collections::HashSet;

#[derive(Clone)]
struct Keccak256;

impl Hasher for Keccak256 {
    type Hash = [u8; 32];

    fn hash(data: &[u8]) -> [u8; 32] {
        ethers::utils::keccak256(data)
    }
}

fn random_hash() -> Digest {
    rand::random::<[u8; 32]>()
}

fn random_leaves(n: usize) -> Vec<Digest> {
    (0..n).map(|_| random_hash()).collect()
}

fn keccak_pair(a: &Digest, b: &Digest) -> Digest {
    ethers::utils::keccak256([a.as_slice(), b.as_slice()].concat())
}

fn prove_and_verify(leaves: &[Digest], indices: &[usize]) -> bool {
    let tree = PositionalMerkleTree::new(leaves).unwrap();
    let proof = tree.generate_multi_proof(indices).unwrap();
    let values: Vec<Digest> = indices.iter().map(|&i| leaves[i]).collect();
    PositionalMerkleTree::verify_multi_proof(tree.root(), indices, &values, &proof, tree.height()).unwrap()
}

fn flatten(proof: &[Vec<Node>]) -> Vec<Node> {
    let mut items = vec![];
    for layer in proof.iter().rev() {
        let mut layer = layer.clone();
        layer.sort_by_key(|node| node.position);
        items.extend_from_slice(&layer);
    }
    items
}

fn proven_leaves(leaves: &[Digest], indices: &[usize]) -> Vec<Node> {
    let height = tree_height(leaves.len() as u64);
    let mut nodes: Vec<Node> = indices
        .iter()
        .map(|&i| Node { hash: leaves[i], position: 2usize.pow(height as u32) + i })
        .collect();
    nodes.sort_by_key(|node| node.position);
    nodes
}

#[test]
fn test_unbalanced_tree() {
    let leaves = random_leaves(3);
    let tree = PositionalMerkleTree::new(&leaves).unwrap();
    let indices = vec![2];
    let proof = tree.generate_multi_proof(&indices).unwrap();
    let leaf_values = vec![leaves[2]];
    assert!(PositionalMerkleTree::verify_multi_proof(
        tree.root(),
        &indices,
        &leaf_values,
        &proof,
        tree.height()
    )
    .unwrap());
}

#[test]
fn test_unbalanced_tree_multiple_proofs() {
    let leaves = random_leaves(5);
    let tree = PositionalMerkleTree::new(&leaves).unwrap();
    let indices = vec![1, 3, 4];
    let proof = tree.generate_multi_proof(&indices).unwrap();
    let leaf_values: Vec<Digest> = indices.iter().map(|&i| leaves[i]).collect();
    assert!(PositionalMerkleTree::verify_multi_proof(
        tree.root(),
        &indices,
        &leaf_values,
        &proof,
        tree.height()
    )
    .unwrap());
}

#[test]
fn test_empty_tree() {
    assert!(matches!(PositionalMerkleTree::new(&[]), Err(MerkleError::EmptyTree)));
}

#[test]
fn test_single_leaf() {
    let leaf = random_hash();
    let tree = PositionalMerkleTree::new(&[leaf]).unwrap();
    assert_eq!(tree.root(), leaf);
}

#[test]
fn test_multi_proof() {
    let leaves = random_leaves(8);
    let tree = PositionalMerkleTree::new(&leaves).unwrap();
    let indices = vec![1, 4, 6];
    let proof = tree.generate_multi_proof(&indices).unwrap();
    let leaf_values: Vec<Digest> = indices.iter().map(|&i| leaves[i]).collect();
    assert!(PositionalMerkleTree::verify_multi_proof(
        tree.root(),
        &indices,
        &leaf_values,
        &proof,
        tree.height()
    )
    .unwrap());
}

#[test]
fn test_sorted_proof_layers() {
    let leaves = random_leaves(8);
    let tree = PositionalMerkleTree::new(&leaves).unwrap();
    let indices = vec![1, 4, 6];
    let proof = tree.generate_multi_proof(&indices).unwrap();
    for layer in proof.iter() {
        let positions: Vec<usize> = layer.iter().map(|n| n.position).collect();
        let mut sorted = positions.clone();
        sorted.sort();
        assert_eq!(positions, sorted, "Proof layer not sorted by position");
    }
}

#[test]
fn test_invalid_index() {
    let leaves = random_leaves(4);
    let tree = PositionalMerkleTree::new(&leaves).unwrap();
    assert!(matches!(tree.generate_multi_proof(&[5]), Err(MerkleError::InvalidIndex(5))));
}

#[test]
fn test_calculate_balanced_root() {
    let num_leaves = 600;
    let threshold = (num_leaves / 3) - 1;
    let leaves: Vec<Vec<u8>> = (0..num_leaves).map(|_| random_hash().to_vec()).collect();
    let leaf_hashes: Vec<[u8; 32]> = leaves.iter().map(ethers::utils::keccak256).collect();
    let tree = MerkleTree::<Keccak256>::from_leaves(&leaf_hashes);
    let mut indices = HashSet::new();
    while indices.len() < threshold {
        indices.insert(rand::random::<usize>() % num_leaves);
    }
    let indices: Vec<usize> = indices.into_iter().collect();
    let positional_tree = PositionalMerkleTree::new(&leaf_hashes).unwrap();
    let proof_items = flatten(&positional_tree.generate_multi_proof(&indices).unwrap());
    let proof_leaves = proven_leaves(&leaf_hashes, &indices);
    let root = calculate_balanced_root(&proof_items, &proof_leaves, leaves.len() as u64).unwrap();
    assert_eq!(root, tree.root().unwrap());
    assert_eq!(root, positional_tree.root());
}

#[test]
fn tree_height_values() {
    assert_eq!(tree_height(0), 0);
    assert_eq!(tree_height(1), 0);
    assert_eq!(tree_height(2), 1);
    assert_eq!(tree_height(3), 2);
    assert_eq!(tree_height(4), 2);
    assert_eq!(tree_height(5), 3);
    assert_eq!(tree_height(600), 10);
    assert_eq!(tree_height(1024), 10);
    assert_eq!(tree_height(1025), 11);
}

#[test]
fn three_leaf_root_and_promotion() {
    let leaves = random_leaves(3);
    let tree = PositionalMerkleTree::new(&leaves).unwrap();
    assert_eq!(tree.height(), 2);
    assert_eq!(tree.root(), keccak_pair(&keccak_pair(&leaves[0], &leaves[1]), &leaves[2]));
    let proof = tree.generate_multi_proof(&[2]).unwrap();
    assert_eq!(proof.len(), 2);
    assert!(proof[1].is_empty());
    assert_eq!(proof[0], vec![Node { hash: keccak_pair(&leaves[0], &leaves[1]), position: 2 }]);
}

#[test]
fn single_leaf_proof_is_empty() {
    let leaf = random_hash();
    let tree = PositionalMerkleTree::new(&[leaf]).unwrap();
    assert_eq!(tree.height(), 0);
    let proof = tree.generate_multi_proof(&[0]).unwrap();
    assert!(proof.iter().all(|layer| layer.is_empty()));
    assert!(PositionalMerkleTree::verify_multi_proof(leaf, &[0], &[leaf], &proof, 0).unwrap());
    assert_eq!(calculate_balanced_root(&[], &[Node { hash: leaf, position: 1 }], 1).unwrap(), leaf);
}

#[test]
fn index_one_past_the_end() {
    for n in 1..20 {
        let leaves = random_leaves(n);
        let tree = PositionalMerkleTree::new(&leaves).unwrap();
        assert!(matches!(tree.generate_multi_proof(&[0, n]), Err(MerkleError::InvalidIndex(i)) if i == n));
    }
}

#[test]
fn first_invalid_index_is_reported() {
    let tree = PositionalMerkleTree::new(&random_leaves(4)).unwrap();
    assert!(matches!(tree.generate_multi_proof(&[1, 9, 7]), Err(MerkleError::InvalidIndex(9))));
}

#[test]
fn round_trip_many_sizes() {
    for n in 1..40 {
        let leaves = random_leaves(n);
        let all: Vec<usize> = (0..n).collect();
        assert!(prove_and_verify(&leaves, &all));
        assert!(prove_and_verify(&leaves, &[n - 1]));
        assert!(prove_and_verify(&leaves, &[0]));
        let odd: Vec<usize> = (0..n).filter(|i| i % 3 == 1).collect();
        if !odd.is_empty() {
            assert!(prove_and_verify(&leaves, &odd));
        }
    }
}

#[test]
fn tampering_is_rejected() {
    let leaves = random_leaves(11);
    let tree = PositionalMerkleTree::new(&leaves).unwrap();
    let indices = vec![2, 7, 10];
    let proof = tree.generate_multi_proof(&indices).unwrap();
    let values: Vec<Digest> = indices.iter().map(|&i| leaves[i]).collect();
    let h = tree.height();
    let root = tree.root();
    assert!(PositionalMerkleTree::verify_multi_proof(root, &indices, &values, &proof, h).unwrap());

    let mut bad_root = root;
    bad_root[0] ^= 1;
    assert!(!PositionalMerkleTree::verify_multi_proof(bad_root, &indices, &values, &proof, h).unwrap());

    let mut bad_values = values.clone();
    bad_values[1][31] ^= 0x80;
    assert!(!PositionalMerkleTree::verify_multi_proof(root, &indices, &bad_values, &proof, h).unwrap());

    for l in 0..proof.len() {
        for j in 0..proof[l].len() {
            let mut bad_proof = proof.clone();
            bad_proof[l][j].hash[5] ^= 4;
            assert!(!PositionalMerkleTree::verify_multi_proof(root, &indices, &values, &bad_proof, h).unwrap());
        }
    }
}

#[test]
fn mismatched_lengths_are_invalid_proof() {
    let leaves = random_leaves(4);
    let tree = PositionalMerkleTree::new(&leaves).unwrap();
    let proof = tree.generate_multi_proof(&[1]).unwrap();
    let r = PositionalMerkleTree::verify_multi_proof(tree.root(), &[1], &[], &proof, tree.height());
    assert!(matches!(r, Err(MerkleError::InvalidProof(_))));
}

#[test]
fn proof_layers_exclude_proven_positions() {
    let leaves = random_leaves(13);
    let tree = PositionalMerkleTree::new(&leaves).unwrap();
    let indices = vec![0, 1, 5, 12];
    let proof = tree.generate_multi_proof(&indices).unwrap();
    let h = tree.height();
    assert_eq!(proof.len(), h);
    let mut covered: HashSet<usize> = indices.iter().map(|&i| (1 << h) + i).collect();
    for level in (0..h).rev() {
        let positions: Vec<usize> = proof[level].iter().map(|n| n.position).collect();
        assert!(positions.windows(2).all(|w| w[0] < w[1]));
        for p in &positions {
            assert!(!covered.contains(p));
        }
        covered = covered.iter().map(|p| p / 2).collect();
    }
}

#[test]
fn balanced_root_agrees_on_many_sizes() {
    for n in 1..70 {
        let leaves = random_leaves(n);
        let tree = PositionalMerkleTree::new(&leaves).unwrap();
        let reference = MerkleTree::<Keccak256>::from_leaves(&leaves).root().unwrap();
        assert_eq!(tree.root(), reference);
        let k = (n + 2) / 3;
        for start in 0..3usize.min(n) {
            let indices: Vec<usize> = (0..k.saturating_sub(1)).map(|j| (start + 3 * j) % n).collect();
            if indices.is_empty() {
                continue;
            }
            let proof = flatten(&tree.generate_multi_proof(&indices).unwrap());
            let proven = proven_leaves(&leaves, &indices);
            assert_eq!(calculate_balanced_root(&proof, &proven, n as u64).unwrap(), tree.root());
        }
    }
}

#[test]
fn balanced_root_missing_left_sibling() {
    let leaves = random_leaves(4);
    let lone = Node { hash: leaves[1], position: 5 };
    assert!(matches!(calculate_balanced_root(&[], &[lone], 4), Err(MerkleError::MissingLeftSibling(5))));
}

#[test]
fn balanced_root_without_leaves_is_invalid() {
    assert!(matches!(calculate_balanced_root(&[], &[], 4), Err(MerkleError::InvalidProof(_))));
}

#[test]
fn balanced_root_four_leaves_exact() {
    let leaves = random_leaves(4);
    let proof = vec![Node { hash: leaves[0], position: 4 }, Node { hash: keccak_pair(&leaves[2], &leaves[3]), position: 3 }];
    let proven = vec![Node { hash: leaves[1], position: 5 }];
    let expected = keccak_pair(&keccak_pair(&leaves[0], &leaves[1]), &keccak_pair(&leaves[2], &leaves[3]));
    assert_eq!(calculate_balanced_root(&proof, &proven, 4).unwrap(), expected);
}

#[test]
fn digest_eq_compares_bytes() {
    let a = random_hash();
    let mut b = a;
    assert!(positional_merkle::digest_eq(&a, &b));
    b[31] ^= 1;
    assert!(!positional_merkle::digest_eq(&a, &b));
}
