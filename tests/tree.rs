use curve25519_dalek::scalar::Scalar;
use rand::rngs::OsRng;
use sparse_merkle::circuit::{membership_gates, selector_bits, Gate, Wire};
use sparse_merkle::digest::{Digest, HashParams};
use sparse_merkle::tree::{leaf_first_order, TreeError, VanillaSparseMerkleTree, TREE_DEPTH};

fn params() -> HashParams {
    HashParams::new(b"sparse-merkle-node".to_vec())
}

fn scalar_digest(s: &Scalar) -> Digest {
    Digest::from_bytes(s.to_bytes())
}

fn small(i: u32) -> Digest {
    scalar_digest(&Scalar::from(i))
}

/// The low 32 bits of a scalar's canonical encoding: its position in the tree.
fn low_index(d: &Digest) -> u32 {
    u32::from_le_bytes([d.bytes[0], d.bytes[1], d.bytes[2], d.bytes[3]])
}

fn proof_of(tree: &VanillaSparseMerkleTree, idx: u32) -> (Digest, Vec<Digest>) {
    let mut proof = Some(Vec::new());
    let leaf = tree.get(idx, &mut proof).unwrap();
    (leaf, proof.unwrap())
}

fn filled_tree(last: u32) -> VanillaSparseMerkleTree {
    let mut tree = VanillaSparseMerkleTree::new(params());
    for i in 1..=last {
        tree.update(i, small(i)).unwrap();
    }
    tree
}

#[test]
fn test_vanilla_sparse_merkle_tree() {
    let mut test_rng = OsRng;
    let mut tree = VanillaSparseMerkleTree::new(params());

    for i in 1..10u32 {
        let s = small(i);
        tree.update(i, s).unwrap();
    }

    for i in 1..10u32 {
        let s = small(i);
        assert_eq!(Ok(s), tree.get(i, &mut None));
        let mut proof = Some(Vec::new());
        assert_eq!(Ok(s), tree.get(i, &mut proof));
        let proof_vec = proof.unwrap();
        assert!(tree.verify_proof(i, &s, &proof_vec, None));
        let root = tree.root;
        assert!(tree.verify_proof(i, &s, &proof_vec, Some(&root)));
    }

    let kvs: Vec<(Digest, Digest)> = (0..100)
        .map(|_| {
            (
                scalar_digest(&Scalar::random(&mut test_rng)),
                scalar_digest(&Scalar::random(&mut test_rng)),
            )
        })
        .collect();
    for i in 0..kvs.len() {
        tree.update(low_index(&kvs[i].0), kvs[i].1).unwrap();
    }

    for i in 0..kvs.len() {
        assert_eq!(Ok(kvs[i].1), tree.get(low_index(&kvs[i].0), &mut None));
    }
}

#[test]
#[allow(non_snake_case)]
fn test_VSMT_Verif() {
    let tree = filled_tree(10);
    let k: u32 = 7;
    let (leaf, merkle_proof_vec) = proof_of(&tree, k);
    assert_eq!(leaf, small(k));
    assert!(tree.verify_proof(k, &small(k), &merkle_proof_vec, None));
    let root = tree.root;
    assert!(tree.verify_proof(k, &small(k), &merkle_proof_vec, Some(&root)));

    // The circuit's inputs: selector bits and siblings, both leaf to root.
    let bits = selector_bits(k, tree.depth);
    assert_eq!(bits.len(), 32);
    assert_eq!(&bits[0..4], &[true, true, true, false]);
    assert!(bits[4..].iter().all(|b| !*b));
    let siblings = leaf_first_order(&merkle_proof_vec);
    assert_eq!(siblings.len(), 32);
    assert_eq!(siblings[0], merkle_proof_vec[31]);
}

#[test]
fn concrete_scenario_depth_32() {
    let tree = filled_tree(9);
    assert_eq!(tree.depth, 32);
    let (leaf, proof) = proof_of(&tree, 7);
    assert_eq!(leaf, small(7));
    assert_eq!(proof.len(), 32);
    assert!(tree.verify_proof(7, &small(7), &proof, None));
    assert!(!tree.verify_proof(7, &small(8), &proof, None));
}

#[test]
fn round_trip_latest_update_wins() {
    let mut tree = filled_tree(9);
    tree.update(5, small(500)).unwrap();
    tree.update(6, small(600)).unwrap();
    tree.update(5, small(501)).unwrap();
    assert_eq!(tree.get(5, &mut None), Ok(small(501)));
    assert_eq!(tree.get(6, &mut None), Ok(small(600)));
    for i in [1u32, 2, 3, 4, 7, 8, 9] {
        assert_eq!(tree.get(i, &mut None), Ok(small(i)));
    }
    assert_eq!(tree.get(10, &mut None), Ok(Digest::zero()));
}

#[test]
fn extreme_indices() {
    let mut tree = VanillaSparseMerkleTree::new(params());
    tree.update(0, small(11)).unwrap();
    tree.update(u32::MAX, small(12)).unwrap();
    assert_eq!(tree.get(0, &mut None), Ok(small(11)));
    assert_eq!(tree.get(u32::MAX, &mut None), Ok(small(12)));
    assert_eq!(tree.get(1, &mut None), Ok(Digest::zero()));
    assert_eq!(tree.get(u32::MAX - 1, &mut None), Ok(Digest::zero()));
}

#[test]
fn proof_soundness_until_path_changes() {
    let mut tree = filled_tree(9);
    let (leaf, proof) = proof_of(&tree, 3);
    assert!(tree.verify_proof(3, &leaf, &proof, None));
    // An update far away changes the root, so the old proof no longer matches it.
    tree.update(1 << 31, small(77)).unwrap();
    assert!(!tree.verify_proof(3, &leaf, &proof, None));
    let (leaf2, proof2) = proof_of(&tree, 3);
    assert_eq!(leaf2, leaf);
    assert!(tree.verify_proof(3, &leaf2, &proof2, None));
}

#[test]
fn proof_rejection() {
    let tree = filled_tree(9);
    let (leaf, proof) = proof_of(&tree, 7);
    assert!(tree.verify_proof(7, &leaf, &proof, None));
    assert!(!tree.verify_proof(7, &small(8), &proof, None));
    assert!(!tree.verify_proof(6, &leaf, &proof, None));
    assert!(!tree.verify_proof(7 | (1 << 31), &leaf, &proof, None));
    for i in 0..proof.len() {
        let mut altered = proof.clone();
        altered[i].bytes[0] ^= 1;
        assert!(!tree.verify_proof(7, &leaf, &altered, None), "sibling {} altered", i);
    }
}

#[test]
fn verify_against_given_root() {
    let old_tree = filled_tree(8);
    let old_root = old_tree.root;
    let (leaf, proof) = proof_of(&old_tree, 2);
    let tree = filled_tree(9);
    assert!(!tree.verify_proof(2, &leaf, &proof, None));
    assert!(tree.verify_proof(2, &leaf, &proof, Some(&old_root)));
}

#[test]
fn fresh_tree_root_is_self_folded_empty_leaf() {
    let p = params();
    let tree = VanillaSparseMerkleTree::new(params());
    let mut x = Digest::zero();
    for _ in 0..TREE_DEPTH {
        x = p.hash_pair(&x, &x);
    }
    assert_eq!(tree.root, x);
    let (leaf, proof) = proof_of(&tree, 12345);
    assert_eq!(leaf, Digest::zero());
    assert_eq!(proof.len(), 32);
    assert!(tree.verify_proof(12345, &leaf, &proof, None));
}

#[test]
fn orders_are_reverses() {
    let tree = filled_tree(9);
    let (_, root_first) = proof_of(&tree, 4);
    let leaf_first = leaf_first_order(&root_first);
    for i in 0..32 {
        assert_eq!(leaf_first[i], root_first[31 - i]);
        assert_eq!(root_first[i], leaf_first[31 - i]);
    }
    assert_eq!(leaf_first_order(&leaf_first), root_first);
}

#[test]
fn determinism() {
    let p = params();
    let a = small(3);
    let b = small(4);
    assert_eq!(p.hash_pair(&a, &b), params().hash_pair(&a, &b));
    assert_ne!(p.hash_pair(&a, &b), p.hash_pair(&b, &a));
    assert_ne!(p.hash_pair(&a, &b), a);
    assert_ne!(p.hash_pair(&a, &b), b);
    assert_ne!(
        p.hash_pair(&a, &b),
        HashParams::new(b"other".to_vec()).hash_pair(&a, &b)
    );

    let mut t1 = filled_tree(5);
    let t2 = filled_tree(5);
    assert_eq!(t1.root, t2.root);
    let r1 = t1.update(9, small(90)).unwrap();
    let r2 = t1.update(9, small(90)).unwrap();
    assert_eq!(r1, r2);
    assert_eq!(t1.root, r1);
}

#[test]
fn update_returns_new_root() {
    let mut tree = VanillaSparseMerkleTree::new(params());
    let before = tree.root;
    let r = tree.update(42, small(1)).unwrap();
    assert_ne!(r, before);
    assert_eq!(tree.root, r);
}

#[test]
fn missing_node_is_reported() {
    let mut tree = filled_tree(3);
    tree.root = small(999);
    let mut proof = Some(vec![small(1)]);
    assert_eq!(tree.get(1, &mut proof), Err(TreeError::MissingNode));
    assert_eq!(proof, Some(vec![small(1)]));
    assert_eq!(tree.update(1, small(2)), Err(TreeError::MissingNode));
    assert_eq!(tree.root, small(999));
}

#[test]
fn get_appends_to_given_vector() {
    let tree = filled_tree(4);
    let (_, fresh) = proof_of(&tree, 2);
    let mut proof = Some(vec![small(1)]);
    tree.get(2, &mut proof).unwrap();
    let got = proof.unwrap();
    assert_eq!(got.len(), 33);
    assert_eq!(got[0], small(1));
    assert_eq!(&got[1..], &fresh[..]);
}

#[test]
fn digest_equality() {
    let a = small(5);
    let mut b = a;
    assert!(a.same_as(&b));
    b.bytes[31] = 1;
    assert!(!a.same_as(&b));
}

#[test]
fn default_subtree_table() {
    let p = params();
    let tree = VanillaSparseMerkleTree::new(params());
    assert_eq!(tree.default_hash(0), Digest::zero());
    let z = Digest::zero();
    let one = p.hash_pair(&z, &z);
    assert_eq!(tree.default_hash(1), one);
    assert_eq!(tree.default_hash(2), p.hash_pair(&one, &one));
    assert_eq!(tree.default_hash(32), tree.root);
}

#[test]
fn configurable_depth() {
    let mut tree = VanillaSparseMerkleTree::with_depth(params(), 4);
    assert_eq!(tree.depth, 4);
    assert_eq!(tree.root, tree.default_hash(4));
    tree.update(3, small(30)).unwrap();
    tree.update(12, small(120)).unwrap();
    let (leaf, proof) = proof_of(&tree, 3);
    assert_eq!(leaf, small(30));
    assert_eq!(proof.len(), 4);
    assert!(tree.verify_proof(3, &leaf, &proof, None));
    assert_eq!(tree.get(12, &mut None), Ok(small(120)));
    // Only the low four bits select a leaf in a tree of depth 4.
    assert_eq!(tree.get(16 + 3, &mut None), Ok(small(30)));
    assert_eq!(tree.get(5, &mut None), Ok(Digest::zero()));
}

#[test]
fn zero_depth_tree_is_its_leaf() {
    let mut tree = VanillaSparseMerkleTree::with_depth(params(), 0);
    assert_eq!(tree.root, Digest::zero());
    assert_eq!(tree.update(9, small(5)), Ok(small(5)));
    assert_eq!(tree.get(1, &mut None), Ok(small(5)));
}

#[test]
fn selector_bits_leaf_to_root() {
    assert_eq!(selector_bits(0b1011, 5), vec![true, true, false, true, false]);
    assert_eq!(selector_bits(u32::MAX, 32), vec![true; 32]);
    assert!(selector_bits(123, 0).is_empty());
    let top = selector_bits(1 << 31, 32);
    assert!(top[31]);
    assert!(top[..31].iter().all(|b| !*b));
}

#[test]
fn membership_gate_order() {
    let gates = membership_gates(2);
    assert_eq!(gates.len(), 11);
    assert_eq!(gates[0], Gate::MultiplyOneMinus(Wire::Bit(0), Wire::Leaf));
    assert_eq!(gates[1], Gate::Multiply(Wire::Bit(0), Wire::Sibling(0)));
    assert_eq!(gates[2], Gate::Multiply(Wire::Bit(0), Wire::Leaf));
    assert_eq!(gates[3], Gate::MultiplyOneMinus(Wire::Bit(0), Wire::Sibling(0)));
    assert_eq!(
        gates[4],
        Gate::HashSums(Wire::Product(0), Wire::Product(1), Wire::Product(2), Wire::Product(3))
    );
    assert_eq!(gates[5], Gate::MultiplyOneMinus(Wire::Bit(1), Wire::Hashed(0)));
    assert_eq!(gates[7], Gate::Multiply(Wire::Bit(1), Wire::Hashed(0)));
    assert_eq!(
        gates[9],
        Gate::HashSums(Wire::Product(4), Wire::Product(5), Wire::Product(6), Wire::Product(7))
    );
    assert_eq!(gates[10], Gate::ConstrainRoot(Wire::Hashed(1)));
    assert_eq!(membership_gates(0), vec![Gate::ConstrainRoot(Wire::Leaf)]);
    assert_eq!(membership_gates(32).len(), 161);
}

/// Evaluates the membership gates over the scalar field with a simple hash and
/// compares the constrained wire with the plain leaf-first fold.
#[test]
fn membership_gates_evaluate_to_fold() {
    let h = |a: Scalar, b: Scalar| a * Scalar::from(7u32) + b * Scalar::from(13u32) + Scalar::from(1u32);
    let depth = 6;
    let idx: u32 = 0b101101;
    let leaf = Scalar::from(99u32);
    let bits: Vec<Scalar> = selector_bits(idx, depth).iter().map(|b| Scalar::from(*b as u8)).collect();
    let sibs: Vec<Scalar> = (0..depth as u32).map(|i| Scalar::from(1000 + i)).collect();

    let mut products: Vec<Scalar> = Vec::new();
    let mut hashes: Vec<Scalar> = Vec::new();
    let mut constrained = None;
    for gate in membership_gates(depth) {
        let v = |w: Wire, products: &Vec<Scalar>, hashes: &Vec<Scalar>| match w {
            Wire::One => Scalar::from(1u32),
            Wire::Leaf => leaf,
            Wire::Bit(i) => bits[i],
            Wire::Sibling(i) => sibs[i],
            Wire::Product(k) => products[k],
            Wire::Hashed(i) => hashes[i],
        };
        match gate {
            Gate::MultiplyOneMinus(a, b) => {
                let out = (Scalar::from(1u32) - v(a, &products, &hashes)) * v(b, &products, &hashes);
                products.push(out);
            }
            Gate::Multiply(a, b) => {
                let out = v(a, &products, &hashes) * v(b, &products, &hashes);
                products.push(out);
            }
            Gate::HashSums(a, b, c, d) => {
                let l = v(a, &products, &hashes) + v(b, &products, &hashes);
                let r = v(c, &products, &hashes) + v(d, &products, &hashes);
                hashes.push(h(l, r));
            }
            Gate::ConstrainRoot(w) => constrained = Some(v(w, &products, &hashes)),
        }
    }

    let mut p = leaf;
    for i in 0..depth {
        p = if (idx >> i) & 1 == 1 { h(sibs[i], p) } else { h(p, sibs[i]) };
    }
    assert_eq!(constrained, Some(p));
    assert_eq!(products.len(), 4 * depth);
    assert_eq!(hashes.len(), depth);
}
