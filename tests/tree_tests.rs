use cmt::bytes::compare_bytes;
use cmt::concurrent::CartesianMerkleTree as SharedTree;
use cmt::hashing::{calculate_merkle_hash, find_priority, Hasher, Sha256Hasher};
use cmt::membership::{verify_proof, Proof};
use cmt::node::{rotate_left, rotate_right, TreeNode};
use cmt::tree::CartesianMerkleTree;
use std::cmp::Ordering;

fn key(i: u8) -> Vec<u8> {
    let mut k = vec![0u8; 32];
    k[31] = i;
    k
}

fn leaf(k: Vec<u8>) -> Box<TreeNode> {
    let priority = find_priority::<Sha256Hasher>(&k);
    let hash = calculate_merkle_hash::<Sha256Hasher>(&k, &[], &[]);
    Box::new(TreeNode { key: k, priority, value: vec![0u8], hash, left: None, right: None })
}

fn three_key_tree() -> CartesianMerkleTree {
    let mut t: CartesianMerkleTree = CartesianMerkleTree::new();
    t.insert(key(1), b"a".to_vec());
    t.insert(key(2), b"b".to_vec());
    t.insert(key(3), b"c".to_vec());
    t
}

#[test]
fn sha256_digest_of_abc() {
    let d = Sha256Hasher::hash(b"abc");
    let expected: Vec<u8> = vec![
        0xba, 0x78, 0x16, 0xbf, 0x8f, 0x01, 0xcf, 0xea, 0x41, 0x41, 0x40, 0xde, 0x5d, 0xae, 0x22, 0x23, 0xb0, 0x03,
        0x61, 0xa3, 0x96, 0x17, 0x7a, 0x9c, 0xb4, 0x10, 0xff, 0x61, 0xf2, 0x00, 0x15, 0xad,
    ];
    assert_eq!(d, expected);
}

#[test]
fn merkle_hash_sorts_child_hashes() {
    let expected: Vec<u8> = vec![
        235, 127, 254, 147, 45, 239, 105, 205, 169, 75, 47, 195, 3, 195, 49, 76, 137, 40, 140, 132, 151, 195, 152,
        202, 103, 93, 84, 185, 68, 185, 179, 109,
    ];
    assert_eq!(calculate_merkle_hash::<Sha256Hasher>(b"k", b"b", b"a"), expected);
    assert_eq!(calculate_merkle_hash::<Sha256Hasher>(b"k", b"a", b"b"), expected);
}

#[test]
fn leaf_hash_of_key_one() {
    let expected: Vec<u8> = vec![
        236, 73, 22, 221, 40, 252, 76, 16, 215, 142, 40, 124, 165, 217, 204, 81, 238, 26, 231, 60, 191, 222, 8, 198,
        179, 115, 36, 203, 250, 172, 139, 197,
    ];
    let mut t: CartesianMerkleTree = CartesianMerkleTree::new();
    t.insert(key(1), b"a".to_vec());
    assert_eq!(t.root_hash(), expected);
}

#[test]
fn priority_is_signed_big_endian_digest_prefix() {
    assert_eq!(find_priority::<Sha256Hasher>(&key(1)), -26205058509905670142095790706755253167i128);
    assert_eq!(find_priority::<Sha256Hasher>(&key(2)), -145675975947014812993491224028052207987i128);
    assert_eq!(find_priority::<Sha256Hasher>(&key(3)), -51733584020884458259515067933925843521i128);
}

#[test]
fn compare_bytes_is_lexicographic() {
    assert_eq!(compare_bytes(b"ab", b"b"), Ordering::Less);
    assert_eq!(compare_bytes(b"b", b"ab"), Ordering::Greater);
    assert_eq!(compare_bytes(b"ab", b"abc"), Ordering::Less);
    assert_eq!(compare_bytes(b"abc", b"abc"), Ordering::Equal);
    assert_eq!(compare_bytes(b"", b""), Ordering::Equal);
}

#[test]
fn insert_contains_remove() {
    let mut t = three_key_tree();
    assert!(t.contains_key(&key(1)));
    assert!(t.contains_key(&key(2)));
    assert!(t.contains_key(&key(3)));
    assert!(!t.contains_key(&key(4)));
    t.remove(&key(2));
    assert!(!t.contains_key(&key(2)));
    assert!(t.contains_key(&key(1)));
    assert!(t.contains_key(&key(3)));
    t.remove(&key(9));
    assert!(t.contains_key(&key(1)));
}

#[test]
fn removal_scenario_with_proofs() {
    let mut t = three_key_tree();
    let r1 = t.root_hash();
    let old_proof = t.generate_proof(&key(2));
    assert!(old_proof.existence);
    t.remove(&key(2));
    assert!(!t.contains_key(&key(2)));
    let r2 = t.root_hash();
    assert_ne!(r1, r2);
    let p3 = t.generate_proof(&key(3));
    assert!(verify_proof::<Sha256Hasher>(p3, key(3), r2.clone()));
    assert!(!verify_proof::<Sha256Hasher>(old_proof, key(2), r2));
}

#[test]
fn empty_tree_proof() {
    let t: CartesianMerkleTree = CartesianMerkleTree::new();
    let p = t.generate_proof(&key(7));
    assert!(!p.existence);
    assert!(p.nonexistence_key.is_none());
    assert!(p.prefix.is_empty());
    assert!(p.suffix[0].is_empty() && p.suffix[1].is_empty());
    assert!(t.root_hash().is_empty());
    assert!(verify_proof::<Sha256Hasher>(p, key(7), t.root_hash()));
}

#[test]
fn proof_of_root_key_is_accepted() {
    let t = three_key_tree();
    let p = t.generate_proof(&key(1));
    assert!(p.existence);
    assert!(p.prefix.is_empty());
    assert!(verify_proof::<Sha256Hasher>(p, key(1), t.root_hash()));
    let q = t.generate_proof(&key(1));
    assert!(!verify_proof::<Sha256Hasher>(q, key(1), vec![1u8, 2, 3]));
}

#[test]
fn proof_records_path_with_sibling_hashes() {
    let t = three_key_tree();
    let p = t.generate_proof(&key(2));
    assert!(p.existence);
    assert_eq!(p.prefix.len(), 2);
    assert_eq!(p.prefix[0].0, key(1));
    assert!(p.prefix[0].1.is_empty());
    assert_eq!(p.prefix[1].0, key(3));
    assert!(p.prefix[1].1.is_empty());
    assert!(p.nonexistence_key.is_none());
    assert!(verify_proof::<Sha256Hasher>(p, key(2), t.root_hash()));
}

#[test]
fn absent_key_proof_names_witness() {
    let t = three_key_tree();
    let p = t.generate_proof(&key(4));
    assert!(!p.existence);
    assert_eq!(p.prefix.len(), 1);
    assert_eq!(p.prefix[0].0, key(1));
    assert_eq!(p.nonexistence_key, Some(key(3)));
    assert_eq!(p.suffix[0], calculate_merkle_hash::<Sha256Hasher>(&key(2), &[], &[]));
    assert!(p.suffix[1].is_empty());
    assert!(verify_proof::<Sha256Hasher>(p, key(4), t.root_hash()));
}

#[test]
fn every_proof_replays_to_root() {
    let mut t: CartesianMerkleTree = CartesianMerkleTree::new();
    for i in (0..40u8).step_by(2) {
        t.insert(key(i), vec![i]);
    }
    t.remove(&key(10));
    let root = t.root_hash();
    for i in 0..42u8 {
        let p = t.generate_proof(&key(i));
        assert_eq!(p.existence, i % 2 == 0 && i < 40 && i != 10);
        assert!(verify_proof::<Sha256Hasher>(p, key(i), root.clone()));
    }
}

#[test]
fn malformed_absence_proof_is_rejected() {
    let p = Proof {
        prefix: vec![(key(1), vec![1u8])],
        suffix: [Vec::new(), Vec::new()],
        existence: false,
        nonexistence_key: None,
    };
    assert!(!verify_proof::<Sha256Hasher>(p, key(1), Vec::new()));
}

#[test]
fn same_keys_any_order_same_root() {
    let mut a: CartesianMerkleTree = CartesianMerkleTree::new();
    let mut b: CartesianMerkleTree = CartesianMerkleTree::new();
    for i in 0..20u8 {
        a.insert(key(i), vec![i as u8]);
    }
    for i in (0..20u8).rev() {
        b.insert(key(i), vec![i as u8]);
    }
    assert_eq!(a.root_hash(), b.root_hash());
    let mut c: CartesianMerkleTree = CartesianMerkleTree::new();
    for i in [7u8, 3, 19, 0, 11, 5, 2, 17, 13, 1, 4, 6, 8, 9, 10, 12, 14, 15, 16, 18] {
        c.insert(key(i), vec![i as u8]);
    }
    assert_eq!(a.root_hash(), c.root_hash());
}

#[test]
fn removal_restores_earlier_root() {
    let mut a: CartesianMerkleTree = CartesianMerkleTree::new();
    for i in 0..10u8 {
        a.insert(key(i), vec![1]);
    }
    let before = a.root_hash();
    a.insert(key(42), vec![2]);
    assert_ne!(a.root_hash(), before);
    a.remove(&key(42));
    assert_eq!(a.root_hash(), before);
    for i in 0..10u8 {
        a.remove(&key(i));
    }
    assert!(a.root_hash().is_empty());
}

#[test]
fn reinsert_keeps_root_hash() {
    let mut t = three_key_tree();
    let r = t.root_hash();
    t.insert(key(2), b"b".to_vec());
    assert_eq!(t.root_hash(), r);
    t.insert(key(2), b"other".to_vec());
    assert_eq!(t.root_hash(), r);
}

#[test]
fn rotations_swap_parent_and_child() {
    let mut x = leaf(key(1));
    x.right = Some(leaf(key(2)));
    let y = rotate_left::<Sha256Hasher>(x);
    assert_eq!(y.key, key(2));
    let nx = y.left.as_ref().unwrap();
    assert_eq!(nx.key, key(1));
    assert_eq!(nx.hash, calculate_merkle_hash::<Sha256Hasher>(&key(1), &[], &[]));
    assert_eq!(y.hash, calculate_merkle_hash::<Sha256Hasher>(&key(2), &nx.hash, &[]));
    let back = rotate_right::<Sha256Hasher>(y);
    assert_eq!(back.key, key(1));
    let ny = back.right.as_ref().unwrap();
    assert_eq!(ny.key, key(2));
    assert_eq!(back.hash, calculate_merkle_hash::<Sha256Hasher>(&key(1), &[], &ny.hash));
}

#[test]
fn nodes_compare_by_key() {
    let mut a = leaf(key(5));
    let b = leaf(key(5));
    a.value = vec![9];
    assert!(*a == *b);
    assert!(*a != *leaf(key(6)));
}

#[test]
fn shared_tree_matches_single_threaded() {
    let shared: SharedTree = SharedTree::new();
    let mut single: CartesianMerkleTree = CartesianMerkleTree::new();
    for i in 0..15u8 {
        shared.insert(key(i), vec![i as u8]);
        single.insert(key(i), vec![i as u8]);
    }
    shared.remove(&key(4));
    single.remove(&key(4));
    assert_eq!(shared.root_hash(), single.root_hash());
    assert!(shared.contains_key(&key(3)));
    assert!(!shared.contains_key(&key(4)));
    let p = shared.generate_proof(&key(4));
    assert!(!p.existence);
    let empty: SharedTree = SharedTree::new();
    let q = empty.generate_proof(&key(1));
    assert!(SharedTree::<Sha256Hasher>::verify_proof(q, key(1), empty.root_hash()));
}

#[test]
fn absence_proof_fails_once_key_is_present() {
    let t = three_key_tree();
    let p = t.generate_proof(&key(4));
    assert!(!p.existence);
    let mut u = three_key_tree();
    u.insert(key(4), b"d".to_vec());
    assert!(!verify_proof::<Sha256Hasher>(p, key(4), u.root_hash()));
}

#[test]
fn removing_absent_key_keeps_root_hash() {
    let mut t = three_key_tree();
    let r = t.root_hash();
    t.remove(&key(99));
    assert_eq!(t.root_hash(), r);
    assert!(t.contains_key(&key(1)) && t.contains_key(&key(2)) && t.contains_key(&key(3)));
}

#[test]
fn value_update_keeps_every_proof() {
    let mut t = three_key_tree();
    let before: Vec<Vec<(Vec<u8>, Vec<u8>)>> = (1..4u8)
        .map(|i| t.generate_proof(&key(i)).prefix.into_iter().map(|(k, h)| (k.to_vec(), h)).collect())
        .collect();
    t.insert(key(1), b"z".to_vec());
    let after: Vec<Vec<(Vec<u8>, Vec<u8>)>> = (1..4u8)
        .map(|i| t.generate_proof(&key(i)).prefix.into_iter().map(|(k, h)| (k.to_vec(), h)).collect())
        .collect();
    assert_eq!(before, after);
}

#[test]
fn keys_of_any_length() {
    let mut t: CartesianMerkleTree = CartesianMerkleTree::new();
    t.insert(b"ab".to_vec(), b"1".to_vec());
    t.insert(b"abc".to_vec(), b"2".to_vec());
    t.insert(Vec::new(), b"3".to_vec());
    t.insert(b"b".to_vec(), b"4".to_vec());
    assert!(t.contains_key(&b"ab".to_vec()));
    assert!(t.contains_key(&b"abc".to_vec()));
    assert!(t.contains_key(&Vec::new()));
    assert!(!t.contains_key(&b"a".to_vec()));
    t.remove(&b"ab".to_vec());
    assert!(!t.contains_key(&b"ab".to_vec()));
    assert!(t.contains_key(&b"abc".to_vec()));
    let mut u: CartesianMerkleTree = CartesianMerkleTree::new();
    u.insert(b"b".to_vec(), b"4".to_vec());
    u.insert(Vec::new(), b"3".to_vec());
    u.insert(b"abc".to_vec(), b"2".to_vec());
    assert_eq!(t.root_hash(), u.root_hash());
}

#[test]
fn merkle_hash_is_32_bytes() {
    assert_eq!(calculate_merkle_hash::<Sha256Hasher>(b"", b"", b"").len(), 32);
    assert_eq!(calculate_merkle_hash::<Sha256Hasher>(&key(5), &[7u8; 40], &[]).len(), 32);
}
