use subset_sum_zk::hash::Digest;
use subset_sum_zk::merkle::{hash_value, leaf_node_of, next_power_of_two, ZkMerkleTree};

fn h(bytes: &[u8]) -> Digest {
    Digest { bytes: blake2b_simd::blake2b(bytes).as_bytes().to_vec() }
}

fn h2(left: &Digest, right: &Digest) -> Digest {
    let mut joined = left.bytes.clone();
    joined.extend_from_slice(&right.bytes);
    h(&joined)
}

#[test]
fn next_power_of_two_is_the_least_one() {
    let expected = [(0, 1), (1, 1), (2, 2), (3, 4), (4, 4), (5, 8), (7, 8), (8, 8), (9, 16), (1000, 1024), (1024, 1024), (1025, 2048)];
    for (n, p) in expected {
        assert_eq!(next_power_of_two(n), p);
    }
    assert_eq!(next_power_of_two(1 << 64), 1 << 64);
    assert_eq!(next_power_of_two((1 << 64) - 1), 1 << 64);
}

#[test]
fn leaf_nodes_stand_in_the_upper_half() {
    assert_eq!(leaf_node_of(8, 0), 16);
    assert_eq!(leaf_node_of(8, 7), 30);
    assert_eq!(leaf_node_of(5, 2), 20);
    assert_eq!(leaf_node_of(1, 0), 2);
}

#[test]
fn leaf_digest_hashes_the_decimal_notation() {
    assert_eq!(hash_value(12), h(b"12"));
    assert_eq!(hash_value(0), h(b"0"));
    assert_eq!(hash_value(-7), h(b"-7"));
    assert_ne!(hash_value(1), hash_value(-1));
}

#[test]
fn root_of_a_small_tree() {
    let tree = ZkMerkleTree::with_salts(&vec![5, 6], &vec![70, 80]);
    let left = h2(&h(b"5"), &h(b"70"));
    let right = h2(&h(b"6"), &h(b"80"));
    assert_eq!(tree.get_root(), h2(&left, &right));
}

#[test]
fn values_are_padded_with_zeros() {
    let tree = ZkMerkleTree::with_salts(&vec![5, 6, 7], &vec![1, 2, 3, 4]);
    let a = h2(&h2(&h(b"5"), &h(b"1")), &h2(&h(b"6"), &h(b"2")));
    let b = h2(&h2(&h(b"7"), &h(b"3")), &h2(&h(b"0"), &h(b"4")));
    assert_eq!(tree.get_root(), h2(&a, &b));
    let (value, _) = tree.get_val_and_path(3);
    assert_eq!(value, 0);
}

#[test]
fn a_tree_over_one_value() {
    let tree = ZkMerkleTree::with_salts(&vec![9], &vec![4]);
    assert_eq!(tree.get_root(), h2(&h(b"9"), &h(b"4")));
    let (value, path) = tree.get_val_and_path(0);
    assert_eq!(value, 9);
    assert_eq!(path, vec![h(b"4")]);
    assert!(ZkMerkleTree::verify_merkle_path(&tree.get_root(), 1, 0, 9, &path));
}

#[test]
fn a_tree_over_no_value() {
    let tree = ZkMerkleTree::with_salts(&Vec::new(), &vec![4]);
    assert_eq!(tree.get_root(), h2(&h(b"0"), &h(b"4")));
}

#[test]
fn path_lists_the_siblings_from_the_leaf_up() {
    let tree = ZkMerkleTree::with_salts(&vec![5, 6, 7], &vec![1, 2, 3, 4]);
    let (value, path) = tree.get_val_and_path(1);
    assert_eq!(value, 6);
    let a_left = h2(&h(b"5"), &h(b"1"));
    let b = h2(&h2(&h(b"7"), &h(b"3")), &h2(&h(b"0"), &h(b"4")));
    assert_eq!(path, vec![h(b"2"), a_left, b]);
}

#[test]
fn every_opened_value_verifies() {
    let values = vec![3, 1, 4, 1, 5, 9, 2, 6];
    let tree = ZkMerkleTree::new(&values);
    let root = tree.get_root();
    for i in 0..values.len() {
        let (value, path) = tree.get_val_and_path(i);
        assert_eq!(value, values[i]);
        assert_eq!(path.len(), 4);
        assert!(ZkMerkleTree::verify_merkle_path(&root, values.len(), i, value, &path));
    }
}

#[test]
fn every_opened_value_verifies_in_a_padded_tree() {
    for size in 1..20usize {
        let values: Vec<i32> = (0..size as i32).map(|v| v * 3 - 7).collect();
        let tree = ZkMerkleTree::new(&values);
        let root = tree.get_root();
        for i in 0..size {
            let (value, path) = tree.get_val_and_path(i);
            assert_eq!(value, values[i]);
            assert!(ZkMerkleTree::verify_merkle_path(&root, size, i, value, &path));
        }
    }
}

#[test]
fn a_wrong_value_or_place_does_not_verify() {
    let values = vec![3, 1, 4, 1, 5];
    let tree = ZkMerkleTree::new(&values);
    let root = tree.get_root();
    let (value, path) = tree.get_val_and_path(2);
    assert!(ZkMerkleTree::verify_merkle_path(&root, 5, 2, value, &path));
    assert!(!ZkMerkleTree::verify_merkle_path(&root, 5, 2, value + 1, &path));
    assert!(!ZkMerkleTree::verify_merkle_path(&root, 5, 3, value, &path));
    assert!(!ZkMerkleTree::verify_merkle_path(&root, 5, 0, value, &path));
}

#[test]
fn a_changed_root_or_sibling_does_not_verify() {
    let values = vec![3, 1, 4, 1, 5];
    let tree = ZkMerkleTree::new(&values);
    let root = tree.get_root();
    let (value, path) = tree.get_val_and_path(4);
    let mut other_root = root.duplicate();
    other_root.bytes[17] ^= 1;
    assert!(!ZkMerkleTree::verify_merkle_path(&other_root, 5, 4, value, &path));
    for level in 0..path.len() {
        let mut other_path = path.clone();
        other_path[level].bytes[63] ^= 0x80;
        assert!(!ZkMerkleTree::verify_merkle_path(&root, 5, 4, value, &other_path));
    }
}

#[test]
fn a_path_of_the_wrong_length_is_refused() {
    let values = vec![3, 1, 4, 1, 5];
    let tree = ZkMerkleTree::new(&values);
    let root = tree.get_root();
    let (value, path) = tree.get_val_and_path(1);
    let mut short = path.clone();
    short.pop();
    assert!(!ZkMerkleTree::verify_merkle_path(&root, 5, 1, value, &short));
    let mut long = path.clone();
    long.push(root.duplicate());
    assert!(!ZkMerkleTree::verify_merkle_path(&root, 5, 1, value, &long));
    assert!(!ZkMerkleTree::verify_merkle_path(&root, 5, 1, value, &Vec::new()));
    assert!(!ZkMerkleTree::verify_merkle_path(&root, 50, 1, value, &path));
}

#[test]
fn huge_sizes_and_places_are_refused_without_overflow() {
    let tree = ZkMerkleTree::new(&vec![1, 2]);
    let root = tree.get_root();
    let (value, path) = tree.get_val_and_path(0);
    assert!(!ZkMerkleTree::verify_merkle_path(&root, usize::MAX, usize::MAX, value, &path));
    assert!(!ZkMerkleTree::verify_merkle_path(&root, 2, usize::MAX, value, &path));
}

#[test]
fn climbing_starts_at_the_given_node() {
    let tree = ZkMerkleTree::with_salts(&vec![5, 6], &vec![70, 80]);
    let root = tree.get_root();
    let (value, path) = tree.get_val_and_path(1);
    assert!(ZkMerkleTree::climbs_to(&root, 6, value, &path));
    assert!(!ZkMerkleTree::climbs_to(&root, 4, value, &path));
    assert!(!ZkMerkleTree::climbs_to(&root, 1, value, &path));
    assert!(!ZkMerkleTree::climbs_to(&root, 0, value, &path));
}

#[test]
fn fresh_salts_give_fresh_roots() {
    let values = vec![3, 1, 4];
    let first = ZkMerkleTree::new(&values);
    let second = ZkMerkleTree::new(&values);
    assert_ne!(first.get_root(), second.get_root());
    assert_eq!(first.get_val_and_path(1).0, second.get_val_and_path(1).0);
}

#[test]
fn the_same_salts_give_the_same_tree() {
    let first = ZkMerkleTree::with_salts(&vec![3, 1, 4], &vec![9, 8, 7, 6]);
    let second = ZkMerkleTree::with_salts(&vec![3, 1, 4], &vec![9, 8, 7, 6]);
    assert_eq!(first.get_root(), second.get_root());
    assert_eq!(first.get_val_and_path(2), second.get_val_and_path(2));
    let third = ZkMerkleTree::with_salts(&vec![3, 1, 4], &vec![9, 8, 7, 5]);
    assert_ne!(first.get_root(), third.get_root());
}
