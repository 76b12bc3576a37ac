use privacy_pool_sdk::field::{fr_to_decimal, FieldElement};
use privacy_pool_sdk::merkle::{LeanIMT, LeanImtNode, LeanImtSnapshot};
use privacy_pool_sdk::poseidon::poseidon_hash_2;

fn fr(n: u64) -> FieldElement {
    FieldElement::from_u64(n)
}

#[test]
fn test_empty_tree() {
    let tree = LeanIMT::new(5);
    // Empty tree should have a deterministic root
    let root = tree.get_root();
    assert_ne!(root, fr(0)); // Root of empty tree is hash of zeros, not zero itself
}

#[test]
fn test_insert_two_and_proof() {
    let mut tree = LeanIMT::new(5);
    tree.insert_two(fr(42), fr(43)).unwrap();

    let proof = tree.generate_proof(0);
    assert!(proof.is_some());
    let (siblings, depth) = proof.unwrap();
    assert_eq!(depth, 5);
    assert_eq!(siblings.len(), 5);
}

#[test]
fn test_two_leaves() {
    let mut tree = LeanIMT::new(5);
    tree.insert_two(fr(1), fr(2)).unwrap();

    let proof0 = tree.generate_proof(0).unwrap();
    let proof1 = tree.generate_proof(1).unwrap();
    assert_eq!(proof0.0.len(), 5);
    assert_eq!(proof1.0.len(), 5);
}

#[test]
fn test_snapshot_round_trip_matches_insert_all() {
    let mut built = LeanIMT::new(5);
    built.insert_two(fr(1), fr(2)).unwrap();
    built.insert_two(fr(3), fr(4)).unwrap();
    let snapshot = built.export_snapshot();
    let restored = LeanIMT::from_snapshot(&snapshot).unwrap();
    assert_eq!(restored.get_root(), built.get_root());
    assert_eq!(restored.get_leaf_count(), built.get_leaf_count());
    let original_proof = built.generate_proof(2).unwrap();
    let restored_proof = restored.generate_proof(2).unwrap();
    assert_eq!(original_proof.0, restored_proof.0);
    assert_eq!(original_proof.1, restored_proof.1);
}

#[test]
fn test_from_snapshot_rejects_odd_leaf_count() {
    let snapshot = LeanImtSnapshot {
        depth: 5,
        root: "0".to_string(),
        leaves: vec!["1".to_string()],
        nodes: vec![],
    };
    let err = LeanIMT::from_snapshot(&snapshot).unwrap_err();
    assert!(err.contains("even number of leaves"));
}

/// The all-zero roots of heights 0 to `depth`.
fn zero_hashes(depth: u32) -> Vec<FieldElement> {
    let mut z = vec![fr(0)];
    for l in 0..depth as usize {
        let h = poseidon_hash_2(z[l], z[l]);
        z.push(h);
    }
    z
}

#[test]
fn empty_root_is_the_all_zero_root() {
    let z = zero_hashes(5);
    assert_eq!(LeanIMT::new(5).get_root(), z[5]);
    assert_eq!(LeanIMT::new(0).get_root(), fr(0));
    assert_eq!(LeanIMT::new(1).get_root(), poseidon_hash_2(fr(0), fr(0)));
    assert_eq!(LeanIMT::new(5).get_leaf_count(), 0);
}

#[test]
fn root_after_appends_is_the_merkle_root() {
    let mut tree = LeanIMT::new(2);
    tree.insert_two(fr(1), fr(2)).unwrap();
    let z = zero_hashes(2);
    let left = poseidon_hash_2(fr(1), fr(2));
    assert_eq!(tree.get_root(), poseidon_hash_2(left, z[1]));
    tree.insert_two(fr(3), fr(4)).unwrap();
    let right = poseidon_hash_2(fr(3), fr(4));
    assert_eq!(tree.get_root(), poseidon_hash_2(left, right));
    assert_eq!(tree.leaves(), &[fr(1), fr(2), fr(3), fr(4)][..]);
}

#[test]
fn proof_siblings_fold_to_the_root() {
    let mut tree = LeanIMT::new(4);
    for i in 0..3u64 {
        tree.insert_two(fr(10 + 2 * i), fr(11 + 2 * i)).unwrap();
    }
    for leaf in 0..6u32 {
        let (siblings, depth) = tree.generate_proof(leaf).unwrap();
        assert_eq!(depth, 4);
        let mut node = tree.leaves()[leaf as usize];
        let mut index = leaf;
        for s in siblings {
            node = if index % 2 == 0 { poseidon_hash_2(node, s) } else { poseidon_hash_2(s, node) };
            index /= 2;
        }
        assert_eq!(node, tree.get_root());
    }
    assert!(tree.generate_proof(6).is_none());
}

#[test]
fn full_tree_refuses_and_stays_unchanged() {
    let mut tree = LeanIMT::new(1);
    tree.insert_two(fr(1), fr(2)).unwrap();
    let root = tree.get_root();
    assert_eq!(tree.insert_two(fr(3), fr(4)), Err("Tree is at capacity"));
    assert_eq!(tree.get_root(), root);
    assert_eq!(tree.get_leaf_count(), 2);
    let mut empty = LeanIMT::new(0);
    assert_eq!(empty.insert_two(fr(1), fr(2)), Err("Tree is at capacity"));
}

#[test]
fn snapshot_lists_root_leaves_and_ordered_nodes() {
    let mut tree = LeanIMT::new(3);
    tree.insert_two(fr(7), fr(8)).unwrap();
    let s = tree.export_snapshot();
    assert_eq!(s.depth, 3);
    assert_eq!(s.root, fr_to_decimal(&tree.get_root()));
    assert_eq!(s.leaves, vec!["7".to_string(), "8".to_string()]);
    for pair in s.nodes.windows(2) {
        assert!((pair[0].level, pair[0].index) < (pair[1].level, pair[1].index));
    }
}

#[test]
fn from_snapshot_refusals_come_in_order() {
    let snap = |leaves: Vec<&str>, nodes: Vec<LeanImtNode>, root: &str, depth: u32| LeanImtSnapshot {
        depth,
        root: root.to_string(),
        leaves: leaves.into_iter().map(String::from).collect(),
        nodes,
    };
    let err = LeanIMT::from_snapshot(&snap(vec!["1", "2", "3"], vec![], "0", 5)).unwrap_err();
    assert_eq!(err, "expected an even number of leaves, got 3");
    let err = LeanIMT::from_snapshot(&snap(vec!["1", "y"], vec![], "0", 5)).unwrap_err();
    assert_eq!(err, "invalid decimal field element: y");
    let err = LeanIMT::from_snapshot(&snap(vec!["1", "2", "3", "4"], vec![], "0", 1)).unwrap_err();
    assert_eq!(err, "snapshot exceeds tree capacity");
    let node = LeanImtNode { level: 1, index: 0, value: "q".to_string() };
    let err = LeanIMT::from_snapshot(&snap(vec!["1", "2"], vec![node], "0", 2)).unwrap_err();
    assert_eq!(err, "invalid decimal field element: q");
    let err = LeanIMT::from_snapshot(&snap(vec!["1", "2"], vec![], "r", 2)).unwrap_err();
    assert_eq!(err, "invalid decimal field element: r");
    let t = LeanIMT::from_snapshot(&snap(vec!["1", "2"], vec![], "99", 2)).unwrap();
    assert_eq!(t.get_root(), fr(99));
    assert_eq!(t.leaves(), &[fr(1), fr(2)][..]);
}

#[test]
fn restored_tree_keeps_growing_like_the_original() {
    let mut built = LeanIMT::new(4);
    built.insert_two(fr(1), fr(2)).unwrap();
    let mut restored = LeanIMT::from_snapshot(&built.export_snapshot()).unwrap();
    built.insert_two(fr(3), fr(4)).unwrap();
    restored.insert_two(fr(3), fr(4)).unwrap();
    assert_eq!(restored.get_root(), built.get_root());
    assert_eq!(restored.generate_proof(3), built.generate_proof(3));
}

#[test]
fn snapshots_compare_by_content() {
    let mut built = LeanIMT::new(3);
    built.insert_two(fr(5), fr(6)).unwrap();
    let s = built.export_snapshot();
    let restored = LeanIMT::from_snapshot(&s).unwrap();
    assert_eq!(restored.export_snapshot(), s);
    let mut other = s.clone();
    other.leaves[1] = "7".to_string();
    assert_ne!(other, s);
    let mut moved = s.clone();
    if let Some(n) = moved.nodes.first_mut() {
        n.index += 1;
        assert_ne!(moved, s);
    }
    let a = LeanImtNode { level: 1, index: 2, value: "3".to_string() };
    assert_eq!(a, a.clone());
    assert_ne!(a, LeanImtNode { level: 1, index: 2, value: "4".to_string() });
}

#[test]
fn snapshot_of_appended_tree_lists_exactly_the_path_nodes() {
    let mut tree = LeanIMT::new(3);
    tree.insert_two(fr(1), fr(2)).unwrap();
    tree.insert_two(fr(3), fr(4)).unwrap();
    let s = tree.export_snapshot();
    let places: Vec<(u32, u32)> = s.nodes.iter().map(|n| (n.level, n.index)).collect();
    assert_eq!(places, vec![(0, 0), (0, 1), (0, 2), (0, 3), (1, 0), (1, 1), (2, 0), (3, 0)]);
    let z = zero_hashes(3);
    let n10 = poseidon_hash_2(fr(1), fr(2));
    let n11 = poseidon_hash_2(fr(3), fr(4));
    let n20 = poseidon_hash_2(n10, n11);
    let n30 = poseidon_hash_2(n20, z[2]);
    let values: Vec<String> = s.nodes.iter().map(|n| n.value.clone()).collect();
    let expected: Vec<String> = [fr(1), fr(2), fr(3), fr(4), n10, n11, n20, n30]
        .iter()
        .map(fr_to_decimal)
        .collect();
    assert_eq!(values, expected);
    assert_eq!(s.root, fr_to_decimal(&n30));
}

#[test]
fn exporting_a_restored_canonical_snapshot_gives_it_back() {
    let mut tree = LeanIMT::new(4);
    tree.insert_two(fr(9), fr(8)).unwrap();
    tree.insert_two(fr(7), fr(6)).unwrap();
    let s = tree.export_snapshot();
    let again = LeanIMT::from_snapshot(&s).unwrap().export_snapshot();
    assert_eq!(again, s);
    assert_eq!(LeanIMT::from_snapshot(&again).unwrap().export_snapshot(), s);
}
