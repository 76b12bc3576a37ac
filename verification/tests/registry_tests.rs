use privacy_pool_sdk::coin::{CoinData, StateFile};
use privacy_pool_sdk::field::{fr_to_decimal, FieldElement};
use privacy_pool_sdk::merkle::LeanIMT;
use privacy_pool_sdk::registry::TreeRegistry;

fn fr(n: u64) -> FieldElement {
    FieldElement::from_u64(n)
}

#[test]
fn handles_start_at_one_and_count_up() {
    let mut reg = TreeRegistry::new();
    assert_eq!(reg.insert_tree(LeanIMT::new(3)), 1);
    assert_eq!(reg.insert_tree(LeanIMT::new(3)), 2);
    let state = StateFile { commitments: vec!["1".into(), "2".into()], ..StateFile::default() };
    assert_eq!(reg.import_state(&state), Ok(3));
}

#[test]
fn refused_imports_keep_the_registry() {
    let mut reg = TreeRegistry::new();
    let odd = StateFile { commitments: vec!["1".into()], ..StateFile::default() };
    assert_eq!(
        reg.import_state(&odd).unwrap_err(),
        "expected an even number of commitments in state (pairs), got 1"
    );
    let mut tree = LeanIMT::new(2);
    tree.insert_two(fr(1), fr(2)).unwrap();
    let mut snapshot = tree.export_snapshot();
    snapshot.leaves.push("3".to_string());
    assert_eq!(
        reg.import_snapshot(&snapshot).unwrap_err(),
        "expected an even number of leaves, got 3"
    );
    snapshot.leaves.pop();
    assert_eq!(reg.import_snapshot(&snapshot), Ok(1));
    assert_eq!(reg.export(1).unwrap().root, fr_to_decimal(&tree.get_root()));
}

#[test]
fn insert_two_gives_the_new_root_and_refuses_in_order() {
    let mut reg = TreeRegistry::new();
    let h = reg.insert_tree(LeanIMT::new(1));
    assert_eq!(reg.insert_two(h, "x", "y").unwrap_err(), "invalid decimal field element: x");
    assert_eq!(reg.insert_two(h, "1", "y").unwrap_err(), "invalid decimal field element: y");
    assert_eq!(reg.insert_two(h + 1, "1", "2").unwrap_err(), "unknown LeanIMT handle");
    let root = reg.insert_two(h, "1", "2").unwrap();
    let mut expected = LeanIMT::new(1);
    expected.insert_two(fr(1), fr(2)).unwrap();
    assert_eq!(root, fr_to_decimal(&expected.get_root()));
    assert_eq!(reg.insert_two(h, "3", "4").unwrap_err(), "Tree is at capacity");
    assert_eq!(reg.export(h).unwrap().leaves, vec!["1".to_string(), "2".to_string()]);
}

#[test]
fn proofs_and_witnesses_come_from_the_named_tree() {
    let mut reg = TreeRegistry::new();
    let h = reg.insert_tree(LeanIMT::new(3));
    reg.insert_two(h, "10", "11").unwrap();
    let p = reg.generate_proof(h, 1).unwrap();
    assert_eq!(p.depth, 3);
    assert_eq!(p.siblings.len(), 3);
    assert_eq!(p.siblings[0], "10");
    assert_eq!(reg.generate_proof(h, 2).unwrap_err(), "Failed to generate merkle proof");
    assert_eq!(reg.generate_proof(9, 0).unwrap_err(), "unknown LeanIMT handle");
    let coin = CoinData {
        value: "1".into(),
        nullifier: "2".into(),
        secret: "3".into(),
        commitment: "11".into(),
        asset_hi: "4".into(),
        asset_lo: "5".into(),
        application_id: "0".into(),
    };
    let w = reg.build_withdraw_merkle_witness(&coin, h).unwrap();
    assert_eq!(w.state_index, "1");
    assert_eq!(w.state_root, p.root);
    assert_eq!(w.state_siblings, p.siblings);
    assert_eq!(
        reg.build_withdraw_merkle_witness(&coin, 7).unwrap_err(),
        "unknown LeanIMT handle"
    );
}

#[test]
fn dropped_handles_name_no_tree() {
    let mut reg = TreeRegistry::new();
    let h = reg.insert_tree(LeanIMT::new(2));
    reg.drop_tree(h);
    assert_eq!(reg.export(h).unwrap_err(), "unknown LeanIMT handle");
    reg.drop_tree(h);
    assert_eq!(reg.insert_tree(LeanIMT::new(2)), 2);
}
