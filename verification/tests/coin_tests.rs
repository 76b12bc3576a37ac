use privacy_pool_sdk::coin::{
    build_withdraw_merkle_witness, calculate_nullifier_hash, commitment_and_precommitment,
    default_application_id, find_commitment_leaf_index, generate_coin,
    generate_coin_for_deposit_with_owner_pub_hex, generate_coin_with_deposit_ephemeral_scalar_hex,
    generate_coin_with_owner_pub, generate_commitment, lean_imt_from_state,
    withdraw_merkle_witness_from_tree, CoinData, OwnerPub, StateFile, COIN_VALUE, DOM_NULLIFIER,
    TREE_DEPTH,
};
use privacy_pool_sdk::encoding::{hex_encode, parse_scalar_hex};
use privacy_pool_sdk::field::{
    decimal_to_fr, fr_to_bytes_be, fr_to_decimal, from_be_bytes_mod_order, FieldElement,
};
use privacy_pool_sdk::merkle::LeanIMT;
use privacy_pool_sdk::poseidon::{poseidon_hash_1, poseidon_hash_2, poseidon_hash_3, poseidon_hash_n};

fn fr(n: u64) -> FieldElement {
    FieldElement::from_u64(n)
}

#[test]
fn test_deposit_ephemeral_scalar_secret_matches_poseidon1() {
    let hex_scalar = format!("{:064x}", 123456789u64);
    let az = fr(0);
    let coin = generate_coin_with_deposit_ephemeral_scalar_hex(
        &hex_scalar,
        &COIN_VALUE.to_string(),
        az,
        az,
        "0",
    )
    .unwrap();
    let sb = parse_scalar_hex(&hex_scalar).unwrap();
    let s_fr = from_be_bytes_mod_order(&sb);
    assert_eq!(coin.coin.secret, fr_to_decimal(&poseidon_hash_1(s_fr)));
}

#[test]
fn test_deposit_owner_pub_coin_matches_commitment_hasher() {
    let hex_scalar = format!("{:064x}", 42u64);
    let sx = format!("{:064x}", 11u64);
    let sy = format!("{:064x}", 13u64);
    let az = fr(0);
    let coin = generate_coin_for_deposit_with_owner_pub_hex(
        &hex_scalar,
        &sx,
        &sy,
        &COIN_VALUE.to_string(),
        az,
        az,
        "0",
    )
    .unwrap();
    let sb = parse_scalar_hex(&hex_scalar).unwrap();
    let s_fr = from_be_bytes_mod_order(&sb);
    let secret = poseidon_hash_1(s_fr);
    let owner_pub = OwnerPub::from_coord_hex(&sx, &sy).unwrap();
    let nullifier = decimal_to_fr(&coin.coin.nullifier);
    let value = decimal_to_fr(&coin.coin.value);
    let asset = [az, az];
    let app_id = fr(0);
    let expected = generate_commitment(nullifier, value, secret, owner_pub, asset, app_id);
    assert_eq!(coin.coin.commitment, fr_to_decimal(&expected));
}

#[test]
fn test_generate_coin() {
    let az = fr(0);
    let coin = generate_coin(&COIN_VALUE.to_string(), az, az, "0").unwrap();
    assert!(!coin.coin.value.is_empty());
    assert!(!coin.coin.nullifier.is_empty());
    assert!(!coin.coin.secret.is_empty());
    assert!(!coin.coin.commitment.is_empty());
    assert!(coin.commitment_hex.starts_with("0x"));
    assert_eq!(coin.precommitement_hex.len(), 64);
}

#[test]
fn test_eighteen_decimal_value_survives_without_js_number() {
    let az = fr(0);
    let amount = "1000000000000000001";
    let coin = generate_coin(amount, az, az, "0").unwrap();
    assert_eq!(coin.coin.value, amount);
}

#[test]
fn v1_precommitment_cannot_open_a_v2_escrow_commitment() {
    let secret = fr(401);
    let nullifier = fr(301);
    let value = fr(100);
    let asset = [fr(1), fr(1)];
    let application_id = fr(101);
    let owner_pub = OwnerPub::from_field_elements(fr(11), fr(13));
    let owner_key_hash = poseidon_hash_2(owner_pub.x, owner_pub.y);
    let v1_precommitment = poseidon_hash_2(secret, owner_key_hash);
    let v2_registered = commitment_and_precommitment(
        nullifier,
        value,
        secret,
        owner_pub,
        asset,
        application_id,
        fr(0),
    );
    let v2_escrow = commitment_and_precommitment(
        nullifier,
        value,
        secret,
        owner_pub,
        asset,
        application_id,
        fr(1),
    );
    assert_ne!(
        v1_precommitment, v2_escrow.1,
        "old 2-ary precommitment must not equal a V2 escrow opening"
    );
    assert_ne!(
        v2_registered.0, v2_escrow.0,
        "spending an escrow leaf as registered must not reproduce the committed leaf"
    );
    assert_ne!(
        v2_registered.1, v2_escrow.1,
        "registered mode-0 opening must not match escrow mode-1 precommitment"
    );
}

#[test]
fn test_build_withdraw_merkle_witness() {
    let az = fr(0);
    let coin = generate_coin(&COIN_VALUE.to_string(), az, az, "0").unwrap();
    // On-chain tree appends two commitments per transact; witness builder expects pairs.
    let other = generate_coin(&(COIN_VALUE + 1).to_string(), az, az, "0").unwrap();
    let state = StateFile {
        commitments: vec![coin.coin.commitment.clone(), other.coin.commitment.clone()],
        ..StateFile::default()
    };
    let result = build_withdraw_merkle_witness(&coin.coin, &state);
    assert!(result.is_ok());
    let w = result.unwrap();
    assert_eq!(w.state_index, "0");
    assert_eq!(w.state_siblings.len(), TREE_DEPTH as usize);
    assert_eq!(w.withdrawn_value, w.value);
    assert_eq!(w.value, coin.coin.value);
    let tree = lean_imt_from_state(&state).unwrap();
    let snapshot = tree.export_snapshot();
    let from_snapshot = build_withdraw_merkle_witness(
        &coin.coin,
        &StateFile {
            commitments: snapshot.leaves,
            nodes: Some(snapshot.nodes),
            root: Some(snapshot.root),
            depth: Some(snapshot.depth),
        },
    )
    .unwrap();
    assert_eq!(from_snapshot.state_root, w.state_root);
    assert_eq!(from_snapshot.state_siblings, w.state_siblings);
    assert_eq!(from_snapshot.state_index, w.state_index);
}

#[test]
fn test_commitment_not_found() {
    let az = fr(0);
    let coin = generate_coin(&COIN_VALUE.to_string(), az, az, "0").unwrap();
    let state = StateFile {
        commitments: vec!["999".to_string()],
        ..StateFile::default()
    };
    let result = build_withdraw_merkle_witness(&coin.coin, &state);
    assert!(result.is_err());
}

#[test]
fn test_commitment_wide_poseidon() {
    let n = fr(7);
    let v = fr(8);
    let s = fr(9);
    let a0 = fr(3);
    let a1 = fr(4);
    let app_id = fr(0);
    let owner_pub = OwnerPub::from_field_elements(fr(10), fr(11));
    let expected = poseidon_hash_n(&[v, s, n, owner_pub.x, owner_pub.y, fr(0), a0, a1, app_id]);
    assert_eq!(generate_commitment(n, v, s, owner_pub, [a0, a1], app_id), expected);
}

fn coin_data(commitment: &str) -> CoinData {
    CoinData {
        value: "5".to_string(),
        nullifier: "6".to_string(),
        secret: "7".to_string(),
        commitment: commitment.to_string(),
        asset_hi: "8".to_string(),
        asset_lo: "9".to_string(),
        application_id: "0".to_string(),
    }
}

#[test]
fn precommitment_is_poseidon_of_secret_mode_and_owner_key_hash() {
    let owner_pub = OwnerPub::from_field_elements(fr(11), fr(13));
    let (commitment, precommitment) =
        commitment_and_precommitment(fr(301), fr(100), fr(401), owner_pub, [fr(1), fr(2)], fr(3), fr(1));
    let key_hash = poseidon_hash_2(fr(11), fr(13));
    assert_eq!(precommitment, poseidon_hash_3(fr(401), fr(1), key_hash));
    let expected = poseidon_hash_n(&[fr(100), fr(401), fr(301), fr(11), fr(13), fr(1), fr(1), fr(2), fr(3)]);
    assert_eq!(commitment, expected);
}

#[test]
fn generated_coin_fields_describe_its_commitment() {
    let owner_pub = OwnerPub::from_field_elements(fr(11), fr(13));
    let coin = generate_coin_with_owner_pub(owner_pub, "77", fr(5), fr(6), "9").unwrap();
    assert_eq!(coin.coin.value, "77");
    assert_eq!(coin.coin.asset_hi, "5");
    assert_eq!(coin.coin.asset_lo, "6");
    assert_eq!(coin.coin.application_id, "9");
    let nullifier = decimal_to_fr(&coin.coin.nullifier);
    let secret = decimal_to_fr(&coin.coin.secret);
    let (commitment, precommitment) =
        commitment_and_precommitment(nullifier, fr(77), secret, owner_pub, [fr(5), fr(6)], fr(9), fr(0));
    assert_eq!(coin.coin.commitment, fr_to_decimal(&commitment));
    assert_eq!(coin.commitment_hex, format!("0x{}", hex_encode(&fr_to_bytes_be(&commitment))));
    assert_eq!(coin.precommitement_hex, hex_encode(&fr_to_bytes_be(&precommitment)));
    assert_eq!(coin.commitment_hex.len(), 66);
}

#[test]
fn application_id_that_is_not_decimal_is_zero() {
    let owner_pub = OwnerPub::from_field_elements(fr(1), fr(2));
    let coin = generate_coin_with_owner_pub(owner_pub, "1", fr(0), fr(0), "not a number").unwrap();
    assert_eq!(coin.coin.application_id, "0");
    assert_eq!(default_application_id(), "0");
}

#[test]
fn amount_that_is_not_decimal_is_refused() {
    let owner_pub = OwnerPub::from_field_elements(fr(1), fr(2));
    let err = generate_coin_with_owner_pub(owner_pub, "12x", fr(0), fr(0), "0").unwrap_err();
    assert_eq!(err, "invalid decimal field element: 12x");
    assert!(generate_coin("", fr(0), fr(0), "0").is_err());
}

#[test]
fn deposit_scalar_errors_come_in_order() {
    let too_short = "abcd";
    let err = generate_coin_with_deposit_ephemeral_scalar_hex(too_short, "x", fr(0), fr(0), "0")
        .unwrap_err();
    assert_eq!(err, "scalar hex must be 64 hex digits (32 bytes)");
    let not_hex = format!("{}g", "0".repeat(63));
    let err = generate_coin_with_deposit_ephemeral_scalar_hex(&not_hex, "1", fr(0), fr(0), "0")
        .unwrap_err();
    assert_eq!(err, "scalar hex holds a character that is not a hex digit");
    let too_big = format!("20{}", "0".repeat(62));
    let err = generate_coin_with_deposit_ephemeral_scalar_hex(&too_big, "1", fr(0), fr(0), "0")
        .unwrap_err();
    assert_eq!(
        err,
        "scalar must represent an integer < 2^253 (BabyJub ECDH / circom Num2Bits(253))"
    );
    let just_below = format!("0x1f{}", "f".repeat(62));
    let err = generate_coin_with_deposit_ephemeral_scalar_hex(&just_below, "bad", fr(0), fr(0), "0")
        .unwrap_err();
    assert_eq!(err, "invalid decimal field element: bad");
    assert!(generate_coin_with_deposit_ephemeral_scalar_hex(&just_below, "1", fr(0), fr(0), "0").is_ok());
}

#[test]
fn deposit_with_owner_hex_refuses_bad_coordinates() {
    let scalar = format!("{:064x}", 42u64);
    let good = format!("{:064x}", 11u64);
    let err = generate_coin_for_deposit_with_owner_pub_hex(&scalar, "12", &good, "1", fr(0), fr(0), "0")
        .unwrap_err();
    assert_eq!(err, "scalar hex must be 64 hex digits (32 bytes)");
    let bad_y = format!("{}z", "0".repeat(63));
    let err = generate_coin_for_deposit_with_owner_pub_hex(&scalar, &good, &bad_y, "1", fr(0), fr(0), "0")
        .unwrap_err();
    assert_eq!(err, "scalar hex holds a character that is not a hex digit");
    let coin = generate_coin_for_deposit_with_owner_pub_hex(&scalar, &good, &good, "3", fr(0), fr(0), "0")
        .unwrap();
    assert_eq!(coin.coin.secret, fr_to_decimal(&poseidon_hash_1(fr(42))));
}

#[test]
fn owner_pub_from_hex_reads_big_endian_coordinates() {
    let x = format!("0x{:064x}", 300u64);
    let y = format!("{:064X}", 0xABCDu64);
    let key = OwnerPub::from_coord_hex(&x, &y).unwrap();
    assert_eq!(key, OwnerPub::from_field_elements(fr(300), fr(0xABCD)));
    assert!(OwnerPub::from_coord_hex("", &y).is_err());
}

#[test]
fn state_with_odd_commitments_is_refused() {
    let state = StateFile {
        commitments: vec!["1".to_string(), "2".to_string(), "3".to_string()],
        ..StateFile::default()
    };
    let err = lean_imt_from_state(&state).unwrap_err();
    assert_eq!(err, "expected an even number of commitments in state (pairs), got 3");
}

#[test]
fn state_past_capacity_names_the_refused_pair() {
    let state = StateFile {
        commitments: vec!["1".into(), "2".into(), "3".into(), "4".into()],
        depth: Some(1),
        ..StateFile::default()
    };
    let err = lean_imt_from_state(&state).unwrap_err();
    assert_eq!(err, "Failed to insert commitment pair at indices 2..3: Tree is at capacity");
    let state = StateFile {
        commitments: vec!["1".into(), "2".into()],
        depth: Some(0),
        ..StateFile::default()
    };
    let err = lean_imt_from_state(&state).unwrap_err();
    assert_eq!(err, "Failed to insert commitment pair at indices 0..1: Tree is at capacity");
}

#[test]
fn state_tree_matches_inserting_the_pairs() {
    let state = StateFile {
        commitments: vec!["1".into(), "2".into(), "junk".into(), "4".into()],
        depth: Some(3),
        ..StateFile::default()
    };
    let tree = lean_imt_from_state(&state).unwrap();
    let mut built = LeanIMT::new(3);
    built.insert_two(fr(1), fr(2)).unwrap();
    built.insert_two(fr(0), fr(4)).unwrap();
    assert_eq!(tree.get_root(), built.get_root());
    assert_eq!(tree.leaves(), built.leaves());
    let default_depth = lean_imt_from_state(&StateFile::default()).unwrap();
    assert_eq!(default_depth.get_root(), LeanIMT::new(TREE_DEPTH).get_root());
}

#[test]
fn state_with_nodes_and_root_is_restored_as_given() {
    let mut built = LeanIMT::new(4);
    built.insert_two(fr(1), fr(2)).unwrap();
    let snapshot = built.export_snapshot();
    let state = StateFile {
        commitments: snapshot.leaves.clone(),
        nodes: Some(snapshot.nodes.clone()),
        root: Some("12345".to_string()),
        depth: Some(4),
    };
    let restored = lean_imt_from_state(&state).unwrap();
    assert_eq!(restored.get_root(), fr(12345));
    let bad = StateFile {
        commitments: vec!["1".into(), "x".into()],
        nodes: Some(vec![]),
        root: Some("0".to_string()),
        depth: None,
    };
    assert_eq!(lean_imt_from_state(&bad).unwrap_err(), "invalid decimal field element: x");
}

#[test]
fn first_matching_leaf_is_found() {
    let mut tree = LeanIMT::new(3);
    tree.insert_two(fr(5), fr(9)).unwrap();
    tree.insert_two(fr(9), fr(5)).unwrap();
    assert_eq!(find_commitment_leaf_index(&tree, fr(9)), Some(1));
    assert_eq!(find_commitment_leaf_index(&tree, fr(5)), Some(0));
    assert_eq!(find_commitment_leaf_index(&tree, fr(7)), None);
}

#[test]
fn witness_path_hashes_the_commitment_up_to_the_root() {
    let mut tree = LeanIMT::new(3);
    tree.insert_two(fr(21), fr(22)).unwrap();
    tree.insert_two(fr(23), fr(24)).unwrap();
    let w = withdraw_merkle_witness_from_tree(&coin_data("23"), &tree).unwrap();
    assert_eq!(w.state_index, "2");
    assert_eq!(w.value, "5");
    assert_eq!(w.withdrawn_value, "5");
    assert_eq!(w.nullifier, "6");
    assert_eq!(w.secret, "7");
    assert_eq!(w.withdrawn_asset, ["8".to_string(), "9".to_string()]);
    assert_eq!(w.state_siblings.len(), 3);
    let s: Vec<FieldElement> = w.state_siblings.iter().map(|x| decimal_to_fr(x)).collect();
    // Leaf 2 is a left child, its parent 1 a right child, its grandparent 0 a left child.
    let level1 = poseidon_hash_2(fr(23), s[0]);
    let level2 = poseidon_hash_2(s[1], level1);
    let root = poseidon_hash_2(level2, s[2]);
    assert_eq!(fr_to_decimal(&root), w.state_root);
    assert_eq!(root, tree.get_root());
    assert_eq!(s[0], fr(24));
    let wrong = withdraw_merkle_witness_from_tree(&coin_data("25"), &tree).unwrap_err();
    assert_eq!(wrong, "Commitment not found in state");
}

#[test]
fn nullifier_hash_is_domain_separated_poseidon_in_hex() {
    let h = calculate_nullifier_hash("301", "77").unwrap();
    let expected = poseidon_hash_3(fr(DOM_NULLIFIER), fr(301), fr(77));
    assert_eq!(h, format!("0x{}", hex_encode(&fr_to_bytes_be(&expected))));
    assert_eq!(h.len(), 66);
    assert_ne!(h, calculate_nullifier_hash("302", "77").unwrap());
    assert_eq!(
        calculate_nullifier_hash("abc", "x").unwrap_err(),
        "invalid decimal field element: abc"
    );
    assert_eq!(
        calculate_nullifier_hash("1", "x").unwrap_err(),
        "invalid decimal field element: x"
    );
}

#[test]
fn state_tree_has_the_cache_of_its_appends() {
    let state = StateFile {
        commitments: vec!["5".into(), "6".into(), "7".into(), "8".into()],
        depth: Some(4),
        ..StateFile::default()
    };
    let tree = lean_imt_from_state(&state).unwrap();
    let mut built = LeanIMT::new(4);
    built.insert_two(fr(5), fr(6)).unwrap();
    built.insert_two(fr(7), fr(8)).unwrap();
    assert_eq!(tree.export_snapshot(), built.export_snapshot());
}

#[test]
fn witness_building_passes_tree_refusals_through() {
    let odd = StateFile { commitments: vec!["1".into()], ..StateFile::default() };
    assert_eq!(
        build_withdraw_merkle_witness(&coin_data("1"), &odd).unwrap_err(),
        lean_imt_from_state(&odd).unwrap_err()
    );
    let full = StateFile {
        commitments: vec!["1".into(), "2".into(), "3".into(), "4".into()],
        depth: Some(1),
        ..StateFile::default()
    };
    assert_eq!(
        build_withdraw_merkle_witness(&coin_data("1"), &full).unwrap_err(),
        "Failed to insert commitment pair at indices 2..3: Tree is at capacity"
    );
}
