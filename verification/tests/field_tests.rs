use privacy_pool_sdk::encoding::{hex_encode, parse_scalar_hex, u64_to_decimal};
use privacy_pool_sdk::field::{
    decimal_to_fr, decimal_to_fr_result, fr_to_bytes_be, fr_to_decimal, from_be_bytes_mod_order,
    FieldElement,
};
use privacy_pool_sdk::poseidon::{poseidon_hash_1, poseidon_hash_2};

const MODULUS: &str =
    "21888242871839275222246405745257275088548364400416034343698204186575808495617";
const MODULUS_MINUS_ONE: &str =
    "21888242871839275222246405745257275088548364400416034343698204186575808495616";

#[test]
fn decimal_numerals_round_trip() {
    for n in [0u64, 1, 9, 10, 1_000_000_007, u64::MAX] {
        let f = FieldElement::from_u64(n);
        assert_eq!(fr_to_decimal(&f), n.to_string());
        assert_eq!(decimal_to_fr(&n.to_string()), f);
        assert_eq!(u64_to_decimal(n), n.to_string());
    }
    let big = decimal_to_fr(MODULUS_MINUS_ONE);
    assert_eq!(fr_to_decimal(&big), MODULUS_MINUS_ONE);
}

#[test]
fn decimals_are_reduced_modulo_the_field_order() {
    assert_eq!(decimal_to_fr(MODULUS), FieldElement::zero());
    assert_eq!(fr_to_decimal(&decimal_to_fr("-1")), MODULUS_MINUS_ONE);
    assert_eq!(decimal_to_fr("+5"), FieldElement::from_u64(5));
    assert_eq!(decimal_to_fr("1_000"), FieldElement::from_u64(1000));
    assert_eq!(decimal_to_fr("007"), FieldElement::from_u64(7));
}

#[test]
fn text_that_is_not_decimal_is_refused_or_zero() {
    for bad in ["", "-", "abc", "1.5", " 1", "0x10", "_1"] {
        assert_eq!(
            decimal_to_fr_result(bad).unwrap_err(),
            format!("invalid decimal field element: {}", bad)
        );
        assert_eq!(decimal_to_fr(bad), FieldElement::zero());
    }
}

#[test]
fn bytes_are_read_big_endian_and_reduced() {
    let mut b = [0u8; 32];
    b[31] = 1;
    b[30] = 2;
    assert_eq!(from_be_bytes_mod_order(&b), FieldElement::from_u64(513));
    let all_ones = [0xffu8; 32];
    assert_eq!(
        fr_to_decimal(&from_be_bytes_mod_order(&all_ones)),
        "6350874878119819312338956282401532410528162663560392320966563075034087161850"
    );
    let f = FieldElement::from_u64(0x0102_0304_0506_0708);
    let bytes = fr_to_bytes_be(&f);
    assert_eq!(&bytes[24..], &[1, 2, 3, 4, 5, 6, 7, 8]);
    assert_eq!(bytes[..24], [0u8; 24]);
    assert_eq!(f.to_bytes_be(), bytes);
    assert_eq!(from_be_bytes_mod_order(&bytes), f);
}

#[test]
fn hex_is_lowercase_two_digits_per_byte() {
    assert_eq!(hex_encode(&[0x00, 0x0f, 0xa0, 0xff]), "000fa0ff");
    assert_eq!(hex_encode(&[]), "");
}

#[test]
fn scalar_hex_is_64_digits_after_an_optional_prefix() {
    let digits = format!("{:064x}", 0xDEADBEEFu64);
    let b = parse_scalar_hex(&digits).unwrap();
    assert_eq!(from_be_bytes_mod_order(&b), FieldElement::from_u64(0xDEADBEEF));
    assert_eq!(parse_scalar_hex(&format!("0x{}", digits)).unwrap(), b);
    assert_eq!(parse_scalar_hex(&format!("0X{}", digits.to_uppercase())).unwrap(), b);
    assert_eq!(hex_encode(&b), digits);
    assert_eq!(
        parse_scalar_hex(&digits[1..]).unwrap_err(),
        "scalar hex must be 64 hex digits (32 bytes)"
    );
    assert_eq!(
        parse_scalar_hex(&format!("0x0x{}", &digits[2..])).unwrap_err(),
        "scalar hex holds a character that is not a hex digit"
    );
}

#[test]
fn poseidon_digests_differ_from_their_inputs() {
    let one = FieldElement::from_u64(1);
    let h1 = poseidon_hash_1(one);
    assert_ne!(h1, one);
    let h2 = poseidon_hash_2(one, one);
    assert_ne!(h2, one);
    assert_ne!(h1, h2);
    assert_eq!(poseidon_hash_2(one, one), h2);
    assert_ne!(poseidon_hash_2(one, FieldElement::zero()), poseidon_hash_2(FieldElement::zero(), one));
}

#[test]
fn field_element_equality_is_by_value() {
    let a = FieldElement::from_u64(77);
    assert!(a.equals(&decimal_to_fr("77")));
    assert!(!a.equals(&FieldElement::from_u64(78)));
    assert_eq!(a, a.clone());
}
