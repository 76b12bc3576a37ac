//! The Poseidon hash over the BN254 scalar field, with the circom parameters.
use ark_ff::{BigInteger, PrimeField};
use light_poseidon::PoseidonHasher;
use vstd::prelude::*;

use crate::field::{field_modulus, FieldElement};

verus! {

/// The circom Poseidon hash (BN254, x^5 S-box, width one more than the number
/// of inputs) of a sequence of field elements, each given by its canonical value.
pub uninterp spec fn poseidon(inputs: Seq<nat>) -> nat;

/// The values of a sequence of field elements.
pub open spec fn values_of(inputs: Seq<FieldElement>) -> Seq<nat> {
    inputs.map_values(|x: FieldElement| x@)
}

/// `light_poseidon::Poseidon::<Fr>::new_circom(n)` followed by `hash`, for the
/// `n = inputs.len()` inputs (the crate supports 1 to 12 of them). The digest is
/// named by `poseidon` on the inputs' values and is a reduced field element.
#[verifier::external_body]
fn light_poseidon_hash(inputs: &[FieldElement]) -> (r: FieldElement)
    requires
        1 <= inputs@.len() <= 12,
    ensures
        r@ == poseidon(values_of(inputs@)),
        r@ < field_modulus(),
{
    let frs: Vec<ark_bn254::Fr> = inputs.iter().map(
        |x| ark_bn254::Fr::from_be_bytes_mod_order(&x.bytes),
    ).collect();
    let mut hasher = light_poseidon::Poseidon::<ark_bn254::Fr>::new_circom(frs.len()).unwrap();
    let v = hasher.hash(&frs).unwrap().into_bigint().to_bytes_be();
    let mut out = [0u8; 32];
    out.copy_from_slice(&v);
    FieldElement { bytes: out }
}

/// Poseidon of between one and twelve field elements.
pub fn poseidon_hash_n(inputs: &[FieldElement]) -> (r: FieldElement)
    requires
        1 <= inputs@.len() <= 12,
    ensures
        r@ == poseidon(values_of(inputs@)),
{
    light_poseidon_hash(inputs)
}

/// Poseidon of one field element.
pub fn poseidon_hash_1(a: FieldElement) -> (r: FieldElement)
    ensures
        r@ == poseidon(seq![a@]),
{
    let v = [a];
    proof { assert(values_of(v@) =~= seq![a@]); }
    light_poseidon_hash(&v)
}

/// Poseidon of two field elements.
pub fn poseidon_hash_2(a: FieldElement, b: FieldElement) -> (r: FieldElement)
    ensures
        r@ == poseidon(seq![a@, b@]),
{
    let v = [a, b];
    proof { assert(values_of(v@) =~= seq![a@, b@]); }
    light_poseidon_hash(&v)
}

/// Poseidon of three field elements.
pub fn poseidon_hash_3(a: FieldElement, b: FieldElement, c: FieldElement) -> (r: FieldElement)
    ensures
        r@ == poseidon(seq![a@, b@, c@]),
{
    let v = [a, b, c];
    proof { assert(values_of(v@) =~= seq![a@, b@, c@]); }
    light_poseidon_hash(&v)
}

} // verus!
