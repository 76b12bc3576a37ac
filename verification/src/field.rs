//! Elements of the BN254 scalar field, held as canonical big-endian bytes.
use ark_ff::{BigInteger, PrimeField};
use vstd::prelude::*;
use vstd::string::*;
use vstd::std_specs::cmp::PartialEqSpecImpl;

use crate::encoding::{decimal_digits, lemma_decimal_round_trip, signed_decimal_residue};

verus! {

/// The order of the BN254 scalar field.
pub open spec fn field_modulus() -> nat {
    21888242871839275222246405745257275088548364400416034343698204186575808495617nat
}

/// The integer that a big-endian byte string denotes.
pub open spec fn be_value(bytes: Seq<u8>) -> nat
    decreases bytes.len(),
{
    if bytes.len() == 0 {
        0
    } else {
        be_value(bytes.drop_last()) * 256 + bytes.last() as nat
    }
}

/// The `n` big-endian bytes of `v` modulo `256^n`.
pub open spec fn be_bytes(v: nat, n: nat) -> Seq<u8>
    decreases n,
{
    if n == 0 {
        Seq::empty()
    } else {
        be_bytes(v / 256, (n - 1) as nat).push((v % 256) as u8)
    }
}

/// `256^n`, the number of distinct byte strings of length `n`.
pub open spec fn byte_span(n: nat) -> nat
    decreases n,
{
    if n == 0 {
        1
    } else {
        256 * byte_span((n - 1) as nat)
    }
}

pub proof fn lemma_be_value_bound(bytes: Seq<u8>)
    ensures
        be_value(bytes) < byte_span(bytes.len()),
    decreases bytes.len(),
{
    if bytes.len() > 0 {
        let rest = bytes.drop_last();
        lemma_be_value_bound(rest);
        let v = be_value(rest);
        let s = byte_span(rest.len());
        let b = bytes.last() as nat;
        assert(v * 256 + b < 256 * s) by (nonlinear_arith)
            requires
                v < s,
                b < 256,
        ;
    }
}

/// `be_bytes(v, n)` has `n` bytes.
pub proof fn lemma_be_bytes_len(v: nat, n: nat)
    ensures
        be_bytes(v, n).len() == n,
    decreases n,
{
    if n > 0 {
        lemma_be_bytes_len(v / 256, (n - 1) as nat);
    }
}

/// The bytes of a number that fits have its value.
pub proof fn lemma_be_bytes_value(v: nat, n: nat)
    requires
        v < byte_span(n),
    ensures
        be_bytes(v, n).len() == n,
        be_value(be_bytes(v, n)) == v,
    decreases n,
{
    if n > 0 {
        let s = byte_span((n - 1) as nat);
        assert(v / 256 < s) by (nonlinear_arith)
            requires
                v < 256 * s,
        ;
        lemma_be_bytes_value(v / 256, (n - 1) as nat);
        let b = be_bytes(v, n);
        assert(b.drop_last() =~= be_bytes(v / 256, (n - 1) as nat));
        assert(v == (v / 256) * 256 + v % 256) by (nonlinear_arith);
    } else {
        assert(v == 0);
    }
}

/// The field order is below `256^32`: every element has 32 bytes.
pub proof fn lemma_field_modulus_fits()
    ensures
        field_modulus() < byte_span(32),
{
    reveal_with_fuel(byte_span, 33);
    assert(byte_span(32) == 0x1_0000_0000_0000_0000_0000_0000_0000_0000_0000_0000_0000_0000_0000_0000_0000_0000nat);
}

/// Distinct byte strings of one length denote distinct integers.
pub proof fn lemma_be_value_injective(a: Seq<u8>, b: Seq<u8>)
    requires
        a.len() == b.len(),
        be_value(a) == be_value(b),
    ensures
        a == b,
    decreases a.len(),
{
    if a.len() > 0 {
        let va = be_value(a.drop_last());
        let vb = be_value(b.drop_last());
        vstd::arithmetic::div_mod::lemma_fundamental_div_mod_converse(
            be_value(a) as int,
            256,
            va as int,
            a.last() as int,
        );
        vstd::arithmetic::div_mod::lemma_fundamental_div_mod_converse(
            be_value(b) as int,
            256,
            vb as int,
            b.last() as int,
        );
        lemma_be_value_injective(a.drop_last(), b.drop_last());
        assert(a =~= a.drop_last().push(a.last()));
        assert(b =~= b.drop_last().push(b.last()));
    } else {
        assert(a =~= b);
    }
}

/// An element of the BN254 scalar field, stored as the 32 big-endian bytes of
/// its canonical representative.
#[derive(Clone, Copy, Debug)]
pub struct FieldElement {
    pub(crate) bytes: [u8; 32],
}

impl FieldElement {
    #[verifier::type_invariant]
    closed spec fn is_reduced(self) -> bool {
        be_value(self.bytes@) < field_modulus()
    }
}

impl View for FieldElement {
    type V = nat;

    closed spec fn view(&self) -> nat {
        be_value(self.bytes@)
    }
}

/// The value of a concatenation splits into the values of its parts.
pub proof fn lemma_be_value_concat(a: Seq<u8>, b: Seq<u8>)
    ensures
        be_value(a + b) == be_value(a) * byte_span(b.len()) + be_value(b),
    decreases b.len(),
{
    if b.len() == 0 {
        assert(a + b =~= a);
        assert(byte_span(0) == 1);
        assert(be_value(a) * 1 == be_value(a));
    } else {
        let b2 = b.drop_last();
        lemma_be_value_concat(a, b2);
        assert((a + b).drop_last() =~= a + b2);
        assert((a + b).last() == b.last());
        assert(be_value(a + b) == be_value(a + b2) * 256 + b.last() as nat);
        assert(byte_span(b.len()) == 256 * byte_span(b2.len()));
        assert(be_value(b) == be_value(b2) * 256 + b.last() as nat);
        let va = be_value(a);
        let s = byte_span(b2.len());
        let v2 = be_value(b2);
        assert((va * s + v2) * 256 + b.last() as nat == va * (256 * s) + (v2 * 256 + b.last() as nat))
            by (nonlinear_arith);
    }
}

/// All-zero byte strings denote zero.
pub proof fn lemma_be_value_zeros(s: Seq<u8>)
    requires
        forall|i: int| 0 <= i < s.len() ==> s[i] == 0,
    ensures
        be_value(s) == 0,
    decreases s.len(),
{
    if s.len() > 0 {
        lemma_be_value_zeros(s.drop_last());
    }
}

impl FieldElement {
    /// The element `n`.
    pub fn from_u64(n: u64) -> (r: FieldElement)
        ensures
            r@ == n as nat,
    {
        let b0 = (n >> 56u64) as u8;
        let b1 = ((n >> 48u64) & 0xff) as u8;
        let b2 = ((n >> 40u64) & 0xff) as u8;
        let b3 = ((n >> 32u64) & 0xff) as u8;
        let b4 = ((n >> 24u64) & 0xff) as u8;
        let b5 = ((n >> 16u64) & 0xff) as u8;
        let b6 = ((n >> 8u64) & 0xff) as u8;
        let b7 = (n & 0xff) as u8;
        let bytes: [u8; 32] = [
            0, 0, 0, 0, 0, 0, 0, 0, 0, 0, 0, 0, 0, 0, 0, 0,
            0, 0, 0, 0, 0, 0, 0, 0, b0, b1, b2, b3, b4, b5, b6, b7,
        ];
        proof {
            assert(n == ((((((b0 as u64 * 256 + b1 as u64) * 256 + b2 as u64) * 256 + b3 as u64)
                * 256 + b4 as u64) * 256 + b5 as u64) * 256 + b6 as u64) * 256 + b7 as u64)
                by (bit_vector)
                requires
                    b0 == (n >> 56u64) as u8,
                    b1 == ((n >> 48u64) & 0xff) as u8,
                    b2 == ((n >> 40u64) & 0xff) as u8,
                    b3 == ((n >> 32u64) & 0xff) as u8,
                    b4 == ((n >> 24u64) & 0xff) as u8,
                    b5 == ((n >> 16u64) & 0xff) as u8,
                    b6 == ((n >> 8u64) & 0xff) as u8,
                    b7 == (n & 0xff) as u8,
            ;
            let hi = bytes@.subrange(0, 24);
            let lo = bytes@.subrange(24, 32);
            assert(bytes@ =~= hi + lo);
            lemma_be_value_zeros(hi);
            lemma_be_value_concat(hi, lo);
            reveal_with_fuel(be_value, 9);
            assert(lo =~= seq![b0, b1, b2, b3, b4, b5, b6, b7]);
            assert(be_value(lo) == n);
            assert(n < field_modulus());
        }
        FieldElement { bytes }
    }

    /// The element zero.
    pub fn zero() -> (r: FieldElement)
        ensures
            r@ == 0,
    {
        FieldElement::from_u64(0)
    }

    /// The 32 big-endian bytes of the canonical representative.
    pub fn to_bytes_be(&self) -> (r: [u8; 32])
        ensures
            r@ == be_bytes(self@, 32),
            be_value(r@) == self@,
            self@ < field_modulus(),
    {
        proof {
            use_type_invariant(self);
            lemma_field_modulus_fits();
            lemma_be_bytes_value(self@, 32);
            lemma_be_value_injective(self.bytes@, be_bytes(self@, 32));
        }
        self.bytes
    }

    /// Whether two elements are equal.
    pub fn equals(&self, other: &FieldElement) -> (r: bool)
        ensures
            r == (self@ == other@),
    {
        let mut i: usize = 0;
        while i < 32
            invariant
                0 <= i <= 32,
                forall|j: int| 0 <= j < i ==> self.bytes@[j] == other.bytes@[j],
            decreases 32 - i,
        {
            if self.bytes[i] != other.bytes[i] {
                proof {
                    if self@ == other@ {
                        lemma_be_value_injective(self.bytes@, other.bytes@);
                    }
                }
                return false;
            }
            i = i + 1;
        }
        proof { assert(self.bytes@ =~= other.bytes@); }
        true
    }
}

impl PartialEq for FieldElement {
    fn eq(&self, other: &FieldElement) -> (r: bool) {
        self.equals(other)
    }
}

impl Eq for FieldElement {
}

impl PartialEqSpecImpl for FieldElement {
    open spec fn obeys_eq_spec() -> bool {
        true
    }

    open spec fn eq_spec(&self, other: &FieldElement) -> bool {
        self@ == other@
    }
}

/// `ark_ff::PrimeField::from_be_bytes_mod_order` on BN254's `Fr`: the element
/// that the big-endian integer of `bytes` denotes, reduced modulo the field order.
#[verifier::external_body]
fn ark_from_be_bytes_mod_order(bytes: &[u8; 32]) -> (r: FieldElement)
    ensures
        r@ == be_value(bytes@) % field_modulus(),
{
    let f = ark_bn254::Fr::from_be_bytes_mod_order(bytes);
    let v = f.into_bigint().to_bytes_be();
    let mut out = [0u8; 32];
    out.copy_from_slice(&v);
    FieldElement { bytes: out }
}

/// `FromStr` of BN254's `Fr`, which reads a signed decimal integer through
/// `num_bigint::BigInt::from_str` (an optional `+` or `-`, then digits that may be
/// separated by `_`) and reduces it modulo the field order; anything else is refused.
#[verifier::external_body]
fn ark_parse_decimal(s: &str) -> (r: Option<FieldElement>)
    ensures
        r is Some <==> signed_decimal_residue(s@, field_modulus()) is Some,
        r matches Some(f) ==> f@ == signed_decimal_residue(s@, field_modulus())->0,
{
    match s.parse::<ark_bn254::Fr>() {
        Ok(f) => {
            let v = f.into_bigint().to_bytes_be();
            let mut out = [0u8; 32];
            out.copy_from_slice(&v);
            Some(FieldElement { bytes: out })
        },
        Err(()) => None,
    }
}

/// `Display` of BN254's `Fr`: the decimal numeral of the element's canonical
/// representative, without leading zeros.
#[verifier::external_body]
fn ark_to_decimal(f: &FieldElement) -> (s: String)
    ensures
        s@ == decimal_digits(f@ % field_modulus()),
{
    ark_bn254::Fr::from_be_bytes_mod_order(&f.bytes).to_string()
}

/// The field element a decimal numeral denotes, if it is one.
pub open spec fn decimal_value(s: Seq<char>) -> Option<nat> {
    signed_decimal_residue(s, field_modulus())
}

/// The field element a decimal numeral denotes, or zero for text that is not one.
pub open spec fn decimal_or_zero(s: Seq<char>) -> nat {
    match decimal_value(s) {
        Some(v) => v,
        None => 0,
    }
}

/// The message that refuses a text which is not a decimal field element.
pub open spec fn undecimal_message(s: Seq<char>) -> Seq<char> {
    "invalid decimal field element: "@ + s
}

/// The element that the big-endian integer of `bytes` denotes, modulo the field order.
pub fn from_be_bytes_mod_order(bytes: &[u8; 32]) -> (r: FieldElement)
    ensures
        r@ == be_value(bytes@) % field_modulus(),
{
    ark_from_be_bytes_mod_order(bytes)
}

/// The 32 big-endian bytes of `f`.
pub fn fr_to_bytes_be(f: &FieldElement) -> (r: [u8; 32])
    ensures
        r@ == be_bytes(f@, 32),
        be_value(r@) == f@,
        f@ < field_modulus(),
{
    f.to_bytes_be()
}

/// The decimal numeral of `f`; reading it back gives `f` again.
pub fn fr_to_decimal(f: &FieldElement) -> (s: String)
    ensures
        s@ == decimal_digits(f@),
        decimal_value(s@) == Some(f@),
{
    proof {
        use_type_invariant(f);
        vstd::arithmetic::div_mod::lemma_small_mod(f@, field_modulus());
        lemma_decimal_round_trip(f@, field_modulus());
    }
    ark_to_decimal(f)
}

/// Reads a decimal field element; the error names the refused text.
pub fn decimal_to_fr_result(s: &str) -> (r: Result<FieldElement, String>)
    ensures
        r is Ok <==> decimal_value(s@) is Some,
        r matches Ok(f) ==> f@ == decimal_value(s@)->0,
        r matches Err(e) ==> e@ == undecimal_message(s@),
{
    match ark_parse_decimal(s) {
        Some(f) => Ok(f),
        None => {
            let msg = String::from_str("invalid decimal field element: ");
            Err(msg.concat(s))
        },
    }
}

/// Reads a decimal field element, taking zero for text that is not one.
pub fn decimal_to_fr(s: &str) -> (r: FieldElement)
    ensures
        r@ == decimal_or_zero(s@),
{
    match ark_parse_decimal(s) {
        Some(f) => f,
        None => FieldElement::zero(),
    }
}

} // verus!
