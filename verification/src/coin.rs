//! Coins of the privacy pool: commitments and precommitments, coin
//! generation, the commitment tree of a state, and withdraw witnesses.
use vstd::prelude::*;
use vstd::string::*;
use vstd::std_specs::cmp::PartialEqSpecImpl;

use crate::encoding::{
    decimal_digits, hex_encode, hex_lower, hex_value, parse_scalar_hex, strip_hex_prefix,
    all_hex_digits, u64_to_decimal,
};
use crate::field::{
    be_bytes, decimal_or_zero, decimal_to_fr, decimal_to_fr_result, decimal_value, field_modulus,
    fr_to_bytes_be, fr_to_decimal, from_be_bytes_mod_order, undecimal_message, FieldElement,
};
use crate::merkle::{
    capacity_for, decimal_values, lemma_snapshot_round_trip, restore_outcome, snapshot_of,
    snapshot_outcome, LeanIMT, LeanImtNode, LeanImtSnapshot,
};
use crate::merkle_spec::{appended_cache, fold_path};
use crate::poseidon::{poseidon, poseidon_hash_1, poseidon_hash_2, poseidon_hash_3, poseidon_hash_n};

verus! {

/// Circom `DOM_NULLIFIER` (`0x504E554C`), the domain tag of nullifier hashes.
pub const DOM_NULLIFIER: u64 = 0x504E_554C;

/// Coin value in stroops (1 XLM = 10^9 stroops).
pub const COIN_VALUE: u64 = 1_000_000_000;

/// Height of the commitment tree (the circuit's and the contract's).
pub const TREE_DEPTH: u32 = 20;

/// The value of a 32-byte scalar written in hex (optional `0x`).
pub open spec fn scalar_hex_value(s: Seq<char>) -> nat {
    hex_value(strip_hex_prefix(s))
}

/// Whether `s` is a 32-byte scalar in hex: 64 hex digits after an optional `0x`.
pub open spec fn is_scalar_hex(s: Seq<char>) -> bool {
    strip_hex_prefix(s).len() == 64 && all_hex_digits(strip_hex_prefix(s))
}

/// The message that refuses `s` as a 32-byte hex scalar.
pub open spec fn scalar_hex_message(s: Seq<char>) -> Seq<char> {
    if strip_hex_prefix(s).len() != 64 {
        "scalar hex must be 64 hex digits (32 bytes)"@
    } else {
        "scalar hex holds a character that is not a hex digit"@
    }
}

/// Circom BabyJub `Num2Bits(253)`: the scalar's big-endian integer is below `2^253`.
fn require_scalar_babyjub_range(sb: &[u8; 32]) -> (r: Result<(), String>)
    ensures
        r is Ok <==> sb@[0] < 32,
        r matches Err(e) ==> e@ == babyjub_range_message(),
{
    let b0 = sb[0];
    proof {
        assert(b0 & 0xE0 == 0 <==> b0 < 32) by (bit_vector);
    }
    if b0 & 0xE0 != 0 {
        return Err(
            String::from_str(
                "scalar must represent an integer < 2^253 (BabyJub ECDH / circom Num2Bits(253))",
            ),
        );
    }
    Ok(())
}

/// The message that refuses a scalar of `2^253` or more.
pub open spec fn babyjub_range_message() -> Seq<char> {
    "scalar must represent an integer < 2^253 (BabyJub ECDH / circom Num2Bits(253))"@
}

/// Owner BabyJubJub public key (`ownerPub` of the commitment circuit).
#[derive(Clone, Copy, Debug)]
pub struct OwnerPub {
    pub x: FieldElement,
    pub y: FieldElement,
}

impl PartialEq for OwnerPub {
    fn eq(&self, other: &OwnerPub) -> (r: bool) {
        self.x.equals(&other.x) && self.y.equals(&other.y)
    }
}

impl Eq for OwnerPub {
}

impl PartialEqSpecImpl for OwnerPub {
    open spec fn obeys_eq_spec() -> bool {
        true
    }

    open spec fn eq_spec(&self, other: &OwnerPub) -> bool {
        self.x@ == other.x@ && self.y@ == other.y@
    }
}

impl OwnerPub {
    /// The key with coordinates `x` and `y`.
    pub fn from_field_elements(x: FieldElement, y: FieldElement) -> (r: Self)
        ensures
            r.x@ == x@,
            r.y@ == y@,
    {
        Self { x, y }
    }

    /// Reads the two coordinates as 32-byte big-endian hex scalars (reduced
    /// into the field); refused with the first coordinate that is not one.
    pub fn from_coord_hex(x_hex: &str, y_hex: &str) -> (r: Result<Self, String>)
        ensures
            !is_scalar_hex(x_hex@) ==> (r matches Err(e) && e@ == scalar_hex_message(x_hex@)),
            is_scalar_hex(x_hex@) && !is_scalar_hex(y_hex@) ==> (r matches Err(e) && e@
                == scalar_hex_message(y_hex@)),
            r is Ok <==> is_scalar_hex(x_hex@) && is_scalar_hex(y_hex@),
            r matches Ok(k) ==> k.x@ == scalar_hex_value(x_hex@) % field_modulus() && k.y@
                == scalar_hex_value(y_hex@) % field_modulus(),
    {
        let xb = match parse_scalar_hex(x_hex) {
            Ok(b) => b,
            Err(e) => {
                return Err(e);
            },
        };
        let yb = match parse_scalar_hex(y_hex) {
            Ok(b) => b,
            Err(e) => {
                return Err(e);
            },
        };
        Ok(Self { x: from_be_bytes_mod_order(&xb), y: from_be_bytes_mod_order(&yb) })
    }
}

/// A coin as the client stores it; all field elements as decimal numerals.
#[derive(Clone, Debug)]
pub struct CoinData {
    pub value: String,
    pub nullifier: String,
    pub secret: String,
    pub commitment: String,
    /// The two limbs of the Stellar asset contract id.
    pub asset_hi: String,
    pub asset_lo: String,
    pub application_id: String,
}

/// The application id a stored coin has when it names none.
pub fn default_application_id() -> (s: String)
    ensures
        s@ == "0"@,
{
    String::from_str("0")
}

/// A freshly generated coin with its commitment (`0x` and 64 lowercase hex
/// digits) and precommitment (64 lowercase hex digits), both big-endian.
#[derive(Clone, Debug)]
pub struct GeneratedCoin {
    pub coin: CoinData,
    pub commitment_hex: String,
    pub precommitement_hex: String,
}

/// Merkle path and coin fields for the first withdraw leg of the transaction circuit.
#[derive(Debug)]
pub struct WithdrawMerkleWitness {
    pub withdrawn_value: String,
    pub value: String,
    pub nullifier: String,
    pub secret: String,
    pub withdrawn_asset: [String; 2],
    pub state_root: String,
    pub state_index: String,
    pub state_siblings: Vec<String>,
}

/// The pool state a client keeps: the commitments in tree order, and
/// optionally a cached tree (nodes, root, height).
#[derive(Debug)]
pub struct StateFile {
    pub commitments: Vec<String>,
    pub nodes: Option<Vec<crate::merkle::LeanImtNode>>,
    pub root: Option<String>,
    pub depth: Option<u32>,
}

impl Default for StateFile {
    fn default() -> (s: Self)
        ensures
            s.commitments@.len() == 0,
            s.nodes is None,
            s.root is None,
            s.depth is None,
    {
        StateFile { commitments: Vec::new(), nodes: None, root: None, depth: None }
    }
}

/// `Poseidon(ownerPub.x, ownerPub.y)`.
pub open spec fn owner_key_hash(x: nat, y: nat) -> nat {
    poseidon(seq![x, y])
}

/// `Poseidon(secret, ownerMode, ownerKeyHash)`.
pub open spec fn precommitment_of(secret: nat, owner_mode: nat, x: nat, y: nat) -> nat {
    poseidon(seq![secret, owner_mode, owner_key_hash(x, y)])
}

/// `Poseidon(value, secret, nullifier, ownerPub.x, ownerPub.y, ownerMode, asset[0], asset[1], applicationId)`.
pub open spec fn commitment_of(
    value: nat,
    secret: nat,
    nullifier: nat,
    x: nat,
    y: nat,
    owner_mode: nat,
    asset_hi: nat,
    asset_lo: nat,
    application_id: nat,
) -> nat {
    poseidon(seq![value, secret, nullifier, x, y, owner_mode, asset_hi, asset_lo, application_id])
}

/// Privacy-pool leaf hash of the commitment circuit: the commitment and the
/// precommitment of a coin opened in `owner_mode` (0 for registered notes).
pub fn commitment_and_precommitment(
    nullifier: FieldElement,
    value: FieldElement,
    secret: FieldElement,
    owner_pub: OwnerPub,
    asset: [FieldElement; 2],
    application_id: FieldElement,
    owner_mode: FieldElement,
) -> (r: (FieldElement, FieldElement))
    ensures
        r.0@ == commitment_of(
            value@,
            secret@,
            nullifier@,
            owner_pub.x@,
            owner_pub.y@,
            owner_mode@,
            asset[0]@,
            asset[1]@,
            application_id@,
        ),
        r.1@ == precommitment_of(secret@, owner_mode@, owner_pub.x@, owner_pub.y@),
{
    let owner_key_hash = poseidon_hash_2(owner_pub.x, owner_pub.y);
    let precommitment = poseidon_hash_3(secret, owner_mode, owner_key_hash);
    let inputs = [
        value,
        secret,
        nullifier,
        owner_pub.x,
        owner_pub.y,
        owner_mode,
        asset[0],
        asset[1],
        application_id,
    ];
    let commitment = poseidon_hash_n(&inputs);
    proof {
        assert(crate::poseidon::values_of(inputs@) =~= seq![
            value@,
            secret@,
            nullifier@,
            owner_pub.x@,
            owner_pub.y@,
            owner_mode@,
            asset[0]@,
            asset[1]@,
            application_id@,
        ]);
    }
    (commitment, precommitment)
}

/// The commitment of a registered note (owner mode 0).
pub fn generate_commitment(
    nullifier: FieldElement,
    value: FieldElement,
    secret: FieldElement,
    owner_pub: OwnerPub,
    asset: [FieldElement; 2],
    application_id: FieldElement,
) -> (r: FieldElement)
    ensures
        r@ == commitment_of(
            value@,
            secret@,
            nullifier@,
            owner_pub.x@,
            owner_pub.y@,
            0,
            asset[0]@,
            asset[1]@,
            application_id@,
        ),
{
    commitment_and_precommitment(
        nullifier,
        value,
        secret,
        owner_pub,
        asset,
        application_id,
        FieldElement::from_u64(0),
    ).0
}

/// Whether `c` is the registered coin (owner mode 0) with these field
/// elements: every field as a decimal numeral, the commitment also as `0x`
/// and 64 lowercase hex digits, the precommitment as 64 lowercase hex digits.
pub open spec fn coin_describes(
    c: GeneratedCoin,
    nullifier: nat,
    value: nat,
    secret: nat,
    x: nat,
    y: nat,
    asset_hi: nat,
    asset_lo: nat,
    application_id: nat,
) -> bool {
    let commitment = commitment_of(
        value,
        secret,
        nullifier,
        x,
        y,
        0,
        asset_hi,
        asset_lo,
        application_id,
    );
    let precommitment = precommitment_of(secret, 0, x, y);
    &&& c.coin.value@ == decimal_digits(value)
    &&& c.coin.nullifier@ == decimal_digits(nullifier)
    &&& c.coin.secret@ == decimal_digits(secret)
    &&& c.coin.commitment@ == decimal_digits(commitment)
    &&& c.coin.asset_hi@ == decimal_digits(asset_hi)
    &&& c.coin.asset_lo@ == decimal_digits(asset_lo)
    &&& c.coin.application_id@ == decimal_digits(application_id)
    &&& c.commitment_hex@ == "0x"@ + hex_lower(be_bytes(commitment, 32))
    &&& c.precommitement_hex@ == hex_lower(be_bytes(precommitment, 32))
}

/// The coin with the given field elements, registered (owner mode 0).
pub fn generated_coin_from_fields(
    nullifier: FieldElement,
    value: FieldElement,
    secret: FieldElement,
    owner_pub: OwnerPub,
    asset: [FieldElement; 2],
    application_id: FieldElement,
) -> (c: GeneratedCoin)
    ensures
        coin_describes(
            c,
            nullifier@,
            value@,
            secret@,
            owner_pub.x@,
            owner_pub.y@,
            asset[0]@,
            asset[1]@,
            application_id@,
        ),
{
    let (commitment, precommitment) = commitment_and_precommitment(
        nullifier,
        value,
        secret,
        owner_pub,
        asset,
        application_id,
        FieldElement::from_u64(0),
    );
    let commitment_bytes = fr_to_bytes_be(&commitment);
    let precommitment_bytes = fr_to_bytes_be(&precommitment);
    let commitment_hex = String::from_str("0x").concat(hex_encode(&commitment_bytes).as_str());
    GeneratedCoin {
        coin: CoinData {
            value: fr_to_decimal(&value),
            nullifier: fr_to_decimal(&nullifier),
            secret: fr_to_decimal(&secret),
            commitment: fr_to_decimal(&commitment),
            asset_hi: fr_to_decimal(&asset[0]),
            asset_lo: fr_to_decimal(&asset[1]),
            application_id: fr_to_decimal(&application_id),
        },
        commitment_hex,
        precommitement_hex: hex_encode(&precommitment_bytes),
    }
}

/// `getrandom::getrandom` on 32 bytes: bytes from the system's random source,
/// or the source's error as text. Nothing is stated of either.
#[verifier::external_body]
fn random_bytes_32() -> (r: Result<[u8; 32], String>) {
    let mut bytes = [0u8; 32];
    match getrandom::getrandom(&mut bytes) {
        Ok(()) => Ok(bytes),
        Err(e) => Err(e.to_string()),
    }
}

/// The field element that 32 drawn bytes give: their big-endian value
/// reduced into the field.
pub open spec fn drawn_element(bytes: [u8; 32]) -> nat {
    crate::field::be_value(bytes@) % field_modulus()
}

/// Whether `r` passes on the refusal `e` of a random draw, text unchanged.
pub open spec fn passes_on(r: Result<GeneratedCoin, String>, e: String) -> bool {
    r matches Err(e2) && e2@ == e@
}

/// The field element of a random draw, or the draw's refusal passed on.
fn field_element_from_draw(draw: Result<[u8; 32], String>) -> (r: Result<FieldElement, String>)
    ensures
        draw matches Ok(b) ==> (r matches Ok(f) && f@ == drawn_element(b)),
        draw matches Err(e) ==> (r matches Err(e2) && e2@ == e@),
        r matches Ok(f) ==> f@ < field_modulus(),
{
    match draw {
        Ok(bytes) => {
            let f = from_be_bytes_mod_order(&bytes);
            proof {
                vstd::arithmetic::div_mod::lemma_mod_bound(
                    crate::field::be_value(bytes@) as int,
                    field_modulus() as int,
                );
            }
            Ok(f)
        },
        Err(e) => Err(e),
    }
}

/// A random field element: 32 random bytes reduced into the field.
fn random_field_element() -> (r: Result<FieldElement, String>)
    ensures
        r matches Ok(f) ==> f@ < field_modulus(),
{
    field_element_from_draw(random_bytes_32())
}

/// The application id of a coin: a decimal field element, zero for text
/// that is not one.
fn application_id_fr(application_id_decimal: &str) -> (r: Result<FieldElement, String>)
    ensures
        r matches Ok(f) && f@ == decimal_or_zero(application_id_decimal@),
{
    Ok(decimal_to_fr(application_id_decimal))
}

/// Whether `c` is a registered coin with these fields and some nullifier in the field.
pub open spec fn coin_with_some_nullifier(
    c: GeneratedCoin,
    value: nat,
    secret: nat,
    x: nat,
    y: nat,
    asset_hi: nat,
    asset_lo: nat,
    application_id: nat,
) -> bool {
    exists|n: nat|
        n < field_modulus() && #[trigger] coin_describes(
            c,
            n,
            value,
            secret,
            x,
            y,
            asset_hi,
            asset_lo,
            application_id,
        )
}

/// Whether `c` is a registered coin with these fields and some nullifier and
/// secret in the field.
pub open spec fn coin_with_some_secret(
    c: GeneratedCoin,
    value: nat,
    x: nat,
    y: nat,
    asset_hi: nat,
    asset_lo: nat,
    application_id: nat,
) -> bool {
    exists|s: nat|
        s < field_modulus() && #[trigger] coin_with_some_nullifier(
            c,
            value,
            s,
            x,
            y,
            asset_hi,
            asset_lo,
            application_id,
        )
}

/// Whether `c` is a registered coin with these fields and some nullifier and
/// owner key in the field.
pub open spec fn coin_with_some_owner(
    c: GeneratedCoin,
    value: nat,
    secret: nat,
    asset_hi: nat,
    asset_lo: nat,
    application_id: nat,
) -> bool {
    exists|x: nat, y: nat|
        x < field_modulus() && y < field_modulus() && #[trigger] coin_with_some_nullifier(
            c,
            value,
            secret,
            x,
            y,
            asset_hi,
            asset_lo,
            application_id,
        )
}

/// Whether `c` is a registered coin with this value, asset and application
/// id, and some nullifier, secret and owner key in the field.
pub open spec fn coin_with_some_keys(
    c: GeneratedCoin,
    value: nat,
    asset_hi: nat,
    asset_lo: nat,
    application_id: nat,
) -> bool {
    exists|x: nat, y: nat|
        x < field_modulus() && y < field_modulus() && #[trigger] coin_with_some_secret(
            c,
            value,
            x,
            y,
            asset_hi,
            asset_lo,
            application_id,
        )
}

/// What making a coin for owner key `(x, y)` gives, once its two random
/// draws (nullifier, then secret) came back as `nullifier_draw` and
/// `secret_draw`: refused for an amount that is not a decimal field element,
/// then with the first draw's refusal, passed on; otherwise the registered
/// coin with the drawn nullifier and secret.
pub open spec fn owner_coin_outcome(
    x: nat,
    y: nat,
    amount: Seq<char>,
    asset_hi: nat,
    asset_lo: nat,
    application_id: Seq<char>,
    nullifier_draw: Result<[u8; 32], String>,
    secret_draw: Result<[u8; 32], String>,
    r: Result<GeneratedCoin, String>,
) -> bool {
    match decimal_value(amount) {
        None => r matches Err(e) && e@ == undecimal_message(amount),
        Some(value) => match nullifier_draw {
            Err(e) => passes_on(r, e),
            Ok(nb) => match secret_draw {
                Err(e) => passes_on(r, e),
                Ok(sb) => r matches Ok(c) && coin_describes(
                    c,
                    drawn_element(nb),
                    value,
                    drawn_element(sb),
                    x,
                    y,
                    asset_hi,
                    asset_lo,
                    decimal_or_zero(application_id),
                ),
            },
        },
    }
}

/// A coin for `owner_pub` from the two random draws it needs, nullifier
/// first, then secret. Refused when the amount is not a decimal field
/// element, then with a draw's own refusal.
pub fn generate_coin_with_owner_pub_from_draws(
    owner_pub: OwnerPub,
    amount_decimal: &str,
    asset_hi: FieldElement,
    asset_lo: FieldElement,
    application_id_decimal: &str,
    nullifier_draw: Result<[u8; 32], String>,
    secret_draw: Result<[u8; 32], String>,
) -> (r: Result<GeneratedCoin, String>)
    ensures
        owner_coin_outcome(
            owner_pub.x@,
            owner_pub.y@,
            amount_decimal@,
            asset_hi@,
            asset_lo@,
            application_id_decimal@,
            nullifier_draw,
            secret_draw,
            r,
        ),
{
    let application_id = application_id_fr(application_id_decimal)?;
    let value = decimal_to_fr_result(amount_decimal)?;
    let nullifier = field_element_from_draw(nullifier_draw)?;
    let secret = field_element_from_draw(secret_draw)?;
    let asset = [asset_hi, asset_lo];
    Ok(generated_coin_from_fields(nullifier, value, secret, owner_pub, asset, application_id))
}

/// A coin made for an owner key is refused exactly when the amount is not a
/// decimal field element or a random draw fails; otherwise it carries the
/// amount's value, the asset, the application id and the owner key, whatever
/// they are.
pub proof fn lemma_owner_coin_refusals(
    x: nat,
    y: nat,
    amount: Seq<char>,
    asset_hi: nat,
    asset_lo: nat,
    application_id: Seq<char>,
    nullifier_draw: Result<[u8; 32], String>,
    secret_draw: Result<[u8; 32], String>,
    r: Result<GeneratedCoin, String>,
)
    requires
        owner_coin_outcome(
            x,
            y,
            amount,
            asset_hi,
            asset_lo,
            application_id,
            nullifier_draw,
            secret_draw,
            r,
        ),
    ensures
        r is Err <==> decimal_value(amount) is None || nullifier_draw is Err || secret_draw is Err,
        r matches Ok(c) ==> {
            &&& c.coin.value@ == decimal_digits(decimal_value(amount)->0)
            &&& c.coin.asset_hi@ == decimal_digits(asset_hi)
            &&& c.coin.asset_lo@ == decimal_digits(asset_lo)
            &&& c.coin.application_id@ == decimal_digits(decimal_or_zero(application_id))
            &&& exists|n: nat, s: nat|
                c.coin.commitment@ == decimal_digits(
                    #[trigger] commitment_of(
                        decimal_value(amount)->0,
                        s,
                        n,
                        x,
                        y,
                        0,
                        asset_hi,
                        asset_lo,
                        decimal_or_zero(application_id),
                    ),
                )
        },
{
    if r is Ok {
        let c = r->Ok_0;
        let nb = nullifier_draw->Ok_0;
        let sb = secret_draw->Ok_0;
        assert(c.coin.commitment@ == decimal_digits(
            commitment_of(
                decimal_value(amount)->0,
                drawn_element(sb),
                drawn_element(nb),
                x,
                y,
                0,
                asset_hi,
                asset_lo,
                decimal_or_zero(application_id),
            ),
        ));
    }
}

/// A coin for `owner_pub` with random nullifier and secret. Refused when the
/// amount is not a decimal field element, or when the random source fails.
pub fn generate_coin_with_owner_pub(
    owner_pub: OwnerPub,
    amount_decimal: &str,
    asset_hi: FieldElement,
    asset_lo: FieldElement,
    application_id_decimal: &str,
) -> (r: Result<GeneratedCoin, String>)
    ensures
        decimal_value(amount_decimal@) is None ==> (r matches Err(e) && e@ == undecimal_message(
            amount_decimal@,
        )),
        r matches Ok(c) ==> decimal_value(amount_decimal@) is Some && coin_with_some_secret(
            c,
            decimal_value(amount_decimal@)->0,
            owner_pub.x@,
            owner_pub.y@,
            asset_hi@,
            asset_lo@,
            decimal_or_zero(application_id_decimal@),
        ),
        exists|nullifier_draw: Result<[u8; 32], String>, secret_draw: Result<[u8; 32], String>|
            #[trigger] owner_coin_outcome(
                owner_pub.x@,
                owner_pub.y@,
                amount_decimal@,
                asset_hi@,
                asset_lo@,
                application_id_decimal@,
                nullifier_draw,
                secret_draw,
                r,
            ),

{
    let nullifier_draw = random_bytes_32();
    let secret_draw = random_bytes_32();
    let r = generate_coin_with_owner_pub_from_draws(
        owner_pub,
        amount_decimal,
        asset_hi,
        asset_lo,
        application_id_decimal,
        nullifier_draw,
        secret_draw,
    );
    proof {
        if r is Ok {
            let c = r->Ok_0;
            let n = drawn_element(nullifier_draw->Ok_0);
            let sec = drawn_element(secret_draw->Ok_0);
            lemma_drawn_in_field(nullifier_draw->Ok_0);
            lemma_drawn_in_field(secret_draw->Ok_0);
            let value = decimal_value(amount_decimal@)->0;
            let app = decimal_or_zero(application_id_decimal@);
            assert(coin_describes(
                c,
                n,
                value,
                sec,
                owner_pub.x@,
                owner_pub.y@,
                asset_hi@,
                asset_lo@,
                app,
            ));
            assert(coin_with_some_nullifier(
                c,
                value,
                sec,
                owner_pub.x@,
                owner_pub.y@,
                asset_hi@,
                asset_lo@,
                app,
            ));
        }
    }
    r
}

/// A drawn element lies in the field.
proof fn lemma_drawn_in_field(bytes: [u8; 32])
    ensures
        drawn_element(bytes) < field_modulus(),
{
    vstd::arithmetic::div_mod::lemma_mod_bound(
        crate::field::be_value(bytes@) as int,
        field_modulus() as int,
    );
}

/// What making a coin with a random owner key gives, once its four random
/// draws (owner key coordinates, then nullifier and secret) came back:
/// refused with a coordinate draw's refusal, passed on; otherwise what
/// making a coin for the drawn key gives.
pub open spec fn random_coin_outcome(
    amount: Seq<char>,
    asset_hi: nat,
    asset_lo: nat,
    application_id: Seq<char>,
    x_draw: Result<[u8; 32], String>,
    y_draw: Result<[u8; 32], String>,
    nullifier_draw: Result<[u8; 32], String>,
    secret_draw: Result<[u8; 32], String>,
    r: Result<GeneratedCoin, String>,
) -> bool {
    match x_draw {
        Err(e) => passes_on(r, e),
        Ok(xb) => match y_draw {
            Err(e) => passes_on(r, e),
            Ok(yb) => owner_coin_outcome(
                drawn_element(xb),
                drawn_element(yb),
                amount,
                asset_hi,
                asset_lo,
                application_id,
                nullifier_draw,
                secret_draw,
                r,
            ),
        },
    }
}

/// A coin with an owner key, nullifier and secret from the four random
/// draws it needs. Refused with a coordinate draw's refusal, then when the
/// amount is not a decimal field element, then with a later draw's refusal.
pub fn generate_coin_from_draws(
    amount_decimal: &str,
    asset_hi: FieldElement,
    asset_lo: FieldElement,
    application_id_decimal: &str,
    x_draw: Result<[u8; 32], String>,
    y_draw: Result<[u8; 32], String>,
    nullifier_draw: Result<[u8; 32], String>,
    secret_draw: Result<[u8; 32], String>,
) -> (r: Result<GeneratedCoin, String>)
    ensures
        random_coin_outcome(
            amount_decimal@,
            asset_hi@,
            asset_lo@,
            application_id_decimal@,
            x_draw,
            y_draw,
            nullifier_draw,
            secret_draw,
            r,
        ),
{
    let x = field_element_from_draw(x_draw)?;
    let y = field_element_from_draw(y_draw)?;
    generate_coin_with_owner_pub_from_draws(
        OwnerPub { x, y },
        amount_decimal,
        asset_hi,
        asset_lo,
        application_id_decimal,
        nullifier_draw,
        secret_draw,
    )
}

/// A coin with a random owner key is refused exactly when a random draw
/// fails or the amount is not a decimal field element; otherwise it carries
/// the amount's value, the asset limbs and the application id, whatever they
/// are.
pub proof fn lemma_random_coin_refusals(
    amount: Seq<char>,
    asset_hi: nat,
    asset_lo: nat,
    application_id: Seq<char>,
    x_draw: Result<[u8; 32], String>,
    y_draw: Result<[u8; 32], String>,
    nullifier_draw: Result<[u8; 32], String>,
    secret_draw: Result<[u8; 32], String>,
    r: Result<GeneratedCoin, String>,
)
    requires
        random_coin_outcome(
            amount,
            asset_hi,
            asset_lo,
            application_id,
            x_draw,
            y_draw,
            nullifier_draw,
            secret_draw,
            r,
        ),
    ensures
        r is Err <==> x_draw is Err || y_draw is Err || decimal_value(amount) is None
            || nullifier_draw is Err || secret_draw is Err,
        r matches Ok(c) ==> {
            &&& c.coin.value@ == decimal_digits(decimal_value(amount)->0)
            &&& c.coin.asset_hi@ == decimal_digits(asset_hi)
            &&& c.coin.asset_lo@ == decimal_digits(asset_lo)
            &&& c.coin.application_id@ == decimal_digits(decimal_or_zero(application_id))
        },
{
    if x_draw is Ok && y_draw is Ok {
        lemma_owner_coin_refusals(
            drawn_element(x_draw->Ok_0),
            drawn_element(y_draw->Ok_0),
            amount,
            asset_hi,
            asset_lo,
            application_id,
            nullifier_draw,
            secret_draw,
            r,
        );
    }
}

/// A coin with random owner key, nullifier and secret. Refused when the
/// amount is not a decimal field element, or when the random source fails.
pub fn generate_coin(
    amount_decimal: &str,
    asset_hi: FieldElement,
    asset_lo: FieldElement,
    application_id_decimal: &str,
) -> (r: Result<GeneratedCoin, String>)
    ensures
        decimal_value(amount_decimal@) is None ==> r is Err,
        r matches Ok(c) ==> decimal_value(amount_decimal@) is Some && coin_with_some_keys(
            c,
            decimal_value(amount_decimal@)->0,
            asset_hi@,
            asset_lo@,
            decimal_or_zero(application_id_decimal@),
        ),
        exists|
            x_draw: Result<[u8; 32], String>,
            y_draw: Result<[u8; 32], String>,
            nullifier_draw: Result<[u8; 32], String>,
            secret_draw: Result<[u8; 32], String>,
        |
            #[trigger] random_coin_outcome(
                amount_decimal@,
                asset_hi@,
                asset_lo@,
                application_id_decimal@,
                x_draw,
                y_draw,
                nullifier_draw,
                secret_draw,
                r,
            ),

{
    let x_draw = random_bytes_32();
    let y_draw = random_bytes_32();
    let nullifier_draw = random_bytes_32();
    let secret_draw = random_bytes_32();
    let r = generate_coin_from_draws(
        amount_decimal,
        asset_hi,
        asset_lo,
        application_id_decimal,
        x_draw,
        y_draw,
        nullifier_draw,
        secret_draw,
    );
    proof {
        if r is Ok {
            let c = r->Ok_0;
            let x = drawn_element(x_draw->Ok_0);
            let y = drawn_element(y_draw->Ok_0);
            let n = drawn_element(nullifier_draw->Ok_0);
            let sec = drawn_element(secret_draw->Ok_0);
            lemma_drawn_in_field(x_draw->Ok_0);
            lemma_drawn_in_field(y_draw->Ok_0);
            lemma_drawn_in_field(nullifier_draw->Ok_0);
            lemma_drawn_in_field(secret_draw->Ok_0);
            let value = decimal_value(amount_decimal@)->0;
            let app = decimal_or_zero(application_id_decimal@);
            assert(coin_describes(c, n, value, sec, x, y, asset_hi@, asset_lo@, app));
            assert(coin_with_some_nullifier(c, value, sec, x, y, asset_hi@, asset_lo@, app));
            assert(coin_with_some_secret(c, value, x, y, asset_hi@, asset_lo@, app));
        }
    }
    r
}

/// `2^253`: the scalars of BabyJub ECDH stay below it.
pub open spec fn babyjub_bound() -> nat {
    32 * crate::field::byte_span(31)
}

/// A 32-byte big-endian integer is below `2^253` exactly when its first byte is below 32.
proof fn lemma_babyjub_first_byte(b: Seq<u8>)
    requires
        b.len() == 32,
    ensures
        crate::field::be_value(b) < babyjub_bound() <==> b[0] < 32,
{
    let first = b.subrange(0, 1);
    let rest = b.subrange(1, 32);
    assert(b =~= first + rest);
    crate::field::lemma_be_value_concat(first, rest);
    crate::field::lemma_be_value_bound(rest);
    assert(first.drop_last() =~= Seq::<u8>::empty());
    assert(first.last() == b[0]);
    assert(crate::field::be_value(Seq::<u8>::empty()) == 0);
    assert(crate::field::be_value(first) == b[0] as nat);
    let s = crate::field::byte_span(31);
    let r = crate::field::be_value(rest);
    assert(b[0] < 32 ==> b[0] as nat * s + r < 32 * s) by (nonlinear_arith)
        requires
            r < s,
    ;
    assert(b[0] >= 32 ==> b[0] as nat * s + r >= 32 * s) by (nonlinear_arith);
}

/// Reads a deposit's ephemeral key scalar: 64 hex digits, below `2^253`.
fn ephemeral_scalar(scalar_hex: &str) -> (r: Result<FieldElement, String>)
    ensures
        !is_scalar_hex(scalar_hex@) ==> (r matches Err(e) && e@ == scalar_hex_message(
            scalar_hex@,
        )),
        is_scalar_hex(scalar_hex@) && scalar_hex_value(scalar_hex@) >= babyjub_bound() ==> (r matches Err(
            e,
        ) && e@ == babyjub_range_message()),
        r is Ok <==> is_scalar_hex(scalar_hex@) && scalar_hex_value(scalar_hex@) < babyjub_bound(),
        r matches Ok(f) ==> f@ == scalar_hex_value(scalar_hex@) % field_modulus(),
{
    let sb = parse_scalar_hex(scalar_hex)?;
    proof {
        lemma_babyjub_first_byte(sb@);
    }
    require_scalar_babyjub_range(&sb)?;
    Ok(from_be_bytes_mod_order(&sb))
}

/// The secret of a deposit coin: Poseidon of the ephemeral key scalar,
/// reduced into the field.
pub open spec fn deposit_secret(scalar_hex: Seq<char>) -> nat {
    poseidon(seq![scalar_hex_value(scalar_hex) % field_modulus()])
}

/// What the checks of a deposit's ephemeral scalar and amount give: the
/// refusal of the first check that fails, if any.
pub open spec fn deposit_refusal(scalar_hex: Seq<char>, amount: Seq<char>) -> Option<Seq<char>> {
    if !is_scalar_hex(scalar_hex) {
        Some(scalar_hex_message(scalar_hex))
    } else if scalar_hex_value(scalar_hex) >= babyjub_bound() {
        Some(babyjub_range_message())
    } else if decimal_value(amount) is None {
        Some(undecimal_message(amount))
    } else {
        None
    }
}

/// What making a deposit coin with random owner key gives, once its three
/// random draws (nullifier, then owner key coordinates) came back: refused
/// by the checks of the scalar and the amount, then with the first draw's
/// refusal, passed on; otherwise the registered coin with the deposit's
/// secret and the drawn nullifier and owner key.
pub open spec fn deposit_coin_outcome(
    scalar_hex: Seq<char>,
    amount: Seq<char>,
    asset_hi: nat,
    asset_lo: nat,
    application_id: Seq<char>,
    nullifier_draw: Result<[u8; 32], String>,
    x_draw: Result<[u8; 32], String>,
    y_draw: Result<[u8; 32], String>,
    r: Result<GeneratedCoin, String>,
) -> bool {
    match deposit_refusal(scalar_hex, amount) {
        Some(m) => r matches Err(e) && e@ == m,
        None => match nullifier_draw {
            Err(e) => passes_on(r, e),
            Ok(nb) => match x_draw {
                Err(e) => passes_on(r, e),
                Ok(xb) => match y_draw {
                    Err(e) => passes_on(r, e),
                    Ok(yb) => r matches Ok(c) && coin_describes(
                        c,
                        drawn_element(nb),
                        decimal_value(amount)->0,
                        deposit_secret(scalar_hex),
                        drawn_element(xb),
                        drawn_element(yb),
                        asset_hi,
                        asset_lo,
                        decimal_or_zero(application_id),
                    ),
                },
            },
        },
    }
}

/// A deposit coin from the three random draws it needs (nullifier, then
/// owner key coordinates). Refused, in this order, when the scalar is not
/// 64 hex digits, when it is `2^253` or more, when the amount is not a
/// decimal field element, then with a draw's own refusal.
pub fn generate_coin_with_deposit_ephemeral_scalar_hex_from_draws(
    scalar_hex: &str,
    amount_decimal: &str,
    asset_hi: FieldElement,
    asset_lo: FieldElement,
    application_id_decimal: &str,
    nullifier_draw: Result<[u8; 32], String>,
    x_draw: Result<[u8; 32], String>,
    y_draw: Result<[u8; 32], String>,
) -> (r: Result<GeneratedCoin, String>)
    ensures
        deposit_coin_outcome(
            scalar_hex@,
            amount_decimal@,
            asset_hi@,
            asset_lo@,
            application_id_decimal@,
            nullifier_draw,
            x_draw,
            y_draw,
            r,
        ),
{
    let application_id = application_id_fr(application_id_decimal)?;
    let ephemeral_key_scalar = ephemeral_scalar(scalar_hex)?;
    let secret = poseidon_hash_1(ephemeral_key_scalar);
    let value = decimal_to_fr_result(amount_decimal)?;
    let nullifier = field_element_from_draw(nullifier_draw)?;
    let x = field_element_from_draw(x_draw)?;
    let y = field_element_from_draw(y_draw)?;
    let asset = [asset_hi, asset_lo];
    Ok(generated_coin_from_fields(nullifier, value, secret, OwnerPub { x, y }, asset, application_id))
}

/// A deposit coin is refused exactly when the scalar is not 64 hex digits
/// below `2^253`, the amount is not a decimal field element, or a random
/// draw fails; otherwise it carries the amount's value, the deposit's
/// secret, the asset limbs and the application id, whatever they are.
pub proof fn lemma_deposit_coin_refusals(
    scalar_hex: Seq<char>,
    amount: Seq<char>,
    asset_hi: nat,
    asset_lo: nat,
    application_id: Seq<char>,
    nullifier_draw: Result<[u8; 32], String>,
    x_draw: Result<[u8; 32], String>,
    y_draw: Result<[u8; 32], String>,
    r: Result<GeneratedCoin, String>,
)
    requires
        deposit_coin_outcome(
            scalar_hex,
            amount,
            asset_hi,
            asset_lo,
            application_id,
            nullifier_draw,
            x_draw,
            y_draw,
            r,
        ),
    ensures
        r is Err <==> !is_scalar_hex(scalar_hex) || scalar_hex_value(scalar_hex) >= babyjub_bound()
            || decimal_value(amount) is None || nullifier_draw is Err || x_draw is Err
            || y_draw is Err,
        r matches Ok(c) ==> {
            &&& c.coin.value@ == decimal_digits(decimal_value(amount)->0)
            &&& c.coin.secret@ == decimal_digits(
                poseidon(seq![scalar_hex_value(scalar_hex) % field_modulus()]),
            )
            &&& c.coin.asset_hi@ == decimal_digits(asset_hi)
            &&& c.coin.asset_lo@ == decimal_digits(asset_lo)
            &&& c.coin.application_id@ == decimal_digits(decimal_or_zero(application_id))
        },
{
}

/// A deposit coin whose secret is `Poseidon(ephemeral key scalar)` and whose
/// owner key and nullifier are random. Refused, in this order, when the scalar
/// is not 64 hex digits, when it is `2^253` or more, when the amount is not
/// a decimal field element, or when the random source fails.
pub fn generate_coin_with_deposit_ephemeral_scalar_hex(
    scalar_hex: &str,
    amount_decimal: &str,
    asset_hi: FieldElement,
    asset_lo: FieldElement,
    application_id_decimal: &str,
) -> (r: Result<GeneratedCoin, String>)
    ensures
        !is_scalar_hex(scalar_hex@) ==> (r matches Err(e) && e@ == scalar_hex_message(
            scalar_hex@,
        )),
        is_scalar_hex(scalar_hex@) && scalar_hex_value(scalar_hex@) >= babyjub_bound() ==> (r matches Err(
            e,
        ) && e@ == babyjub_range_message()),
        is_scalar_hex(scalar_hex@) && scalar_hex_value(scalar_hex@) < babyjub_bound()
            && decimal_value(amount_decimal@) is None ==> (r matches Err(e) && e@
            == undecimal_message(amount_decimal@)),
        r matches Ok(c) ==> {
            &&& is_scalar_hex(scalar_hex@)
            &&& scalar_hex_value(scalar_hex@) < babyjub_bound()
            &&& decimal_value(amount_decimal@) is Some
            &&& coin_with_some_owner(
                c,
                decimal_value(amount_decimal@)->0,
                poseidon(seq![scalar_hex_value(scalar_hex@) % field_modulus()]),
                asset_hi@,
                asset_lo@,
                decimal_or_zero(application_id_decimal@),
            )
        },
        exists|
            nullifier_draw: Result<[u8; 32], String>,
            x_draw: Result<[u8; 32], String>,
            y_draw: Result<[u8; 32], String>,
        |
            #[trigger] deposit_coin_outcome(
                scalar_hex@,
                amount_decimal@,
                asset_hi@,
                asset_lo@,
                application_id_decimal@,
                nullifier_draw,
                x_draw,
                y_draw,
                r,
            ),

{
    let nullifier_draw = random_bytes_32();
    let x_draw = random_bytes_32();
    let y_draw = random_bytes_32();
    let r = generate_coin_with_deposit_ephemeral_scalar_hex_from_draws(
        scalar_hex,
        amount_decimal,
        asset_hi,
        asset_lo,
        application_id_decimal,
        nullifier_draw,
        x_draw,
        y_draw,
    );
    proof {
        if r is Ok {
            let c = r->Ok_0;
            let n = drawn_element(nullifier_draw->Ok_0);
            let x = drawn_element(x_draw->Ok_0);
            let y = drawn_element(y_draw->Ok_0);
            lemma_drawn_in_field(nullifier_draw->Ok_0);
            lemma_drawn_in_field(x_draw->Ok_0);
            lemma_drawn_in_field(y_draw->Ok_0);
            let value = decimal_value(amount_decimal@)->0;
            let secret = deposit_secret(scalar_hex@);
            let app = decimal_or_zero(application_id_decimal@);
            assert(coin_describes(c, n, value, secret, x, y, asset_hi@, asset_lo@, app));
            assert(coin_with_some_nullifier(c, value, secret, x, y, asset_hi@, asset_lo@, app));
        }
    }
    r
}

/// What the checks of a deposit for a given owner key give: the refusal of
/// the first check that fails (scalar, owner coordinates, amount), if any.
pub open spec fn owner_deposit_refusal(
    scalar_hex: Seq<char>,
    owner_x_hex: Seq<char>,
    owner_y_hex: Seq<char>,
    amount: Seq<char>,
) -> Option<Seq<char>> {
    if !is_scalar_hex(scalar_hex) {
        Some(scalar_hex_message(scalar_hex))
    } else if scalar_hex_value(scalar_hex) >= babyjub_bound() {
        Some(babyjub_range_message())
    } else if !is_scalar_hex(owner_x_hex) {
        Some(scalar_hex_message(owner_x_hex))
    } else if !is_scalar_hex(owner_y_hex) {
        Some(scalar_hex_message(owner_y_hex))
    } else if decimal_value(amount) is None {
        Some(undecimal_message(amount))
    } else {
        None
    }
}

/// What making a deposit coin for the owner key with the given hex
/// coordinates gives, once its nullifier draw came back: refused by the
/// checks, then with the draw's refusal, passed on; otherwise the registered
/// coin with the deposit's secret, that owner key and the drawn nullifier.
pub open spec fn owner_deposit_outcome(
    scalar_hex: Seq<char>,
    owner_x_hex: Seq<char>,
    owner_y_hex: Seq<char>,
    amount: Seq<char>,
    asset_hi: nat,
    asset_lo: nat,
    application_id: Seq<char>,
    nullifier_draw: Result<[u8; 32], String>,
    r: Result<GeneratedCoin, String>,
) -> bool {
    match owner_deposit_refusal(scalar_hex, owner_x_hex, owner_y_hex, amount) {
        Some(m) => r matches Err(e) && e@ == m,
        None => match nullifier_draw {
            Err(e) => passes_on(r, e),
            Ok(nb) => r matches Ok(c) && coin_describes(
                c,
                drawn_element(nb),
                decimal_value(amount)->0,
                deposit_secret(scalar_hex),
                scalar_hex_value(owner_x_hex) % field_modulus(),
                scalar_hex_value(owner_y_hex) % field_modulus(),
                asset_hi,
                asset_lo,
                decimal_or_zero(application_id),
            ),
        },
    }
}

/// A deposit coin for the owner key with the given hex coordinates, from
/// its nullifier draw. Refused, in this order, when the scalar is not 64 hex
/// digits, when it is `2^253` or more, when a coordinate is not 64 hex
/// digits, when the amount is not a decimal field element, then with the
/// draw's own refusal.
pub fn generate_coin_for_deposit_with_owner_pub_hex_from_draw(
    scalar_hex: &str,
    owner_x_hex: &str,
    owner_y_hex: &str,
    amount_decimal: &str,
    asset_hi: FieldElement,
    asset_lo: FieldElement,
    application_id_decimal: &str,
    nullifier_draw: Result<[u8; 32], String>,
) -> (r: Result<GeneratedCoin, String>)
    ensures
        owner_deposit_outcome(
            scalar_hex@,
            owner_x_hex@,
            owner_y_hex@,
            amount_decimal@,
            asset_hi@,
            asset_lo@,
            application_id_decimal@,
            nullifier_draw,
            r,
        ),
{
    let application_id = application_id_fr(application_id_decimal)?;
    let ephemeral_key_scalar = ephemeral_scalar(scalar_hex)?;
    let secret = poseidon_hash_1(ephemeral_key_scalar);
    let owner_pub = OwnerPub::from_coord_hex(owner_x_hex, owner_y_hex)?;
    let value = decimal_to_fr_result(amount_decimal)?;
    let nullifier = field_element_from_draw(nullifier_draw)?;
    let asset = [asset_hi, asset_lo];
    Ok(generated_coin_from_fields(nullifier, value, secret, owner_pub, asset, application_id))
}

/// A deposit coin for a given owner key is refused exactly when the scalar
/// is not 64 hex digits below `2^253`, a coordinate is not 64 hex digits,
/// the amount is not a decimal field element, or the nullifier draw fails;
/// otherwise it carries the amount's value, whatever it is, the deposit's
/// secret, the owner key, the asset limbs and the application id.
pub proof fn lemma_owner_deposit_refusals(
    scalar_hex: Seq<char>,
    owner_x_hex: Seq<char>,
    owner_y_hex: Seq<char>,
    amount: Seq<char>,
    asset_hi: nat,
    asset_lo: nat,
    application_id: Seq<char>,
    nullifier_draw: Result<[u8; 32], String>,
    r: Result<GeneratedCoin, String>,
)
    requires
        owner_deposit_outcome(
            scalar_hex,
            owner_x_hex,
            owner_y_hex,
            amount,
            asset_hi,
            asset_lo,
            application_id,
            nullifier_draw,
            r,
        ),
    ensures
        r is Err <==> !is_scalar_hex(scalar_hex) || scalar_hex_value(scalar_hex) >= babyjub_bound()
            || !is_scalar_hex(owner_x_hex) || !is_scalar_hex(owner_y_hex) || decimal_value(
            amount,
        ) is None || nullifier_draw is Err,
        r matches Ok(c) ==> {
            &&& c.coin.value@ == decimal_digits(decimal_value(amount)->0)
            &&& c.coin.secret@ == decimal_digits(
                poseidon(seq![scalar_hex_value(scalar_hex) % field_modulus()]),
            )
            &&& c.coin.asset_hi@ == decimal_digits(asset_hi)
            &&& c.coin.asset_lo@ == decimal_digits(asset_lo)
            &&& c.coin.application_id@ == decimal_digits(decimal_or_zero(application_id))
            &&& exists|n: nat|
                c.coin.commitment@ == decimal_digits(
                    #[trigger] commitment_of(
                        decimal_value(amount)->0,
                        poseidon(seq![scalar_hex_value(scalar_hex) % field_modulus()]),
                        n,
                        scalar_hex_value(owner_x_hex) % field_modulus(),
                        scalar_hex_value(owner_y_hex) % field_modulus(),
                        0,
                        asset_hi,
                        asset_lo,
                        decimal_or_zero(application_id),
                    ),
                )
        },
{
    if r is Ok {
        let n = drawn_element(nullifier_draw->Ok_0);
        assert(r->Ok_0.coin.commitment@ == decimal_digits(
            commitment_of(
                decimal_value(amount)->0,
                deposit_secret(scalar_hex),
                n,
                scalar_hex_value(owner_x_hex) % field_modulus(),
                scalar_hex_value(owner_y_hex) % field_modulus(),
                0,
                asset_hi,
                asset_lo,
                decimal_or_zero(application_id),
            ),
        ));
    }
}

/// A deposit coin whose secret is `Poseidon(ephemeral key scalar)`, owned by
/// the key with the given hex coordinates, with a random nullifier. Refused,
/// in this order, when the scalar is not 64 hex digits, when it is `2^253` or
/// more, when a coordinate is not 64 hex digits, when the amount is not a
/// decimal field element, or when the random source fails.
pub fn generate_coin_for_deposit_with_owner_pub_hex(
    scalar_hex: &str,
    owner_x_hex: &str,
    owner_y_hex: &str,
    amount_decimal: &str,
    asset_hi: FieldElement,
    asset_lo: FieldElement,
    application_id_decimal: &str,
) -> (r: Result<GeneratedCoin, String>)
    ensures
        !is_scalar_hex(scalar_hex@) ==> (r matches Err(e) && e@ == scalar_hex_message(
            scalar_hex@,
        )),
        is_scalar_hex(scalar_hex@) && scalar_hex_value(scalar_hex@) >= babyjub_bound() ==> (r matches Err(
            e,
        ) && e@ == babyjub_range_message()),
        is_scalar_hex(scalar_hex@) && scalar_hex_value(scalar_hex@) < babyjub_bound()
            && !is_scalar_hex(owner_x_hex@) ==> (r matches Err(e) && e@ == scalar_hex_message(
            owner_x_hex@,
        )),
        is_scalar_hex(scalar_hex@) && scalar_hex_value(scalar_hex@) < babyjub_bound()
            && is_scalar_hex(owner_x_hex@) && !is_scalar_hex(owner_y_hex@) ==> (r matches Err(e)
            && e@ == scalar_hex_message(owner_y_hex@)),
        is_scalar_hex(scalar_hex@) && scalar_hex_value(scalar_hex@) < babyjub_bound()
            && is_scalar_hex(owner_x_hex@) && is_scalar_hex(owner_y_hex@) && decimal_value(
            amount_decimal@,
        ) is None ==> (r matches Err(e) && e@ == undecimal_message(amount_decimal@)),
        r matches Ok(c) ==> {
            &&& is_scalar_hex(scalar_hex@)
            &&& scalar_hex_value(scalar_hex@) < babyjub_bound()
            &&& is_scalar_hex(owner_x_hex@)
            &&& is_scalar_hex(owner_y_hex@)
            &&& decimal_value(amount_decimal@) is Some
            &&& coin_with_some_nullifier(
                c,
                decimal_value(amount_decimal@)->0,
                poseidon(seq![scalar_hex_value(scalar_hex@) % field_modulus()]),
                scalar_hex_value(owner_x_hex@) % field_modulus(),
                scalar_hex_value(owner_y_hex@) % field_modulus(),
                asset_hi@,
                asset_lo@,
                decimal_or_zero(application_id_decimal@),
            )
        },
        exists|nullifier_draw: Result<[u8; 32], String>|
            #[trigger] owner_deposit_outcome(
                scalar_hex@,
                owner_x_hex@,
                owner_y_hex@,
                amount_decimal@,
                asset_hi@,
                asset_lo@,
                application_id_decimal@,
                nullifier_draw,
                r,
            ),

{
    let nullifier_draw = random_bytes_32();
    let r = generate_coin_for_deposit_with_owner_pub_hex_from_draw(
        scalar_hex,
        owner_x_hex,
        owner_y_hex,
        amount_decimal,
        asset_hi,
        asset_lo,
        application_id_decimal,
        nullifier_draw,
    );
    proof {
        if r is Ok {
            let c = r->Ok_0;
            let n = drawn_element(nullifier_draw->Ok_0);
            lemma_drawn_in_field(nullifier_draw->Ok_0);
            assert(coin_describes(
                c,
                n,
                decimal_value(amount_decimal@)->0,
                deposit_secret(scalar_hex@),
                scalar_hex_value(owner_x_hex@) % field_modulus(),
                scalar_hex_value(owner_y_hex@) % field_modulus(),
                asset_hi@,
                asset_lo@,
                decimal_or_zero(application_id_decimal@),
            ));
        }
    }
    r
}

/// The height of the tree a state describes: its own, else [`TREE_DEPTH`].
pub open spec fn state_depth(state: StateFile) -> u32 {
    match state.depth {
        Some(d) => d,
        None => TREE_DEPTH,
    }
}

/// The message that refuses the pair of commitments at `p` and `p + 1`
/// because the tree is full.
pub open spec fn pair_message(p: nat) -> Seq<char> {
    "Failed to insert commitment pair at indices "@ + decimal_digits(p) + ".."@ + decimal_digits(
        p + 1,
    ) + ": "@ + "Tree is at capacity"@
}

/// The leaves that commitments give: each a decimal field element, zero for
/// text that is not one.
pub open spec fn commitment_values(strs: Seq<String>) -> Seq<nat> {
    strs.map_values(|s: String| decimal_or_zero(s@))
}

/// What the commitment tree of `state` is: refused for an odd number of
/// commitments; restored from the cached nodes and root when the state has
/// both; otherwise the commitments appended pair by pair to an empty tree,
/// refused at the first pair that no longer fits.
pub open spec fn state_tree_outcome(state: StateFile, r: Result<LeanIMT, String>) -> bool {
    let n = state.commitments@.len();
    let depth = state_depth(state);
    let cap = capacity_for(depth as nat);
    if n % 2 != 0 {
        r matches Err(e) && e@ == "expected an even number of commitments in state (pairs), got "@
            + decimal_digits(n)
    } else if state.nodes is Some && state.root is Some {
        restore_outcome(depth, state.root->0, state.commitments@, state.nodes->0@, r)
    } else if n > cap {
        r matches Err(e) && e@ == pair_message((cap - cap % 2) as nat)
    } else {
        r matches Ok(t) && {
            &&& t.well_formed()
            &&& t.depth_view() == depth as nat
            &&& t.leaves_view() == commitment_values(state.commitments@)
            &&& t.is_synced()
            &&& t.node_cache() == appended_cache(commitment_values(state.commitments@), depth as nat)
        }
    }
}

/// A copy of a list of strings.
fn copy_strings(v: &Vec<String>) -> (r: Vec<String>)
    ensures
        r@ == v@,
{
    let mut r: Vec<String> = Vec::new();
    for i in 0..v.len()
        invariant
            r@ == v@.take(i as int),
    {
        r.push(v[i].clone());
        proof {
            assert(v@.take(i + 1) =~= v@.take(i as int).push(v@[i as int]));
        }
    }
    assert(v@.take(v@.len() as int) =~= v@);
    r
}

/// A copy of a list of snapshot nodes.
fn copy_nodes(v: &Vec<LeanImtNode>) -> (r: Vec<LeanImtNode>)
    ensures
        r@ == v@,
{
    let mut r: Vec<LeanImtNode> = Vec::new();
    for i in 0..v.len()
        invariant
            r@ == v@.take(i as int),
    {
        let n = &v[i];
        r.push(LeanImtNode { level: n.level, index: n.index, value: n.value.clone() });
        proof {
            assert(v@.take(i + 1) =~= v@.take(i as int).push(v@[i as int]));
        }
    }
    assert(v@.take(v@.len() as int) =~= v@);
    r
}

/// The commitment tree of a state: restored from the state's cached nodes
/// and root when it has both, else built by appending its commitments two at
/// a time to an empty tree of the state's height (20 when it names none).
pub fn lean_imt_from_state(state: &StateFile) -> (r: Result<LeanIMT, String>)
    ensures
        state_tree_outcome(*state, r),
{
    let n = state.commitments.len();
    if n % 2 != 0 {
        let msg = String::from_str("expected an even number of commitments in state (pairs), got ");
        let count = u64_to_decimal(n as u64);
        return Err(msg.concat(count.as_str()));
    }
    let depth = match state.depth {
        Some(d) => d,
        None => TREE_DEPTH,
    };
    if let Some(nodes) = &state.nodes {
        if let Some(root) = &state.root {
            let snapshot = LeanImtSnapshot {
                depth,
                root: root.clone(),
                leaves: copy_strings(&state.commitments),
                nodes: copy_nodes(nodes),
            };
            return LeanIMT::from_snapshot(&snapshot);
        }
    }
    let ghost commitments = state.commitments@;
    let ghost cap = capacity_for(depth as nat);
    proof {
        if depth < 32 {
            vstd::arithmetic::power2::lemma_pow2_pos(depth as nat);
        }
        assert(commitment_values(commitments.take(0)) =~= Seq::<nat>::empty());
    }
    let mut tree = LeanIMT::new(depth);
    let mut pair_start: usize = 0;
    while pair_start < n
        invariant
            n == commitments.len(),
            commitments == state.commitments@,
            !(state.nodes is Some && state.root is Some),
            depth == state_depth(*state),
            cap == capacity_for(depth as nat),
            n % 2 == 0,
            pair_start % 2 == 0,
            pair_start <= n,
            pair_start <= cap,
            tree.well_formed(),
            tree.depth_view() == depth as nat,
            tree.built_by_appends(),
            tree.leaves_view() == commitment_values(commitments.take(pair_start as int)),
        decreases n - pair_start,
    {
        let a = decimal_to_fr(state.commitments[pair_start].as_str());
        let b = decimal_to_fr(state.commitments[pair_start + 1].as_str());
        match tree.insert_two(a, b) {
            Ok(()) => {},
            Err(e) => {
                let first = u64_to_decimal(pair_start as u64);
                let second = u64_to_decimal(pair_start as u64 + 1);
                let msg = String::from_str("Failed to insert commitment pair at indices ").concat(
                    first.as_str(),
                ).concat("..").concat(second.as_str()).concat(": ").concat(e);
                proof {
                    assert(pair_start + 2 > cap);
                    assert(pair_start == cap - cap % 2);
                }
                return Err(msg);
            },
        }
        proof {
            assert(commitment_values(commitments.take(pair_start + 2)) =~= commitment_values(
                commitments.take(pair_start as int),
            ).push(a@).push(b@));
        }
        pair_start = pair_start + 2;
    }
    proof {
        assert(commitments.take(n as int) =~= commitments);
    }
    Ok(tree)
}

/// Whether `i` is the first position of value `v` among `leaves`.
pub open spec fn first_position(leaves: Seq<nat>, v: nat, i: nat) -> bool {
    &&& i < leaves.len()
    &&& leaves[i as int] == v
    &&& forall|j: int| 0 <= j < i ==> leaves[j] != v
}

/// The position of the first leaf equal to `commitment`, if any.
pub fn find_commitment_leaf_index(tree: &LeanIMT, commitment: FieldElement) -> (r: Option<usize>)
    ensures
        r is None <==> !tree.leaves_view().contains(commitment@),
        r matches Some(i) ==> first_position(tree.leaves_view(), commitment@, i as nat),
{
    let leaves = tree.leaves();
    let ghost values = tree.leaves_view();
    let mut i: usize = 0;
    while i < leaves.len()
        invariant
            leaves@.map_values(|f: FieldElement| f@) == values,
            values == tree.leaves_view(),
            i <= leaves@.len(),
            forall|j: int| 0 <= j < i ==> values[j] != commitment@,
        decreases leaves@.len() - i,
    {
        assert(values[i as int] == leaves@[i as int]@);
        if leaves[i].equals(&commitment) {
            return Some(i);
        }
        i = i + 1;
    }
    proof {
        if values.contains(commitment@) {
            let j = choose|j: int| 0 <= j < values.len() && values[j] == commitment@;
            assert(values[j] != commitment@);
        }
    }
    None
}

/// Whether `w` is the withdraw witness of `coin` at leaf `i` of `tree`: the
/// coin's fields as decimal field elements (the withdrawn value as the coin
/// wrote it), the tree's root, the position, and the authentication path.
pub open spec fn witness_of(coin: CoinData, tree: LeanIMT, i: nat, w: WithdrawMerkleWitness) -> bool {
    &&& w.withdrawn_value@ == coin.value@
    &&& w.value@ == decimal_digits(decimal_or_zero(coin.value@))
    &&& w.nullifier@ == decimal_digits(decimal_or_zero(coin.nullifier@))
    &&& w.secret@ == decimal_digits(decimal_or_zero(coin.secret@))
    &&& w.withdrawn_asset@[0]@ == decimal_digits(decimal_or_zero(coin.asset_hi@))
    &&& w.withdrawn_asset@[1]@ == decimal_digits(decimal_or_zero(coin.asset_lo@))
    &&& w.state_root@ == decimal_digits(tree.root_view())
    &&& decimal_value(w.state_root@) == Some(tree.root_view())
    &&& w.state_index@ == decimal_digits(i)
    &&& decimal_value(w.state_index@) == Some(i)
    &&& w.state_siblings@.len() == tree.depth_view()
    &&& forall|l: int|
        0 <= l < w.state_siblings@.len() ==> {
            &&& #[trigger] w.state_siblings@[l]@ == decimal_digits(tree.proof_sibling(i, l as nat))
            &&& decimal_value(w.state_siblings@[l]@) == Some(tree.proof_sibling(i, l as nat))
        }
}

/// What withdrawing `coin` against `tree` gives: refused when no leaf is the
/// coin's commitment, else the witness at the first such leaf.
pub open spec fn witness_outcome(
    coin: CoinData,
    tree: LeanIMT,
    r: Result<WithdrawMerkleWitness, String>,
) -> bool {
    let c = decimal_or_zero(coin.commitment@);
    if !tree.leaves_view().contains(c) {
        r matches Err(e) && e@ == "Commitment not found in state"@
    } else {
        r matches Ok(w) && exists|i: nat|
            #[trigger] first_position(tree.leaves_view(), c, i) && witness_of(coin, tree, i, w)
    }
}

/// The decimal numerals of field elements.
fn decimals_of(values: &Vec<FieldElement>) -> (r: Vec<String>)
    ensures
        r@.len() == values@.len(),
        forall|l: int|
            0 <= l < r@.len() ==> {
                &&& #[trigger] r@[l]@ == decimal_digits(values@[l]@)
                &&& decimal_value(r@[l]@) == Some(values@[l]@)
            },
{
    let mut r: Vec<String> = Vec::new();
    for l in 0..values.len()
        invariant
            r@.len() == l,
            forall|j: int|
                0 <= j < l ==> {
                    &&& #[trigger] r@[j]@ == decimal_digits(values@[j]@)
                    &&& decimal_value(r@[j]@) == Some(values@[j]@)
                },
    {
        r.push(fr_to_decimal(&values[l]));
    }
    r
}

/// The Merkle path and coin fields for withdrawing `coin` from `tree`, at
/// the first leaf that is the coin's commitment.
pub fn withdraw_merkle_witness_from_tree(coin: &CoinData, tree: &LeanIMT) -> (r: Result<
    WithdrawMerkleWitness,
    String,
>)
    requires
        tree.well_formed(),
    ensures
        witness_outcome(*coin, *tree, r),
{
    let value = decimal_to_fr(coin.value.as_str());
    let nullifier = decimal_to_fr(coin.nullifier.as_str());
    let secret = decimal_to_fr(coin.secret.as_str());
    let commitment = decimal_to_fr(coin.commitment.as_str());
    let asset_hi = decimal_to_fr(coin.asset_hi.as_str());
    let asset_lo = decimal_to_fr(coin.asset_lo.as_str());
    let commitment_index = match find_commitment_leaf_index(tree, commitment) {
        Some(i) => i,
        None => {
            return Err(String::from_str("Commitment not found in state"));
        },
    };
    proof {
        assert(tree.leaves_view().len() <= u32::MAX) by {
            let t = *tree;
            assert(t.leaves_view().len() <= capacity_for(t.depth_view())) by {
                crate::merkle::lemma_leaf_count_bound(t);
            }
            if t.depth_view() < 32 {
                vstd::bits::lemma_u32_pow2_no_overflow(t.depth_view());
            }
        }
    }
    let (siblings, _depth) = match tree.generate_proof(commitment_index as u32) {
        Some(p) => p,
        None => {
            return Err(String::from_str("Failed to generate merkle proof"));
        },
    };
    let root = tree.get_root();
    let state_siblings = decimals_of(&siblings);
    let w = WithdrawMerkleWitness {
        withdrawn_value: coin.value.clone(),
        value: fr_to_decimal(&value),
        nullifier: fr_to_decimal(&nullifier),
        secret: fr_to_decimal(&secret),
        withdrawn_asset: [fr_to_decimal(&asset_hi), fr_to_decimal(&asset_lo)],
        state_root: fr_to_decimal(&root),
        state_index: u64_to_decimal(commitment_index as u64),
        state_siblings,
    };
    proof {
        let i = commitment_index as nat;
        crate::encoding::lemma_decimal_round_trip(i, field_modulus());
        assert(i < field_modulus());
        vstd::arithmetic::div_mod::lemma_small_mod(i, field_modulus());
        assert forall|l: int| 0 <= l < w.state_siblings@.len() implies {
            &&& #[trigger] w.state_siblings@[l]@ == decimal_digits(tree.proof_sibling(i, l as nat))
            &&& decimal_value(w.state_siblings@[l]@) == Some(tree.proof_sibling(i, l as nat))
        } by {
            assert(siblings@[l]@ == tree.proof_sibling(i, l as nat));
        }
        assert(witness_of(*coin, *tree, i, w));
        assert(first_position(tree.leaves_view(), commitment@, i));
    }
    Ok(w)
}

/// Whether two trees have the same height, leaves, cached nodes and root,
/// and so report the same nodes and paths.
pub open spec fn same_tree(a: LeanIMT, b: LeanIMT) -> bool {
    &&& a.depth_view() == b.depth_view()
    &&& a.leaves_view() == b.leaves_view()
    &&& a.node_cache() == b.node_cache()
    &&& a.root_view() == b.root_view()
}

/// A list of texts has at most one first text that is not a decimal field element.
proof fn lemma_first_undecimal_unique(strs: Seq<String>, i: int, j: int)
    requires
        crate::merkle::first_undecimal(strs, i),
        crate::merkle::first_undecimal(strs, j),
    ensures
        i == j,
{
    if i < j {
        assert(decimal_value(strs[i]@) is Some);
    } else if j < i {
        assert(decimal_value(strs[j]@) is Some);
    }
}

/// The commitment tree of a state is determined by the state: two outcomes
/// it allows refuse with the same message, or give the same tree.
pub proof fn lemma_state_tree_determined(
    state: StateFile,
    r1: Result<LeanIMT, String>,
    r2: Result<LeanIMT, String>,
)
    requires
        state_tree_outcome(state, r1),
        state_tree_outcome(state, r2),
    ensures
        r1 is Ok <==> r2 is Ok,
        r1 matches Err(e1) ==> (r2 matches Err(e2) && e1@ == e2@),
        r1 matches Ok(t1) ==> (r2 matches Ok(t2) && same_tree(t1, t2)),
{
    let n = state.commitments@.len();
    if n % 2 == 0 && state.nodes is Some && state.root is Some {
        let leaves = state.commitments@;
        let values = crate::merkle::node_values(state.nodes->0@);
        if n % 2 == 0 && !crate::merkle::all_decimal(leaves) {
            let i = choose|i: int|
                crate::merkle::first_undecimal(leaves, i) && r1->Err_0@ == undecimal_message(
                    leaves[i]@,
                );
            let j = choose|j: int|
                crate::merkle::first_undecimal(leaves, j) && r2->Err_0@ == undecimal_message(
                    leaves[j]@,
                );
            lemma_first_undecimal_unique(leaves, i, j);
        } else if n <= capacity_for(state_depth(state) as nat) && !crate::merkle::all_decimal(
            values,
        ) {
            let i = choose|i: int|
                crate::merkle::first_undecimal(values, i) && r1->Err_0@ == undecimal_message(
                    values[i]@,
                );
            let j = choose|j: int|
                crate::merkle::first_undecimal(values, j) && r2->Err_0@ == undecimal_message(
                    values[j]@,
                );
            lemma_first_undecimal_unique(values, i, j);
        }
    }
}

/// Trees that are the same give the same withdraw witnesses.
proof fn lemma_witness_outcome_same_tree(
    coin: CoinData,
    a: LeanIMT,
    b: LeanIMT,
    r: Result<WithdrawMerkleWitness, String>,
)
    requires
        same_tree(a, b),
        witness_outcome(coin, a, r),
    ensures
        witness_outcome(coin, b, r),
{
    let c = decimal_or_zero(coin.commitment@);
    if a.leaves_view().contains(c) {
        let w = r->Ok_0;
        let i = choose|i: nat| #[trigger] first_position(a.leaves_view(), c, i) && witness_of(coin, a, i, w);
        assert forall|l: nat| #[trigger] b.proof_sibling(i, l) == a.proof_sibling(i, l) by {}
        assert(witness_of(coin, b, i, w));
        assert(first_position(b.leaves_view(), c, i));
    }
}

/// Whether `r` is what building the withdraw witness of `coin` against
/// `state` gives: a refusal of the state's tree passed on with its message,
/// or the witness against the state's tree. The tree is determined by the
/// state (`lemma_state_tree_determined`), and the outcome holds for every
/// tree outcome the state allows.
pub open spec fn build_outcome(
    coin: CoinData,
    state: StateFile,
    r: Result<WithdrawMerkleWitness, String>,
) -> bool {
    &&& exists|tr: Result<LeanIMT, String>| #[trigger] state_tree_outcome(state, tr)
    &&& forall|tr: Result<LeanIMT, String>|
        #[trigger] state_tree_outcome(state, tr) ==> match tr {
            Ok(t) => witness_outcome(coin, t, r),
            Err(e) => r matches Err(e2) && e2@ == e@,
        }
}

/// The Merkle witness and public path fields for withdrawing `coin` against
/// the commitment tree of `state`.
pub fn build_withdraw_merkle_witness(coin: &CoinData, state: &StateFile) -> (r: Result<
    WithdrawMerkleWitness,
    String,
>)
    ensures
        build_outcome(*coin, *state, r),
{
    let tr = lean_imt_from_state(state);
    let ghost tr0 = tr;
    let r = match tr {
        Ok(tree) => withdraw_merkle_witness_from_tree(coin, &tree),
        Err(e) => Err(e),
    };
    proof {
        assert(state_tree_outcome(*state, tr0));
        assert forall|tr2: Result<LeanIMT, String>| #[trigger] state_tree_outcome(*state, tr2) implies match tr2 {
            Ok(t) => witness_outcome(*coin, t, r),
            Err(e) => r matches Err(e2) && e2@ == e@,
        } by {
            lemma_state_tree_determined(*state, tr0, tr2);
            if tr0 is Ok {
                lemma_witness_outcome_same_tree(*coin, tr0->Ok_0, tr2->Ok_0, r);
            }
        }
    }
    r
}

/// A withdraw witness from a synced tree authenticates the coin: hashing its
/// commitment up the path at the witness's position with the witness's
/// siblings gives the witness's root.
pub proof fn lemma_witness_authenticates(
    coin: CoinData,
    tree: LeanIMT,
    i: nat,
    w: WithdrawMerkleWitness,
)
    requires
        tree.well_formed(),
        tree.is_synced(),
        first_position(tree.leaves_view(), decimal_or_zero(coin.commitment@), i),
        witness_of(coin, tree, i, w),
    ensures
        fold_path(
            decimal_or_zero(coin.commitment@),
            decimal_value(w.state_index@)->0,
            decimal_values(w.state_siblings@),
            tree.depth_view(),
        ) == decimal_value(w.state_root@)->0,
{
    let siblings = decimal_values(w.state_siblings@);
    assert forall|l: int| 0 <= l < siblings.len() implies #[trigger] siblings[l]
        == tree.proof_sibling(i, l as nat) by {
        assert(decimal_value(w.state_siblings@[l]@) == Some(tree.proof_sibling(i, l as nat)));
    }
    crate::merkle::lemma_synced_path_reaches_root(tree, i, siblings);
}

/// A leaf value has at most one first position.
proof fn lemma_first_position_unique(leaves: Seq<nat>, v: nat, i: nat, j: nat)
    requires
        first_position(leaves, v, i),
        first_position(leaves, v, j),
    ensures
        i == j,
{
    if i < j {
        assert(leaves[i as int] == v);
    } else if j < i {
        assert(leaves[j as int] == v);
    }
}

/// A tree restored from its own snapshot gives the same withdraw witnesses:
/// both refuse alike, or both give the same root, position, path and coin fields.
pub proof fn lemma_witness_survives_snapshot(
    coin: CoinData,
    t: LeanIMT,
    s: LeanImtSnapshot,
    restored: LeanIMT,
    r1: Result<WithdrawMerkleWitness, String>,
    r2: Result<WithdrawMerkleWitness, String>,
)
    requires
        t.well_formed(),
        snapshot_of(s, t),
        snapshot_outcome(s, Ok(restored)),
        witness_outcome(coin, t, r1),
        witness_outcome(coin, restored, r2),
    ensures
        r1 is Ok <==> r2 is Ok,
        r1 matches Err(e1) ==> (r2 matches Err(e2) && e1@ == e2@),
        r1 matches Ok(w1) ==> (r2 matches Ok(w2) && {
            &&& w1.state_root@ == w2.state_root@
            &&& w1.state_index@ == w2.state_index@
            &&& w1.state_siblings@.len() == w2.state_siblings@.len()
            &&& forall|l: int|
                0 <= l < w1.state_siblings@.len() ==> #[trigger] w1.state_siblings@[l]@
                    == w2.state_siblings@[l]@
            &&& w1.withdrawn_value@ == w2.withdrawn_value@
            &&& w1.value@ == w2.value@
            &&& w1.nullifier@ == w2.nullifier@
            &&& w1.secret@ == w2.secret@
            &&& w1.withdrawn_asset@[0]@ == w2.withdrawn_asset@[0]@
            &&& w1.withdrawn_asset@[1]@ == w2.withdrawn_asset@[1]@
        }),
{
    lemma_snapshot_round_trip(t, s);
    assert(restored.leaves_view() == t.leaves_view());
    assert(restored.node_cache() == t.node_cache());
    assert(restored.root_view() == t.root_view());
    assert(restored.depth_view() == t.depth_view());
    let c = decimal_or_zero(coin.commitment@);
    if t.leaves_view().contains(c) {
        let w1 = r1->Ok_0;
        let w2 = r2->Ok_0;
        let i = choose|i: nat| #[trigger] first_position(t.leaves_view(), c, i) && witness_of(coin, t, i, w1);
        let j = choose|j: nat| #[trigger] first_position(restored.leaves_view(), c, j) && witness_of(coin, restored, j, w2);
        lemma_first_position_unique(t.leaves_view(), c, i, j);
        assert forall|l: int| 0 <= l < w1.state_siblings@.len() implies #[trigger] w1.state_siblings@[l]@
            == w2.state_siblings@[l]@ by {
            assert(t.proof_sibling(i, l as nat) == restored.proof_sibling(i, l as nat));
        }
    }
}

/// The owner-bound nullifier hash `Poseidon(DOM_NULLIFIER, nullifier, key)`
/// as `0x` and the 64 lowercase hex digits of its big-endian bytes.
pub open spec fn nullifier_hash_hex(nullifier: nat, key: nat) -> Seq<char> {
    "0x"@ + hex_lower(be_bytes(poseidon(seq![DOM_NULLIFIER as nat, nullifier, key]), 32))
}

/// The nullifier hash text is `0x` followed by 64 lowercase hex digits that
/// denote the 32 big-endian bytes of the Poseidon digest.
pub proof fn lemma_nullifier_hash_text(nullifier: nat, key: nat)
    ensures
        ({
            let t = nullifier_hash_hex(nullifier, key);
            let digest = poseidon(seq![DOM_NULLIFIER as nat, nullifier, key]);
            &&& t.len() == 66
            &&& t[0] == '0' && t[1] == 'x'
            &&& forall|i: int| 2 <= i < 66 ==> crate::encoding::is_lower_hex_digit(#[trigger] t[i])
            &&& crate::encoding::hex_denotes(t.subrange(2, 66), be_bytes(digest, 32))
        }),
{
    reveal_strlit("0x");
    let digest = poseidon(seq![DOM_NULLIFIER as nat, nullifier, key]);
    let bytes = be_bytes(digest, 32);
    crate::field::lemma_be_bytes_len(digest, 32);
    crate::encoding::lemma_hex_lower_denotes(bytes);
    let t = nullifier_hash_hex(nullifier, key);
    assert(t.subrange(2, 66) =~= hex_lower(bytes));
    assert forall|i: int| 2 <= i < 66 implies crate::encoding::is_lower_hex_digit(#[trigger] t[i]) by {
        assert(t[i] == hex_lower(bytes)[i - 2]);
    }
}

/// The owner-bound nullifier hash of a nullifier and a private key scalar,
/// both decimal field elements; refused with the first that is not one.
pub fn calculate_nullifier_hash(nullifier_decimal: &str, priv_key_scalar_decimal: &str) -> (r:
    Result<String, String>)
    ensures
        decimal_value(nullifier_decimal@) is None ==> (r matches Err(e) && e@ == undecimal_message(
            nullifier_decimal@,
        )),
        decimal_value(nullifier_decimal@) is Some && decimal_value(priv_key_scalar_decimal@) is None
            ==> (r matches Err(e) && e@ == undecimal_message(priv_key_scalar_decimal@)),
        r is Ok <==> decimal_value(nullifier_decimal@) is Some && decimal_value(
            priv_key_scalar_decimal@,
        ) is Some,
        r matches Ok(h) ==> h@ == nullifier_hash_hex(
            decimal_value(nullifier_decimal@)->0,
            decimal_value(priv_key_scalar_decimal@)->0,
        ),
{
    let nullifier = decimal_to_fr_result(nullifier_decimal)?;
    let priv_key_scalar = decimal_to_fr_result(priv_key_scalar_decimal)?;
    let domain = FieldElement::from_u64(DOM_NULLIFIER);
    let hash = poseidon_hash_3(domain, nullifier, priv_key_scalar);
    let hash_bytes = fr_to_bytes_be(&hash);
    Ok(String::from_str("0x").concat(hex_encode(&hash_bytes).as_str()))
}

} // verus!
