# privacy_pool_sdk

Client-side logic of a Stellar privacy pool over the BN254 scalar field,
written in Verus with its contracts proved.

## Layout

- `src/encoding.rs`: decimal and hex text of numbers and bytes, with the
  grammar of decimal field elements as spec functions.
- `src/field.rs`: `FieldElement`, a reduced BN254 scalar held as 32
  big-endian bytes; reading and printing it as text (through `ark-bn254`).
- `src/poseidon.rs`: the circom Poseidon hash, named by the spec function
  `poseidon`. The permutation itself is not part of this crate: it comes
  from the `light-poseidon` crate (circom parameters over BN254), called
  behind one trusted wrapper, because no Poseidon implementation of the
  project's own is available to verify here.
- `src/merkle_spec.rs`: the Merkle tree as mathematics: node values, zero
  subtrees, authentication paths, and what an append rewrites.
- `src/merkle.rs`: `LeanIMT`, the lean incremental Merkle tree appended two
  leaves at a time, its snapshots, and the laws that tie them together.
- `src/coin.rs`: commitments and precommitments, coin generation, the
  commitment tree of a client state, withdraw witnesses, nullifier hashes.
- `src/registry.rs`: trees kept under numeric handles for callers across a
  language boundary.
- `app/lib.rs`: the JavaScript bindings (`wasm-bindgen`, JSON through
  `serde`), which hold one registry per process.

The JavaScript bindings cover coin generation, withdraw witnesses, the tree
registry and nullifier hashes. Bindings for proof and public-signal hex
conversion, ECDH keys, derived escrow keys and Groth16 proving are not
provided: the code they would call (the conversion, stealth-address, derived
escrow and Groth16 modules, and the `cryptography` crate) is not part of this
project's sources.
