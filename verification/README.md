# pabs_crf

A lattice-based predicate attribute-based signature scheme (PABS) with a
cryptographic reverse firewall (CRF), over Module-LWE, written in Verus.

## Layout

- `src/` is the verified library. Verus proves every executable function body
  against its `requires` / `ensures` contract; the few functions that only
  hand back an opaque outside value (an ed25519 `VerifyingKey`) carry no
  `ensures`, since no clause can speak of such a value.
  - `mlwe`, `mlwe_sig`, `algebra`, `modarith`: ring arithmetic in
    `Z_q[X]/(X^n + 1)`, decomposition and hints, and the MLWE signature.
  - `trapdoor`, `gaussian`, `samplers`: the gadget trapdoor and preimage sampling.
  - `policy`, `lsss`: parsing of `AND`/`OR` policies, lowering to sharing
    matrices, Gauss-Jordan elimination over `Z_q`, sharing and reconstruction.
  - `setup`, `keygen`, `sign`, `verify`, `pabs`: the scheme.
  - `firewall`: the reverse firewall (mask, correction term, metadata tag).
  - `puncture_tree`, `hardware_root`: key puncturing and the ed25519-attested
    puncture state.
  - `compression`, `bitpack`, `serialization`, `codec`: compact transport and
    its zstd framing.
- The calls into outside crates (`sha2`, `sha3`, `rand`, `zstd`, `ed25519-dalek`,
  `subtle`) stand behind small `#[verifier::external_body]` wrappers, each with
  a doc comment that says what its contract claims.
- `app/` is ordinary Rust around the library: the byte-map API with bincode and
  serde, the floating-point parts (Gaussian table construction, security
  reports), and argument checks before calling into the library.
- `tests/` exercises the library with the real outside crates linked.
