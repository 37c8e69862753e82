# mandate-core

Types, canonical serialization, content addressing and EIP-191 signing and
verification for the Mandate v0 wire format, verified with Verus.

- `src/` is the verified library. `canonical` holds JCS serialization over
  the JSON model in `json`, the canonical body of a mandate and its id;
  `eth` holds EIP-191 signing, recovery and verification and CAIP-10 ids;
  `verify` and `sign` work on whole mandates. `properties`, `refusal`,
  `whitespace`, `literal`, `reader` and `binding` state what holds across
  values: member order does not matter, the hash leaves out the signature
  and binding fields, output fails exactly on non-integer numbers, holds no
  layout and reads back as the value, and the canonical body binds every
  field it keeps.
- `digest`, `hexcodec` and `secp256k1` reach `blake3`, `sha3`, `hex` and
  `k256` through small trusted wrappers whose contracts name what those
  crates compute.
- `app/` is the unverified edge: serde wire types, `serde_json` conversion
  and an error type with `Display`.
