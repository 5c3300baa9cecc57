# relaxed_keygen

Threshold (t-out-of-n) relaxed distributed key generation from DKLs23 on
secp256k1, as a Verus-verified library.

## Layout

- `src/scalar.rs`: scalars modulo the group order (32 big-endian bytes), their
  arithmetic through `generic-ec`, and lemmas on arithmetic modulo the order.
- `src/point.rs`: curve points in compressed form; contracts speak of a point
  through the exponent `x` with `point = x·G`.
- `src/encoding.rs`: the unambiguous encoding
  `le64(|x_1|) || x_1 || ... || le64(|x_n|) || x_n`, proved injective.
- `src/commitment.rs`: SHA-256 commitments over the encoding, the echo digest,
  and their binding up to SHA-256 collisions.
- `src/lagrange.rs`: polynomial evaluation and Lagrange coefficients.
- `src/interpolation.rs`: Lagrange interpolation modulo the group order,
  proved for nodes whose pairwise differences are invertible; Lagrange
  coefficients do not depend on the order of the nodes and equal the
  quotient of the two products.
- `src/message.rs`, `src/error.rs`: messages, key pair and errors.
- `src/keygen.rs`: the protocol as a state machine, one function per round.
- `src/correctness.rs`: what the share check decides and what an honest
  execution computes: every message delivered unchanged opens its
  commitment, every party passes its checks, the shares lie on one
  polynomial, and all parties agree on the public key. That every party
  passes rests on one arithmetic fact about the secp256k1 group order that
  the proofs take as a premise: it has no divisor between 2 and `2^16`
  (it is prime). The test `group_order_has_no_factor_below_2_16` checks it.
- `app/`: the `round-based` driver `relaxed_key_generation`, serializable
  message copies, and error types with `thiserror`.
- `tests/`: a synchronous simulation of all parties, and unit tests.
