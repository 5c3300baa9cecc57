//! Threshold relaxed distributed key generation (DKLs23) for secp256k1.
//!
//! The protocol logic is written as a verified state machine over plain
//! values: scalars modulo the group order, curve points in compressed form,
//! SHA-256 commitments over an unambiguous encoding of byte strings.
pub mod commitment;
pub mod correctness;
pub mod encoding;
pub mod error;
pub mod interpolation;
pub mod keygen;
pub mod lagrange;
pub mod message;
pub mod point;
pub mod scalar;

pub use error::{Error, InternalErr};
pub use message::{
    CommitPointsMsg, CommitSubshareMsg, DecommitPointsMsg, DecommitSubshareMsg, EchoDigestMsg,
    KeyPair, Msg, VerifyMsg,
};
