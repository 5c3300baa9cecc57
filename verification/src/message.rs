//! Protocol messages and the key pair that the protocol outputs.
use vstd::prelude::*;

use crate::point::Point;
use crate::scalar::Scalar;

verus! {

/// Message from round 1
#[derive(Clone, Debug, PartialEq, Eq)]
pub struct CommitPointsMsg {
    /// Party commitment
    pub commitment: [u8; 32],
    /// Session id
    pub sid: u64,
}

/// Pairwise commitment message from round 1
#[derive(Clone, Debug, PartialEq, Eq)]
pub struct CommitSubshareMsg {
    /// Party commitment
    pub commitment: [u8; 32],
    /// Session id
    pub sid: u64,
}

/// Echo broadcast commitments message from round 2
#[derive(Clone, Debug, PartialEq, Eq)]
pub struct EchoDigestMsg {
    /// Party commitments as digest
    pub digest: [u8; 32],
    /// Session id
    pub sid: u64,
}

/// Round 2 broadcast: opening of the curve-points commitment.
///
/// Carries the values needed to recompute the commitment; the remaining
/// context (committer index, sid) is known to the verifier.
#[derive(Clone, Debug, PartialEq, Eq)]
pub struct DecommitPointsMsg {
    /// The committed vector of curve points
    pub points: Vec<Point>,
    /// Commitment nonce
    pub nonce: [u8; 32],
}

/// Round 2 pairwise: opening of a subshare commitment.
///
/// Carries the values needed to recompute the commitment.
#[derive(Clone, Debug, PartialEq, Eq)]
pub struct DecommitSubshareMsg {
    /// The committed subshare
    pub subshare: Scalar,
    /// Commitment nonce
    pub nonce: [u8; 32],
}

/// Round 3 verify
#[derive(Clone, Copy, Debug, PartialEq, Eq)]
pub struct VerifyMsg {
    /// Session id
    pub sid: u64,
    /// Whether the sender's checks passed
    pub ok: bool,
}

/// Protocol message
#[derive(Clone, Debug, PartialEq, Eq)]
pub enum Msg {
    /// Round 1 broadcast: commitment to the vector of curve points
    CommitPoints(CommitPointsMsg),
    /// Round 1 pairwise: commitment to a receiver's subshare
    CommitSubshare(CommitSubshareMsg),
    /// Round 2: echo broadcast commitments
    EchoDigest(EchoDigestMsg),
    /// Round 2 broadcast: decommit the vector of curve points
    DecommitPoints(DecommitPointsMsg),
    /// Round 2 pairwise: decommit a receiver's subshare
    DecommitSubshare(DecommitSubshareMsg),
    /// Round 3 verify
    Verify(VerifyMsg),
}

/// Keypair output from the protocol
#[derive(Debug, Clone, Copy, Eq, PartialEq)]
pub struct KeyPair {
    /// Session id
    pub sid: u64,
    /// The shared public key `P(0)`
    pub share_point_0: Point,
    /// This party's secret share `p(i)`
    pub share_i: Scalar,
}

} // verus!
