use generic_ec::curves::Secp256k1;
use generic_ec::{Point as GPoint, Scalar as GScalar, SecretScalar};
use generic_ec_zkp::polynomial::{lagrange_coefficient, Polynomial};
use rand::seq::SliceRandom;
use rand_core::RngCore;

use relaxed_keygen::keygen::{
    output, round1, round2, round3, Round1Msgs, Round1State, Round2Msgs, Round2State,
    Verification,
};
use relaxed_keygen::point::Point;
use relaxed_keygen::scalar::Scalar;
use relaxed_keygen::{
    CommitPointsMsg, CommitSubshareMsg, DecommitPointsMsg, DecommitSubshareMsg, EchoDigestMsg,
    Error, InternalErr, KeyPair, VerifyMsg,
};

const SID: u64 = 1;

/// Covers
/// - the direct branch (party labels `<= t-1`),
/// - the Lagrange branch (labels `>= t`),
/// - the full-threshold `t = n`
const CASES: &[(u16, u16)] = &[(2, 2), (2, 3), (3, 3), (3, 5), (5, 5)];

type TestError = Error<(), (), InternalErr>;

fn lib_scalar(s: &GScalar<Secp256k1>) -> Scalar {
    let mut bytes = [0u8; 32];
    bytes.copy_from_slice(s.to_be_bytes().as_bytes());
    Scalar::from_be_bytes(bytes)
}

fn ec_scalar(s: &Scalar) -> GScalar<Secp256k1> {
    GScalar::from_be_bytes(s.to_be_bytes()).unwrap()
}

fn ec_point(p: &Point) -> GPoint<Secp256k1> {
    GPoint::from_bytes(p.to_bytes()).unwrap()
}

/// Samples the polynomial and nonces of one party, in the order the protocol does.
fn sample_inputs(
    t: u16,
    n: u16,
    rng: &mut impl RngCore,
) -> (Vec<Scalar>, [u8; 32], Vec<[u8; 32]>) {
    let p = Polynomial::<SecretScalar<Secp256k1>>::sample(rng, usize::from(t) - 1);
    let mut coefs: Vec<Scalar> = p.coefs().iter().map(|c| lib_scalar(c.as_ref())).collect();
    // `Polynomial` drops trailing zero coefficients; the protocol reads exactly t.
    while coefs.len() < usize::from(t) {
        coefs.push(Scalar::zero());
    }
    let mut points_nonce = [0u8; 32];
    rng.fill_bytes(&mut points_nonce);
    let subshare_nonces = (1..n)
        .map(|_| {
            let mut nonce = [0u8; 32];
            rng.fill_bytes(&mut nonce);
            nonce
        })
        .collect();
    (coefs, points_nonce, subshare_nonces)
}

/// The messages from all parties but `i` (1-based), in party order.
fn from_others<T: Clone>(all: &[T], i: u16) -> Vec<T> {
    all.iter()
        .enumerate()
        .filter(|(j, _)| *j + 1 != usize::from(i))
        .map(|(_, m)| m.clone())
        .collect()
}

/// The pairwise messages that reach party `i` from every other party, in party order.
fn p2p_to<T: Clone>(all: &[Vec<(u16, T)>], i: u16) -> Vec<T> {
    all.iter()
        .enumerate()
        .filter(|(j, _)| *j + 1 != usize::from(i))
        .map(|(_, msgs)| msgs.iter().find(|(r, _)| *r == i).unwrap().1.clone())
        .collect()
}

struct AfterRound2 {
    states: Vec<Round2State>,
    echo: Vec<EchoDigestMsg>,
    decommit_points: Vec<DecommitPointsMsg>,
    decommit_subshares: Vec<Vec<(u16, DecommitSubshareMsg)>>,
}

fn run_rounds_1_2(t: u16, n: u16, rng: &mut impl RngCore) -> AfterRound2 {
    let mut states1: Vec<Round1State> = Vec::new();
    let mut msgs1: Vec<Round1Msgs> = Vec::new();
    for i in 1..=n {
        let (coefs, points_nonce, subshare_nonces) = sample_inputs(t, n, rng);
        let (state, msgs) = round1(i, n, t, SID, coefs, points_nonce, subshare_nonces);
        states1.push(state);
        msgs1.push(msgs);
    }
    let commit_points: Vec<CommitPointsMsg> = msgs1.iter().map(|m| m.commit_points.clone()).collect();
    let commit_subshares: Vec<Vec<(u16, CommitSubshareMsg)>> =
        msgs1.iter().map(|m| m.commit_subshares.clone()).collect();

    let mut states: Vec<Round2State> = Vec::new();
    let mut msgs2: Vec<Round2Msgs> = Vec::new();
    for (k, state) in states1.into_iter().enumerate() {
        let i = (k + 1) as u16;
        let (state, msgs) = round2(state, from_others(&commit_points, i), p2p_to(&commit_subshares, i));
        states.push(state);
        msgs2.push(msgs);
    }
    AfterRound2 {
        states,
        echo: msgs2.iter().map(|m| m.echo.clone()).collect(),
        decommit_points: msgs2.iter().map(|m| m.decommit_points.clone()).collect(),
        decommit_subshares: msgs2.iter().map(|m| m.decommit_subshares.clone()).collect(),
    }
}

fn run_keygen(t: u16, n: u16, rng: &mut impl RngCore) -> Vec<Result<KeyPair, TestError>> {
    let r2 = run_rounds_1_2(t, n, rng);
    let mut verdicts: Vec<(VerifyMsg, Verification)> = Vec::new();
    for (k, state) in r2.states.iter().enumerate() {
        let i = (k + 1) as u16;
        let v = round3::<(), ()>(
            state,
            &from_others(&r2.echo, i),
            &from_others(&r2.decommit_points, i),
            &p2p_to(&r2.decommit_subshares, i),
        )
        .ok()
        .unwrap();
        verdicts.push(v);
    }
    let verify_msgs: Vec<VerifyMsg> = verdicts.iter().map(|(m, _)| *m).collect();
    verdicts
        .into_iter()
        .enumerate()
        .map(|(k, (_, verification))| {
            let i = (k + 1) as u16;
            output::<(), ()>(i, SID, verification, &from_others(&verify_msgs, i))
        })
        .collect()
}

/// Interpolates the secret-sharing polynomial through `polynomial_points` evaluated at `x`,
/// where x is not an coordinate of one of the points.
/// The `polynomial_points` are (1-based label, share) pairs.
fn interpolate_at(polynomial_points: &[(u16, GScalar<Secp256k1>)], x: GScalar<Secp256k1>) -> GScalar<Secp256k1> {
    let xs: Vec<GScalar<Secp256k1>> =
        polynomial_points.iter().map(|(label, _)| GScalar::from(*label)).collect();
    polynomial_points
        .iter()
        .enumerate()
        .map(|(j, (_, share))| {
            lagrange_coefficient(x, j, &xs).expect("x is not part of one of the polynomial points")
                * *share
        })
        .sum::<GScalar<Secp256k1>>()
}

/// Validates a threshold keygen output:
/// - every party agrees on the shared public key `P(0)` and the session id
/// - all `n` shares lie on one degree-`(t-1)` polynomial.
fn validate(t: u16, n: u16, key_shares: &[KeyPair], rng: &mut impl rand::RngCore) {
    assert_eq!(key_shares.len(), usize::from(n));

    let public_key = key_shares[0].share_point_0;
    for share in key_shares {
        assert_eq!(share.sid, SID);
        assert_eq!(share.share_point_0, public_key);
    }

    let all: Vec<(u16, GScalar<Secp256k1>)> =
        (1..=n).zip(key_shares.iter().map(|ks| ec_scalar(&ks.share_i))).collect();
    let subset: Vec<(u16, GScalar<Secp256k1>)> =
        all.choose_multiple(rng, usize::from(t)).copied().collect();

    for (label, share) in &all {
        if subset.iter().any(|(l, _)| l == label) {
            continue;
        }
        assert_eq!(interpolate_at(&subset, GScalar::from(*label)), *share);
    }

    let secret = interpolate_at(&subset, GScalar::zero());
    assert_eq!(secret * GPoint::<Secp256k1>::generator(), ec_point(&public_key));
}

fn keygen_works(t: u16, n: u16) {
    let mut rng = rand_dev::DevRng::new();
    let key_shares: Vec<KeyPair> = run_keygen(t, n, &mut rng)
        .into_iter()
        .map(|r| r.ok().expect("every party outputs a key pair"))
        .collect();
    validate(t, n, &key_shares, &mut rng);
}

#[test]
fn simulation() {
    for &(t, n) in CASES {
        keygen_works(t, n);
    }
}

#[test]
fn tampered_echo_digest_aborts_everyone() {
    let mut rng = rand_dev::DevRng::new();
    let (t, n) = (2, 3);
    let mut r2 = run_rounds_1_2(t, n, &mut rng);
    r2.echo[0].digest[0] ^= 1;
    let state = &r2.states[1];
    let (msg, verification) = round3::<(), ()>(
        state,
        &from_others(&r2.echo, 2),
        &from_others(&r2.decommit_points, 2),
        &p2p_to(&r2.decommit_subshares, 2),
    )
    .ok()
    .unwrap();
    assert!(!msg.ok);
    assert_eq!(msg.sid, SID);
    // party 1's echo digest, as party 2 received it, disagrees
    assert!(matches!(verification, Verification::Abort { party: Some(1) }));
    let out = output::<(), ()>(2, SID, verification, &vec![VerifyMsg { sid: SID, ok: true }; 2]);
    assert!(matches!(out, Err(Error::Abort { sid: SID, party: Some(1) })));
}

#[test]
fn tampered_points_opening_aborts() {
    let mut rng = rand_dev::DevRng::new();
    let (t, n) = (3, 4);
    let mut r2 = run_rounds_1_2(t, n, &mut rng);
    r2.decommit_points[3].nonce[5] ^= 0x80;
    let (msg, verification) = round3::<(), ()>(
        &r2.states[0],
        &from_others(&r2.echo, 1),
        &from_others(&r2.decommit_points, 1),
        &p2p_to(&r2.decommit_subshares, 1),
    )
    .ok()
    .unwrap();
    assert!(!msg.ok);
    // party 4's opening fails
    assert!(matches!(verification, Verification::Abort { party: Some(4) }));
}

#[test]
fn tampered_subshare_opening_aborts() {
    let mut rng = rand_dev::DevRng::new();
    let (t, n) = (2, 3);
    let mut r2 = run_rounds_1_2(t, n, &mut rng);
    // party 1's opening of the subshare it sends to party 3
    let s = r2.decommit_subshares[0][1].1.subshare;
    r2.decommit_subshares[0][1].1.subshare = s.add(&Scalar::one());
    let (msg, verification) = round3::<(), ()>(
        &r2.states[2],
        &from_others(&r2.echo, 3),
        &from_others(&r2.decommit_points, 3),
        &p2p_to(&r2.decommit_subshares, 3),
    )
    .ok()
    .unwrap();
    assert!(!msg.ok);
    // party 1's subshare opening fails
    assert!(matches!(verification, Verification::Abort { party: Some(1) }));
}

#[test]
fn inconsistent_curve_points_fail_the_share_check() {
    // Party 2 recommits honestly to curve points that do not match its subshares.
    let mut rng = rand_dev::DevRng::new();
    let (t, n) = (2, 3);
    for victim in [1u16, 3u16] {
        let mut r2 = run_rounds_1_2(t, n, &mut rng);
        let mut points = r2.decommit_points[1].points.clone();
        points[1] = points[1].add(&Point::generator_mul(&Scalar::one()));
        let nonce = r2.decommit_points[1].nonce;
        let c = relaxed_keygen::commitment::commit_points(2, n, SID, &points, &nonce);
        let idx = if victim < 2 { 0 } else { 1 };
        r2.states[usize::from(victim) - 1].points_commitments[idx] = c;
        r2.decommit_points[1].points = points;
        let state = &r2.states[usize::from(victim) - 1];
        let echo: Vec<EchoDigestMsg> = (0..2).map(|_| EchoDigestMsg { digest: state.echo_digest, sid: SID }).collect();
        let (msg, verification) = round3::<(), ()>(
            state,
            &echo,
            &from_others(&r2.decommit_points, victim),
            &p2p_to(&r2.decommit_subshares, victim),
        )
        .ok()
        .unwrap();
        assert!(!msg.ok);
        // every opening holds; the share check alone fails, naming no party
        assert!(matches!(verification, Verification::Abort { party: None }));
    }
}

#[test]
fn opened_vector_of_the_wrong_length_aborts_naming_its_sender() {
    // Party 2 commits to, and opens, a vector of t + 1 or t - 1 curve points.
    let mut rng = rand_dev::DevRng::new();
    let (t, n) = (3, 4);
    for longer in [true, false] {
        let mut r2 = run_rounds_1_2(t, n, &mut rng);
        let mut points = r2.decommit_points[1].points.clone();
        if longer {
            points.push(Point::generator_mul(&Scalar::one()));
        } else {
            points.pop();
        }
        let nonce = r2.decommit_points[1].nonce;
        let c = relaxed_keygen::commitment::commit_points(2, n, SID, &points, &nonce);
        // party 1 received it at position 0
        r2.states[0].points_commitments[0] = c;
        r2.decommit_points[1].points = points;
        let state = &r2.states[0];
        let echo: Vec<EchoDigestMsg> =
            (0..3).map(|_| EchoDigestMsg { digest: state.echo_digest, sid: SID }).collect();
        let (msg, verification) = round3::<(), ()>(
            state,
            &echo,
            &from_others(&r2.decommit_points, 1),
            &p2p_to(&r2.decommit_subshares, 1),
        )
        .ok()
        .unwrap();
        assert!(!msg.ok);
        assert!(matches!(verification, Verification::Abort { party: Some(2) }));
    }
}

#[test]
fn abort_names_the_party_that_own_checks_blamed() {
    // Party 3 caught party 2's bad opening; party 1, honest, reported failure.
    let received = vec![VerifyMsg { sid: 7, ok: false }, VerifyMsg { sid: 7, ok: false }];
    let out = output::<(), ()>(3, 7, Verification::Abort { party: Some(2) }, &received);
    assert!(matches!(out, Err(Error::Abort { sid: 7, party: Some(2) })));
    let out = output::<(), ()>(3, 7, Verification::Abort { party: None }, &received);
    assert!(matches!(out, Err(Error::Abort { sid: 7, party: None })));
}

#[test]
fn output_aborts_on_a_failed_verify_message() {
    let kp = KeyPair { sid: 7, share_point_0: Point::zero(), share_i: Scalar::one() };
    // party 1 hears from parties 2 and 3; party 3 reports a failure
    let received = vec![VerifyMsg { sid: 7, ok: true }, VerifyMsg { sid: 7, ok: false }];
    let out = output::<(), ()>(1, 7, Verification::Success(kp), &received);
    assert!(matches!(out, Err(Error::Abort { sid: 7, party: Some(3) })));
    // party 2 hears from parties 1 and 3; both report failures, party 1 first
    let received = vec![VerifyMsg { sid: 7, ok: false }, VerifyMsg { sid: 7, ok: false }];
    let out = output::<(), ()>(2, 7, Verification::Success(kp), &received);
    assert!(matches!(out, Err(Error::Abort { sid: 7, party: Some(1) })));
    let received = vec![VerifyMsg { sid: 7, ok: true }];
    let out = output::<(), ()>(1, 7, Verification::Success(kp), &received);
    assert_eq!(out.ok(), Some(kp));
    let out = output::<(), ()>(1, 7, Verification::Abort { party: None }, &received);
    assert!(matches!(out, Err(Error::Abort { sid: 7, party: None })));
    let out = output::<(), ()>(1, 7, Verification::Abort { party: Some(2) }, &received);
    assert!(matches!(out, Err(Error::Abort { sid: 7, party: Some(2) })));
}

#[test]
fn round1_outputs_match_the_polynomial() {
    let mut rng = rand_dev::DevRng::new();
    let (t, n) = (3u16, 4u16);
    let (coefs, points_nonce, subshare_nonces) = sample_inputs(t, n, &mut rng);
    let ec_coefs: Vec<GScalar<Secp256k1>> = coefs.iter().map(ec_scalar).collect();
    let eval = |x: u16| {
        let x = GScalar::<Secp256k1>::from(x);
        ec_coefs.iter().rev().fold(GScalar::zero(), |acc, c| acc * x + c)
    };
    let (state, msgs) = round1(2, n, t, SID, coefs, points_nonce, subshare_nonces.clone());
    for j in 1..=n {
        assert_eq!(ec_scalar(&state.subshares[usize::from(j) - 1]), eval(j));
    }
    for k in 0..t {
        assert_eq!(ec_point(&state.curve_points[usize::from(k)]), GPoint::generator() * eval(k));
    }
    let receivers: Vec<u16> = msgs.commit_subshares.iter().map(|(j, _)| *j).collect();
    assert_eq!(receivers, vec![1, 3, 4]);
    assert_eq!(msgs.commit_points.commitment, state.points_commitment);
    assert_eq!(msgs.commit_points.sid, SID);
}
