use generic_ec::curves::Secp256k1;
use generic_ec::{Point as GPoint, Scalar as GScalar};
use generic_ec_zkp::polynomial::lagrange_coefficient;
use rand::{Rng, SeedableRng};
use sha2::Digest;

use relaxed_keygen::commitment::{
    commit_points, commit_subshare, compute_echo_digest, digest_eq, verify_points, verify_subshare,
};
use relaxed_keygen::encoding::{encode_fields, le64_bytes};
use relaxed_keygen::lagrange::{lagrange, lo, poly_eval};
use relaxed_keygen::point::Point;
use relaxed_keygen::scalar::Scalar;
use relaxed_keygen::{Error, InternalErr};

fn lib_scalar(s: &GScalar<Secp256k1>) -> Scalar {
    let mut bytes = [0u8; 32];
    bytes.copy_from_slice(s.to_be_bytes().as_bytes());
    Scalar::from_be_bytes(bytes)
}

fn ec_scalar(s: &Scalar) -> GScalar<Secp256k1> {
    GScalar::from_be_bytes(s.to_be_bytes()).unwrap()
}

fn ec_point(p: &Point) -> GPoint<Secp256k1> {
    GPoint::from_bytes(p.to_bytes()).unwrap()
}

fn random_scalar(rng: &mut rand::rngs::StdRng) -> GScalar<Secp256k1> {
    let bytes: [u8; 32] = rng.gen();
    GScalar::from_be_bytes_mod_order(bytes)
}

/// The group order of secp256k1, big-endian.
const ORDER: [u8; 32] = [
    0xFF, 0xFF, 0xFF, 0xFF, 0xFF, 0xFF, 0xFF, 0xFF, 0xFF, 0xFF, 0xFF, 0xFF, 0xFF, 0xFF, 0xFF, 0xFE,
    0xBA, 0xAE, 0xDC, 0xE6, 0xAF, 0x48, 0xA0, 0x3B, 0xBF, 0xD2, 0x5E, 0x8C, 0xD0, 0x36, 0x41, 0x41,
];

#[test]
fn scalar_arithmetic_matches_generic_ec() {
    let mut rng = rand::rngs::StdRng::seed_from_u64(7);
    for _ in 0..20 {
        let a = random_scalar(&mut rng);
        let b = random_scalar(&mut rng);
        let (la, lb) = (lib_scalar(&a), lib_scalar(&b));
        assert_eq!(ec_scalar(&la.add(&lb)), a + b);
        assert_eq!(ec_scalar(&la.sub(&lb)), a - b);
        assert_eq!(ec_scalar(&la.mul(&lb)), a * b);
        assert_eq!(ec_scalar(&la.invert().unwrap()), a.invert().unwrap());
        assert!(la.equals(&la));
        assert!(!la.equals(&lb));
    }
}

#[test]
fn scalar_constants_and_reduction() {
    assert!(Scalar::zero().invert().is_none());
    assert_eq!(ec_scalar(&Scalar::zero()), GScalar::zero());
    assert_eq!(ec_scalar(&Scalar::one()), GScalar::one());
    assert_eq!(ec_scalar(&Scalar::from_u16(65535)), GScalar::from(65535u16));
    // the group order reduces to zero, the order plus one to one
    assert!(Scalar::from_be_bytes(ORDER).equals(&Scalar::zero()));
    let mut order_plus_one = ORDER;
    order_plus_one[31] += 1;
    let one = Scalar::from_be_bytes(order_plus_one);
    assert!(one.equals(&Scalar::one()));
    assert_eq!(one.to_be_bytes()[31], 1);
    assert_eq!(one.to_be_bytes()[0], 0);
    // 3 - 5 = q - 2
    let d = Scalar::from_u16(3).sub(&Scalar::from_u16(5));
    assert_eq!(ec_scalar(&d), -GScalar::from(2u16));
    assert_eq!(ec_scalar(&Scalar::from_u16(6).mul(&Scalar::from_u16(7))), GScalar::from(42u16));
}

#[test]
fn point_arithmetic_matches_generic_ec() {
    let mut rng = rand::rngs::StdRng::seed_from_u64(8);
    let g = GPoint::<Secp256k1>::generator();
    for _ in 0..10 {
        let a = random_scalar(&mut rng);
        let b = random_scalar(&mut rng);
        let (la, lb) = (lib_scalar(&a), lib_scalar(&b));
        let pa = Point::generator_mul(&la);
        let pb = Point::generator_mul(&lb);
        assert_eq!(ec_point(&pa), g * a);
        assert_eq!(ec_point(&pa.add(&pb)), g * (a + b));
        assert_eq!(ec_point(&pa.sub(&pb)), g * (a - b));
        assert_eq!(ec_point(&pa.mul(&lb)), g * (a * b));
        assert!(pa.add(&pb).equals(&Point::generator_mul(&la.add(&lb))));
        assert!(!pa.equals(&pb));
    }
    assert_eq!(ec_point(&Point::zero()), GPoint::zero());
    assert!(Point::zero().equals(&Point::generator_mul(&Scalar::zero())));
}

#[test]
fn point_decoding() {
    let g = Point::generator_mul(&Scalar::one());
    let bytes = g.to_bytes();
    assert_eq!(bytes[0] & 0xFE, 0x02);
    let decoded = Point::from_bytes(&bytes).unwrap();
    assert!(decoded.equals(&g));
    // an x-coordinate of 5 is not on secp256k1
    let mut bad = [0u8; 33];
    bad[0] = 0x02;
    bad[32] = 5;
    assert!(Point::from_bytes(&bad).is_none());
    assert!(Point::from_bytes(&[1u8, 2, 3]).is_none());
    // the uncompressed encoding decodes to the same point
    let unc = GPoint::<Secp256k1>::generator().to_point().to_bytes(false);
    assert!(Point::from_bytes(&unc).unwrap().equals(&g));
}

#[test]
fn le64_and_encoding_bytes() {
    assert_eq!(le64_bytes(0x0102), vec![2, 1, 0, 0, 0, 0, 0, 0]);
    assert_eq!(le64_bytes(u64::MAX), vec![0xFF; 8]);
    let fields = vec![vec![0xAAu8], vec![], vec![1, 2]];
    let mut expected = vec![1u8, 0, 0, 0, 0, 0, 0, 0, 0xAA];
    expected.extend_from_slice(&[0; 8]);
    expected.extend_from_slice(&[2, 0, 0, 0, 0, 0, 0, 0, 1, 2]);
    assert_eq!(encode_fields(&fields), expected);
    assert_eq!(encode_fields(&vec![]), Vec::<u8>::new());
    // "ab" || "c" and "a" || "bc" encode differently
    assert_ne!(
        encode_fields(&vec![b"ab".to_vec(), b"c".to_vec()]),
        encode_fields(&vec![b"a".to_vec(), b"bc".to_vec()])
    );
}

fn encode_by_hand(fields: &[Vec<u8>]) -> Vec<u8> {
    let mut out = Vec::new();
    for f in fields {
        out.extend_from_slice(&(f.len() as u64).to_le_bytes());
        out.extend_from_slice(f);
    }
    out
}

#[test]
fn commitments_hash_the_encoded_openings() {
    let points: Vec<Point> = (1..=3u16).map(|k| Point::generator_mul(&Scalar::from_u16(k))).collect();
    let nonce = [9u8; 32];
    let points_field = encode_by_hand(&points.iter().map(|p| p.to_bytes().to_vec()).collect::<Vec<_>>());
    // committer 4 of 5 parties broadcasts to parties 1, 2, 3 and 5
    let receivers = encode_by_hand(
        &[1u64, 2, 3, 5].iter().map(|j| j.to_le_bytes().to_vec()).collect::<Vec<_>>(),
    );
    let opening = encode_by_hand(&[
        4u64.to_le_bytes().to_vec(),
        receivers,
        77u64.to_le_bytes().to_vec(),
        points_field,
        nonce.to_vec(),
    ]);
    let expected: [u8; 32] = sha2::Sha256::digest(&opening).into();
    let c = commit_points(4, 5, 77, &points, &nonce);
    assert_eq!(c, expected);
    assert!(verify_points(4, 5, 77, &points, &nonce, &c));
    assert!(!verify_points(5, 5, 77, &points, &nonce, &c));
    assert!(!verify_points(4, 6, 77, &points, &nonce, &c));
    assert!(!verify_points(4, 5, 78, &points, &nonce, &c));
    assert!(!verify_points(4, 5, 77, &points[..2].to_vec(), &nonce, &c));
    let mut other = nonce;
    other[0] = 0;
    assert!(!verify_points(4, 5, 77, &points, &other, &c));

    let s = Scalar::from_u16(1234);
    let opening = encode_by_hand(&[
        2u64.to_le_bytes().to_vec(),
        3u64.to_le_bytes().to_vec(),
        77u64.to_le_bytes().to_vec(),
        s.to_be_bytes().to_vec(),
        nonce.to_vec(),
    ]);
    let expected: [u8; 32] = sha2::Sha256::digest(&opening).into();
    let c = commit_subshare(2, 3, 77, &s, &nonce);
    assert_eq!(c, expected);
    assert!(verify_subshare(2, 3, 77, &s, &nonce, &c));
    assert!(!verify_subshare(3, 2, 77, &s, &nonce, &c));
    assert!(!verify_subshare(2, 3, 77, &Scalar::from_u16(1235), &nonce, &c));
}

#[test]
fn echo_digest_hashes_sid_and_commitments() {
    let commitments = vec![[1u8; 32], [2u8; 32]];
    let opening = encode_by_hand(&[5u64.to_le_bytes().to_vec(), vec![1u8; 32], vec![2u8; 32]]);
    let expected: [u8; 32] = sha2::Sha256::digest(&opening).into();
    let d = compute_echo_digest(5, &commitments);
    assert_eq!(d, expected);
    assert!(digest_eq(&d, &expected));
    let swapped = vec![[2u8; 32], [1u8; 32]];
    assert!(!digest_eq(&compute_echo_digest(5, &swapped), &d));
}

#[test]
fn lagrange_coefficients_at_zero() {
    let s: Vec<Scalar> = vec![Scalar::from_u16(1), Scalar::from_u16(2)];
    // λ_1 = (0 - 2)/(1 - 2) = 2, λ_2 = (0 - 1)/(2 - 1) = -1
    let l1 = lo(&s, 1).ok().unwrap();
    let l2 = lo(&s, 2).ok().unwrap();
    assert!(l1.equals(&Scalar::from_u16(2)));
    assert!(l2.equals(&Scalar::zero().sub(&Scalar::one())));
    // no node: the empty product
    let empty: Vec<Scalar> = vec![];
    assert!(lo(&empty, 3).ok().unwrap().equals(&Scalar::one()));
}

#[test]
fn lagrange_matches_generic_ec_zkp() {
    let mut rng = rand::rngs::StdRng::seed_from_u64(9);
    let xs: Vec<GScalar<Secp256k1>> = [1u16, 2, 4, 7].iter().map(|k| GScalar::from(*k)).collect();
    let lxs: Vec<Scalar> = xs.iter().map(lib_scalar).collect();
    let x = random_scalar(&mut rng);
    for j in 0..xs.len() {
        let expected = lagrange_coefficient(x, j, &xs).unwrap();
        let got = lagrange(&lxs, lxs[j], lib_scalar(&x)).ok().unwrap();
        assert_eq!(ec_scalar(&got), *expected.as_ref());
    }
}

#[test]
fn group_order_has_no_factor_below_2_16() {
    for d in 2u64..0x10000 {
        let r = ORDER.iter().fold(0u64, |r, b| (r * 256 + u64::from(*b)) % d);
        assert_ne!(r, 0, "the group order is divisible by {d}");
    }
}

#[test]
fn lagrange_does_not_depend_on_node_order() {
    let mut rng = rand::rngs::StdRng::seed_from_u64(11);
    let nodes: Vec<Scalar> = [3u16, 1, 9, 4, 6].iter().map(|k| Scalar::from_u16(*k)).collect();
    let shuffled: Vec<Scalar> = [9u16, 6, 3, 4, 1].iter().map(|k| Scalar::from_u16(*k)).collect();
    let x = lib_scalar(&random_scalar(&mut rng));
    for k in [1u16, 4, 9, 5] {
        let k = Scalar::from_u16(k);
        let a = lagrange(&nodes, k, x).ok().unwrap();
        let b = lagrange(&shuffled, k, x).ok().unwrap();
        assert!(a.equals(&b));
    }
}

#[test]
fn polynomial_evaluation() {
    let coefs = vec![Scalar::from_u16(1), Scalar::from_u16(2), Scalar::from_u16(3)];
    assert!(poly_eval(&coefs, &Scalar::from_u16(2)).equals(&Scalar::from_u16(17)));
    assert!(poly_eval(&coefs, &Scalar::zero()).equals(&Scalar::from_u16(1)));
    assert!(poly_eval(&vec![], &Scalar::from_u16(5)).equals(&Scalar::zero()));
}

#[test]
fn internal_error_converts_into_protocol_error() {
    let e: Error<(), (), InternalErr> = Error::from(InternalErr::ArithmeticError("x".to_owned()));
    assert!(matches!(e, Error::InternalError(InternalErr::ArithmeticError(ref s)) if s == "x"));
}
