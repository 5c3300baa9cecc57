//! Points of the secp256k1 group, held in compressed form.
//!
//! Every point is a multiple of the base point `G`, whose order is the group
//! order; the contracts speak of points through those multiples.
use vstd::prelude::*;

use generic_ec::curves::Secp256k1;

use crate::scalar::{add_mod, group_order, mul_mod, sub_mod, Scalar};

verus! {

/// The compressed encoding of `x·G`, as `generic_ec` gives it for
/// `Point::generator() * Scalar::from(x)`.
pub uninterp spec fn generator_multiple(x: nat) -> Seq<u8>;

/// The compressed encoding of `x·G` for `x` below the group order.
pub open spec fn is_multiple(bytes: Seq<u8>, x: nat) -> bool {
    x < group_order() && bytes == generator_multiple(x)
}

/// Bytes that encode a point of the group.
pub open spec fn is_group_element(bytes: Seq<u8>) -> bool {
    exists|x: nat| is_multiple(bytes, x)
}

/// A discrete logarithm of an encoded point, chosen among its exponents.
pub open spec fn dlog(bytes: Seq<u8>) -> nat {
    choose|x: nat| is_multiple(bytes, x)
}

/// A point of the secp256k1 group, in its 33-byte compressed encoding.
#[derive(Clone, Copy, Debug, PartialEq, Eq)]
pub struct Point {
    bytes: [u8; 33],
}

impl View for Point {
    type V = Seq<u8>;

    closed spec fn view(&self) -> Seq<u8> {
        self.bytes@
    }
}

impl Point {
    #[verifier::type_invariant]
    pub open spec fn inv(self) -> bool {
        is_group_element(self@)
    }

    /// The exponent of the point relative to the base point.
    pub open spec fn exponent(self) -> nat {
        dlog(self@)
    }

    /// Decodes a point from its encoding; `None` for bytes that encode no point
    /// of the group.
    pub fn from_bytes(bytes: &[u8]) -> (p: Option<Point>)
        ensures
            p matches Some(q) ==> q@ == decoded_point(bytes@)->Some_0,
            p is Some <==> decoded_point(bytes@) is Some,
            p matches Some(q) ==> is_group_element(q@),
    {
        point_decode(bytes)
    }

    /// The compressed encoding of the point.
    pub fn to_bytes(&self) -> (bytes: [u8; 33])
        ensures
            bytes@ == self@,
    {
        self.bytes
    }

    /// The identity point `0·G`.
    pub fn zero() -> (p: Point)
        ensures
            is_multiple(p@, 0),
    {
        point_zero()
    }

    /// `s·G`.
    pub fn generator_mul(s: &Scalar) -> (p: Point)
        ensures
            p@ == generator_multiple(s@),
            is_multiple(p@, s@),
            forall|y: nat| #[trigger] is_multiple(p@, y) ==> y == s@,
    {
        proof {
            s.lemma_value();
        }
        point_generator_mul(s)
    }

    /// The group sum of two points.
    pub fn add(&self, other: &Point) -> (p: Point)
        ensures
            forall|x: nat, y: nat|
                #![trigger is_multiple(self@, x), is_multiple(other@, y)]
                is_multiple(self@, x) && is_multiple(other@, y) ==> is_multiple(
                    p@,
                    add_mod(x, y),
                ),
    {
        point_add(self, other)
    }

    /// The group difference of two points.
    pub fn sub(&self, other: &Point) -> (p: Point)
        ensures
            forall|x: nat, y: nat|
                #![trigger is_multiple(self@, x), is_multiple(other@, y)]
                is_multiple(self@, x) && is_multiple(other@, y) ==> is_multiple(
                    p@,
                    sub_mod(x, y),
                ),
    {
        point_sub(self, other)
    }

    /// The point multiplied by a scalar.
    pub fn mul(&self, s: &Scalar) -> (p: Point)
        ensures
            forall|y: nat| #[trigger]
                is_multiple(self@, y) ==> is_multiple(p@, mul_mod(s@, y)),
    {
        point_mul(s, self)
    }

    /// Whether two points are the same point of the group.
    pub fn equals(&self, other: &Point) -> (b: bool)
        ensures
            b == (self@ == other@),
    {
        let mut i: usize = 0;
        while i < 33
            invariant
                0 <= i <= 33,
                forall|j: int| 0 <= j < i ==> self.bytes@[j] == other.bytes@[j],
            decreases 33 - i,
        {
            if self.bytes[i] != other.bytes[i] {
                return false;
            }
            i = i + 1;
        }
        assert(self.bytes@ =~= other.bytes@);
        true
    }
}

/// What `generic_ec::Point::<Secp256k1>::from_bytes` makes of some bytes,
/// encoded again in compressed form.
pub uninterp spec fn decoded_point(bytes: Seq<u8>) -> Option<Seq<u8>>;

/// Calls `generic_ec::Point::<Secp256k1>::from_bytes`, then `to_bytes(true)`.
/// Claimed: the result is the named decoding of the bytes; a decoded point is
/// a point of the group, as `generic_ec` only builds points that lie on the
/// curve and are free of torsion (secp256k1 has cofactor one).
#[verifier::external_body]
fn point_decode(bytes: &[u8]) -> (p: Option<Point>)
    ensures
        p matches Some(q) ==> decoded_point(bytes@) == Some(q@),
        p is None ==> decoded_point(bytes@) is None,
        p matches Some(q) ==> is_group_element(q@),
{
    match generic_ec::Point::<Secp256k1>::from_bytes(bytes) {
        Ok(q) => {
            let mut out = [0u8; 33];
            out.copy_from_slice(q.to_bytes(true).as_bytes());
            Some(Point { bytes: out })
        },
        Err(_) => None,
    }
}

/// Calls `generic_ec::Point::<Secp256k1>::zero`, then `to_bytes(true)`.
/// Claimed: the identity is `0·G`.
#[verifier::external_body]
fn point_zero() -> (p: Point)
    ensures
        is_multiple(p@, 0),
{
    let mut out = [0u8; 33];
    out.copy_from_slice(generic_ec::Point::<Secp256k1>::zero().to_bytes(true).as_bytes());
    Point { bytes: out }
}

/// Calls `Point::generator() * s` in `generic_ec`, then `to_bytes(true)`.
/// Claimed: the result is the named `s·G`, and no other exponent below the
/// group order gives it, as the base point has the group order as its order.
#[verifier::external_body]
fn point_generator_mul(s: &Scalar) -> (p: Point)
    ensures
        p@ == generator_multiple(s@),
        forall|y: nat| #[trigger] is_multiple(p@, y) ==> y == s@,
{
    let k = generic_ec::Scalar::<Secp256k1>::from_be_bytes_mod_order(s.to_be_bytes());
    let q = generic_ec::Point::<Secp256k1>::generator() * k;
    let mut out = [0u8; 33];
    out.copy_from_slice(q.to_bytes(true).as_bytes());
    Point { bytes: out }
}

/// Calls `+` on two `generic_ec::Point::<Secp256k1>` values decoded with `from_bytes`.
/// Claimed: `x·G + y·G = (x + y)·G`.
#[verifier::external_body]
fn point_add(a: &Point, b: &Point) -> (p: Point)
    ensures
        is_group_element(p@),
        forall|x: nat, y: nat|
            #![trigger is_multiple(a@, x), is_multiple(b@, y)]
            is_multiple(a@, x) && is_multiple(b@, y) ==> is_multiple(p@, add_mod(x, y)),
{
    let x = generic_ec::Point::<Secp256k1>::from_bytes(a.bytes).unwrap_or_default();
    let y = generic_ec::Point::<Secp256k1>::from_bytes(b.bytes).unwrap_or_default();
    let mut out = [0u8; 33];
    out.copy_from_slice((x + y).to_bytes(true).as_bytes());
    Point { bytes: out }
}

/// Calls `-` on two `generic_ec::Point::<Secp256k1>` values decoded with `from_bytes`.
/// Claimed: `x·G - y·G = (x - y)·G`.
#[verifier::external_body]
fn point_sub(a: &Point, b: &Point) -> (p: Point)
    ensures
        is_group_element(p@),
        forall|x: nat, y: nat|
            #![trigger is_multiple(a@, x), is_multiple(b@, y)]
            is_multiple(a@, x) && is_multiple(b@, y) ==> is_multiple(p@, sub_mod(x, y)),
{
    let x = generic_ec::Point::<Secp256k1>::from_bytes(a.bytes).unwrap_or_default();
    let y = generic_ec::Point::<Secp256k1>::from_bytes(b.bytes).unwrap_or_default();
    let mut out = [0u8; 33];
    out.copy_from_slice((x - y).to_bytes(true).as_bytes());
    Point { bytes: out }
}

/// Calls `*` on a `generic_ec::Scalar::<Secp256k1>` and a decoded point.
/// Claimed: `s·(y·G) = (s·y)·G`.
#[verifier::external_body]
fn point_mul(s: &Scalar, a: &Point) -> (p: Point)
    ensures
        is_group_element(p@),
        forall|y: nat| #[trigger] is_multiple(a@, y) ==> is_multiple(p@, mul_mod(s@, y)),
{
    let k = generic_ec::Scalar::<Secp256k1>::from_be_bytes_mod_order(s.to_be_bytes());
    let x = generic_ec::Point::<Secp256k1>::from_bytes(a.bytes).unwrap_or_default();
    let mut out = [0u8; 33];
    out.copy_from_slice((k * x).to_bytes(true).as_bytes());
    Point { bytes: out }
}

} // verus!
