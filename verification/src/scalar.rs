//! Scalars: integers modulo the secp256k1 group order.
use vstd::prelude::*;

use generic_ec::curves::Secp256k1;
use vstd::arithmetic::div_mod::{
    lemma_add_mod_noop, lemma_mul_mod_noop_left, lemma_mul_mod_noop_right, lemma_sub_mod_noop,
};

verus! {

/// The order of the secp256k1 group generated by its base point.
pub open spec fn group_order() -> nat {
    0xFFFFFFFFFFFFFFFFFFFFFFFFFFFFFFFEBAAEDCE6AF48A03BBFD25E8CD0364141nat
}

/// The unsigned integer that a byte string encodes in big-endian order.
pub open spec fn be_value(bytes: Seq<u8>) -> nat
    decreases bytes.len(),
{
    if bytes.len() == 0 {
        0
    } else {
        be_value(bytes.drop_last()) * 256 + bytes.last() as nat
    }
}

/// Addition modulo the group order.
pub open spec fn add_mod(a: nat, b: nat) -> nat {
    (a + b) % group_order()
}

/// Subtraction modulo the group order.
pub open spec fn sub_mod(a: nat, b: nat) -> nat {
    ((a as int - b as int) % (group_order() as int)) as nat
}

/// Multiplication modulo the group order.
pub open spec fn mul_mod(a: nat, b: nat) -> nat {
    (a * b) % group_order()
}

/// `d` has an inverse modulo the group order.
pub open spec fn invertible(d: nat) -> bool {
    exists|b: nat| b < group_order() && mul_mod(d, b) == 1
}

/// An invertible residue's inverse is below the group order.
pub proof fn lemma_invertible(d: nat)
    requires
        invertible(d),
    ensures
        inv_mod(d) < group_order(),
        mul_mod(d, inv_mod(d)) == 1,
{
}

/// The inverse of `a` modulo the group order: the `b` below it with `a·b ≡ 1`.
pub open spec fn inv_mod(a: nat) -> nat {
    choose|b: nat| b < group_order() && mul_mod(a, b) == 1
}

/// An integer has at most one inverse below the group order.
pub proof fn lemma_inverse_unique(a: nat, b: nat, c: nat)
    requires
        b < group_order(),
        c < group_order(),
        mul_mod(a, b) == 1,
        mul_mod(a, c) == 1,
    ensures
        b == c,
{
    let m = group_order() as int;
    lemma_mul_mod_noop_right(b as int, (a * c) as int, m);
    assert(b * (a * c) == (a * b) * c) by (nonlinear_arith);
    lemma_mul_mod_noop_left((a * b) as int, c as int, m);
}

/// The inverse of `a` is any `b` below the group order with `a·b ≡ 1`.
pub proof fn lemma_inv_mod(a: nat, b: nat)
    requires
        b < group_order(),
        mul_mod(a, b) == 1,
    ensures
        inv_mod(a) == b,
{
    let c = inv_mod(a);
    assert(c < group_order() && mul_mod(a, c) == 1);
    lemma_inverse_unique(a, b, c);
}

/// Reducing an operand modulo the group order does not change the result of
/// an addition, subtraction or multiplication modulo the group order.
pub proof fn lemma_mod_congruences(x: int, y: int)
    ensures
        (x % (group_order() as int) + y) % (group_order() as int) == (x + y) % (group_order() as int),
        (x + y % (group_order() as int)) % (group_order() as int) == (x + y) % (group_order() as int),
        (x % (group_order() as int) - y) % (group_order() as int) == (x - y) % (group_order() as int),
        (x - y % (group_order() as int)) % (group_order() as int) == (x - y) % (group_order() as int),
        (x % (group_order() as int) * y) % (group_order() as int) == (x * y) % (group_order() as int),
        (x * (y % (group_order() as int))) % (group_order() as int) == (x * y) % (group_order() as int),
{
    let m = group_order() as int;
    vstd::arithmetic::div_mod::lemma_add_mod_noop(x, y, m);
    vstd::arithmetic::div_mod::lemma_add_mod_noop_right(x, y, m);
    vstd::arithmetic::div_mod::lemma_mod_twice(x, m);
    vstd::arithmetic::div_mod::lemma_mod_twice(y, m);
    vstd::arithmetic::div_mod::lemma_add_mod_noop(x % m, y, m);
    vstd::arithmetic::div_mod::lemma_sub_mod_noop(x, y, m);
    vstd::arithmetic::div_mod::lemma_sub_mod_noop_right(x, y, m);
    vstd::arithmetic::div_mod::lemma_sub_mod_noop(x % m, y, m);
    lemma_mul_mod_noop_left(x, y, m);
    lemma_mul_mod_noop_right(x, y, m);
}

/// Two scalar values below the group order whose difference vanishes are equal.
pub proof fn lemma_sub_mod_zero(a: nat, b: nat)
    requires
        a < group_order(),
        b < group_order(),
        sub_mod(a, b) == 0,
    ensures
        a == b,
{
    let m = group_order() as int;
    let d = a as int - b as int;
    assert(-m < d < m);
    if d < 0 {
        assert((d + m) % m == d + m);
        vstd::arithmetic::div_mod::lemma_mod_add_multiples_vanish(d, m);
    } else {
        assert(d % m == d);
    }
}

/// Sums modulo the group order may be regrouped and reordered.
pub proof fn lemma_add_mod_assoc_comm(a: nat, b: nat, c: nat)
    ensures
        add_mod(add_mod(a, b), c) == add_mod(a, add_mod(b, c)),
        add_mod(a, b) == add_mod(b, a),
{
    let m = group_order() as int;
    let (ai, bi, ci) = (a as int, b as int, c as int);
    vstd::arithmetic::div_mod::lemma_add_mod_noop_right(ci, ai + bi, m);
    vstd::arithmetic::div_mod::lemma_add_mod_noop_right(ai, bi + ci, m);
    assert(ci + (ai + bi) == ai + (bi + ci));
}

/// Two sums modulo the group order may exchange their second and third terms.
pub proof fn lemma_add_mod_swap(a: nat, b: nat, c: nat, d: nat)
    ensures
        add_mod(add_mod(a, b), add_mod(c, d)) == add_mod(add_mod(a, c), add_mod(b, d)),
{
    let m = group_order() as int;
    lemma_add_mod_noop((a + b) as int, (c + d) as int, m);
    lemma_add_mod_noop((a + c) as int, (b + d) as int, m);
}

/// Multiplication distributes over addition modulo the group order.
pub proof fn lemma_mul_mod_distrib(a: nat, b: nat, x: nat)
    ensures
        mul_mod(add_mod(a, b), x) == add_mod(mul_mod(a, x), mul_mod(b, x)),
{
    let m = group_order() as int;
    lemma_mul_mod_noop_left((a + b) as int, x as int, m);
    assert((a + b) * x == a * x + b * x) by (nonlinear_arith);
    lemma_add_mod_noop((a * x) as int, (b * x) as int, m);
}

/// Multiplication modulo the group order is commutative.
pub proof fn lemma_mul_mod_comm(a: nat, b: nat)
    ensures
        mul_mod(a, b) == mul_mod(b, a),
{
    assert(a * b == b * a) by (nonlinear_arith);
}

/// Multiplication modulo the group order is associative.
pub proof fn lemma_mul_mod_assoc(a: nat, b: nat, c: nat)
    ensures
        mul_mod(mul_mod(a, b), c) == mul_mod(a, mul_mod(b, c)),
{
    let m = group_order() as int;
    lemma_mod_congruences((a * b) as int, c as int);
    lemma_mod_congruences(a as int, (b * c) as int);
    assert((a * b) * c == a * (b * c)) by (nonlinear_arith);
}

/// One is neutral and zero absorbing for multiplication modulo the group order.
pub proof fn lemma_mul_mod_one(a: nat)
    requires
        a < group_order(),
    ensures
        mul_mod(a, 1) == a,
        mul_mod(1, a) == a,
        mul_mod(a, 0) == 0,
        mul_mod(0, a) == 0,
{
}

/// Zero is neutral for addition modulo the group order.
pub proof fn lemma_add_mod_zero(a: nat)
    requires
        a < group_order(),
    ensures
        add_mod(0, a) == a,
        add_mod(a, 0) == a,
{
}

/// When `λ` is invertible, `s = λ^{-1}·(x - w)` exactly when `λ·s + w ≡ x`.
pub proof fn lemma_solve_linear(lambda: nat, s: nat, w: nat, x: nat)
    requires
        s < group_order(),
        w < group_order(),
        x < group_order(),
        mul_mod(lambda, inv_mod(lambda)) == 1,
    ensures
        (s == mul_mod(inv_mod(lambda), sub_mod(x, w))) <==> add_mod(mul_mod(lambda, s), w) == x,
{
    let m = group_order() as int;
    let c = inv_mod(lambda);
    let d = sub_mod(x, w);
    assert(d == (x - w) % m);
    let e = mul_mod(c, d);
    // lambda·e ≡ x - w
    lemma_mul_mod_noop_right(lambda as int, (c * d) as int, m);
    assert(lambda * (c * d) == (lambda * c) * d) by (nonlinear_arith);
    lemma_mul_mod_noop_left((lambda * c) as int, d as int, m);
    assert(mul_mod(lambda, e) == d);
    lemma_add_mod_noop(x - w, w as int, m);
    assert(add_mod(mul_mod(lambda, e), w) == x);
    if add_mod(mul_mod(lambda, s), w) == x {
        lemma_sub_mod_noop((lambda * s + w) as int, w as int, m);
        lemma_add_mod_noop((lambda * s) as int, w as int, m);
        let ls = (lambda * s) as int;
        assert((ls % m + w) % m == x);
        assert(d == ls % m) by {
            lemma_sub_mod_noop(ls % m + w, w as int, m);
            vstd::arithmetic::div_mod::lemma_mod_twice(ls, m);
        }
        lemma_mul_mod_noop_right(c as int, (lambda * s) as int, m);
        assert(c * (lambda * s) == (lambda * c) * s) by (nonlinear_arith);
        lemma_mul_mod_noop_left((lambda * c) as int, s as int, m);
    }
}

/// The group order has no divisor `d` with `2 <= d < 2^16`.
pub open spec fn no_small_factor() -> bool {
    forall|d: nat| 2 <= d < 0x10000 ==> #[trigger] (group_order() % d) != 0
}

/// Extended Euclid: `(g, u, v)` with `a·u + b·v = g`, `g` the greatest
/// common divisor of `a` and `b`.
pub open spec fn egcd(a: nat, b: nat) -> (nat, int, int)
    decreases b,
{
    if b == 0 {
        (a, 1, 0)
    } else {
        let (g, u, v) = egcd(b, a % b);
        (g, v, u - (a / b) as int * v)
    }
}

/// What extended Euclid computes is a common divisor of `a` and `b` with
/// `a·u + b·v = g`.
pub proof fn lemma_egcd(a: nat, b: nat)
    requires
        a > 0 || b > 0,
    ensures
        egcd(a, b).0 > 0,
        a % egcd(a, b).0 == 0,
        b % egcd(a, b).0 == 0,
        a * egcd(a, b).1 + b * egcd(a, b).2 == egcd(a, b).0,
    decreases b,
{
    if b == 0 {
        vstd::arithmetic::div_mod::lemma_mod_self_0(a as int);
    } else {
        let r = a % b;
        lemma_egcd(b, r);
        let (g, u, v) = egcd(b, r);
        let qt = (a / b) as int;
        vstd::arithmetic::div_mod::lemma_fundamental_div_mod(a as int, b as int);
        assert(a == b * qt + r);
        assert(a * v + b * (u - qt * v) == b * u + r * v) by (nonlinear_arith)
            requires
                a == b * qt + r,
        ;
        // a = b·qt + r is a multiple of g, as b and r are
        vstd::arithmetic::div_mod::lemma_fundamental_div_mod(b as int, g as int);
        vstd::arithmetic::div_mod::lemma_fundamental_div_mod(r as int, g as int);
        let kb = (b / g) as int;
        let kr = (r / g) as int;
        assert(a == g * (kb * qt + kr)) by (nonlinear_arith)
            requires
                a == b * qt + r,
                b == g * kb,
                r == g * kr,
        ;
        vstd::arithmetic::div_mod::lemma_mod_multiples_basic(kb * qt + kr, g as int);
        assert(a % g == 0) by {
            assert((kb * qt + kr) * g == g * (kb * qt + kr)) by (nonlinear_arith);
        }
    }
}

/// Every `d` with `0 < d < 2^16` is invertible modulo a group order without
/// a divisor below `2^16`.
pub proof fn lemma_small_invertible(d: nat)
    requires
        no_small_factor(),
        0 < d < 0x10000,
    ensures
        invertible(d),
{
    let q = group_order();
    lemma_egcd(q, d);
    let (g, u, v) = egcd(q, d);
    // g divides d, so g <= d < 2^16, and g divides the order: g = 1
    vstd::arithmetic::div_mod::lemma_fundamental_div_mod(d as int, g as int);
    let k = (d / g) as int;
    assert(d == g * k);
    assert(k >= 1) by (nonlinear_arith)
        requires
            d == g * k,
            d > 0,
            g > 0,
    ;
    assert(g <= d) by (nonlinear_arith)
        requires
            d == g * k,
            k >= 1,
            g > 0,
    ;
    if g >= 2 {
        assert(q % g != 0);
    }
    assert(g == 1);
    let m = q as int;
    let b = v % m;
    // d·b ≡ d·v = 1 - q·u ≡ 1
    lemma_mul_mod_noop_right(d as int, v, m);
    assert(d * v == 1 - m * u) by (nonlinear_arith)
        requires
            q * u + d * v == 1,
            m == q,
    ;
    vstd::arithmetic::div_mod::lemma_mod_multiples_vanish(-u, 1, m);
    assert(-u * m == -(m * u)) by (nonlinear_arith);
    assert(mul_mod(d, b as nat) == 1);
}

/// Negating an invertible value keeps it invertible.
pub proof fn lemma_neg_invertible(e: nat)
    requires
        invertible(e),
    ensures
        invertible(sub_mod(0, e)),
{
    let m = group_order() as int;
    lemma_invertible(e);
    let b = inv_mod(e);
    let nb = sub_mod(0, b);
    // (-e)·(-b) ≡ e·b ≡ 1
    let x = 0 - e;
    let y = 0 - b;
    vstd::arithmetic::div_mod::lemma_mul_mod_noop(x, y, m);
    assert(x * y == e * b) by (nonlinear_arith)
        requires
            x == 0 - e,
            y == 0 - b,
    ;
    assert(sub_mod(0, e) as int == x % m);
    assert(nb as int == y % m);
    assert(mul_mod(sub_mod(0, e), nb) == 1);
}

/// An integer modulo the secp256k1 group order, held as 32 big-endian bytes.
///
/// Any 32 bytes are accepted; the scalar stands for their value reduced
/// modulo the group order.
#[derive(Clone, Copy, Debug, PartialEq, Eq)]
pub struct Scalar {
    bytes: [u8; 32],
}

impl View for Scalar {
    type V = nat;

    closed spec fn view(&self) -> nat {
        be_value(self.bytes@) % group_order()
    }
}

impl Scalar {
    /// The bytes that the scalar carries.
    pub closed spec fn encoding(self) -> Seq<u8> {
        self.bytes@
    }

    pub proof fn lemma_value(self)
        ensures
            self@ == be_value(self.encoding()) % group_order(),
            self@ < group_order(),
            self.encoding().len() == 32,
    {
    }

    /// The scalar that 32 big-endian bytes encode, reduced modulo the group order.
    pub fn from_be_bytes(bytes: [u8; 32]) -> (s: Scalar)
        ensures
            s@ == be_value(bytes@) % group_order(),
    {
        scalar_from_be_bytes_mod_order(bytes)
    }

    /// The 32 big-endian bytes that the scalar carries.
    pub fn to_be_bytes(&self) -> (bytes: [u8; 32])
        ensures
            bytes@ == self.encoding(),
            be_value(bytes@) % group_order() == self@,
    {
        self.bytes
    }

    /// The scalar `k`.
    pub fn from_u16(k: u16) -> (s: Scalar)
        ensures
            s@ == k as nat,
    {
        let s = scalar_from_u16(k);
        s
    }

    /// The scalar zero.
    pub fn zero() -> (s: Scalar)
        ensures
            s@ == 0,
    {
        scalar_from_u16(0)
    }

    /// The scalar one.
    pub fn one() -> (s: Scalar)
        ensures
            s@ == 1,
    {
        scalar_from_u16(1)
    }

    /// Sum modulo the group order.
    pub fn add(&self, other: &Scalar) -> (s: Scalar)
        ensures
            s@ == add_mod(self@, other@),
    {
        scalar_add(self, other)
    }

    /// Difference modulo the group order.
    pub fn sub(&self, other: &Scalar) -> (s: Scalar)
        ensures
            s@ == sub_mod(self@, other@),
    {
        scalar_sub(self, other)
    }

    /// Product modulo the group order.
    pub fn mul(&self, other: &Scalar) -> (s: Scalar)
        ensures
            s@ == mul_mod(self@, other@),
    {
        scalar_mul(self, other)
    }

    /// The multiplicative inverse modulo the group order; `None` for zero.
    pub fn invert(&self) -> (s: Option<Scalar>)
        ensures
            s is None <==> self@ == 0,
            s matches Some(inv) ==> mul_mod(self@, inv@) == 1,
    {
        scalar_invert(self)
    }

    /// Whether two scalars stand for the same integer modulo the group order.
    pub fn equals(&self, other: &Scalar) -> (b: bool)
        ensures
            b == (self@ == other@),
    {
        scalar_eq(self, other)
    }
}

/// Calls `generic_ec::Scalar::<Secp256k1>::from_be_bytes_mod_order`, then `to_be_bytes`.
/// Claimed, as its documentation says: the big-endian integer reduced modulo
/// the group order.
#[verifier::external_body]
fn scalar_from_be_bytes_mod_order(bytes: [u8; 32]) -> (s: Scalar)
    ensures
        s@ == be_value(bytes@) % group_order(),
{
    let raw = generic_ec::Scalar::<Secp256k1>::from_be_bytes_mod_order(bytes);
    let mut out = [0u8; 32];
    out.copy_from_slice(raw.to_be_bytes().as_bytes());
    Scalar { bytes: out }
}

/// Calls `generic_ec::Scalar::<Secp256k1>::from(u16)`, then `to_be_bytes`.
/// Claimed: the scalar whose value is `k` (it is below the group order).
#[verifier::external_body]
fn scalar_from_u16(k: u16) -> (s: Scalar)
    ensures
        s@ == k as nat,
{
    let raw = generic_ec::Scalar::<Secp256k1>::from(k);
    let mut bytes = [0u8; 32];
    bytes.copy_from_slice(raw.to_be_bytes().as_bytes());
    Scalar { bytes }
}

/// Calls `generic_ec::Scalar::<Secp256k1>::from_be_bytes_mod_order` on both operands,
/// adds them with `+`, and encodes with `to_be_bytes`.
/// Claimed: the result is the sum modulo the group order.
#[verifier::external_body]
fn scalar_add(a: &Scalar, b: &Scalar) -> (s: Scalar)
    ensures
        s@ == add_mod(a@, b@),
{
    let x = generic_ec::Scalar::<Secp256k1>::from_be_bytes_mod_order(a.bytes);
    let y = generic_ec::Scalar::<Secp256k1>::from_be_bytes_mod_order(b.bytes);
    let mut bytes = [0u8; 32];
    bytes.copy_from_slice((x + y).to_be_bytes().as_bytes());
    Scalar { bytes }
}

/// Calls `generic_ec::Scalar::<Secp256k1>::from_be_bytes_mod_order` on both operands,
/// subtracts them with `-`, and encodes with `to_be_bytes`.
/// Claimed: the result is the difference modulo the group order.
#[verifier::external_body]
fn scalar_sub(a: &Scalar, b: &Scalar) -> (s: Scalar)
    ensures
        s@ == sub_mod(a@, b@),
{
    let x = generic_ec::Scalar::<Secp256k1>::from_be_bytes_mod_order(a.bytes);
    let y = generic_ec::Scalar::<Secp256k1>::from_be_bytes_mod_order(b.bytes);
    let mut bytes = [0u8; 32];
    bytes.copy_from_slice((x - y).to_be_bytes().as_bytes());
    Scalar { bytes }
}

/// Calls `generic_ec::Scalar::<Secp256k1>::from_be_bytes_mod_order` on both operands,
/// multiplies them with `*`, and encodes with `to_be_bytes`.
/// Claimed: the result is the product modulo the group order.
#[verifier::external_body]
fn scalar_mul(a: &Scalar, b: &Scalar) -> (s: Scalar)
    ensures
        s@ == mul_mod(a@, b@),
{
    let x = generic_ec::Scalar::<Secp256k1>::from_be_bytes_mod_order(a.bytes);
    let y = generic_ec::Scalar::<Secp256k1>::from_be_bytes_mod_order(b.bytes);
    let mut bytes = [0u8; 32];
    bytes.copy_from_slice((x * y).to_be_bytes().as_bytes());
    Scalar { bytes }
}

/// Calls `generic_ec::Scalar::<Secp256k1>::invert` on the decoded operand.
/// Claimed, as its documentation says: `None` exactly for zero, otherwise the
/// scalar whose product with the operand is one.
#[verifier::external_body]
fn scalar_invert(a: &Scalar) -> (s: Option<Scalar>)
    ensures
        s is None <==> a@ == 0,
        s matches Some(inv) ==> mul_mod(a@, inv@) == 1,
{
    let x = generic_ec::Scalar::<Secp256k1>::from_be_bytes_mod_order(a.bytes);
    match x.invert() {
        Some(inv) => {
            let mut bytes = [0u8; 32];
            bytes.copy_from_slice(inv.to_be_bytes().as_bytes());
            Some(Scalar { bytes })
        },
        None => None,
    }
}

/// Calls `==` on the two decoded `generic_ec::Scalar::<Secp256k1>` values.
/// Claimed: true exactly when the two integers agree modulo the group order.
#[verifier::external_body]
fn scalar_eq(a: &Scalar, b: &Scalar) -> (r: bool)
    ensures
        r == (a@ == b@),
{
    let x = generic_ec::Scalar::<Secp256k1>::from_be_bytes_mod_order(a.bytes);
    let y = generic_ec::Scalar::<Secp256k1>::from_be_bytes_mod_order(b.bytes);
    x == y
}

} // verus!
