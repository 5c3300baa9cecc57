//! Lagrange interpolation modulo the group order: interpolating the values
//! of a polynomial with at most `m` coefficients at `m` distinct nodes, whose
//! pairwise differences are invertible, gives back the polynomial.
use vstd::prelude::*;

use crate::lagrange::{differences_invertible, lagrange_value, poly_value};
use crate::scalar::{
    add_mod, group_order, inv_mod, invertible, lemma_invertible, lemma_add_mod_assoc_comm, lemma_add_mod_swap,
    lemma_add_mod_zero, lemma_mod_congruences, lemma_mul_mod_assoc, lemma_mul_mod_comm,
    lemma_mul_mod_distrib, lemma_mul_mod_one, lemma_neg_invertible, lemma_small_invertible,
    mul_mod, no_small_factor, sub_mod,
};

verus! {

/// `c(y) + a`: adds `a` to the constant coefficient.
pub open spec fn add_const(c: Seq<nat>, a: nat) -> Seq<nat> {
    if c.len() == 0 {
        seq![a]
    } else {
        seq![add_mod(c[0], a)] + c.drop_first()
    }
}

/// `(y - l)·c(y)`.
pub open spec fn mul_linear(c: Seq<nat>, l: nat) -> Seq<nat>
    decreases c.len(),
{
    if c.len() == 0 {
        Seq::empty()
    } else {
        seq![sub_mod(0, mul_mod(l, c[0]))] + add_const(mul_linear(c.drop_first(), l), c[0])
    }
}

pub proof fn lemma_add_const(c: Seq<nat>, a: nat, y: nat)
    ensures
        poly_value(add_const(c, a), y) == add_mod(poly_value(c, y), a),
{
    let d = add_const(c, a);
    if c.len() > 0 {
        assert(d.drop_first() =~= c.drop_first());
        assert(d[0] == add_mod(c[0], a));
        let p = mul_mod(poly_value(c.drop_first(), y), y);
        lemma_add_mod_assoc_comm(p, c[0], a);
    } else {
        assert(d.drop_first() =~= Seq::<nat>::empty());
        assert(poly_value(d.drop_first(), y) == 0);
        assert(d[0] == a);
        assert(mul_mod(0, y) == 0);
    }
}

pub proof fn lemma_mul_linear(c: Seq<nat>, l: nat, y: nat)
    ensures
        poly_value(mul_linear(c, l), y) == mul_mod(sub_mod(y, l), poly_value(c, y)),
    decreases c.len(),
{
    if c.len() > 0 {
        let c0 = c[0] as int;
        let c1 = c.drop_first();
        let r = mul_linear(c, l);
        let q1 = mul_linear(c1, l);
        assert(r.drop_first() =~= add_const(q1, c[0]));
        assert(r[0] == sub_mod(0, mul_mod(l, c[0])));
        lemma_mul_linear(c1, l, y);
        lemma_add_const(q1, c[0], y);
        let v1 = poly_value(c1, y) as int;
        let yl = y - l;
        let a = yl * v1;
        lemma_mod_congruences(yl, v1);
        let b = a + c0;
        lemma_mod_congruences(a, c0);
        let cc = b * y;
        lemma_mod_congruences(b, y as int);
        let d = 0 - l * c0;
        lemma_mod_congruences(0, l * c0);
        let dm = d % (group_order() as int);
        lemma_mod_congruences(cc, dm);
        lemma_mod_congruences(cc, d);
        let e = v1 * y + c0;
        lemma_mod_congruences(v1 * y, c0);
        let em = e % (group_order() as int);
        lemma_mod_congruences(yl, em);
        lemma_mod_congruences(yl, e);
        let m = group_order() as int;
        assert(sub_mod(y, l) as int == yl % m);
        assert(mul_mod(sub_mod(y, l), poly_value(c1, y)) as int == a % m);
        assert(poly_value(add_const(q1, c[0]), y) as int == b % m);
        assert(mul_mod(poly_value(add_const(q1, c[0]), y), y) as int == cc % m);
        assert(r[0] as int == d % m);
        assert(poly_value(r, y) as int == (cc + d) % m);
        assert(poly_value(c, y) as int == e % m);
        assert(mul_mod(sub_mod(y, l), poly_value(c, y)) as int == (yl * e) % m);
        assert(cc + d == yl * e) by (nonlinear_arith)
            requires
                cc == (yl * v1 + c0) * y,
                d == 0 - l * c0,
                e == v1 * y + c0,
                yl == y - l,
        ;
    } else {
        assert(poly_value(c, y) == 0);
        assert(mul_mod(sub_mod(y, l), 0) == 0);
    }
}

/// `a_1 + ... + a_m` modulo the group order.
pub open spec fn sum_mod(s: Seq<nat>) -> nat
    decreases s.len(),
{
    if s.len() == 0 {
        0
    } else {
        add_mod(sum_mod(s.drop_last()), s.last())
    }
}

pub proof fn lemma_sum_mod_bound(s: Seq<nat>)
    ensures
        sum_mod(s) < group_order(),
{
}

/// The sum of a concatenation is the sum of the sums.
pub proof fn lemma_sum_mod_concat(a: Seq<nat>, b: Seq<nat>)
    ensures
        sum_mod(a + b) == add_mod(sum_mod(a), sum_mod(b)),
    decreases b.len(),
{
    if b.len() == 0 {
        assert(a + b =~= a);
        lemma_sum_mod_bound(a);
        lemma_add_mod_zero(sum_mod(a));
    } else {
        assert((a + b).drop_last() =~= a + b.drop_last());
        lemma_sum_mod_concat(a, b.drop_last());
        lemma_add_mod_assoc_comm(sum_mod(a), sum_mod(b.drop_last()), b.last());
    }
}

/// A sum of termwise sums is the sum of the two sums.
pub proof fn lemma_sum_mod_add(f: Seq<nat>, g: Seq<nat>, h: Seq<nat>)
    requires
        f.len() == g.len(),
        h.len() == f.len(),
        forall|j: int| 0 <= j < h.len() ==> #[trigger] h[j] == add_mod(f[j], g[j]),
    ensures
        sum_mod(h) == add_mod(sum_mod(f), sum_mod(g)),
    decreases h.len(),
{
    if h.len() > 0 {
        lemma_sum_mod_add(f.drop_last(), g.drop_last(), h.drop_last());
        lemma_add_mod_swap(sum_mod(f.drop_last()), sum_mod(g.drop_last()), f.last(), g.last());
    }
}

/// A sum of termwise multiples is the multiple of the sum.
pub proof fn lemma_sum_mod_scale(f: Seq<nat>, c: nat, h: Seq<nat>)
    requires
        h.len() == f.len(),
        forall|j: int| 0 <= j < h.len() ==> #[trigger] h[j] == mul_mod(c, f[j]),
    ensures
        sum_mod(h) == mul_mod(c, sum_mod(f)),
    decreases h.len(),
{
    if h.len() > 0 {
        lemma_sum_mod_scale(f.drop_last(), c, h.drop_last());
        lemma_mul_mod_distrib(sum_mod(f.drop_last()), f.last(), c);
        lemma_mul_mod_comm(sum_mod(f), c);
        lemma_mul_mod_comm(sum_mod(f.drop_last()), c);
        lemma_mul_mod_comm(f.last(), c);
    } else {
        assert(mul_mod(c, 0) == 0);
    }
}

/// The quotient of `c(y) - c(a)` by `y - a`.
pub open spec fn div_linear(c: Seq<nat>, a: nat) -> Seq<nat>
    decreases c.len(),
{
    if c.len() <= 1 {
        Seq::empty()
    } else {
        seq![poly_value(c.drop_first(), a)] + div_linear(c.drop_first(), a)
    }
}

/// `c(y) = c(a) + (y - a)·q(y)` for the quotient `q`, which has one
/// coefficient less than `c`.
pub proof fn lemma_div_linear(c: Seq<nat>, a: nat, y: nat)
    ensures
        poly_value(c, y) == add_mod(
            poly_value(c, a),
            mul_mod(sub_mod(y, a), poly_value(div_linear(c, a), y)),
        ),
        c.len() > 0 ==> div_linear(c, a).len() == c.len() - 1,
        c.len() == 0 ==> div_linear(c, a).len() == 0,
    decreases c.len(),
{
    let m = group_order() as int;
    if c.len() <= 1 {
        assert(poly_value(div_linear(c, a), y) == 0);
        assert(mul_mod(sub_mod(y, a), 0) == 0);
        if c.len() == 1 {
            assert(c.drop_first() =~= Seq::<nat>::empty());
            assert(poly_value(c.drop_first(), y) == 0);
            assert(poly_value(c.drop_first(), a) == 0);
            assert(0nat * y == 0 && 0nat * a == 0) by (nonlinear_arith);
        }
        lemma_add_mod_zero(poly_value(c, a));
    } else {
        let c1 = c.drop_first();
        let r = div_linear(c, a);
        let r1 = div_linear(c1, a);
        assert(r.drop_first() =~= r1);
        lemma_div_linear(c1, a, y);
        let c0 = c[0] as int;
        let u = poly_value(c1, a) as int;
        let rr = poly_value(r1, y) as int;
        let ya = y - a;
        // c1(y) ≡ u + (y - a)·rr
        lemma_mod_congruences(ya, rr);
        lemma_mod_congruences(u, ya * rr);
        let c1y = u + ya * rr;
        assert(poly_value(c1, y) as int == c1y % m);
        // c(y) ≡ c1y·y + c0
        lemma_mod_congruences(c1y, y as int);
        lemma_mod_congruences(c1y * y, c0);
        assert(poly_value(c, y) as int == (c1y * y + c0) % m);
        // c(a) ≡ u·a + c0
        lemma_mod_congruences(u * a, c0);
        let ca = u * a + c0;
        assert(poly_value(c, a) as int == ca % m);
        // r(y) ≡ rr·y + u
        lemma_mod_congruences(rr * y, u);
        let ry = rr * y + u;
        assert(r[0] == poly_value(c1, a));
        assert(poly_value(r, y) as int == ry % m);
        lemma_mod_congruences(ya, ry);
        lemma_mod_congruences(ya, ry % m);
        lemma_mod_congruences(ca, ya * ry);
        lemma_mod_congruences(ca % m, ya * ry);
        assert(c1y * y + c0 == ca + ya * ry) by (nonlinear_arith)
            requires
                c1y == u + ya * rr,
                ca == u * a + c0,
                ry == rr * y + u,
                ya == y - a,
        ;
    }
}

/// `Π_{l ∈ s} (y - l)` modulo the group order.
pub open spec fn prod_diff(s: Seq<nat>, y: nat) -> nat
    decreases s.len(),
{
    if s.len() == 0 {
        1
    } else {
        mul_mod(prod_diff(s.drop_last(), y), sub_mod(y, s.last()))
    }
}

/// The coefficients of `Π_{l ∈ s} (y - l)`.
pub open spec fn vanishing(s: Seq<nat>) -> Seq<nat>
    decreases s.len(),
{
    if s.len() == 0 {
        seq![1]
    } else {
        mul_linear(vanishing(s.drop_last()), s.last())
    }
}

proof fn lemma_mul_linear_len(c: Seq<nat>, l: nat)
    ensures
        c.len() > 0 ==> mul_linear(c, l).len() == c.len() + 1,
    decreases c.len(),
{
    if c.len() > 0 {
        lemma_mul_linear_len(c.drop_first(), l);
        let q1 = mul_linear(c.drop_first(), l);
        assert(add_const(q1, c[0]).len() == if q1.len() == 0 { 1 } else { q1.len() });
    }
}

/// The vanishing polynomial of `s` has `|s| + 1` coefficients and evaluates
/// to `Π_{l ∈ s} (y - l)`.
pub proof fn lemma_vanishing(s: Seq<nat>, y: nat)
    ensures
        vanishing(s).len() == s.len() + 1,
        poly_value(vanishing(s), y) == prod_diff(s, y),
    decreases s.len(),
{
    if s.len() == 0 {
        let v = vanishing(s);
        assert(v.drop_first() =~= Seq::<nat>::empty());
        assert(poly_value(v.drop_first(), y) == 0);
        assert(mul_mod(0, y) == 0);
    } else {
        lemma_vanishing(s.drop_last(), y);
        lemma_mul_linear_len(vanishing(s.drop_last()), s.last());
        lemma_mul_linear(vanishing(s.drop_last()), s.last(), y);
        lemma_mul_mod_comm(prod_diff(s.drop_last(), y), sub_mod(y, s.last()));
    }
}

/// The product `Π_{l ∈ s} (k - l)` vanishes at a node `k` of `s`.
pub proof fn lemma_prod_diff_at_node(s: Seq<nat>, j: int)
    requires
        0 <= j < s.len(),
        s[j] < group_order(),
    ensures
        prod_diff(s, s[j]) == 0,
    decreases s.len(),
{
    let k = s[j];
    if j == s.len() - 1 {
        assert(sub_mod(k, k) == 0);
        assert(mul_mod(prod_diff(s.drop_last(), k), 0) == 0);
    } else {
        lemma_prod_diff_at_node(s.drop_last(), j);
        assert(mul_mod(0, sub_mod(k, s.last())) == 0);
    }
}

/// Every difference of two nodes has an inverse modulo the group order.
pub open spec fn pairwise_invertible(s: Seq<nat>) -> bool {
    forall|j: int, k: int|
        0 <= j < s.len() && 0 <= k < s.len() && j != k ==> #[trigger] invertible(
            sub_mod(s[j], s[k]),
        )
}

/// Two distinct values below `2^16` have an invertible difference, when the
/// group order has no divisor below `2^16`.
pub proof fn lemma_small_difference_invertible(a: nat, b: nat)
    requires
        no_small_factor(),
        a < 0x10000,
        b < 0x10000,
        a != b,
    ensures
        invertible(sub_mod(a, b)),
{
    if a > b {
        lemma_small_invertible((a - b) as nat);
    } else {
        lemma_small_invertible((b - a) as nat);
        lemma_neg_invertible((b - a) as nat);
        assert(sub_mod(a, b) == sub_mod(0, (b - a) as nat));
    }
}

/// Distinct nodes below `2^16` have invertible pairwise differences, when
/// the group order has no divisor below `2^16`.
pub proof fn lemma_small_pairwise_invertible(s: Seq<nat>)
    requires
        no_small_factor(),
        distinct_nodes(s),
        forall|j: int| 0 <= j < s.len() ==> #[trigger] s[j] < 0x10000,
    ensures
        pairwise_invertible(s),
{
    assert forall|j: int, k: int|
        0 <= j < s.len() && 0 <= k < s.len() && j != k implies #[trigger] invertible(
        sub_mod(s[j], s[k]),
    ) by {
        lemma_small_difference_invertible(s[j], s[k]);
    }
}

/// When every node's differences to the other nodes are invertible, all
/// pairwise differences of distinct nodes are.
pub proof fn lemma_pairwise_from_rows(s: Seq<nat>)
    requires
        distinct_nodes(s),
        forall|k: int| 0 <= k < s.len() ==> differences_invertible(s, #[trigger] s[k]),
    ensures
        pairwise_invertible(s),
{
    assert forall|j: int, k: int|
        0 <= j < s.len() && 0 <= k < s.len() && j != k implies #[trigger] invertible(
        sub_mod(s[j], s[k]),
    ) by {
        assert(differences_invertible(s, s[j]));
        assert(s[k] != s[j]);
    }
}

/// A product of invertible factors is invertible.
pub proof fn lemma_mul_invertible(a: nat, b: nat)
    requires
        invertible(a),
        invertible(b),
    ensures
        invertible(mul_mod(a, b)),
{
    lemma_invertible(a);
    lemma_invertible(b);
    let (ia, ib) = (inv_mod(a), inv_mod(b));
    let w = mul_mod(ia, ib);
    // (a·b)·(ia·ib) ≡ (a·ia)·(b·ib) ≡ 1
    lemma_rearrange4(a, b, ia, ib);
    lemma_mul_mod_assoc(a, b, w);
    lemma_mul_mod_assoc(b, ia, ib);
    lemma_mul_mod_comm(b, ia);
    lemma_mul_mod_assoc(ia, b, ib);
    lemma_mul_mod_assoc(a, ia, mul_mod(b, ib));
    lemma_mul_mod_one(1);
    assert(mul_mod(mul_mod(a, b), w) == 1);
}

/// `Π_{l ∈ s} (a - l)` is invertible when each factor is.
pub proof fn lemma_prod_diff_invertible(s: Seq<nat>, a: nat)
    requires
        forall|j: int| 0 <= j < s.len() ==> #[trigger] invertible(sub_mod(a, s[j])),
    ensures
        invertible(prod_diff(s, a)),
    decreases s.len(),
{
    if s.len() == 0 {
        lemma_mul_mod_one(1);
        assert(mul_mod(1, 1) == 1);
    } else {
        assert(s[s.len() - 1] == s.last());
        lemma_prod_diff_invertible(s.drop_last(), a);
        lemma_mul_invertible(prod_diff(s.drop_last(), a), sub_mod(a, s.last()));
    }
}

/// The distinct values below the group order.
pub open spec fn distinct_nodes(s: Seq<nat>) -> bool {
    &&& forall|j: int| 0 <= j < s.len() ==> #[trigger] s[j] < group_order()
    &&& forall|j: int, k: int| 0 <= j < s.len() && 0 <= k < s.len() && j != k ==> s[j] != s[k]
}

/// Equality modulo the group order.
pub open spec fn cong(a: int, b: int) -> bool {
    a % (group_order() as int) == b % (group_order() as int)
}

/// Congruence is kept by adding or multiplying the same integer.
pub proof fn lemma_cong_ops(a: int, b: int, c: int)
    requires
        cong(a, b),
    ensures
        cong(a + c, b + c),
        cong(c + a, c + b),
        cong(a - c, b - c),
        cong(c - a, c - b),
        cong(a * c, b * c),
        cong(c * a, c * b),
{
    let m = group_order() as int;
    lemma_mod_congruences(a, c);
    lemma_mod_congruences(b, c);
    lemma_mod_congruences(c, a);
    lemma_mod_congruences(c, b);
}

/// A value below the group order is its own residue.
pub proof fn lemma_cong_small(a: nat)
    requires
        a < group_order(),
    ensures
        (a as int) % (group_order() as int) == a,
{
}

/// The value of `k - a` times the quotient of the vanishing polynomial at a
/// node `k` determines the inverse of `k - a`.
proof fn lemma_inverse_at_node(d: nat, inv_d: nat, e: nat, inv_e: nat, hk: nat)
    requires
        inv_e < group_order(),
        mul_mod(d, inv_d) == 1,
        mul_mod(e, inv_e) == 1,
        add_mod(d, mul_mod(e, hk)) == 0,
    ensures
        inv_e == mul_mod(sub_mod(0, inv_d), hk),
{
    let m = group_order() as int;
    let (di, idi, ei, iei, hi) = (d as int, inv_d as int, e as int, inv_e as int, hk as int);
    let big_e = ei * hi;
    lemma_mod_congruences(di, big_e);
    assert(cong(di + big_e, 0));
    lemma_cong_ops(di + big_e, 0, big_e);
    assert(cong(di, -big_e));
    assert(cong(di * idi, 1));
    lemma_cong_ops(di * idi, 1, iei);
    assert(cong(iei, iei * (di * idi)));
    lemma_cong_ops(di, -big_e, iei * idi);
    assert(iei * (di * idi) == (iei * idi) * di) by (nonlinear_arith);
    assert((iei * idi) * (-big_e) == -(ei * iei) * (hi * idi)) by (nonlinear_arith)
        requires
            big_e == ei * hi,
    ;
    assert(cong(ei * iei, 1));
    lemma_cong_ops(ei * iei, 1, -(hi * idi));
    assert(-(ei * iei) * (hi * idi) == (ei * iei) * (-(hi * idi))) by (nonlinear_arith);
    assert(1 * (-(hi * idi)) == (0 - idi) * hi) by (nonlinear_arith);
    lemma_mod_congruences(0 - idi, hi);
    lemma_cong_small(inv_e);
}

/// `λ_a(x)·Π_{l ∈ s} (a - l) = Π_{l ∈ s} (x - l)` for a point `a` that is no
/// node of `s`.
pub proof fn lemma_lagrange_times_prod(s: Seq<nat>, a: nat, x: nat)
    requires
        forall|j: int| 0 <= j < s.len() ==> #[trigger] s[j] != a && invertible(sub_mod(a, s[j])),
    ensures
        mul_mod(lagrange_value(s, a, x), prod_diff(s, a)) == prod_diff(s, x),
    decreases s.len(),
{
    let m = group_order() as int;
    if s.len() == 0 {
        assert(mul_mod(1, 1) == 1);
    } else {
        let s1 = s.drop_last();
        let l = s.last();
        assert(s[s.len() - 1] == l);
        lemma_lagrange_times_prod(s1, a, x);
        let d = sub_mod(a, l);
        let id = inv_mod(d);
        lemma_invertible(d);
        lemma_prod_step(
            lagrange_value(s1, a, x),
            sub_mod(x, l),
            id,
            prod_diff(s1, a),
            d,
            prod_diff(s1, x),
        );
    }
}

/// `(A·(X·I))·(P·D) ≡ (A·P)·X` when `D·I ≡ 1`.
proof fn lemma_prod_step(a: nat, x: nat, i: nat, p: nat, d: nat, q: nat)
    requires
        mul_mod(d, i) == 1,
        mul_mod(a, p) == q,
    ensures
        mul_mod(mul_mod(a, mul_mod(x, i)), mul_mod(p, d)) == mul_mod(q, x),
{
    let m = group_order() as int;
    let (ai, xi, ii, pi, di, q1) = (a as int, x as int, i as int, p as int, d as int, q as int);
    lemma_mod_congruences(ai, xi * ii);
    let e1 = ai * ((xi * ii) % m);
    let lhs = ((e1 % m) * ((pi * di) % m)) % m;
    lemma_mod_congruences(e1 % m, pi * di);
    lemma_mod_congruences(e1, pi * di);
    assert(cong(e1, ai * (xi * ii)));
    lemma_cong_ops(e1, ai * (xi * ii), pi * di);
    assert((ai * (xi * ii)) * (pi * di) == ((ai * pi) * xi) * (di * ii)) by (nonlinear_arith);
    assert(cong(di * ii, 1));
    lemma_cong_ops(di * ii, 1, (ai * pi) * xi);
    assert(cong(ai * pi, q1));
    lemma_cong_ops(ai * pi, q1, xi);
    assert(lhs == (q1 * xi) % m);
}

/// `L·(X·(N·H)) ≡ (X·N)·(L·H)`.
proof fn lemma_rearrange4(l: nat, x: nat, n: nat, h: nat)
    ensures
        mul_mod(l, mul_mod(x, mul_mod(n, h))) == mul_mod(mul_mod(x, n), mul_mod(l, h)),
{
    let (li, xi, ni, hi) = (l as int, x as int, n as int, h as int);
    let m = group_order() as int;
    lemma_mod_congruences(ni, hi);
    lemma_mod_congruences(xi, ni * hi);
    lemma_mod_congruences(xi, (ni * hi) % m);
    lemma_mod_congruences(li, xi * (ni * hi));
    lemma_mod_congruences(li, (xi * ((ni * hi) % m)) % m);
    lemma_cong_ops(xi * ((ni * hi) % m), xi * (ni * hi), li);
    lemma_mod_congruences(xi, ni);
    lemma_mod_congruences(li, hi);
    lemma_mod_congruences((xi * ni) % m, li * hi);
    lemma_mod_congruences(xi * ni, li * hi);
    assert(li * (xi * (ni * hi)) == (xi * ni) * (li * hi)) by (nonlinear_arith);
}

/// Congruences may be added and multiplied.
pub proof fn lemma_cong_both(a: int, b: int, c: int, d: int)
    requires
        cong(a, b),
        cong(c, d),
    ensures
        cong(a + c, b + d),
        cong(a * c, b * d),
        cong(a - c, b - d),
{
    lemma_cong_ops(a, b, c);
    lemma_cong_ops(c, d, b);
}

/// The residue of a value modulo the group order, as an integer.
proof fn lemma_ops_cong(a: nat, b: nat)
    ensures
        cong(mul_mod(a, b) as int, (a as int) * (b as int)),
        cong(add_mod(a, b) as int, (a as int) + (b as int)),
        cong(sub_mod(a, b) as int, (a as int) - (b as int)),
{
    let m = group_order() as int;
    vstd::arithmetic::div_mod::lemma_mod_twice((a as int) * (b as int), m);
    vstd::arithmetic::div_mod::lemma_mod_twice((a as int) + (b as int), m);
    vstd::arithmetic::div_mod::lemma_mod_twice((a as int) - (b as int), m);
}

/// `(X·(-I))·H + L ≡ 1` when `D·I ≡ 1`, `L·D ≡ V` and `V ≡ D + X·H`.
proof fn lemma_unity_arith(x: nat, inv_d: nat, hx: nat, la: nat, d: nat, vx: nat)
    requires
        mul_mod(d, inv_d) == 1,
        mul_mod(la, d) == vx,
        vx == add_mod(d, mul_mod(x, hx)),
        la < group_order(),
    ensures
        add_mod(mul_mod(mul_mod(x, sub_mod(0, inv_d)), hx), la) == 1,
{
    let (xi, ii, hi, li, di, vi) = (x as int, inv_d as int, hx as int, la as int, d as int, vx as int);
    let ni = sub_mod(0, inv_d) as int;
    let ci = mul_mod(x, sub_mod(0, inv_d)) as int;
    let ti = mul_mod(mul_mod(x, sub_mod(0, inv_d)), hx) as int;
    let yi = mul_mod(x, hx) as int;
    lemma_ops_cong(0, inv_d);
    lemma_ops_cong(x, sub_mod(0, inv_d));
    lemma_ops_cong(mul_mod(x, sub_mod(0, inv_d)), hx);
    lemma_ops_cong(x, hx);
    lemma_ops_cong(d, mul_mod(x, hx));
    lemma_ops_cong(la, d);
    lemma_ops_cong(d, inv_d);
    lemma_ops_cong(add_mod(mul_mod(mul_mod(x, sub_mod(0, inv_d)), hx), la), 0);
    lemma_ops_cong(mul_mod(mul_mod(x, sub_mod(0, inv_d)), hx), la);
    // t ≡ -(I·(X·H))
    assert(cong(ni, 0 - ii));
    lemma_cong_both(xi, xi, ni, 0 - ii);
    assert(cong(ci, xi * (0 - ii)));
    lemma_cong_both(ci, xi * (0 - ii), hi, hi);
    assert(cong(ti, xi * (0 - ii) * hi));
    // X·H ≡ V - D
    assert(cong(vi, di + yi));
    assert(cong(yi, xi * hi));
    lemma_cong_both(vi, di + yi, di, di);
    assert(cong(vi - di, yi)) by {
        assert(di + yi - di == yi);
    }
    lemma_cong_both(0 - ii, 0 - ii, xi * hi, vi - di);
    assert(xi * (0 - ii) * hi == (0 - ii) * (xi * hi)) by (nonlinear_arith);
    assert(cong(ti, (0 - ii) * (vi - di)));
    // L ≡ V·I
    assert(cong(li * di, vi));
    lemma_cong_both(li * di, vi, ii, ii);
    assert(cong(di * ii, 1));
    lemma_cong_both(li, li, di * ii, 1);
    assert(li * (di * ii) == (li * di) * ii) by (nonlinear_arith);
    assert(cong(li, vi * ii));
    // T + L ≡ 1
    lemma_cong_both(ti, (0 - ii) * (vi - di), li, vi * ii);
    assert((0 - ii) * (vi - di) + vi * ii == di * ii) by (nonlinear_arith);
    assert(cong(ti + li, 1));
}

/// `(L·(X·I))·(C + E·R) ≡ C·(L·(X·I)) + X·(L·R)` when `E·I ≡ 1`.
proof fn lemma_term_split(l: nat, x: nat, ie: nat, e: nat, ca: nat, rk: nat)
    requires
        mul_mod(e, ie) == 1,
    ensures
        mul_mod(mul_mod(l, mul_mod(x, ie)), add_mod(ca, mul_mod(e, rk))) == add_mod(
            mul_mod(ca, mul_mod(l, mul_mod(x, ie))),
            mul_mod(x, mul_mod(l, rk)),
        ),
{
    let (li, xi, ii, ei, ci, ri) = (l as int, x as int, ie as int, e as int, ca as int, rk as int);
    let u = mul_mod(l, mul_mod(x, ie));
    let ui = u as int;
    let w = add_mod(ca, mul_mod(e, rk));
    lemma_ops_cong(x, ie);
    lemma_ops_cong(l, mul_mod(x, ie));
    lemma_ops_cong(e, rk);
    lemma_ops_cong(ca, mul_mod(e, rk));
    lemma_ops_cong(u, w);
    lemma_ops_cong(ca, u);
    lemma_ops_cong(l, rk);
    lemma_ops_cong(x, mul_mod(l, rk));
    lemma_ops_cong(mul_mod(ca, u), mul_mod(x, mul_mod(l, rk)));
    lemma_ops_cong(e, ie);
    // u ≡ L·X·I and w ≡ C + E·R
    lemma_cong_both(li, li, mul_mod(x, ie) as int, xi * ii);
    assert(cong(ui, li * (xi * ii)));
    lemma_cong_both(ci, ci, mul_mod(e, rk) as int, ei * ri);
    assert(cong(w as int, ci + ei * ri));
    lemma_cong_both(ui, li * (xi * ii), w as int, ci + ei * ri);
    // L·X·I·(C + E·R) = C·(L·X·I) + X·L·R·(E·I)
    assert(li * (xi * ii) * (ci + ei * ri) == ci * (li * (xi * ii)) + (xi * (li * ri)) * (ei * ii))
        by (nonlinear_arith);
    assert(cong(ei * ii, 1));
    lemma_cong_both(xi * (li * ri), xi * (li * ri), ei * ii, 1);
    lemma_cong_both(ci * (li * (xi * ii)), ci * (li * (xi * ii)), (xi * (li * ri)) * (ei * ii), xi * (li * ri));
    // the right side
    lemma_cong_both(ci, ci, ui, li * (xi * ii));
    lemma_cong_both(xi, xi, mul_mod(l, rk) as int, li * ri);
    lemma_cong_both(
        mul_mod(ca, u) as int,
        ci * (li * (xi * ii)),
        mul_mod(x, mul_mod(l, rk)) as int,
        xi * (li * ri),
    );
}

/// `C·S + X·R + U·C ≡ C + X·R` when `S + U ≡ 1`.
proof fn lemma_interp_arith(ca: nat, su: nat, ul: nat, x: nat, rx: nat)
    requires
        add_mod(su, ul) == 1,
        ca < group_order(),
    ensures
        add_mod(add_mod(mul_mod(ca, su), mul_mod(x, rx)), mul_mod(ul, ca)) == add_mod(
            ca,
            mul_mod(x, rx),
        ),
{
    let (ci, si, ui, xi, ri) = (ca as int, su as int, ul as int, x as int, rx as int);
    lemma_ops_cong(ca, su);
    lemma_ops_cong(x, rx);
    lemma_ops_cong(ul, ca);
    lemma_ops_cong(mul_mod(ca, su), mul_mod(x, rx));
    lemma_ops_cong(add_mod(mul_mod(ca, su), mul_mod(x, rx)), mul_mod(ul, ca));
    lemma_ops_cong(ca, mul_mod(x, rx));
    lemma_ops_cong(su, ul);
    lemma_cong_both(mul_mod(ca, su) as int, ci * si, mul_mod(x, rx) as int, xi * ri);
    lemma_cong_both(
        add_mod(mul_mod(ca, su), mul_mod(x, rx)) as int,
        ci * si + xi * ri,
        mul_mod(ul, ca) as int,
        ui * ci,
    );
    assert(ci * si + xi * ri + ui * ci == ci * (si + ui) + xi * ri) by (nonlinear_arith);
    assert(cong(si + ui, 1));
    lemma_cong_both(ci, ci, si + ui, 1);
    lemma_cong_both(ci * (si + ui), ci, xi * ri, xi * ri);
    lemma_cong_both(ci, ci, mul_mod(x, rx) as int, xi * ri);
}

/// The Lagrange coefficients `λ_{s_j}(x)` of all nodes.
pub open spec fn lagrange_coefficients(s: Seq<nat>, x: nat) -> Seq<nat> {
    Seq::new(s.len(), |j: int| lagrange_value(s, s[j], x))
}

/// The values of a polynomial at the nodes.
pub open spec fn node_values(c: Seq<nat>, s: Seq<nat>) -> Seq<nat> {
    Seq::new(s.len(), |j: int| poly_value(c, s[j]))
}

/// The terms `λ_{s_j}(x)·v_j` of Lagrange interpolation.
pub open spec fn lagrange_terms(s: Seq<nat>, vals: Seq<nat>, x: nat) -> Seq<nat> {
    Seq::new(s.len(), |j: int| mul_mod(lagrange_value(s, s[j], x), vals[j]))
}

/// Removing the last node keeps the others distinct, and the last node is
/// none of them.
proof fn lemma_distinct_drop_last(s: Seq<nat>)
    requires
        distinct_nodes(s),
        s.len() > 0,
    ensures
        distinct_nodes(s.drop_last()),
        forall|j: int|
            0 <= j < s.len() - 1 ==> #[trigger] s.drop_last()[j] < group_order()
                && s.drop_last()[j] != s.last(),
        s.last() < group_order(),
{
    assert(s[s.len() - 1] == s.last());
    assert forall|j: int| 0 <= j < s.len() - 1 implies #[trigger] s.drop_last()[j] < group_order()
        && s.drop_last()[j] != s.last() by {
        assert(s.drop_last()[j] == s[j]);
    }
}

/// `λ^s_{s_j}(x) = λ^{s'}_{s_j}(x)·(x - a)·(s_j - a)^{-1}` for the nodes
/// `s'` before the last node `a`, and `λ^s_a = λ^{s'}_a`.
proof fn lemma_lagrange_last(s: Seq<nat>, x: nat)
    requires
        distinct_nodes(s),
        s.len() > 0,
    ensures
        forall|j: int|
            0 <= j < s.len() - 1 ==> #[trigger] lagrange_value(s, s[j], x) == mul_mod(
                lagrange_value(s.drop_last(), s[j], x),
                mul_mod(sub_mod(x, s.last()), inv_mod(sub_mod(s[j], s.last()))),
            ),
        lagrange_value(s, s.last(), x) == lagrange_value(s.drop_last(), s.last(), x),
{
    assert(s[s.len() - 1] == s.last());
}

/// The Lagrange coefficients at `m` distinct nodes add up to one.
pub proof fn lemma_partition_of_unity(s: Seq<nat>, x: nat)
    requires
        pairwise_invertible(s),
        distinct_nodes(s),
        x < group_order(),
        s.len() > 0,
    ensures
        sum_mod(lagrange_coefficients(s, x)) == 1,
    decreases s.len(), 0nat,
{
    let n = s.len();
    let s1 = s.drop_last();
    let a = s.last();
    lemma_distinct_drop_last(s);
    lemma_lagrange_last(s, x);
    let v = vanishing(s1);
    let h = div_linear(v, a);
    lemma_vanishing(s1, a);
    lemma_vanishing(s1, x);
    lemma_div_linear(v, a, x);
    lemma_interpolation(s1, h, x);
    let d = prod_diff(s1, a);
    assert forall|j: int| 0 <= j < s1.len() implies #[trigger] invertible(sub_mod(a, s1[j])) by {
        assert(invertible(sub_mod(s[n - 1], s[j])));
    }
    lemma_prod_diff_invertible(s1, a);
    let id = inv_mod(d);
    lemma_invertible(d);
    let xa = sub_mod(x, a);
    let cst = mul_mod(xa, sub_mod(0, id));
    let terms1 = lagrange_terms(s1, node_values(h, s1), x);
    let coeffs = lagrange_coefficients(s, x);
    assert forall|j: int| 0 <= j < n - 1 implies #[trigger] coeffs.drop_last()[j] == mul_mod(
        cst,
        terms1[j],
    ) by {
        let k = s[j];
        assert(s1[j] == k);
        let e = sub_mod(k, a);
        assert(invertible(sub_mod(s[j], s[n - 1])));
        lemma_invertible(e);
        let ie = inv_mod(e);
        let hk = poly_value(h, k);
        lemma_vanishing(s1, k);
        lemma_prod_diff_at_node(s1, j);
        lemma_div_linear(v, a, k);
        lemma_inverse_at_node(d, id, e, ie, hk);
        lemma_rearrange4(lagrange_value(s1, k, x), xa, sub_mod(0, id), hk);
    }
    lemma_sum_mod_scale(terms1, cst, coeffs.drop_last());
    let la = lagrange_value(s1, a, x);
    lemma_lagrange_times_prod(s1, a, x);
    assert(coeffs.last() == la);
    lemma_unity_arith(xa, id, poly_value(h, x), la, d, prod_diff(s1, x));
}

/// Lagrange interpolation: at `m` distinct nodes, the Lagrange terms of the
/// values of a polynomial with at most `m` coefficients add up to its value
/// at `x`.
pub proof fn lemma_interpolation(s: Seq<nat>, c: Seq<nat>, x: nat)
    requires
        pairwise_invertible(s),
        distinct_nodes(s),
        x < group_order(),
        c.len() <= s.len(),
    ensures
        sum_mod(lagrange_terms(s, node_values(c, s), x)) == poly_value(c, x),
    decreases s.len(), 1nat,
{
    let n = s.len();
    if n == 0 {
        assert(c =~= Seq::<nat>::empty());
    } else {
        lemma_partition_of_unity(s, x);
        let s1 = s.drop_last();
        let a = s.last();
        lemma_distinct_drop_last(s);
        lemma_lagrange_last(s, x);
        let r = div_linear(c, a);
        lemma_div_linear(c, a, x);
        lemma_interpolation(s1, r, x);
        let u = lagrange_coefficients(s, x);
        let ca = poly_value(c, a);
        let xa = sub_mod(x, a);
        let terms = lagrange_terms(s, node_values(c, s), x);
        let tr = lagrange_terms(s1, node_values(r, s1), x);
        let f = Seq::new((n - 1) as nat, |j: int| mul_mod(ca, u[j]));
        let g = Seq::new((n - 1) as nat, |j: int| mul_mod(xa, tr[j]));
        assert forall|j: int| 0 <= j < n - 1 implies #[trigger] terms.drop_last()[j] == add_mod(
            f[j],
            g[j],
        ) by {
            let k = s[j];
            assert(s1[j] == k);
            let e = sub_mod(k, a);
            assert(invertible(sub_mod(s[j], s[n - 1])));
            lemma_invertible(e);
            let ie = inv_mod(e);
            lemma_div_linear(c, a, k);
            lemma_term_split(lagrange_value(s1, k, x), xa, ie, e, ca, poly_value(r, k));
        }
        lemma_sum_mod_add(f, g, terms.drop_last());
        lemma_sum_mod_scale(u.drop_last(), ca, f);
        lemma_sum_mod_scale(tr, xa, g);
        assert(terms.last() == mul_mod(u.last(), ca));
        lemma_interp_arith(ca, sum_mod(u.drop_last()), u.last(), xa, poly_value(r, x));
    }
}

/// The factor that node `l` contributes to `λ_k(x)`: `(x - l)·(k - l)^{-1}`,
/// or one for `l = k`.
pub open spec fn lagrange_factor(k: nat, x: nat, l: nat) -> nat {
    if l == k {
        1
    } else {
        mul_mod(sub_mod(x, l), inv_mod(sub_mod(k, l)))
    }
}

/// The nodes other than `k`, in their order.
pub open spec fn other_nodes(s: Seq<nat>, k: nat) -> Seq<nat> {
    s.filter(|l: nat| l != k)
}

proof fn lemma_lagrange_value_bound(s: Seq<nat>, k: nat, x: nat)
    ensures
        lagrange_value(s, k, x) < group_order(),
    decreases s.len(),
{
    if s.len() > 0 {
        lemma_lagrange_value_bound(s.drop_last(), k, x);
    }
}

/// `λ_k(x)` over `s` is its value over all but the last node times the last
/// node's factor.
proof fn lemma_lagrange_step(s: Seq<nat>, k: nat, x: nat)
    requires
        s.len() > 0,
    ensures
        lagrange_value(s, k, x) == mul_mod(
            lagrange_value(s.drop_last(), k, x),
            lagrange_factor(k, x, s.last()),
        ),
{
    lemma_lagrange_value_bound(s.drop_last(), k, x);
    lemma_mul_mod_one(lagrange_value(s.drop_last(), k, x));
}

/// Taking any one node out of `s` divides `λ_k(x)` by that node's factor.
proof fn lemma_lagrange_remove(s: Seq<nat>, k: nat, x: nat, p: int)
    requires
        0 <= p < s.len(),
    ensures
        lagrange_value(s, k, x) == mul_mod(lagrange_value(s.remove(p), k, x), lagrange_factor(k, x, s[p])),
    decreases s.len(),
{
    lemma_lagrange_step(s, k, x);
    if p == s.len() - 1 {
        assert(s.remove(p) =~= s.drop_last());
    } else {
        let s1 = s.drop_last();
        let r = s.remove(p);
        lemma_lagrange_remove(s1, k, x, p);
        assert(r.drop_last() =~= s1.remove(p));
        assert(r.last() == s.last());
        assert(s1[p] == s[p]);
        lemma_lagrange_step(r, k, x);
        let a = lagrange_value(s1.remove(p), k, x);
        let fp = lagrange_factor(k, x, s[p]);
        let fl = lagrange_factor(k, x, s.last());
        lemma_mul_mod_assoc(a, fp, fl);
        lemma_mul_mod_assoc(a, fl, fp);
        lemma_mul_mod_comm(fp, fl);
    }
}

/// `λ_k(x)` does not depend on the order of the nodes: any rearrangement of
/// them gives the same coefficient.
pub proof fn lemma_lagrange_permutation(s: Seq<nat>, s2: Seq<nat>, k: nat, x: nat)
    requires
        s.to_multiset() == s2.to_multiset(),
    ensures
        lagrange_value(s2, k, x) == lagrange_value(s, k, x),
    decreases s2.len(),
{
    broadcast use vstd::seq_lib::group_to_multiset_ensures;
    broadcast use vstd::multiset::group_multiset_axioms;

    if s2.len() == 0 {
        vstd::seq_lib::to_multiset_len(s);
        vstd::seq_lib::to_multiset_len(s2);
        assert(s.len() == 0);
        assert(s =~= s2);
    } else {
        let e = s2.last();
        let t2 = s2.drop_last();
        assert(s2 =~= t2.push(e));
        assert(s2.to_multiset() == t2.to_multiset().insert(e));
        assert(s.to_multiset().count(e) > 0);
        assert(s.contains(e));
        let p = choose|p: int| 0 <= p < s.len() && s[p] == e;
        assert(s.remove(p).to_multiset() == s.to_multiset().remove(e));
        assert(t2.to_multiset() =~= s.remove(p).to_multiset());
        lemma_lagrange_permutation(s.remove(p), t2, k, x);
        lemma_lagrange_remove(s, k, x, p);
        lemma_lagrange_step(s2, k, x);
    }
}

/// Leaving out the nodes equal to `k` does not change `λ_k(x)`, and the
/// nodes left have invertible differences to `k` when all of `s` has.
proof fn lemma_lagrange_other_nodes(s: Seq<nat>, k: nat, x: nat)
    requires
        differences_invertible(s, k),
    ensures
        lagrange_value(s, k, x) == lagrange_value(other_nodes(s, k), k, x),
        forall|j: int|
            0 <= j < other_nodes(s, k).len() ==> #[trigger] other_nodes(s, k)[j] != k
                && invertible(sub_mod(k, other_nodes(s, k)[j])),
    decreases s.len(),
{
    if s.len() > 0 {
        let s1 = s.drop_last();
        assert(differences_invertible(s1, k)) by {
            assert forall|j: int| 0 <= j < s1.len() && s1[j] != k implies #[trigger] invertible(
                sub_mod(k, s1[j]),
            ) by {
                assert(s1[j] == s[j]);
            }
        }
        lemma_lagrange_other_nodes(s1, k, x);
        let f = other_nodes(s, k);
        let f1 = other_nodes(s1, k);
        reveal(Seq::filter);
        assert(s[s.len() - 1] == s.last());
        if s.last() != k {
            assert(f == f1.push(s.last()));
            assert(f.drop_last() =~= f1);
            assert forall|j: int| 0 <= j < f.len() implies #[trigger] f[j] != k && invertible(
                sub_mod(k, f[j]),
            ) by {
                if j < f1.len() {
                    assert(f[j] == f1[j]);
                }
            }
        } else {
            assert(f == f1);
        }
    }
}

/// With invertible differences, `λ_k(x)` is the product of the `x - l`
/// divided by the product of the `k - l`, over the nodes `l ≠ k`: the form in
/// which `generic_ec_zkp::polynomial::lagrange_coefficient` computes it.
pub proof fn lemma_lagrange_ratio(s: Seq<nat>, k: nat, x: nat)
    requires
        differences_invertible(s, k),
    ensures
        lagrange_value(s, k, x) == mul_mod(
            prod_diff(other_nodes(s, k), x),
            inv_mod(prod_diff(other_nodes(s, k), k)),
        ),
{
    let f = other_nodes(s, k);
    lemma_lagrange_other_nodes(s, k, x);
    lemma_lagrange_times_prod(f, k, x);
    lemma_prod_diff_invertible(f, k);
    let v = lagrange_value(f, k, x);
    let d = prod_diff(f, k);
    lemma_invertible(d);
    lemma_lagrange_value_bound(f, k, x);
    // v = v·(d·d^{-1}) = (v·d)·d^{-1}
    lemma_mul_mod_assoc(v, d, inv_mod(d));
    lemma_mul_mod_one(v);
}

} // verus!
