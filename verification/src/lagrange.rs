//! Polynomial evaluation and Lagrange coefficients modulo the group order.
use vstd::prelude::*;

use crate::error::InternalErr;
use crate::interpolation::{lemma_lagrange_ratio, other_nodes, prod_diff};
use crate::scalar::{
    add_mod, group_order, inv_mod, invertible, lemma_inv_mod, lemma_sub_mod_zero, mul_mod, sub_mod,
    Scalar,
};

verus! {

/// The values of a list of scalars.
pub open spec fn scalars_view(s: Seq<Scalar>) -> Seq<nat> {
    s.map_values(|x: Scalar| x@)
}

/// `c_0 + c_1·x + ... + c_d·x^d` modulo the group order, in Horner form.
pub open spec fn poly_value(coefs: Seq<nat>, x: nat) -> nat
    decreases coefs.len(),
{
    if coefs.len() == 0 {
        0
    } else {
        add_mod(mul_mod(poly_value(coefs.drop_first(), x), x), coefs[0])
    }
}

/// `Π_{l ∈ s, l ≠ k} (x - l)·(k - l)^{-1}` modulo the group order, taken in
/// the order of `s`.
pub open spec fn lagrange_value(s: Seq<nat>, k: nat, x: nat) -> nat
    decreases s.len(),
{
    if s.len() == 0 {
        1
    } else {
        let rest = lagrange_value(s.drop_last(), k, x);
        let l = s.last();
        if l == k {
            rest
        } else {
            mul_mod(rest, mul_mod(sub_mod(x, l), inv_mod(sub_mod(k, l))))
        }
    }
}

/// Every difference `k - l`, for `l` in `s` other than `k`, is invertible.
pub open spec fn differences_invertible(s: Seq<nat>, k: nat) -> bool {
    forall|j: int| 0 <= j < s.len() && s[j] != k ==> #[trigger] invertible(sub_mod(k, s[j]))
}

/// The value at `x` of the polynomial with coefficients `coefs` (constant
/// term first).
pub fn poly_eval(coefs: &Vec<Scalar>, x: &Scalar) -> (v: Scalar)
    ensures
        v@ == poly_value(scalars_view(coefs@), x@),
{
    let ghost cs = scalars_view(coefs@);
    let mut acc = Scalar::zero();
    let mut k: usize = coefs.len();
    assert(cs.skip(k as int) =~= Seq::<nat>::empty());
    while k > 0
        invariant
            0 <= k <= coefs@.len(),
            cs == scalars_view(coefs@),
            acc@ == poly_value(cs.skip(k as int), x@),
        decreases k,
    {
        k = k - 1;
        assert(cs.skip(k as int).drop_first() =~= cs.skip(k + 1));
        assert(cs.skip(k as int)[0] == coefs@[k as int]@);
        acc = acc.mul(x).add(&coefs[k]);
    }
    assert(cs.skip(0) =~= cs);
    acc
}

/// The Lagrange coefficient `Π_{l ∈ s, l ≠ k} (x - l)·(k - l)^{-1}`.
///
/// The inverse of `k - l` always exists, as `k ≠ l` modulo the group order.
/// The coefficient is also the product of the `x - l` divided by the product
/// of the `k - l`, over the nodes `l ≠ k`.
pub fn lagrange(s: &[Scalar], k: Scalar, x: Scalar) -> (r: Result<Scalar, InternalErr>)
    ensures
        r matches Ok(v) && v@ == lagrange_value(scalars_view(s@), k@, x@),
        differences_invertible(scalars_view(s@), k@),
        r matches Ok(v) && v@ == mul_mod(
            prod_diff(other_nodes(scalars_view(s@), k@), x@),
            inv_mod(prod_diff(other_nodes(scalars_view(s@), k@), k@)),
        ),
{
    let ghost ss = scalars_view(s@);
    let mut prod = Scalar::one();
    let mut i: usize = 0;
    assert(ss.subrange(0, 0) =~= Seq::<nat>::empty());
    while i < s.len()
        invariant
            0 <= i <= s@.len(),
            ss == scalars_view(s@),
            prod@ == lagrange_value(ss.subrange(0, i as int), k@, x@),
            forall|j: int|
                0 <= j < i && ss[j] != k@ ==> #[trigger] invertible(sub_mod(k@, ss[j])),
        decreases s@.len() - i,
    {
        let l = s[i];
        assert(ss.subrange(0, i + 1).drop_last() =~= ss.subrange(0, i as int));
        assert(ss.subrange(0, i + 1).last() == l@);
        if !l.equals(&k) {
            let d = k.sub(&l);
            match d.invert() {
                Some(inv) => {
                    proof {
                        k.lemma_value();
                        l.lemma_value();
                        inv.lemma_value();
                        lemma_inv_mod(d@, inv@);
                        assert(inv@ < group_order() && mul_mod(d@, inv@) == 1);
                        assert(invertible(sub_mod(k@, ss[i as int])));
                    }
                    prod = prod.mul(&x.sub(&l).mul(&inv));
                },
                None => {
                    proof {
                        k.lemma_value();
                        l.lemma_value();
                        lemma_sub_mod_zero(k@, l@);
                    }
                    return Err(InternalErr::ArithmeticError("lagrange invert".to_owned()));
                },
            }
        }
        i = i + 1;
    }
    assert(ss.subrange(0, i as int) =~= ss);
    assert(differences_invertible(ss, k@));
    proof {
        lemma_lagrange_ratio(ss, k@, x@);
    }
    Ok(prod)
}

/// The Lagrange coefficient of index `k` over `s` at zero.
pub fn lo(s: &[Scalar], k: u16) -> (r: Result<Scalar, InternalErr>)
    ensures
        r matches Ok(v) && v@ == lagrange_value(scalars_view(s@), k as nat, 0),
        differences_invertible(scalars_view(s@), k as nat),
        r matches Ok(v) && v@ == mul_mod(
            prod_diff(other_nodes(scalars_view(s@), k as nat), 0),
            inv_mod(prod_diff(other_nodes(scalars_view(s@), k as nat), k as nat)),
        ),
{
    let k = Scalar::from_u16(k);
    lagrange(s, k, Scalar::zero())
}

} // verus!
