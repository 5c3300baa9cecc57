//! Properties of the key generation: what the round-3 share check decides,
//! and what an honest run computes.
use vstd::prelude::*;

use crate::keygen::{
    abort_party, echo_agrees, echo_oks, first_failure, lemma_first_failure, points_oks,
    points_open, subshare_oks, subshares_open, all_commitments, points_commitments_of, round1_result, round2_result, Round1Msgs,
    Round1State, Round2Msgs, checks_pass, expected_exponent, index_set, lagrange_failure, lambda, lemma_index_set,
    openings_valid, received_point_sum, received_subshare_sum, sender_label,
    share_check, share_point_exponent, share_point_exponents, share_value, weighted_sum,
    Round2State,
};
use crate::interpolation::{
    lagrange_terms, lemma_interpolation, lemma_small_pairwise_invertible,
    lemma_lagrange_times_prod, lemma_prod_diff_invertible, lemma_sum_mod_bound,
    lemma_sum_mod_concat, node_values, pairwise_invertible, prod_diff, sum_mod,
};
use crate::lagrange::{lagrange_value, poly_value};
use crate::commitment::{
    digests_view, echo_digest, points_commitment, points_view, subshare_commitment,
};
use crate::message::{
    CommitPointsMsg, CommitSubshareMsg, DecommitPointsMsg, DecommitSubshareMsg, EchoDigestMsg,
};
use crate::point::dlog;
use crate::scalar::{
    add_mod, group_order, inv_mod, invertible, lemma_add_mod_assoc_comm, lemma_invertible, lemma_add_mod_swap,
    lemma_add_mod_zero, lemma_mul_mod_assoc, lemma_mul_mod_distrib,
    lemma_neg_invertible,
    lemma_small_invertible, lemma_solve_linear, mul_mod, no_small_factor, sub_mod,
};

verus! {

/// The share check in the interpolation branch: for a party with label
/// `i > t - 1` whose `λ_i` is invertible, the check accepts exactly when
/// interpolating at zero through `(1, x_1), ..., (t-1, x_{t-1}), (i, share)`
/// gives `x_0`, that is `λ_i·share + λ_1·x_1 + ... + λ_{t-1}·x_{t-1} ≡ x_0`,
/// where `x_k` is the exponent of the share curve point `P(k)`.
pub proof fn lemma_share_check_interpolates(
    state: Round2State,
    dp: Seq<DecommitPointsMsg>,
    ds: Seq<DecommitSubshareMsg>,
)
    requires
        state.wf(),
        state.base.i > state.base.t - 1,
        mul_mod(
            lambda(state.base.t as nat, state.base.i as nat, state.base.i as nat),
            inv_mod(lambda(state.base.t as nat, state.base.i as nat, state.base.i as nat)),
        ) == 1,
    ensures
        share_check(state, dp, ds) <==> add_mod(
            mul_mod(
                lambda(state.base.t as nat, state.base.i as nat, state.base.i as nat),
                share_value(state, ds),
            ),
            weighted_sum(
                share_point_exponents(state, dp),
                state.base.t as nat,
                state.base.i as nat,
                (state.base.t - 1) as nat,
            ),
        ) == share_point_exponent(state, dp, 0),
{
    let t = state.base.t as nat;
    let i = state.base.i as nat;
    let xs = share_point_exponents(state, dp);
    let w = weighted_sum(xs, t, i, (t - 1) as nat);
    assert(xs[0] == share_point_exponent(state, dp, 0));
    lemma_solve_linear(lambda(t, i, i), share_value(state, ds), w, xs[0]);
}

/// The coefficient-wise sum of polynomials with `t` coefficients each.
pub open spec fn sum_poly(polys: Seq<Seq<nat>>, t: nat) -> Seq<nat> {
    Seq::new(t, |c: int| sum_mod(Seq::new(polys.len(), |j: int| polys[j][c])))
}

/// The coefficient-wise sum of two polynomials.
pub open spec fn add_poly(a: Seq<nat>, b: Seq<nat>) -> Seq<nat> {
    Seq::new(a.len(), |c: int| add_mod(a[c], b[c]))
}

/// The values of polynomials at `x`.
pub open spec fn poly_values(polys: Seq<Seq<nat>>, x: nat) -> Seq<nat> {
    Seq::new(polys.len(), |j: int| poly_value(polys[j], x))
}

proof fn lemma_poly_value_bound(a: Seq<nat>, x: nat)
    ensures
        poly_value(a, x) < group_order(),
{
}

/// Evaluation is additive: `(a + b)(x) = a(x) + b(x)`.
pub proof fn lemma_poly_add(a: Seq<nat>, b: Seq<nat>, x: nat)
    requires
        a.len() == b.len(),
    ensures
        poly_value(add_poly(a, b), x) == add_mod(poly_value(a, x), poly_value(b, x)),
    decreases a.len(),
{
    let c = add_poly(a, b);
    if a.len() == 0 {
        assert(poly_value(c, x) == 0);
        lemma_add_mod_zero(0);
    } else {
        assert(c.drop_first() =~= add_poly(a.drop_first(), b.drop_first()));
        assert(c[0] == add_mod(a[0], b[0]));
        lemma_poly_add(a.drop_first(), b.drop_first(), x);
        let pa = poly_value(a.drop_first(), x);
        let pb = poly_value(b.drop_first(), x);
        lemma_mul_mod_distrib(pa, pb, x);
        lemma_add_mod_swap(mul_mod(pa, x), mul_mod(pb, x), a[0], b[0]);
    }
}

/// Evaluating the sum of polynomials gives the sum of their values.
pub proof fn lemma_sum_poly_value(polys: Seq<Seq<nat>>, t: nat, x: nat)
    requires
        forall|j: int| 0 <= j < polys.len() ==> (#[trigger] polys[j]).len() == t,
    ensures
        poly_value(sum_poly(polys, t), x) == sum_mod(poly_values(polys, x)),
    decreases polys.len(),
{
    if polys.len() == 0 {
        assert forall|c: int| 0 <= c < t implies sum_poly(polys, t)[c] == 0 by {
            assert(Seq::new(polys.len(), |j: int| polys[j][c]) =~= Seq::<nat>::empty());
        }
        lemma_poly_value_zero(sum_poly(polys, t), x);
    } else {
        let init = polys.drop_last();
        assert(sum_poly(polys, t) =~= add_poly(sum_poly(init, t), polys.last())) by {
            assert forall|c: int| 0 <= c < t implies sum_poly(polys, t)[c] == add_mod(
                sum_poly(init, t)[c],
                polys.last()[c],
            ) by {
                assert(Seq::new(polys.len(), |j: int| polys[j][c]).drop_last() =~= Seq::new(
                    init.len(),
                    |j: int| init[j][c],
                ));
            }
        }
        lemma_sum_poly_value(init, t, x);
        lemma_poly_add(sum_poly(init, t), polys.last(), x);
        assert(poly_values(polys, x).drop_last() =~= poly_values(init, x));
    }
}

/// A polynomial whose coefficients are all zero evaluates to zero.
proof fn lemma_poly_value_zero(a: Seq<nat>, x: nat)
    requires
        forall|c: int| 0 <= c < a.len() ==> a[c] == 0,
    ensures
        poly_value(a, x) == 0,
    decreases a.len(),
{
    if a.len() > 0 {
        lemma_poly_value_zero(a.drop_first(), x);
    }
}

/// Adding party `i`'s own value to the values received from the other
/// parties (in party order) gives the sum over all parties.
pub proof fn lemma_sum_with_own(vals: Seq<nat>, i: int, received: Seq<nat>)
    requires
        1 <= i <= vals.len(),
        received =~= vals.take(i - 1) + vals.skip(i),
        forall|j: int| 0 <= j < vals.len() ==> #[trigger] vals[j] < group_order(),
    ensures
        add_mod(sum_mod(received), vals[i - 1]) == sum_mod(vals),
{
    let a = vals.take(i - 1);
    let b = vals.skip(i);
    let v = vals[i - 1];
    assert(vals =~= a.push(v) + b);
    lemma_sum_mod_concat(a, b);
    lemma_sum_mod_concat(a.push(v), b);
    assert(a.push(v).drop_last() =~= a);
    lemma_add_mod_assoc_comm(sum_mod(a), sum_mod(b), v);
    lemma_add_mod_assoc_comm(sum_mod(a), v, sum_mod(b));
    lemma_add_mod_assoc_comm(sum_mod(b), v, 0);
}

/// Party `i` took part in an honest run in which the party with label `j`
/// used the polynomial with coefficients `polys[j - 1]`: its own curve points
/// and subshare, and those it received in round 2, are that polynomial's
/// values.
pub open spec fn honest_run(
    state: Round2State,
    dp: Seq<DecommitPointsMsg>,
    ds: Seq<DecommitSubshareMsg>,
    polys: Seq<Seq<nat>>,
) -> bool {
    let i = state.base.i as int;
    let t = state.base.t as nat;
    &&& polys.len() == state.base.n
    &&& forall|j: int| 0 <= j < polys.len() ==> (#[trigger] polys[j]).len() == t
    &&& forall|k: int|
        0 <= k < t ==> dlog((#[trigger] state.base.curve_points@[k])@) == poly_value(
            polys[i - 1],
            k as nat,
        )
    &&& state.base.subshares@[i - 1]@ == poly_value(polys[i - 1], i as nat)
    &&& dp.len() + 1 == state.base.n
    &&& ds.len() + 1 == state.base.n
    &&& forall|idx: int|
        0 <= idx < dp.len() ==> (#[trigger] dp[idx]).points@.len() >= t
    &&& forall|idx: int, k: int|
        0 <= idx < dp.len() && 0 <= k < t ==> dlog((#[trigger] dp[idx].points@[k])@) == poly_value(
            polys[sender_label(i as nat, idx as nat) - 1],
            k as nat,
        )
    &&& forall|idx: int|
        0 <= idx < ds.len() ==> (#[trigger] ds[idx]).subshare@ == poly_value(
            polys[sender_label(i as nat, idx as nat) - 1],
            i as nat,
        )
}

/// `received_point_sum` adds up the received points' exponents in order.
proof fn lemma_received_point_sum(dp: Seq<DecommitPointsMsg>, k: int)
    ensures
        received_point_sum(dp, k) == sum_mod(Seq::new(dp.len(), |idx: int| dlog(dp[idx].points@[k]@))),
    decreases dp.len(),
{
    if dp.len() > 0 {
        lemma_received_point_sum(dp.drop_last(), k);
        assert(Seq::new(dp.len(), |idx: int| dlog(dp[idx].points@[k]@)).drop_last() =~= Seq::new(
            dp.drop_last().len(),
            |idx: int| dlog(dp.drop_last()[idx].points@[k]@),
        ));
    }
}

/// `received_subshare_sum` adds up the received subshares in order.
proof fn lemma_received_subshare_sum(ds: Seq<DecommitSubshareMsg>)
    ensures
        received_subshare_sum(ds) == sum_mod(Seq::new(ds.len(), |idx: int| ds[idx].subshare@)),
    decreases ds.len(),
{
    if ds.len() > 0 {
        lemma_received_subshare_sum(ds.drop_last());
        assert(Seq::new(ds.len(), |idx: int| ds[idx].subshare@).drop_last() =~= Seq::new(
            ds.drop_last().len(),
            |idx: int| ds.drop_last()[idx].subshare@,
        ));
    }
}

/// In an honest run, the share curve point `P(k)` that party `i` computes is
/// `p(k)·G` and its share is `p(i)`, where `p` is the sum of all parties'
/// polynomials. Every party thus holds a value of the same polynomial `p`
/// with `t` coefficients, and the public key `P(0)` is `p(0)·G`.
pub proof fn lemma_honest_run_shares(
    state: Round2State,
    dp: Seq<DecommitPointsMsg>,
    ds: Seq<DecommitSubshareMsg>,
    polys: Seq<Seq<nat>>,
)
    requires
        state.wf(),
        honest_run(state, dp, ds, polys),
    ensures
        forall|k: int|
            0 <= k < state.base.t ==> #[trigger] share_point_exponent(state, dp, k) == poly_value(
                sum_poly(polys, state.base.t as nat),
                k as nat,
            ),
        share_value(state, ds) == poly_value(
            sum_poly(polys, state.base.t as nat),
            state.base.i as nat,
        ),
{
    let i = state.base.i as int;
    let t = state.base.t as nat;
    assert forall|k: int| 0 <= k < t implies #[trigger] share_point_exponent(state, dp, k)
        == poly_value(sum_poly(polys, t), k as nat) by {
        let vals = poly_values(polys, k as nat);
        let received = Seq::new(dp.len(), |idx: int| dlog(dp[idx].points@[k]@));
        assert forall|j: int| 0 <= j < vals.len() implies #[trigger] vals[j] < group_order() by {
            lemma_poly_value_bound(polys[j], k as nat);
        }
        assert(received =~= vals.take(i - 1) + vals.skip(i)) by {
            assert forall|idx: int| 0 <= idx < received.len() implies received[idx] == (vals.take(
                i - 1,
            ) + vals.skip(i))[idx] by {
                assert(dlog(dp[idx].points@[k]@) == poly_value(
                    polys[sender_label(i as nat, idx as nat) - 1],
                    k as nat,
                ));
            }
        }
        lemma_received_point_sum(dp, k);
        assert(dlog(state.base.curve_points@[k]@) == vals[i - 1]);
        lemma_sum_with_own(vals, i, received);
        lemma_sum_poly_value(polys, t, k as nat);
    }
    let vals = poly_values(polys, i as nat);
    let received = Seq::new(ds.len(), |idx: int| ds[idx].subshare@);
    assert forall|j: int| 0 <= j < vals.len() implies #[trigger] vals[j] < group_order() by {
        lemma_poly_value_bound(polys[j], i as nat);
    }
    assert(received =~= vals.take(i - 1) + vals.skip(i)) by {
        assert forall|idx: int| 0 <= idx < received.len() implies received[idx] == (vals.take(i - 1)
            + vals.skip(i))[idx] by {
            assert(ds[idx].subshare@ == poly_value(
                polys[sender_label(i as nat, idx as nat) - 1],
                i as nat,
            ));
        }
    }
    lemma_received_subshare_sum(ds);
    lemma_sum_with_own(vals, i, received);
    lemma_sum_poly_value(polys, t, i as nat);
}

/// The weighted sum `λ_1·x_1 + ... + λ_m·x_m` of the share check adds up
/// the first `m` Lagrange terms of a polynomial `p` with `x_k = p(k)`.
proof fn lemma_weighted_sum_terms(xs: Seq<nat>, t: nat, i: nat, p: Seq<nat>, m: nat)
    requires
        2 <= t <= i,
        1 <= m <= t - 1,
        xs.len() == t,
        forall|k: int| 0 <= k < t ==> #[trigger] xs[k] == poly_value(p, k as nat),
    ensures
        weighted_sum(xs, t, i, m) == sum_mod(
            lagrange_terms(index_set(t, i), node_values(p, index_set(t, i)), 0).take(m as int),
        ),
    decreases m,
{
    let s = index_set(t, i);
    let terms = lagrange_terms(s, node_values(p, s), 0);
    assert(s[m - 1] == m);
    assert(terms[m - 1] == mul_mod(lambda(t, i, m), xs[m as int]));
    assert(terms.take(m as int).last() == terms[m - 1]);
    if m == 1 {
        assert(terms.take(1).drop_last() =~= Seq::<nat>::empty());
        assert(sum_mod(terms.take(1).drop_last()) == 0);
        lemma_add_mod_zero(terms[0]);
    } else {
        lemma_weighted_sum_terms(xs, t, i, p, (m - 1) as nat);
        assert(terms.take(m as int).drop_last() =~= terms.take(m - 1));
    }
}

/// For a polynomial `p` with `t` coefficients, the share check of party
/// `i > t - 1` accepts `p(i)` against the share curve point exponents
/// `p(0), ..., p(t-1)` when the differences of the labels in
/// `S = {1, ..., t-1} ∪ {i}` and `λ_i` are invertible: interpolating `p` over
/// `S` at zero gives `p(0)`.
pub proof fn lemma_interpolation_branch(xs: Seq<nat>, t: nat, i: nat, p: Seq<nat>)
    requires
        2 <= t <= i < group_order(),
        p.len() == t,
        xs.len() == t,
        forall|k: int| 0 <= k < t ==> #[trigger] xs[k] == poly_value(p, k as nat),
        pairwise_invertible(index_set(t, i)),
        invertible(lambda(t, i, i)),
    ensures
        poly_value(p, i) == expected_exponent(xs, t, i),
{
    let s = index_set(t, i);
    lemma_index_set(t, i);
    lemma_interpolation(s, p, 0);
    let terms = lagrange_terms(s, node_values(p, s), 0);
    lemma_weighted_sum_terms(xs, t, i, p, (t - 1) as nat);
    assert(terms.drop_last() =~= terms.take(t - 1));
    let li = lambda(t, i, i);
    assert(s[t - 1] == i);
    assert(terms.last() == mul_mod(li, poly_value(p, i)));
    lemma_invertible(li);
    let w = weighted_sum(xs, t, i, (t - 1) as nat);
    lemma_add_mod_assoc_comm(w, mul_mod(li, poly_value(p, i)), 0);
    assert(w < group_order()) by {
        lemma_sum_mod_bound(terms.take(t - 1));
    }
    lemma_poly_value_bound(p, i);
    lemma_poly_value_bound(p, 0);
    lemma_solve_linear(li, poly_value(p, i), w, xs[0]);
}

/// The differences of the labels in `S = {1, ..., t-1} ∪ {i}` and the
/// Lagrange coefficient `λ_i` are invertible, as the labels lie below `2^16`
/// and the group order has no divisor there.
pub proof fn lemma_labels_invertible(t: nat, i: nat)
    requires
        no_small_factor(),
        2 <= t <= i < 0x10000,
    ensures
        pairwise_invertible(index_set(t, i)),
        invertible(lambda(t, i, i)),
{
    let s = index_set(t, i);
    let s1 = s.drop_last();
    lemma_index_set(t, i);
    assert forall|j: int| 0 <= j < s.len() implies #[trigger] s[j] < 0x10000 by {
        assert(s[j] <= i);
    }
    lemma_small_pairwise_invertible(s);
    let li = lambda(t, i, i);
    assert(li == lagrange_value(s1, i, 0));
    // λ_i·Π_{l < t} (i - l) = Π_{l < t} (0 - l), which is invertible
    assert forall|j: int| 0 <= j < s1.len() implies #[trigger] s1[j] != i && invertible(
        sub_mod(i, s1[j]),
    ) by {
        assert(invertible(sub_mod(s[t - 1], s[j])));
    }
    lemma_lagrange_times_prod(s1, i, 0);
    assert forall|j: int| 0 <= j < s1.len() implies #[trigger] invertible(sub_mod(0, s1[j])) by {
        assert(s1[j] == j + 1);
        lemma_small_invertible(s1[j]);
        lemma_neg_invertible(s1[j]);
    }
    lemma_prod_diff_invertible(s1, 0);
    let p0 = prod_diff(s1, 0);
    lemma_invertible(p0);
    // λ_i·(Π (i - l)·p0^{-1}) = p0·p0^{-1} = 1
    let w = mul_mod(prod_diff(s1, i), inv_mod(p0));
    lemma_mul_mod_assoc(li, prod_diff(s1, i), inv_mod(p0));
    assert(w < group_order() && mul_mod(li, w) == 1);
}

/// In an honest run, every party passes the share check, provided, for a
/// party with label `i > t - 1`, that the differences of the labels in
/// `S = {1, ..., t-1} ∪ {i}` and `λ_i` are invertible (as they are over a
/// field, and as round 3 finds them when it builds the expected share curve
/// point).
pub proof fn lemma_honest_share_check(
    state: Round2State,
    dp: Seq<DecommitPointsMsg>,
    ds: Seq<DecommitSubshareMsg>,
    polys: Seq<Seq<nat>>,
)
    requires
        state.wf(),
        honest_run(state, dp, ds, polys),
        state.base.i > state.base.t - 1 ==> pairwise_invertible(
            index_set(state.base.t as nat, state.base.i as nat),
        ) && invertible(lambda(state.base.t as nat, state.base.i as nat, state.base.i as nat)),
    ensures
        share_check(state, dp, ds),
{
    lemma_honest_run_shares(state, dp, ds, polys);
    let t = state.base.t as nat;
    let i = state.base.i as nat;
    let xs = share_point_exponents(state, dp);
    let p = sum_poly(polys, t);
    if i <= t - 1 {
        assert(xs[i as int] == share_point_exponent(state, dp, i as int));
    } else {
        assert forall|k: int| 0 <= k < t implies #[trigger] xs[k] == poly_value(p, k as nat) by {
            assert(xs[k] == share_point_exponent(state, dp, k));
        }
        lemma_interpolation_branch(xs, t, i, p);
    }
}

/// In an honest run whose messages arrived unchanged (the echo
/// agreement and all openings hold), all of party `i`'s round-3 checks pass
/// and it can build its expected share curve point; its share is `p(i)` and
/// its public key is `p(0)·G`, for `p` the sum of all parties' polynomials.
pub proof fn lemma_honest_round3(
    state: Round2State,
    echo: Seq<EchoDigestMsg>,
    dp: Seq<DecommitPointsMsg>,
    ds: Seq<DecommitSubshareMsg>,
    polys: Seq<Seq<nat>>,
)
    requires
        state.wf(),
        honest_run(state, dp, ds, polys),
        openings_valid(state, echo, dp, ds),
        no_small_factor(),
    ensures
        checks_pass(state, echo, dp, ds),
        !lagrange_failure(state),
        share_value(state, ds) == poly_value(sum_poly(polys, state.base.t as nat), state.base.i as nat),
        share_point_exponent(state, dp, 0) == poly_value(sum_poly(polys, state.base.t as nat), 0),
{
    if state.base.i > state.base.t - 1 {
        lemma_labels_invertible(state.base.t as nat, state.base.i as nat);
        let li = lambda(state.base.t as nat, state.base.i as nat, state.base.i as nat);
        if li == 0 {
            lemma_invertible(li);
        }
    }
    lemma_honest_share_check(state, dp, ds, polys);
    lemma_honest_run_shares(state, dp, ds, polys);
}

/// In an honest run, any two parties compute the same public key exponent
/// `p(0)`.
pub proof fn lemma_honest_parties_agree(
    state1: Round2State,
    dp1: Seq<DecommitPointsMsg>,
    ds1: Seq<DecommitSubshareMsg>,
    state2: Round2State,
    dp2: Seq<DecommitPointsMsg>,
    ds2: Seq<DecommitSubshareMsg>,
    polys: Seq<Seq<nat>>,
)
    requires
        state1.wf(),
        state2.wf(),
        state1.base.t == state2.base.t,
        honest_run(state1, dp1, ds1, polys),
        honest_run(state2, dp2, ds2, polys),
    ensures
        share_point_exponent(state1, dp1, 0) == share_point_exponent(state2, dp2, 0),
{
    lemma_honest_run_shares(state1, dp1, ds1, polys);
    lemma_honest_run_shares(state2, dp2, ds2, polys);
}

/// The position of party `i` among the receivers of party `j`: all parties
/// but `j`, in party order.
pub open spec fn receiver_position(j: nat, i: nat) -> nat {
    if i < j {
        (i - 1) as nat
    } else {
        (i - 2) as nat
    }
}

/// The party at party `i`'s receiver position in party `j`'s list is `i`.
pub proof fn lemma_receiver_position(j: nat, i: nat, n: nat)
    requires
        1 <= i <= n,
        1 <= j <= n,
        i != j,
    ensures
        receiver_position(j, i) < n - 1,
        sender_label(j, receiver_position(j, i)) == i,
{
}

/// Party `i` received, in party order, the round-1 messages that the other
/// parties sent it: their curve-point commitments and the subshare
/// commitments addressed to `i`.
pub open spec fn received_round1(
    i: nat,
    m1: Seq<Round1Msgs>,
    pcs: Seq<CommitPointsMsg>,
    scs: Seq<CommitSubshareMsg>,
) -> bool {
    &&& pcs.len() + 1 == m1.len()
    &&& scs.len() + 1 == m1.len()
    &&& forall|idx: int|
        0 <= idx < pcs.len() ==> #[trigger] pcs[idx] == m1[sender_label(i, idx as nat) - 1].commit_points
    &&& forall|idx: int|
        0 <= idx < scs.len() ==> #[trigger] scs[idx] == m1[sender_label(
            i,
            idx as nat,
        ) - 1].commit_subshares@[receiver_position(sender_label(i, idx as nat), i) as int].1
}

/// Party `i` received, in party order, the round-2 messages that the other
/// parties sent it: their echo digests, their opened curve points, and the
/// opened subshares addressed to `i`.
pub open spec fn received_round2(
    i: nat,
    m2: Seq<Round2Msgs>,
    echo: Seq<EchoDigestMsg>,
    dp: Seq<DecommitPointsMsg>,
    ds: Seq<DecommitSubshareMsg>,
) -> bool {
    &&& echo.len() + 1 == m2.len()
    &&& dp.len() + 1 == m2.len()
    &&& ds.len() + 1 == m2.len()
    &&& forall|idx: int|
        0 <= idx < echo.len() ==> #[trigger] echo[idx] == m2[sender_label(i, idx as nat) - 1].echo
    &&& forall|idx: int|
        0 <= idx < dp.len() ==> #[trigger] dp[idx] == m2[sender_label(
            i,
            idx as nat,
        ) - 1].decommit_points
    &&& forall|idx: int|
        0 <= idx < ds.len() ==> #[trigger] ds[idx] == m2[sender_label(
            i,
            idx as nat,
        ) - 1].decommit_subshares@[receiver_position(sender_label(i, idx as nat), i) as int].1
}

/// Putting party `j`'s own entry back among the entries of the other parties,
/// in party order, gives the list of all parties' entries.
proof fn lemma_all_commitments(c: Seq<Seq<u8>>, j: nat, others: Seq<Seq<u8>>)
    requires
        1 <= j <= c.len(),
        others.len() + 1 == c.len(),
        forall|idx: int| 0 <= idx < others.len() ==> #[trigger] others[idx] == c[sender_label(j, idx as nat) - 1],
    ensures
        all_commitments(j, c[j - 1], others) == c,
{
    let a = all_commitments(j, c[j - 1], others);
    assert forall|k: int| 0 <= k < c.len() implies #[trigger] a[k] == c[k] by {
        if k < j - 1 {
            assert(a[k] == others[k]);
        } else if k > j - 1 {
            assert(a[k] == others[k - 1]);
        }
    }
    assert(a =~= c);
}

/// The curve-point commitments of all parties, in party order.
pub open spec fn commitments_of(s1: Seq<Round1State>) -> Seq<Seq<u8>> {
    s1.map_values(|st: Round1State| st.points_commitment@)
}

/// In an honest execution, where party `j` runs round 1 with the polynomial
/// `polys[j - 1]`, every party runs round 2 on the round-1 messages addressed
/// to it, and party `i` receives the round-2 messages addressed to it, party
/// `i`'s state and messages form an honest run, and the echo agreement and
/// all openings hold.
pub proof fn lemma_honest_execution(
    n: u16,
    t: u16,
    sid: u64,
    polys: Seq<Seq<nat>>,
    s1: Seq<Round1State>,
    m1: Seq<Round1Msgs>,
    pcs: Seq<Seq<CommitPointsMsg>>,
    scs: Seq<Seq<CommitSubshareMsg>>,
    s2: Seq<Round2State>,
    m2: Seq<Round2Msgs>,
    i: u16,
    echo: Seq<EchoDigestMsg>,
    dp: Seq<DecommitPointsMsg>,
    ds: Seq<DecommitSubshareMsg>,
)
    requires
        2 <= t,
        1 <= i <= n,
        polys.len() == n,
        forall|j: int| 0 <= j < n ==> (#[trigger] polys[j]).len() == t,
        s1.len() == n && m1.len() == n && pcs.len() == n && scs.len() == n,
        s2.len() == n && m2.len() == n,
        forall|j: int|
            0 <= j < n ==> round1_result((j + 1) as u16, n, t, sid, polys[j], #[trigger] s1[j], m1[j]),
        forall|j: int| 0 <= j < n ==> received_round1((j + 1) as nat, m1, #[trigger] pcs[j], scs[j]),
        forall|j: int| 0 <= j < n ==> round2_result(s1[j], pcs[j], scs[j], #[trigger] s2[j], m2[j]),
        received_round2(i as nat, m2, echo, dp, ds),
    ensures
        s2[i - 1].wf(),
        s2[i - 1].base.i == i && s2[i - 1].base.n == n && s2[i - 1].base.t == t,
        s2[i - 1].base.sid == sid,
        honest_run(s2[i - 1], dp, ds, polys),
        openings_valid(s2[i - 1], echo, dp, ds),
{
    let ii = i - 1;
    let st = s1[ii];
    let st2 = s2[ii];
    assert(round1_result(i, n, t, sid, polys[ii], st, m1[ii]));
    assert(round2_result(st, pcs[ii], scs[ii], st2, m2[ii]));
    let c = commitments_of(s1);
    // Every party computed the echo digest of the same list of commitments.
    assert forall|j: int| 0 <= j < n implies (#[trigger] s2[j]).echo_digest@ == echo_digest(
        sid,
        c,
    ) by {
        assert(round1_result((j + 1) as u16, n, t, sid, polys[j], s1[j], m1[j]));
        assert(received_round1((j + 1) as nat, m1, pcs[j], scs[j]));
        assert(round2_result(s1[j], pcs[j], scs[j], s2[j], m2[j]));
        let others = digests_view(points_commitments_of(pcs[j]));
        assert forall|idx: int| 0 <= idx < others.len() implies #[trigger] others[idx]
            == c[sender_label((j + 1) as nat, idx as nat) - 1] by {
            let l = sender_label((j + 1) as nat, idx as nat) - 1;
            assert(pcs[j][idx] == m1[l].commit_points);
            assert(round1_result((l + 1) as u16, n, t, sid, polys[l], s1[l], m1[l]));
        }
        lemma_all_commitments(c, (j + 1) as nat, others);
    }
    assert forall|idx: int| 0 <= idx < echo.len() implies #[trigger] echo[idx].digest@
        == st2.echo_digest@ by {
        let l = sender_label(i as nat, idx as nat) - 1;
        assert(echo[idx] == m2[l].echo);
        assert(round2_result(s1[l], pcs[l], scs[l], s2[l], m2[l]));
        assert(round1_result((l + 1) as u16, n, t, sid, polys[l], s1[l], m1[l]));
        assert(s2[l].echo_digest@ == echo_digest(sid, c));
        assert(s2[ii].echo_digest@ == echo_digest(sid, c));
    }
    assert(received_round1(i as nat, m1, pcs[ii], scs[ii]));
    assert forall|idx: int| 0 <= idx < dp.len() implies {
        let l = sender_label(i as nat, idx as nat) - 1;
        &&& (#[trigger] dp[idx]).points@ == s1[l].curve_points@
        &&& dp[idx].nonce == s1[l].points_nonce
        &&& st2.points_commitments@[idx]@ == points_commitment(
            sender_label(i as nat, idx as nat) as u16,
            n,
            sid,
            points_view(dp[idx].points@),
            dp[idx].nonce@,
        )
        &&& dp[idx].points@.len() >= t
        &&& forall|k: int|
            0 <= k < t ==> dlog((#[trigger] dp[idx].points@[k])@) == poly_value(polys[l], k as nat)
    } by {
        let l = sender_label(i as nat, idx as nat) - 1;
        assert(dp[idx] == m2[l].decommit_points);
        assert(round2_result(s1[l], pcs[l], scs[l], s2[l], m2[l]));
        assert(round1_result((l + 1) as u16, n, t, sid, polys[l], s1[l], m1[l]));
        assert(pcs[ii][idx] == m1[l].commit_points);
        assert forall|k: int| 0 <= k < t implies dlog((#[trigger] dp[idx].points@[k])@)
            == poly_value(polys[l], k as nat) by {
            assert(dp[idx].points@[k] == s1[l].curve_points@[k]);
        }
    }
    assert forall|idx: int| 0 <= idx < ds.len() implies {
        &&& (#[trigger] ds[idx]).subshare@ == poly_value(
            polys[sender_label(i as nat, idx as nat) - 1],
            i as nat,
        )
        &&& st2.subshare_commitments@[idx]@ == subshare_commitment(
            sender_label(i as nat, idx as nat) as u16,
            i,
            sid,
            ds[idx].subshare.encoding(),
            ds[idx].nonce@,
        )
    } by {
        let j = sender_label(i as nat, idx as nat);
        let l = j - 1;
        let pos = receiver_position(j, i as nat) as int;
        lemma_receiver_position(j, i as nat, n as nat);
        assert(ds[idx] == m2[l].decommit_subshares@[pos].1);
        assert(scs[ii][idx] == m1[l].commit_subshares@[pos].1);
        assert(round2_result(s1[l], pcs[l], scs[l], s2[l], m2[l]));
        assert(round1_result((l + 1) as u16, n, t, sid, polys[l], s1[l], m1[l]));
        let (lab, m) = m2[l].decommit_subshares@[pos];
        let (lab1, m1c) = m1[l].commit_subshares@[pos];
        assert(lab == i && lab1 == i);
        assert(s1[l].subshares@[i - 1]@ == poly_value(polys[l], i as nat));
    }
    assert(st2.base.subshares@[i - 1]@ == poly_value(polys[ii], i as nat));
    assert forall|k: int| 0 <= k < t implies dlog(
        (#[trigger] st2.base.curve_points@[k])@,
    ) == poly_value(polys[ii], k as nat) by {
        assert(st.curve_points@[k] == st2.base.curve_points@[k]);
    }
}

/// In an honest execution (see `lemma_honest_execution`), every
/// party `i` passes all its round-3 checks and can build its expected share
/// curve point, so round 3 reports success; its share is `p(i)` and its
/// public key is `p(0)·G`, for `p` the sum of all parties' polynomials. So
/// the shares of all parties lie on one polynomial with `t` coefficients, and
/// all parties output the same public key.
pub proof fn lemma_honest_keygen(
    n: u16,
    t: u16,
    sid: u64,
    polys: Seq<Seq<nat>>,
    s1: Seq<Round1State>,
    m1: Seq<Round1Msgs>,
    pcs: Seq<Seq<CommitPointsMsg>>,
    scs: Seq<Seq<CommitSubshareMsg>>,
    s2: Seq<Round2State>,
    m2: Seq<Round2Msgs>,
    i: u16,
    echo: Seq<EchoDigestMsg>,
    dp: Seq<DecommitPointsMsg>,
    ds: Seq<DecommitSubshareMsg>,
)
    requires
        no_small_factor(),
        2 <= t,
        1 <= i <= n,
        polys.len() == n,
        forall|j: int| 0 <= j < n ==> (#[trigger] polys[j]).len() == t,
        s1.len() == n && m1.len() == n && pcs.len() == n && scs.len() == n,
        s2.len() == n && m2.len() == n,
        forall|j: int|
            0 <= j < n ==> round1_result((j + 1) as u16, n, t, sid, polys[j], #[trigger] s1[j], m1[j]),
        forall|j: int| 0 <= j < n ==> received_round1((j + 1) as nat, m1, #[trigger] pcs[j], scs[j]),
        forall|j: int| 0 <= j < n ==> round2_result(s1[j], pcs[j], scs[j], #[trigger] s2[j], m2[j]),
        received_round2(i as nat, m2, echo, dp, ds),
    ensures
        s2[i - 1].base.sid == sid,
        checks_pass(s2[i - 1], echo, dp, ds),
        !lagrange_failure(s2[i - 1]),
        share_value(s2[i - 1], ds) == poly_value(sum_poly(polys, t as nat), i as nat),
        share_point_exponent(s2[i - 1], dp, 0) == poly_value(sum_poly(polys, t as nat), 0),
{
    lemma_honest_execution(n, t, sid, polys, s1, m1, pcs, scs, s2, m2, i, echo, dp, ds);
    lemma_honest_round3(s2[i - 1], echo, dp, ds, polys);
}

/// The curve-point commitments of all `n` parties in party order, as party
/// `i` knows them after round 1: its own at position `i - 1`, and at every
/// other position `j - 1` the one party `j` broadcast, which `i` received at
/// position `j - 1` when `j < i` and `j - 2` when `j > i`.
pub proof fn lemma_round2_echo_digest(
    state: Round1State,
    pcs: Seq<CommitPointsMsg>,
    scs: Seq<CommitSubshareMsg>,
    st: Round2State,
    ms: Round2Msgs,
)
    requires
        state.wf(),
        pcs.len() + 1 == state.n,
        round2_result(state, pcs, scs, st, ms),
    ensures
        st.echo_digest@ == echo_digest(
            state.sid,
            Seq::new(
                state.n as nat,
                |j: int|
                    if j + 1 == state.i {
                        state.points_commitment@
                    } else if j + 1 < state.i {
                        pcs[j].commitment@
                    } else {
                        pcs[j - 1].commitment@
                    },
            ),
        ),
{
    let own = state.points_commitment@;
    let others = digests_view(points_commitments_of(pcs));
    let all = all_commitments(state.i as nat, own, others);
    let expected = Seq::new(
        state.n as nat,
        |j: int|
            if j + 1 == state.i {
                state.points_commitment@
            } else if j + 1 < state.i {
                pcs[j].commitment@
            } else {
                pcs[j - 1].commitment@
            },
    );
    assert forall|j: int| 0 <= j < state.n implies #[trigger] all[j] == expected[j] by {
        if j + 1 < state.i {
            assert(all[j] == others[j]);
        } else if j + 1 > state.i {
            assert(all[j] == others[j - 1]);
        }
    }
    assert(all =~= expected);
}

/// An echo digest that differs from the party's own fails the party's
/// round-3 checks. When every earlier echo digest agrees, the abort names the
/// sender of that digest.
pub proof fn lemma_echo_mismatch_aborts(
    state: Round2State,
    echo: Seq<EchoDigestMsg>,
    dp: Seq<DecommitPointsMsg>,
    ds: Seq<DecommitSubshareMsg>,
    idx: int,
)
    requires
        0 <= idx < echo.len(),
        echo[idx].digest@ != state.echo_digest@,
    ensures
        !openings_valid(state, echo, dp, ds),
        !checks_pass(state, echo, dp, ds),
        (forall|l: int| 0 <= l < idx ==> #[trigger] echo[l].digest@ == state.echo_digest@)
            ==> abort_party(state, echo, dp, ds) == Some(
            sender_label(state.base.i as nat, idx as nat) as u16,
        ),
{
    assert(!echo_agrees(state, echo));
    if forall|l: int| 0 <= l < idx ==> #[trigger] echo[l].digest@ == state.echo_digest@ {
        let oks = echo_oks(state, echo);
        lemma_first_failure(oks);
        assert(!oks[idx]);
        assert(first_failure(oks) == idx) by {
            if first_failure(oks) < idx {
                let f = first_failure(oks) as int;
                assert(oks[f]);
                assert(echo[f].digest@ == state.echo_digest@);
            }
        }
    }
}

/// A decommitment of curve points that does not hold `t` points, or does not
/// hash (with its sender's label, `n` and `sid`) to the commitment received
/// from that sender in round 1, fails the party's round-3 checks. When the
/// echo agreement holds and every earlier decommitment opens, the abort names
/// its sender.
pub proof fn lemma_points_opening_failure_aborts(
    state: Round2State,
    echo: Seq<EchoDigestMsg>,
    dp: Seq<DecommitPointsMsg>,
    ds: Seq<DecommitSubshareMsg>,
    idx: int,
)
    requires
        0 <= idx < dp.len(),
        dp[idx].points@.len() != state.base.t || state.points_commitments@[idx]@ != points_commitment(
            sender_label(state.base.i as nat, idx as nat) as u16,
            state.base.n,
            state.base.sid,
            points_view(dp[idx].points@),
            dp[idx].nonce@,
        ),
    ensures
        !openings_valid(state, echo, dp, ds),
        !checks_pass(state, echo, dp, ds),
        (forall|l: int| 0 <= l < echo.len() ==> #[trigger] echo[l].digest@ == state.echo_digest@)
            && (forall|l: int|
            0 <= l < idx ==> (#[trigger] dp[l]).points@.len() == state.base.t
                && state.points_commitments@[l]@ == points_commitment(
                sender_label(state.base.i as nat, l as nat) as u16,
                state.base.n,
                state.base.sid,
                points_view(dp[l].points@),
                dp[l].nonce@,
            )) ==> abort_party(state, echo, dp, ds) == Some(
            sender_label(state.base.i as nat, idx as nat) as u16,
        ),
{
    assert(dp[idx] == dp[idx]);
    assert(!points_open(state, dp));
    let oks = points_oks(state, dp);
    assert(!oks[idx]);
    if (forall|l: int| 0 <= l < echo.len() ==> #[trigger] echo[l].digest@ == state.echo_digest@)
        && (forall|l: int|
        0 <= l < idx ==> (#[trigger] dp[l]).points@.len() == state.base.t
            && state.points_commitments@[l]@ == points_commitment(
            sender_label(state.base.i as nat, l as nat) as u16,
            state.base.n,
            state.base.sid,
            points_view(dp[l].points@),
            dp[l].nonce@,
        )) {
        assert(echo_agrees(state, echo));
        lemma_first_failure(oks);
        assert(first_failure(oks) == idx) by {
            if first_failure(oks) < idx {
                let f = first_failure(oks) as int;
                assert(oks[f]);
                assert(dp[f] == dp[f]);
            }
        }
    }
}

/// A decommitted subshare that does not hash (with its sender's label, this
/// party's label and `sid`) to the pairwise commitment received from that
/// sender in round 1 fails the party's round-3 checks. When the echo
/// agreement holds, every decommitment of curve points opens, and every
/// earlier subshare opens, the abort names its sender.
pub proof fn lemma_subshare_opening_failure_aborts(
    state: Round2State,
    echo: Seq<EchoDigestMsg>,
    dp: Seq<DecommitPointsMsg>,
    ds: Seq<DecommitSubshareMsg>,
    idx: int,
)
    requires
        0 <= idx < ds.len(),
        state.subshare_commitments@[idx]@ != subshare_commitment(
            sender_label(state.base.i as nat, idx as nat) as u16,
            state.base.i,
            state.base.sid,
            ds[idx].subshare.encoding(),
            ds[idx].nonce@,
        ),
    ensures
        !openings_valid(state, echo, dp, ds),
        !checks_pass(state, echo, dp, ds),
        (forall|l: int| 0 <= l < echo.len() ==> #[trigger] echo[l].digest@ == state.echo_digest@)
            && (forall|l: int|
            0 <= l < dp.len() ==> (#[trigger] dp[l]).points@.len() == state.base.t
                && state.points_commitments@[l]@ == points_commitment(
                sender_label(state.base.i as nat, l as nat) as u16,
                state.base.n,
                state.base.sid,
                points_view(dp[l].points@),
                dp[l].nonce@,
            )) && (forall|l: int|
            0 <= l < idx ==> state.subshare_commitments@[l]@ == subshare_commitment(
                sender_label(state.base.i as nat, l as nat) as u16,
                state.base.i,
                state.base.sid,
                (#[trigger] ds[l]).subshare.encoding(),
                ds[l].nonce@,
            )) ==> abort_party(state, echo, dp, ds) == Some(
            sender_label(state.base.i as nat, idx as nat) as u16,
        ),
{
    assert(ds[idx] == ds[idx]);
    assert(!subshares_open(state, ds));
    let oks = subshare_oks(state, ds);
    assert(!oks[idx]);
    if (forall|l: int| 0 <= l < echo.len() ==> #[trigger] echo[l].digest@ == state.echo_digest@)
        && (forall|l: int|
        0 <= l < dp.len() ==> (#[trigger] dp[l]).points@.len() == state.base.t
            && state.points_commitments@[l]@ == points_commitment(
            sender_label(state.base.i as nat, l as nat) as u16,
            state.base.n,
            state.base.sid,
            points_view(dp[l].points@),
            dp[l].nonce@,
        )) && (forall|l: int|
        0 <= l < idx ==> state.subshare_commitments@[l]@ == subshare_commitment(
            sender_label(state.base.i as nat, l as nat) as u16,
            state.base.i,
            state.base.sid,
            (#[trigger] ds[l]).subshare.encoding(),
            ds[l].nonce@,
        )) {
        assert(echo_agrees(state, echo));
        assert(points_open(state, dp));
        lemma_first_failure(oks);
        assert(first_failure(oks) == idx) by {
            if first_failure(oks) < idx {
                let f = first_failure(oks) as int;
                assert(oks[f]);
                assert(ds[f] == ds[f]);
            }
        }
    }
}

} // verus!
