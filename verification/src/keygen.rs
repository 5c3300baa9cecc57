//! The relaxed key generation protocol as a state machine.
//!
//! Each round is a function from the party's state and the messages it
//! received to its next state and the messages it sends. Randomness (the
//! polynomial coefficients and the commitment nonces) and the network are
//! handled by the caller.
use vstd::prelude::*;

use crate::commitment::{
    commit_points, commit_subshare, compute_echo_digest, digests_view, echo_digest,
    points_commitment, points_view, subshare_commitment, verify_points, verify_subshare,
    digest_eq,
};
use crate::error::{Error, InternalErr};
use crate::correctness::{
    honest_run, lemma_echo_mismatch_aborts, lemma_honest_share_check,
    lemma_points_opening_failure_aborts, lemma_round2_echo_digest,
    lemma_subshare_opening_failure_aborts,
};
use crate::interpolation::{distinct_nodes, lemma_pairwise_from_rows, pairwise_invertible};
use crate::lagrange::{
    differences_invertible, lagrange_value, lo, poly_eval, poly_value, scalars_view,
};
use crate::message::{
    CommitPointsMsg, CommitSubshareMsg, DecommitPointsMsg, DecommitSubshareMsg, EchoDigestMsg,
    KeyPair, VerifyMsg,
};
use crate::point::{dlog, is_multiple, Point};
use crate::scalar::{
    add_mod, group_order, inv_mod, invertible, lemma_inv_mod, mul_mod, sub_mod, Scalar,
};

verus! {

/// The 1-based label of the party whose message stands at position `idx`
/// among the messages from all parties but party `i`, in party order.
pub open spec fn sender_label(i: nat, idx: nat) -> nat {
    if idx + 1 < i {
        idx + 1
    } else {
        idx + 2
    }
}

/// The label of the party at position `idx` among all parties but `i`.
fn label_at(i: u16, n: u16, idx: usize) -> (j: u16)
    requires
        1 <= i <= n,
        idx + 1 < n,
    ensures
        j == sender_label(i as nat, idx as nat),
        1 <= j <= n,
        j != i,
{
    if idx + 1 < i as usize {
        (idx + 1) as u16
    } else {
        (idx + 2) as u16
    }
}

/// A party's state after round 1.
pub struct Round1State {
    /// This party's label, `1 <= i <= n`
    pub i: u16,
    /// Number of parties
    pub n: u16,
    /// Threshold
    pub t: u16,
    /// Session id
    pub sid: u64,
    /// Subshares `p_i(1), ..., p_i(n)`
    pub subshares: Vec<Scalar>,
    /// Subshare curve points `p_i(0)·G, ..., p_i(t-1)·G`
    pub curve_points: Vec<Point>,
    /// Nonce of the curve-points commitment
    pub points_nonce: [u8; 32],
    /// Commitment to the curve points
    pub points_commitment: [u8; 32],
    /// Nonces of the subshare commitments, in receiver order
    pub subshare_nonces: Vec<[u8; 32]>,
}

/// The messages a party sends in round 1.
pub struct Round1Msgs {
    /// Broadcast commitment to the curve points
    pub commit_points: CommitPointsMsg,
    /// Commitment to each other party's subshare, with the receiver's label
    pub commit_subshares: Vec<(u16, CommitSubshareMsg)>,
}

impl Round1State {
    /// The shape of a party's state after round 1.
    pub open spec fn wf(&self) -> bool {
        &&& 1 <= self.i <= self.n
        &&& 2 <= self.t
        &&& self.subshares@.len() == self.n
        &&& self.curve_points@.len() == self.t
        &&& self.subshare_nonces@.len() + 1 == self.n
    }
}

/// What round 1 computes for party `i` from the polynomial with coefficients
/// `coefs` and the nonces kept in its state: the subshares `p_i(1..n)`, the
/// curve points `p_i(0..t-1)·G`, the commitment to those points, and for each
/// other party `j`, in party order, the commitment to the subshare `p_i(j)`.
pub open spec fn round1_result(
    i: u16,
    n: u16,
    t: u16,
    sid: u64,
    coefs: Seq<nat>,
    st: Round1State,
    ms: Round1Msgs,
) -> bool {
    &&& st.wf()
    &&& st.i == i && st.n == n && st.t == t && st.sid == sid
    &&& forall|j: int|
        0 <= j < n ==> #[trigger] st.subshares@[j]@ == poly_value(coefs, (j + 1) as nat)
    &&& forall|k: int|
        0 <= k < t ==> is_multiple(#[trigger] st.curve_points@[k]@, poly_value(coefs, k as nat))
            && dlog(st.curve_points@[k]@) == poly_value(coefs, k as nat)
    &&& st.points_commitment@ == points_commitment(
        i,
        n,
        sid,
        points_view(st.curve_points@),
        st.points_nonce@,
    )
    &&& ms.commit_points == (CommitPointsMsg { commitment: st.points_commitment, sid })
    &&& ms.commit_subshares@.len() + 1 == n
    &&& forall|idx: int|
        0 <= idx < n - 1 ==> {
            let (j, m) = #[trigger] ms.commit_subshares@[idx];
            &&& j == sender_label(i as nat, idx as nat)
            &&& m.sid == sid
            &&& m.commitment@ == subshare_commitment(
                i,
                j,
                sid,
                st.subshares@[j - 1].encoding(),
                st.subshare_nonces@[idx]@,
            )
        }
}

/// Round 1: from the coefficients of this party's random polynomial `p_i`
/// (constant term first) and fresh nonces, computes the subshares
/// `p_i(1..n)` and curve points `p_i(0..t-1)·G`, and commits to them.
pub fn round1(
    i: u16,
    n: u16,
    t: u16,
    sid: u64,
    coefs: Vec<Scalar>,
    points_nonce: [u8; 32],
    subshare_nonces: Vec<[u8; 32]>,
) -> (r: (Round1State, Round1Msgs))
    requires
        1 <= i <= n,
        2 <= t,
        coefs@.len() == t,
        subshare_nonces@.len() + 1 == n,
    ensures
        round1_result(i, n, t, sid, scalars_view(coefs@), r.0, r.1),
        r.0.points_nonce == points_nonce,
        r.0.subshare_nonces == subshare_nonces,
{
    let ghost cs = scalars_view(coefs@);
    let mut subshares: Vec<Scalar> = Vec::new();
    let mut j: u16 = 0;
    while j < n
        invariant
            0 <= j <= n,
            cs == scalars_view(coefs@),
            subshares@.len() == j,
            forall|l: int|
                0 <= l < j ==> #[trigger] subshares@[l]@ == poly_value(cs, (l + 1) as nat),
        decreases n - j,
    {
        let x = Scalar::from_u16(j + 1);
        subshares.push(poly_eval(&coefs, &x));
        j = j + 1;
    }
    let mut curve_points: Vec<Point> = Vec::new();
    let mut k: u16 = 0;
    while k < t
        invariant
            0 <= k <= t,
            cs == scalars_view(coefs@),
            curve_points@.len() == k,
            forall|l: int|
                0 <= l < k ==> is_multiple(#[trigger] curve_points@[l]@, poly_value(cs, l as nat))
                    && dlog(curve_points@[l]@) == poly_value(cs, l as nat),
        decreases t - k,
    {
        let x = Scalar::from_u16(k);
        let v = poly_eval(&coefs, &x);
        let p = Point::generator_mul(&v);
        assert(is_multiple(p@, dlog(p@)));
        curve_points.push(p);
        k = k + 1;
    }
    let points_commitment = commit_points(i, n, sid, &curve_points, &points_nonce);
    let mut commit_subshares: Vec<(u16, CommitSubshareMsg)> = Vec::new();
    let mut idx: usize = 0;
    while idx + 1 < n as usize
        invariant
            1 <= i <= n,
            subshares@.len() == n,
            subshare_nonces@.len() + 1 == n,
            0 <= idx < n,
            commit_subshares@.len() == idx,
            forall|l: int|
                0 <= l < idx ==> {
                    let (j, m) = #[trigger] commit_subshares@[l];
                    &&& j == sender_label(i as nat, l as nat)
                    &&& m.sid == sid
                    &&& m.commitment@ == subshare_commitment(
                        i,
                        j,
                        sid,
                        subshares@[j - 1].encoding(),
                        subshare_nonces@[l]@,
                    )
                },
        decreases n - idx,
    {
        let j = label_at(i, n, idx);
        let c = commit_subshare(
            i,
            j,
            sid,
            &subshares[(j - 1) as usize],
            &subshare_nonces[idx],
        );
        commit_subshares.push((j, CommitSubshareMsg { commitment: c, sid }));
        idx = idx + 1;
    }
    let state = Round1State {
        i,
        n,
        t,
        sid,
        subshares,
        curve_points,
        points_nonce,
        points_commitment,
        subshare_nonces,
    };
    let msgs = Round1Msgs {
        commit_points: CommitPointsMsg { commitment: points_commitment, sid },
        commit_subshares,
    };
    (state, msgs)
}

/// A party's state after round 2.
pub struct Round2State {
    /// The state after round 1
    pub base: Round1State,
    /// The curve-point commitments received from the other parties, in party order
    pub points_commitments: Vec<[u8; 32]>,
    /// The subshare commitments received from the other parties, in party order
    pub subshare_commitments: Vec<[u8; 32]>,
    /// The echo digest this party computed
    pub echo_digest: [u8; 32],
}

/// The messages a party sends in round 2.
pub struct Round2Msgs {
    /// Broadcast echo digest of all curve-point commitments
    pub echo: EchoDigestMsg,
    /// Broadcast opening of the curve-point commitment
    pub decommit_points: DecommitPointsMsg,
    /// Opening of each other party's subshare commitment, with the receiver's label
    pub decommit_subshares: Vec<(u16, DecommitSubshareMsg)>,
}

impl Round2State {
    /// The shape of a party's state after round 2.
    pub open spec fn wf(&self) -> bool {
        &&& self.base.wf()
        &&& self.points_commitments@.len() + 1 == self.base.n
        &&& self.subshare_commitments@.len() + 1 == self.base.n
    }
}

/// The curve-point commitments of all parties in party order: those received
/// from the others, with this party's own at position `i - 1`.
pub open spec fn all_commitments(
    i: nat,
    own: Seq<u8>,
    others: Seq<Seq<u8>>,
) -> Seq<Seq<u8>> {
    others.take(i - 1) + seq![own] + others.skip(i - 1)
}

/// The commitments that a list of round-1 broadcast messages carry.
pub open spec fn points_commitments_of(msgs: Seq<CommitPointsMsg>) -> Seq<[u8; 32]> {
    msgs.map_values(|m: CommitPointsMsg| m.commitment)
}

/// The commitments that a list of round-1 pairwise messages carry.
pub open spec fn subshare_commitments_of(msgs: Seq<CommitSubshareMsg>) -> Seq<[u8; 32]> {
    msgs.map_values(|m: CommitSubshareMsg| m.commitment)
}

/// What round 2 computes from the state after round 1 and the commitments
/// received from the other parties in party order: the state that records
/// them, the echo digest of all parties' curve-point commitments, and the
/// openings of this party's own commitments.
pub open spec fn round2_result(
    state: Round1State,
    pcs: Seq<CommitPointsMsg>,
    scs: Seq<CommitSubshareMsg>,
    st: Round2State,
    ms: Round2Msgs,
) -> bool {
    &&& st.wf()
    &&& st.base == state
    &&& st.points_commitments@ == points_commitments_of(pcs)
    &&& st.subshare_commitments@ == subshare_commitments_of(scs)
    &&& st.echo_digest@ == echo_digest(
        state.sid,
        all_commitments(
            state.i as nat,
            state.points_commitment@,
            digests_view(points_commitments_of(pcs)),
        ),
    )
    &&& ms.echo == (EchoDigestMsg { digest: st.echo_digest, sid: state.sid })
    &&& ms.decommit_points.points@ == state.curve_points@
    &&& ms.decommit_points.nonce == state.points_nonce
    &&& ms.decommit_subshares@.len() + 1 == state.n
    &&& forall|idx: int|
        0 <= idx < state.n - 1 ==> {
            let (j, m) = #[trigger] ms.decommit_subshares@[idx];
            &&& j == sender_label(state.i as nat, idx as nat)
            &&& m.subshare == state.subshares@[j - 1]
            &&& m.nonce == state.subshare_nonces@[idx]
        }
}

/// Round 2: records the commitments received in round 1, echoes the digest
/// of all curve-point commitments, and opens this party's commitments.
pub fn round2(
    state: Round1State,
    points_commitments: Vec<CommitPointsMsg>,
    subshare_commitments: Vec<CommitSubshareMsg>,
) -> (r: (Round2State, Round2Msgs))
    requires
        state.wf(),
        points_commitments@.len() + 1 == state.n,
        subshare_commitments@.len() + 1 == state.n,
    ensures
        round2_result(state, points_commitments@, subshare_commitments@, r.0, r.1),
        r.0.echo_digest@ == echo_digest(
            state.sid,
            Seq::new(
                state.n as nat,
                |j: int|
                    if j + 1 == state.i {
                        state.points_commitment@
                    } else if j + 1 < state.i {
                        points_commitments@[j].commitment@
                    } else {
                        points_commitments@[j - 1].commitment@
                    },
            ),
        ),
{
    let me = (state.i - 1) as usize;
    let mut others: Vec<[u8; 32]> = Vec::new();
    let mut idx: usize = 0;
    while idx < points_commitments.len()
        invariant
            0 <= idx <= points_commitments@.len(),
            others@ =~= points_commitments_of(points_commitments@.subrange(0, idx as int)),
        decreases points_commitments@.len() - idx,
    {
        others.push(points_commitments[idx].commitment);
        idx = idx + 1;
    }
    assert(points_commitments@.subrange(0, idx as int) =~= points_commitments@);
    let mut subs: Vec<[u8; 32]> = Vec::new();
    let mut idx: usize = 0;
    while idx < subshare_commitments.len()
        invariant
            0 <= idx <= subshare_commitments@.len(),
            subs@ =~= subshare_commitments_of(subshare_commitments@.subrange(0, idx as int)),
        decreases subshare_commitments@.len() - idx,
    {
        subs.push(subshare_commitments[idx].commitment);
        idx = idx + 1;
    }
    assert(subshare_commitments@.subrange(0, idx as int) =~= subshare_commitments@);
    let ghost ov = digests_view(others@);
    let mut all: Vec<[u8; 32]> = Vec::new();
    let mut idx: usize = 0;
    while idx < me
        invariant
            me + 1 <= state.n,
            others@.len() + 1 == state.n,
            0 <= idx <= me,
            ov == digests_view(others@),
            digests_view(all@) =~= ov.take(idx as int),
        decreases me - idx,
    {
        let ghost before = all@;
        all.push(others[idx]);
        assert(digests_view(all@) =~= digests_view(before).push(others@[idx as int]@));
        assert(ov.take(idx + 1) =~= ov.take(idx as int).push(ov[idx as int]));
        idx = idx + 1;
    }
    let ghost before = all@;
    all.push(state.points_commitment);
    assert(digests_view(all@) =~= digests_view(before).push(state.points_commitment@));
    let mut idx: usize = me;
    while idx < others.len()
        invariant
            me <= idx <= others@.len(),
            ov == digests_view(others@),
            digests_view(all@) =~= ov.take(me as int) + seq![state.points_commitment@]
                + ov.subrange(me as int, idx as int),
        decreases others@.len() - idx,
    {
        let ghost before = all@;
        all.push(others[idx]);
        assert(digests_view(all@) =~= digests_view(before).push(others@[idx as int]@));
        assert(ov.subrange(me as int, idx + 1) =~= ov.subrange(me as int, idx as int).push(
            ov[idx as int],
        ));
        idx = idx + 1;
    }
    assert(ov.subrange(me as int, others@.len() as int) =~= ov.skip(me as int));
    let digest = compute_echo_digest(state.sid, &all);
    let mut decommit_subshares: Vec<(u16, DecommitSubshareMsg)> = Vec::new();
    let mut idx: usize = 0;
    while idx + 1 < state.n as usize
        invariant
            state.wf(),
            0 <= idx < state.n,
            decommit_subshares@.len() == idx,
            forall|l: int|
                0 <= l < idx ==> {
                    let (j, m) = #[trigger] decommit_subshares@[l];
                    &&& j == sender_label(state.i as nat, l as nat)
                    &&& m.subshare == state.subshares@[j - 1]
                    &&& m.nonce == state.subshare_nonces@[l]
                },
        decreases state.n - idx,
    {
        let j = label_at(state.i, state.n, idx);
        let m = DecommitSubshareMsg {
            subshare: state.subshares[(j - 1) as usize],
            nonce: state.subshare_nonces[idx],
        };
        decommit_subshares.push((j, m));
        idx = idx + 1;
    }
    let decommit_points = DecommitPointsMsg {
        points: clone_points(&state.curve_points),
        nonce: state.points_nonce,
    };
    let sid = state.sid;
    let next = Round2State {
        base: state,
        points_commitments: others,
        subshare_commitments: subs,
        echo_digest: digest,
    };
    let msgs = Round2Msgs {
        echo: EchoDigestMsg { digest, sid },
        decommit_points,
        decommit_subshares,
    };
    proof {
        lemma_round2_echo_digest(next.base, points_commitments@, subshare_commitments@, next, msgs);
    }
    (next, msgs)
}

/// A copy of a list of points.
fn clone_points(points: &Vec<Point>) -> (r: Vec<Point>)
    ensures
        r@ == points@,
{
    let mut r: Vec<Point> = Vec::new();
    let mut k: usize = 0;
    while k < points.len()
        invariant
            0 <= k <= points@.len(),
            r@ =~= points@.subrange(0, k as int),
        decreases points@.len() - k,
    {
        r.push(points[k]);
        k = k + 1;
    }
    r
}

/// The outcome of a party's own checks in round 3.
pub enum Verification {
    /// A check failed; the label of the party whose message failed it, where
    /// one message did
    Abort { party: Option<u16> },
    /// All checks passed; the party's key pair
    Success(KeyPair),
}

/// Every echoed digest equals this party's own echo digest.
pub open spec fn echo_agrees(state: Round2State, echo: Seq<EchoDigestMsg>) -> bool {
    forall|idx: int| 0 <= idx < echo.len() ==> #[trigger] echo[idx].digest@ == state.echo_digest@
}

/// Every decommitted vector of curve points holds `t` points and opens the
/// commitment its sender broadcast in round 1.
pub open spec fn points_open(state: Round2State, dp: Seq<DecommitPointsMsg>) -> bool {
    forall|idx: int|
        0 <= idx < dp.len() ==> (#[trigger] dp[idx]).points@.len() == state.base.t
            && state.points_commitments@[idx]@ == points_commitment(
            sender_label(state.base.i as nat, idx as nat) as u16,
            state.base.n,
            state.base.sid,
            points_view(dp[idx].points@),
            dp[idx].nonce@,
        )
}

/// Every decommitted subshare opens the commitment its sender sent to this
/// party in round 1.
pub open spec fn subshares_open(state: Round2State, ds: Seq<DecommitSubshareMsg>) -> bool {
    forall|idx: int|
        0 <= idx < ds.len() ==> state.subshare_commitments@[idx]@ == subshare_commitment(
            sender_label(state.base.i as nat, idx as nat) as u16,
            state.base.i,
            state.base.sid,
            (#[trigger] ds[idx]).subshare.encoding(),
            ds[idx].nonce@,
        )
}

/// The echo agreement and all openings hold.
pub open spec fn openings_valid(
    state: Round2State,
    echo: Seq<EchoDigestMsg>,
    dp: Seq<DecommitPointsMsg>,
    ds: Seq<DecommitSubshareMsg>,
) -> bool {
    &&& echo_agrees(state, echo)
    &&& points_open(state, dp)
    &&& subshares_open(state, ds)
}

/// `Σ_j P_j(k)` over the received curve points, as exponents of `G`.
pub open spec fn received_point_sum(dp: Seq<DecommitPointsMsg>, k: int) -> nat
    decreases dp.len(),
{
    if dp.len() == 0 {
        0
    } else {
        add_mod(received_point_sum(dp.drop_last(), k), dlog(dp.last().points@[k]@))
    }
}

/// The exponent of the share curve point `P(k) = Σ_j P_j(k)`, this party's
/// own included.
pub open spec fn share_point_exponent(state: Round2State, dp: Seq<DecommitPointsMsg>, k: int) -> nat {
    add_mod(received_point_sum(dp, k), dlog(state.base.curve_points@[k]@))
}

/// The exponents of `P(0), ..., P(t-1)`.
pub open spec fn share_point_exponents(state: Round2State, dp: Seq<DecommitPointsMsg>) -> Seq<nat> {
    Seq::new(state.base.t as nat, |k: int| share_point_exponent(state, dp, k))
}

/// `Σ_j p_j(i)` over the received subshares.
pub open spec fn received_subshare_sum(ds: Seq<DecommitSubshareMsg>) -> nat
    decreases ds.len(),
{
    if ds.len() == 0 {
        0
    } else {
        add_mod(received_subshare_sum(ds.drop_last()), ds.last().subshare@)
    }
}

/// This party's share `p(i) = Σ_j p_j(i)`, its own subshare included.
pub open spec fn share_value(state: Round2State, ds: Seq<DecommitSubshareMsg>) -> nat {
    add_mod(received_subshare_sum(ds), state.base.subshares@[state.base.i - 1]@)
}

/// The index set `S = {1, ..., t-1} ∪ {i}`.
pub open spec fn index_set(t: nat, i: nat) -> Seq<nat> {
    Seq::new((t - 1) as nat, |k: int| (k + 1) as nat).push(i)
}

/// The labels `S = {1, ..., t-1} ∪ {i}` are distinct values below the group
/// order, the last one being `i`.
pub proof fn lemma_index_set(t: nat, i: nat)
    requires
        2 <= t <= i < group_order(),
    ensures
        distinct_nodes(index_set(t, i)),
        index_set(t, i).drop_last() =~= Seq::new((t - 1) as nat, |k: int| (k + 1) as nat),
        index_set(t, i).last() == i,
        index_set(t, i).len() == t,
{
    let s = index_set(t, i);
    assert forall|j: int| 0 <= j < s.len() implies #[trigger] s[j] < group_order() by {
        assert(s[j] <= i);
    }
}

/// The Lagrange coefficient `λ_k` over `S` at zero.
pub open spec fn lambda(t: nat, i: nat, k: nat) -> nat {
    lagrange_value(index_set(t, i), k, 0)
}

/// `λ_1·x_1 + ... + λ_m·x_m`.
pub open spec fn weighted_sum(xs: Seq<nat>, t: nat, i: nat, m: nat) -> nat
    decreases m,
{
    if m <= 1 {
        mul_mod(lambda(t, i, 1), xs[1])
    } else {
        add_mod(weighted_sum(xs, t, i, (m - 1) as nat), mul_mod(lambda(t, i, m), xs[m as int]))
    }
}

/// The exponent that the share curve point must have: `x_i` when `i <= t-1`,
/// otherwise `λ_i^{-1}·(x_0 - (λ_1·x_1 + ... + λ_{t-1}·x_{t-1}))`.
pub open spec fn expected_exponent(xs: Seq<nat>, t: nat, i: nat) -> nat {
    if i <= t - 1 {
        xs[i as int]
    } else {
        mul_mod(inv_mod(lambda(t, i, i)), sub_mod(xs[0], weighted_sum(xs, t, i, (t - 1) as nat)))
    }
}

/// The share matches the share curve points.
pub open spec fn share_check(
    state: Round2State,
    dp: Seq<DecommitPointsMsg>,
    ds: Seq<DecommitSubshareMsg>,
) -> bool {
    share_value(state, ds) == expected_exponent(
        share_point_exponents(state, dp),
        state.base.t as nat,
        state.base.i as nat,
    )
}

/// All of a party's round-3 checks pass.
pub open spec fn checks_pass(
    state: Round2State,
    echo: Seq<EchoDigestMsg>,
    dp: Seq<DecommitPointsMsg>,
    ds: Seq<DecommitSubshareMsg>,
) -> bool {
    openings_valid(state, echo, dp, ds) && share_check(state, dp, ds)
}

/// `λ_i` has no inverse, so the expected share curve point cannot be built.
pub open spec fn lagrange_failure(state: Round2State) -> bool {
    state.base.i > state.base.t - 1 && lambda(state.base.t as nat, state.base.i as nat, state.base.i as nat) == 0
}

/// The position of the first `false` in `oks`, or its length if there is none.
pub open spec fn first_failure(oks: Seq<bool>) -> nat
    decreases oks.len(),
{
    if oks.len() == 0 || !oks[0] {
        0
    } else {
        1 + first_failure(oks.drop_first())
    }
}

/// `first_failure` is the position of the first `false`: every entry before
/// it is `true`.
pub proof fn lemma_first_failure(oks: Seq<bool>)
    ensures
        first_failure(oks) <= oks.len(),
        forall|l: int| 0 <= l < first_failure(oks) ==> #[trigger] oks[l],
        first_failure(oks) < oks.len() ==> !oks[first_failure(oks) as int],
    decreases oks.len(),
{
    if oks.len() > 0 && oks[0] {
        let rest = oks.drop_first();
        lemma_first_failure(rest);
        assert forall|l: int| 0 <= l < first_failure(oks) implies #[trigger] oks[l] by {
            if l > 0 {
                assert(oks[l] == rest[l - 1]);
            }
        }
    }
}

/// For each echoed digest, whether it equals this party's own.
pub open spec fn echo_oks(state: Round2State, echo: Seq<EchoDigestMsg>) -> Seq<bool> {
    Seq::new(echo.len(), |idx: int| echo[idx].digest@ == state.echo_digest@)
}

/// For each decommitted vector of curve points, whether it opens its commitment.
pub open spec fn points_oks(state: Round2State, dp: Seq<DecommitPointsMsg>) -> Seq<bool> {
    Seq::new(
        dp.len(),
        |idx: int|
            dp[idx].points@.len() == state.base.t && state.points_commitments@[idx]@
                == points_commitment(
                sender_label(state.base.i as nat, idx as nat) as u16,
                state.base.n,
                state.base.sid,
                points_view(dp[idx].points@),
                dp[idx].nonce@,
            ),
    )
}

/// For each decommitted subshare, whether it opens its commitment.
pub open spec fn subshare_oks(state: Round2State, ds: Seq<DecommitSubshareMsg>) -> Seq<bool> {
    Seq::new(
        ds.len(),
        |idx: int|
            state.subshare_commitments@[idx]@ == subshare_commitment(
                sender_label(state.base.i as nat, idx as nat) as u16,
                state.base.i,
                state.base.sid,
                ds[idx].subshare.encoding(),
                ds[idx].nonce@,
            ),
    )
}

/// The party that an abort names: the sender of the first echoed digest
/// that disagrees; else the sender of the first curve-point opening that
/// fails; else the sender of the first subshare opening that fails; else
/// none, as when only the share check fails.
pub open spec fn abort_party(
    state: Round2State,
    echo: Seq<EchoDigestMsg>,
    dp: Seq<DecommitPointsMsg>,
    ds: Seq<DecommitSubshareMsg>,
) -> Option<u16> {
    let i = state.base.i as nat;
    if !echo_agrees(state, echo) {
        Some(sender_label(i, first_failure(echo_oks(state, echo))) as u16)
    } else if !points_open(state, dp) {
        Some(sender_label(i, first_failure(points_oks(state, dp))) as u16)
    } else if !subshares_open(state, ds) {
        Some(sender_label(i, first_failure(subshare_oks(state, ds))) as u16)
    } else {
        None
    }
}

/// The position of the first echoed digest that differs from this party's
/// own, or the number of digests if none does.
fn check_echo(state: &Round2State, echo: &Vec<EchoDigestMsg>) -> (idx: usize)
    ensures
        idx <= echo@.len(),
        idx == first_failure(echo_oks(*state, echo@)),
        (idx == echo@.len()) == echo_agrees(*state, echo@),
{
    let ghost oks = echo_oks(*state, echo@);
    proof {
        lemma_first_failure(oks);
    }
    let mut idx: usize = 0;
    while idx < echo.len()
        invariant
            0 <= idx <= echo@.len(),
            oks == echo_oks(*state, echo@),
            first_failure(oks) <= oks.len(),
            forall|l: int| 0 <= l < first_failure(oks) ==> #[trigger] oks[l],
            first_failure(oks) < oks.len() ==> !oks[first_failure(oks) as int],
            forall|l: int| 0 <= l < idx ==> #[trigger] echo@[l].digest@ == state.echo_digest@,
        decreases echo@.len() - idx,
    {
        if !digest_eq(&echo[idx].digest, &state.echo_digest) {
            assert(!oks[idx as int]);
            assert(first_failure(oks) == idx) by {
                if first_failure(oks) < idx {
                    let f = first_failure(oks) as int;
                    assert(echo@[f].digest@ == state.echo_digest@);
                }
            }
            return idx;
        }
        idx = idx + 1;
    }
    assert(first_failure(oks) == idx) by {
        if first_failure(oks) < idx {
            let f = first_failure(oks) as int;
            assert(echo@[f].digest@ == state.echo_digest@);
        }
    }
    idx
}

/// The position of the first decommitment of curve points that does not
/// open its commitment, or the number of decommitments if all do.
fn check_points_openings(state: &Round2State, dp: &Vec<DecommitPointsMsg>) -> (idx: usize)
    requires
        state.wf(),
        dp@.len() + 1 == state.base.n,
    ensures
        idx <= dp@.len(),
        idx == first_failure(points_oks(*state, dp@)),
        (idx == dp@.len()) == points_open(*state, dp@),
{
    let ghost oks = points_oks(*state, dp@);
    proof {
        lemma_first_failure(oks);
    }
    let mut idx: usize = 0;
    while idx < dp.len()
        invariant
            state.wf(),
            dp@.len() + 1 == state.base.n,
            0 <= idx <= dp@.len(),
            oks == points_oks(*state, dp@),
            first_failure(oks) <= oks.len(),
            forall|l: int| 0 <= l < first_failure(oks) ==> #[trigger] oks[l],
            first_failure(oks) < oks.len() ==> !oks[first_failure(oks) as int],
            forall|l: int|
                0 <= l < idx ==> (#[trigger] dp@[l]).points@.len() == state.base.t
                    && state.points_commitments@[l]@ == points_commitment(
                    sender_label(state.base.i as nat, l as nat) as u16,
                    state.base.n,
                    state.base.sid,
                    points_view(dp@[l].points@),
                    dp@[l].nonce@,
                ),
        decreases dp@.len() - idx,
    {
        let j = label_at(state.base.i, state.base.n, idx);
        let m = &dp[idx];
        if m.points.len() != state.base.t as usize || !verify_points(
            j,
            state.base.n,
            state.base.sid,
            &m.points,
            &m.nonce,
            &state.points_commitments[idx],
        ) {
            assert(!oks[idx as int]);
            assert(first_failure(oks) == idx) by {
                if first_failure(oks) < idx {
                    let f = first_failure(oks) as int;
                    assert(oks[f]);
                    assert(dp@[f] == dp@[f]);
                }
            }
            return idx;
        }
        idx = idx + 1;
    }
    assert(first_failure(oks) == idx) by {
        if first_failure(oks) < idx {
            let f = first_failure(oks) as int;
            assert(dp@[f] == dp@[f]);
        }
    }
    idx
}

/// The position of the first decommitted subshare that does not open its
/// commitment, or the number of decommitments if all do.
fn check_subshare_openings(state: &Round2State, ds: &Vec<DecommitSubshareMsg>) -> (idx: usize)
    requires
        state.wf(),
        ds@.len() + 1 == state.base.n,
    ensures
        idx <= ds@.len(),
        idx == first_failure(subshare_oks(*state, ds@)),
        (idx == ds@.len()) == subshares_open(*state, ds@),
{
    let ghost oks = subshare_oks(*state, ds@);
    proof {
        lemma_first_failure(oks);
    }
    let mut idx: usize = 0;
    while idx < ds.len()
        invariant
            state.wf(),
            ds@.len() + 1 == state.base.n,
            0 <= idx <= ds@.len(),
            oks == subshare_oks(*state, ds@),
            first_failure(oks) <= oks.len(),
            forall|l: int| 0 <= l < first_failure(oks) ==> #[trigger] oks[l],
            first_failure(oks) < oks.len() ==> !oks[first_failure(oks) as int],
            forall|l: int|
                0 <= l < idx ==> state.subshare_commitments@[l]@ == subshare_commitment(
                    sender_label(state.base.i as nat, l as nat) as u16,
                    state.base.i,
                    state.base.sid,
                    (#[trigger] ds@[l]).subshare.encoding(),
                    ds@[l].nonce@,
                ),
        decreases ds@.len() - idx,
    {
        let j = label_at(state.base.i, state.base.n, idx);
        let m = &ds[idx];
        if !verify_subshare(
            j,
            state.base.i,
            state.base.sid,
            &m.subshare,
            &m.nonce,
            &state.subshare_commitments[idx],
        ) {
            assert(!oks[idx as int]);
            assert(first_failure(oks) == idx) by {
                if first_failure(oks) < idx {
                    let f = first_failure(oks) as int;
                    assert(oks[f]);
                    assert(ds@[f] == ds@[f]);
                }
            }
            return idx;
        }
        idx = idx + 1;
    }
    assert(first_failure(oks) == idx) by {
        if first_failure(oks) < idx {
            let f = first_failure(oks) as int;
            assert(ds@[f] == ds@[f]);
        }
    }
    idx
}

/// Whether the echo agreement and all openings of round 2 hold.
pub fn check_openings(
    state: &Round2State,
    echo: &Vec<EchoDigestMsg>,
    dp: &Vec<DecommitPointsMsg>,
    ds: &Vec<DecommitSubshareMsg>,
) -> (ok: bool)
    requires
        state.wf(),
        dp@.len() + 1 == state.base.n,
        ds@.len() + 1 == state.base.n,
    ensures
        ok == openings_valid(*state, echo@, dp@, ds@),
{
    check_echo(state, echo) == echo.len() && check_points_openings(state, dp) == dp.len()
        && check_subshare_openings(state, ds) == ds.len()
}

/// The share curve points `P(0), ..., P(t-1)`.
fn sum_share_points(state: &Round2State, dp: &Vec<DecommitPointsMsg>) -> (r: Vec<Point>)
    requires
        state.wf(),
        forall|idx: int| 0 <= idx < dp@.len() ==> (#[trigger] dp@[idx]).points@.len() >= state.base.t,
    ensures
        r@.len() == state.base.t,
        forall|k: int|
            0 <= k < state.base.t ==> is_multiple(
                #[trigger] r@[k]@,
                share_point_exponent(*state, dp@, k),
            ),
{
    let mut r: Vec<Point> = Vec::new();
    let mut k: usize = 0;
    while k < state.base.t as usize
        invariant
            state.wf(),
            forall|idx: int| 0 <= idx < dp@.len() ==> (#[trigger] dp@[idx]).points@.len() >= state.base.t,
            0 <= k <= state.base.t,
            r@.len() == k,
            forall|l: int|
                0 <= l < k ==> is_multiple(#[trigger] r@[l]@, share_point_exponent(*state, dp@, l)),
        decreases state.base.t - k,
    {
        let mut acc = Point::zero();
        let mut idx: usize = 0;
        assert(dp@.take(0) =~= Seq::<DecommitPointsMsg>::empty());
        while idx < dp.len()
            invariant
                0 <= k < state.base.t,
                forall|j: int| 0 <= j < dp@.len() ==> (#[trigger] dp@[j]).points@.len() >= state.base.t,
                0 <= idx <= dp@.len(),
                is_multiple(acc@, received_point_sum(dp@.take(idx as int), k as int)),
            decreases dp@.len() - idx,
        {
            let p = &dp[idx].points[k];
            proof {
                use_type_invariant(p);
                assert(is_multiple(p@, dlog(p@)));
                assert(dp@.take(idx + 1).drop_last() =~= dp@.take(idx as int));
                assert(dp@.take(idx + 1).last() == dp@[idx as int]);
            }
            acc = acc.add(p);
            idx = idx + 1;
        }
        assert(dp@.take(idx as int) =~= dp@);
        let own = &state.base.curve_points[k];
        proof {
            use_type_invariant(own);
            assert(is_multiple(own@, dlog(own@)));
        }
        let point = acc.add(own);
        r.push(point);
        k = k + 1;
    }
    r
}

/// The share `p(i)`: the received subshares plus this party's own.
fn sum_shares(state: &Round2State, ds: &Vec<DecommitSubshareMsg>) -> (s: Scalar)
    requires
        state.wf(),
    ensures
        s@ == share_value(*state, ds@),
{
    let mut acc = Scalar::zero();
    let mut idx: usize = 0;
    assert(ds@.take(0) =~= Seq::<DecommitSubshareMsg>::empty());
    while idx < ds.len()
        invariant
            0 <= idx <= ds@.len(),
            acc@ == received_subshare_sum(ds@.take(idx as int)),
        decreases ds@.len() - idx,
    {
        assert(ds@.take(idx + 1).drop_last() =~= ds@.take(idx as int));
        acc = acc.add(&ds[idx].subshare);
        idx = idx + 1;
    }
    assert(ds@.take(idx as int) =~= ds@);
    acc.add(&state.base.subshares[(state.base.i - 1) as usize])
}

/// The expected share curve point built from the share curve points by
/// Lagrange interpolation at zero over `S = {1, ..., t-1} ∪ {i}`:
/// `λ_i^{-1}·(P(0) - (λ_1·P(1) + ... + λ_{t-1}·P(t-1)))`.
fn interpolate_expected(
    i: u16,
    t: u16,
    share_points: &Vec<Point>,
    Ghost(xs): Ghost<Seq<nat>>,
) -> (r: Result<Point, InternalErr>)
    requires
        2 <= t <= i,
        share_points@.len() == t,
        xs.len() == t,
        forall|k: int| 0 <= k < t ==> is_multiple(#[trigger] share_points@[k]@, xs[k]),
    ensures
        r is Err <==> lambda(t as nat, i as nat, i as nat) == 0,
        r matches Err(e) ==> e is ArithmeticError,
        r matches Ok(p) ==> is_multiple(p@, expected_exponent(xs, t as nat, i as nat)),
        r is Ok ==> pairwise_invertible(index_set(t as nat, i as nat)) && invertible(
            lambda(t as nat, i as nat, i as nat),
        ),
{
    let ghost s = index_set(t as nat, i as nat);
    proof {
        lemma_index_set(t as nat, i as nat);
    }
    let mut indices: Vec<Scalar> = Vec::new();
    let mut k: u16 = 1;
    while k < t
        invariant
            1 <= k <= t,
            scalars_view(indices@) =~= Seq::new((k - 1) as nat, |l: int| (l + 1) as nat),
        decreases t - k,
    {
        let ghost before = indices@;
        indices.push(Scalar::from_u16(k));
        assert(scalars_view(indices@) =~= scalars_view(before).push(k as nat));
        k = k + 1;
    }
    let ghost before = indices@;
    indices.push(Scalar::from_u16(i));
    assert(scalars_view(indices@) =~= scalars_view(before).push(i as nat));
    assert(scalars_view(indices@) =~= s);
    let l_i = lo(indices.as_slice(), i)?;
    let l_i_inv = match l_i.invert() {
        Some(v) => v,
        None => {
            return Err(InternalErr::ArithmeticError("l_i invert".to_owned()));
        },
    };
    proof {
        l_i.lemma_value();
        l_i_inv.lemma_value();
        lemma_inv_mod(l_i@, l_i_inv@);
        assert(l_i_inv@ < group_order() && mul_mod(l_i@, l_i_inv@) == 1);
    }
    let l_1 = lo(indices.as_slice(), 1)?;
    assert(is_multiple(share_points@[1]@, xs[1]));
    let mut acc = share_points[1].mul(&l_1);
    assert(is_multiple(acc@, weighted_sum(xs, t as nat, i as nat, 1)));
    let mut k: u16 = 2;
    while k <= t - 1
        invariant
            2 <= k <= t,
            2 <= t <= i,
            s == index_set(t as nat, i as nat),
            scalars_view(indices@) == s,
            share_points@.len() == t,
            xs.len() == t,
            forall|j: int| 0 <= j < t ==> is_multiple(#[trigger] share_points@[j]@, xs[j]),
            is_multiple(acc@, weighted_sum(xs, t as nat, i as nat, (k - 1) as nat)),
            differences_invertible(s, i as nat),
            forall|l: nat| 1 <= l < k ==> #[trigger] differences_invertible(s, l),
        decreases t - k,
    {
        let l_k = lo(indices.as_slice(), k)?;
        assert(is_multiple(share_points@[k as int]@, xs[k as int]));
        let term = share_points[k as usize].mul(&l_k);
        assert(is_multiple(term@, mul_mod(lambda(t as nat, i as nat, k as nat), xs[k as int])));
        acc = acc.add(&term);
        assert(is_multiple(acc@, weighted_sum(xs, t as nat, i as nat, k as nat)));
        k = k + 1;
    }
    proof {
        assert forall|j: int| 0 <= j < s.len() implies differences_invertible(
            s,
            #[trigger] s[j],
        ) by {
            if j < t - 1 {
                assert(s[j] == j + 1);
            }
        }
        lemma_pairwise_from_rows(s);
    }
    assert(is_multiple(share_points@[0]@, xs[0]));
    let diff = share_points[0].sub(&acc);
    Ok(diff.mul(&l_i_inv))
}

/// Round 3: checks the echo digests and the openings received in round 2,
/// sums the share curve points and the share, and checks the share against
/// the share curve points. Returns the verify message to broadcast and the
/// party's own verdict.
pub fn round3<RecvErr, SendErr>(
    state: &Round2State,
    echo: &Vec<EchoDigestMsg>,
    dp: &Vec<DecommitPointsMsg>,
    ds: &Vec<DecommitSubshareMsg>,
) -> (r: Result<(VerifyMsg, Verification), Error<RecvErr, SendErr, InternalErr>>)
    requires
        state.wf(),
        echo@.len() + 1 == state.base.n,
        dp@.len() + 1 == state.base.n,
        ds@.len() + 1 == state.base.n,
    ensures
        r is Err <==> openings_valid(*state, echo@, dp@, ds@) && lagrange_failure(*state),
        r matches Err(e) ==> e is InternalError,
        r matches Ok((m, v)) ==> {
            &&& m.sid == state.base.sid
            &&& m.ok == checks_pass(*state, echo@, dp@, ds@)
            &&& (v is Success <==> checks_pass(*state, echo@, dp@, ds@))
            &&& (v matches Verification::Abort { party } ==> party == abort_party(
                *state,
                echo@,
                dp@,
                ds@,
            ))
            &&& (v matches Verification::Success(kp) ==> {
                &&& kp.sid == state.base.sid
                &&& is_multiple(kp.share_point_0@, share_point_exponent(*state, dp@, 0))
                &&& kp.share_i@ == share_value(*state, ds@)
            })
        },
        r matches Ok((m, v)) ==> forall|idx: int|
            0 <= idx < echo@.len() && echo@[idx].digest@ != state.echo_digest@ ==> !m.ok
                && v is Abort,
        r matches Ok((m, v)) ==> forall|idx: int|
            0 <= idx < dp@.len() && (dp@[idx].points@.len() != state.base.t
                || state.points_commitments@[idx]@ != points_commitment(
                sender_label(state.base.i as nat, idx as nat) as u16,
                state.base.n,
                state.base.sid,
                points_view(dp@[idx].points@),
                dp@[idx].nonce@,
            )) ==> !m.ok && v is Abort,
        r matches Ok((m, v)) ==> forall|idx: int|
            0 <= idx < ds@.len() && state.subshare_commitments@[idx]@ != subshare_commitment(
                sender_label(state.base.i as nat, idx as nat) as u16,
                state.base.i,
                state.base.sid,
                ds@[idx].subshare.encoding(),
                ds@[idx].nonce@,
            ) ==> !m.ok && v is Abort,
        r matches Ok((m, v)) ==> forall|polys: Seq<Seq<nat>>|
            #[trigger] honest_run(*state, dp@, ds@, polys) && openings_valid(
                *state,
                echo@,
                dp@,
                ds@,
            ) ==> m.ok && v is Success,
{
    proof {
        assert forall|idx: int|
            0 <= idx < echo@.len() && echo@[idx].digest@ != state.echo_digest@ implies !checks_pass(
            *state,
            echo@,
            dp@,
            ds@,
        ) by {
            lemma_echo_mismatch_aborts(*state, echo@, dp@, ds@, idx);
        }
        assert forall|idx: int|
            0 <= idx < dp@.len() && (dp@[idx].points@.len() != state.base.t
                || state.points_commitments@[idx]@ != points_commitment(
                sender_label(state.base.i as nat, idx as nat) as u16,
                state.base.n,
                state.base.sid,
                points_view(dp@[idx].points@),
                dp@[idx].nonce@,
            )) implies !checks_pass(*state, echo@, dp@, ds@) by {
            lemma_points_opening_failure_aborts(*state, echo@, dp@, ds@, idx);
        }
        assert forall|idx: int|
            0 <= idx < ds@.len() && state.subshare_commitments@[idx]@ != subshare_commitment(
                sender_label(state.base.i as nat, idx as nat) as u16,
                state.base.i,
                state.base.sid,
                ds@[idx].subshare.encoding(),
                ds@[idx].nonce@,
            ) implies !checks_pass(*state, echo@, dp@, ds@) by {
            lemma_subshare_opening_failure_aborts(*state, echo@, dp@, ds@, idx);
        }
    }
    let sid = state.base.sid;
    let i = state.base.i;
    let n = state.base.n;
    let e = check_echo(state, echo);
    if e < echo.len() {
        let party = label_at(i, n, e);
        return Ok((VerifyMsg { sid, ok: false }, Verification::Abort { party: Some(party) }));
    }
    let p = check_points_openings(state, dp);
    if p < dp.len() {
        let party = label_at(i, n, p);
        return Ok((VerifyMsg { sid, ok: false }, Verification::Abort { party: Some(party) }));
    }
    let q = check_subshare_openings(state, ds);
    if q < ds.len() {
        let party = label_at(i, n, q);
        return Ok((VerifyMsg { sid, ok: false }, Verification::Abort { party: Some(party) }));
    }
    let share_points = sum_share_points(state, dp);
    let share = sum_shares(state, ds);
    let share_curve_point = Point::generator_mul(&share);
    let t = state.base.t;
    let ghost xs = share_point_exponents(*state, dp@);
    let expected = if i <= t - 1 {
        share_points[i as usize]
    } else {
        match interpolate_expected(i, t, &share_points, Ghost(xs)) {
            Ok(p) => p,
            Err(e) => {
                return Err(Error::from(e));
            },
        }
    };
    assert(is_multiple(expected@, expected_exponent(xs, t as nat, i as nat)));
    assert(i > t - 1 ==> pairwise_invertible(index_set(t as nat, i as nat)) && invertible(
        lambda(t as nat, i as nat, i as nat),
    ));
    assert forall|polys: Seq<Seq<nat>>| #[trigger]
        honest_run(*state, dp@, ds@, polys) implies share_check(*state, dp@, ds@) by {
        lemma_honest_share_check(*state, dp@, ds@, polys);
    }
    if !share_curve_point.equals(&expected) {
        Ok((VerifyMsg { sid, ok: false }, Verification::Abort { party: None }))
    } else {
        Ok(
            (
                VerifyMsg { sid, ok: true },
                Verification::Success(
                    KeyPair { sid, share_point_0: share_points[0], share_i: share },
                ),
            ),
        )
    }
}

/// Every verify message received reports success.
pub open spec fn all_ok(received: Seq<VerifyMsg>) -> bool {
    forall|j: int| 0 <= j < received.len() ==> (#[trigger] received[j]).ok
}

/// For each verify message received, whether it reports success.
pub open spec fn verify_oks(received: Seq<VerifyMsg>) -> Seq<bool> {
    Seq::new(received.len(), |idx: int| received[idx].ok)
}

/// Output of party `i`: the key pair if its own checks passed and every
/// other party reported success. Otherwise the session aborts: when this
/// party's own checks failed, naming the party they blamed (if any); when
/// they passed, naming the first party, in party order, whose verify message
/// reported a failure.
pub fn output<RecvErr, SendErr>(
    i: u16,
    sid: u64,
    verification: Verification,
    received: &Vec<VerifyMsg>,
) -> (r: Result<KeyPair, Error<RecvErr, SendErr, InternalErr>>)
    requires
        1 <= i <= received@.len() + 1,
        received@.len() < u16::MAX,
    ensures
        r is Ok <==> all_ok(received@) && verification is Success,
        r matches Ok(kp) ==> verification == Verification::Success(kp),
        verification matches Verification::Abort { party } ==> r == Err::<
            KeyPair,
            Error<RecvErr, SendErr, InternalErr>,
        >(Error::Abort { sid, party }),
        verification is Success && !all_ok(received@) ==> r == Err::<
            KeyPair,
            Error<RecvErr, SendErr, InternalErr>,
        >(
            Error::Abort {
                sid,
                party: Some(sender_label(i as nat, first_failure(verify_oks(received@))) as u16),
            },
        ),
{
    let ghost oks = verify_oks(received@);
    proof {
        lemma_first_failure(oks);
    }
    let n = (received.len() + 1) as u16;
    let mut idx: usize = 0;
    while idx < received.len()
        invariant
            1 <= i <= n,
            n == received@.len() + 1,
            0 <= idx <= received@.len(),
            oks == verify_oks(received@),
            first_failure(oks) <= oks.len(),
            forall|l: int| 0 <= l < first_failure(oks) ==> #[trigger] oks[l],
            first_failure(oks) < oks.len() ==> !oks[first_failure(oks) as int],
            forall|j: int| 0 <= j < idx ==> (#[trigger] received@[j]).ok,
        decreases received@.len() - idx,
    {
        if !received[idx].ok {
            assert(!oks[idx as int]);
            assert(first_failure(oks) == idx) by {
                if first_failure(oks) < idx {
                    let f = first_failure(oks) as int;
                    assert(received@[f].ok);
                }
            }
            let reporter = label_at(i, n, idx);
            return match verification {
                Verification::Abort { party } => Err(Error::Abort { sid, party }),
                Verification::Success(_) => Err(Error::Abort { sid, party: Some(reporter) }),
            };
        }
        idx = idx + 1;
    }
    match verification {
        Verification::Abort { party } => Err(Error::Abort { sid, party }),
        Verification::Success(keypair) => Ok(keypair),
    }
}

} // verus!
