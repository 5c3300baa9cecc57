//! Hash commitments over the unambiguous encoding, and the echo digest.
//!
//! A commitment to a value `m` by committer `S` for receivers `R` in session
//! `sid` with nonce `u` is `H(Encode(S, R, sid, m, u))`, with `H` SHA-256 and
//! integers written as 8 little-endian bytes. For the broadcast curve points
//! `R` is every other party, encoded as the list of their labels; for a
//! subshare it is the one receiver's label.
use vstd::prelude::*;

use crate::encoding::{
    append_bytes, lemma_encode_injective, lemma_le_bytes_len, encodable, encode, encode_fields, fields_view, le64, le64_bytes, pow256,
};
use crate::point::Point;
use crate::scalar::Scalar;

verus! {

/// The SHA-256 digest of a byte string.
pub uninterp spec fn sha256(data: Seq<u8>) -> Seq<u8>;

/// Two distinct byte strings with the same SHA-256 digest.
pub open spec fn is_sha256_collision(x: Seq<u8>, y: Seq<u8>) -> bool {
    x != y && sha256(x) == sha256(y)
}

/// Calls `sha2::Sha256::digest`. Claimed: the 32 bytes are the named SHA-256
/// digest of the input.
#[verifier::external_body]
pub(crate) fn sha256_digest(data: &[u8]) -> (digest: [u8; 32])
    ensures
        digest@ == sha256(data@),
{
    let out = <sha2::Sha256 as sha2::Digest>::digest(data);
    let mut digest = [0u8; 32];
    digest.copy_from_slice(&out);
    digest
}

/// The encodings of a list of points.
pub open spec fn points_view(points: Seq<Point>) -> Seq<Seq<u8>> {
    points.map_values(|p: Point| p@)
}

/// The receivers of a broadcast by `committer` among parties `1..n`: every
/// other party, in party order, each label as 8 little-endian bytes.
pub open spec fn receiver_set(committer: u16, n: u16) -> Seq<Seq<u8>> {
    Seq::new(
        (n - 1) as nat,
        |idx: int|
            le64(
                (if idx + 1 < committer {
                    idx + 1
                } else {
                    idx + 2
                }) as nat,
            ),
    )
}

/// The fields committed to for the curve points:
/// `(S, Encode(R), sid, Encode(P_0..), u)`, with `R` all parties but `S`.
pub open spec fn points_opening(
    committer: u16,
    n: u16,
    sid: u64,
    points: Seq<Seq<u8>>,
    nonce: Seq<u8>,
) -> Seq<Seq<u8>> {
    seq![
        le64(committer as nat),
        encode(receiver_set(committer, n)),
        le64(sid as nat),
        encode(points),
        nonce,
    ]
}

/// The commitment to a vector of curve points.
pub open spec fn points_commitment(
    committer: u16,
    n: u16,
    sid: u64,
    points: Seq<Seq<u8>>,
    nonce: Seq<u8>,
) -> Seq<u8> {
    sha256(encode(points_opening(committer, n, sid, points, nonce)))
}

/// The fields committed to for a subshare: `(S, R, sid, m, u)`.
pub open spec fn subshare_opening(
    committer: u16,
    receiver: u16,
    sid: u64,
    subshare: Seq<u8>,
    nonce: Seq<u8>,
) -> Seq<Seq<u8>> {
    seq![le64(committer as nat), le64(receiver as nat), le64(sid as nat), subshare, nonce]
}

/// The commitment to a subshare sent to one receiver.
pub open spec fn subshare_commitment(
    committer: u16,
    receiver: u16,
    sid: u64,
    subshare: Seq<u8>,
    nonce: Seq<u8>,
) -> Seq<u8> {
    sha256(encode(subshare_opening(committer, receiver, sid, subshare, nonce)))
}

/// The echo digest of all parties' commitments: `H(Encode(sid, V_1, .., V_n))`.
pub open spec fn echo_digest(sid: u64, commitments: Seq<Seq<u8>>) -> Seq<u8> {
    sha256(encode(seq![le64(sid as nat)] + commitments))
}

/// The byte strings of a list of 32-byte arrays.
pub open spec fn digests_view(digests: Seq<[u8; 32]>) -> Seq<Seq<u8>> {
    digests.map_values(|d: [u8; 32]| d@)
}

/// A vector holding the bytes of a slice.
fn bytes_to_vec(src: &[u8]) -> (v: Vec<u8>)
    ensures
        v@ == src@,
{
    let mut v: Vec<u8> = Vec::new();
    append_bytes(&mut v, src);
    v
}

/// Whether two 32-byte digests are equal.
pub fn digest_eq(a: &[u8; 32], b: &[u8; 32]) -> (r: bool)
    ensures
        r == (a@ == b@),
{
    let mut i: usize = 0;
    while i < 32
        invariant
            0 <= i <= 32,
            forall|j: int| 0 <= j < i ==> a@[j] == b@[j],
        decreases 32 - i,
    {
        if a[i] != b[i] {
            return false;
        }
        i = i + 1;
    }
    assert(a@ =~= b@);
    true
}

/// The encoding of a list of points.
fn encode_points(points: &Vec<Point>) -> (bytes: Vec<u8>)
    ensures
        bytes@ == encode(points_view(points@)),
{
    let mut fields: Vec<Vec<u8>> = Vec::new();
    let mut i: usize = 0;
    while i < points.len()
        invariant
            0 <= i <= points@.len(),
            fields_view(fields@) =~= points_view(points@.subrange(0, i as int)),
        decreases points@.len() - i,
    {
        let bytes = points[i].to_bytes();
        let v = bytes_to_vec(bytes.as_slice());
        let ghost before = fields@;
        fields.push(v);
        assert(fields@ == before.push(v));
        assert(fields_view(fields@) =~= fields_view(before).push(points@[i as int]@));
        assert(points@.subrange(0, i + 1) =~= points@.subrange(0, i as int).push(points@[i as int]));
        i = i + 1;
    }
    assert(points@.subrange(0, i as int) =~= points@);
    encode_fields(&fields)
}

/// The encoding of the receivers of a broadcast by `committer`.
fn encode_receivers(committer: u16, n: u16) -> (bytes: Vec<u8>)
    requires
        1 <= n,
    ensures
        bytes@ == encode(receiver_set(committer, n)),
{
    let ghost rs = receiver_set(committer, n);
    let mut fields: Vec<Vec<u8>> = Vec::new();
    let mut idx: u16 = 0;
    while idx + 1 < n
        invariant
            1 <= n,
            0 <= idx < n,
            rs == receiver_set(committer, n),
            fields_view(fields@) =~= rs.take(idx as int),
        decreases n - idx,
    {
        let j: u64 = if (idx as u64) + 1 < committer as u64 {
            idx as u64 + 1
        } else {
            idx as u64 + 2
        };
        let ghost before = fields@;
        fields.push(le64_bytes(j));
        assert(fields_view(fields@) =~= fields_view(before).push(rs[idx as int]));
        assert(rs.take(idx + 1) =~= rs.take(idx as int).push(rs[idx as int]));
        idx = idx + 1;
    }
    assert(rs.take(idx as int) =~= rs);
    encode_fields(&fields)
}

/// Commits to a vector of curve points broadcast to all parties `1..n` but
/// the committer.
pub fn commit_points(
    committer: u16,
    n: u16,
    sid: u64,
    points: &Vec<Point>,
    nonce: &[u8; 32],
) -> (c: [u8; 32])
    requires
        1 <= n,
    ensures
        c@ == points_commitment(committer, n, sid, points_view(points@), nonce@),
{
    let mut fields: Vec<Vec<u8>> = Vec::new();
    fields.push(le64_bytes(committer as u64));
    fields.push(encode_receivers(committer, n));
    fields.push(le64_bytes(sid));
    fields.push(encode_points(points));
    fields.push(bytes_to_vec(nonce.as_slice()));
    assert(fields_view(fields@) =~= points_opening(
        committer,
        n,
        sid,
        points_view(points@),
        nonce@,
    ));
    let bytes = encode_fields(&fields);
    sha256_digest(bytes.as_slice())
}

/// Whether a commitment opens to the given curve points and nonce.
pub fn verify_points(
    committer: u16,
    n: u16,
    sid: u64,
    points: &Vec<Point>,
    nonce: &[u8; 32],
    commitment: &[u8; 32],
) -> (ok: bool)
    requires
        1 <= n,
    ensures
        ok == (commitment@ == points_commitment(committer, n, sid, points_view(points@), nonce@)),
{
    let expected = commit_points(committer, n, sid, points, nonce);
    digest_eq(commitment, &expected)
}

/// Commits to a subshare for one receiver.
pub fn commit_subshare(
    committer: u16,
    receiver: u16,
    sid: u64,
    subshare: &Scalar,
    nonce: &[u8; 32],
) -> (c: [u8; 32])
    ensures
        c@ == subshare_commitment(committer, receiver, sid, subshare.encoding(), nonce@),
{
    let m = subshare.to_be_bytes();
    let mut fields: Vec<Vec<u8>> = Vec::new();
    fields.push(le64_bytes(committer as u64));
    fields.push(le64_bytes(receiver as u64));
    fields.push(le64_bytes(sid));
    fields.push(bytes_to_vec(m.as_slice()));
    fields.push(bytes_to_vec(nonce.as_slice()));
    assert(fields_view(fields@) =~= subshare_opening(
        committer,
        receiver,
        sid,
        subshare.encoding(),
        nonce@,
    ));
    let bytes = encode_fields(&fields);
    sha256_digest(bytes.as_slice())
}

/// Whether a commitment opens to the given subshare and nonce.
pub fn verify_subshare(
    committer: u16,
    receiver: u16,
    sid: u64,
    subshare: &Scalar,
    nonce: &[u8; 32],
    commitment: &[u8; 32],
) -> (ok: bool)
    ensures
        ok == (commitment@ == subshare_commitment(
            committer,
            receiver,
            sid,
            subshare.encoding(),
            nonce@,
        )),
{
    let expected = commit_subshare(committer, receiver, sid, subshare, nonce);
    digest_eq(commitment, &expected)
}

/// The echo digest of the commitments of all parties, in party order.
pub fn compute_echo_digest(sid: u64, commitments: &Vec<[u8; 32]>) -> (d: [u8; 32])
    ensures
        d@ == echo_digest(sid, digests_view(commitments@)),
{
    let mut fields: Vec<Vec<u8>> = Vec::new();
    fields.push(le64_bytes(sid));
    let mut i: usize = 0;
    while i < commitments.len()
        invariant
            0 <= i <= commitments@.len(),
            fields_view(fields@) =~= seq![le64(sid as nat)] + digests_view(
                commitments@.subrange(0, i as int),
            ),
        decreases commitments@.len() - i,
    {
        let v = bytes_to_vec(commitments[i].as_slice());
        let ghost before = fields@;
        fields.push(v);
        assert(fields_view(fields@) =~= fields_view(before).push(commitments@[i as int]@));
        assert(commitments@.subrange(0, i + 1) =~= commitments@.subrange(0, i as int).push(
            commitments@[i as int],
        ));
        assert(digests_view(commitments@.subrange(0, i + 1)) =~= digests_view(
            commitments@.subrange(0, i as int),
        ).push(commitments@[i as int]@));
        i = i + 1;
    }
    assert(commitments@.subrange(0, i as int) =~= commitments@);
    let bytes = encode_fields(&fields);
    sha256_digest(bytes.as_slice())
}

/// `2^64` exceeds the small lengths of integers, digests and nonces.
proof fn lemma_pow256_8()
    ensures
        pow256(8) == 0x1_0000_0000_0000_0000,
{
    reveal_with_fuel(pow256, 9);
}

/// The encoding of a list of 8-byte fields takes 16 bytes per field.
proof fn lemma_encode_len_8(fields: Seq<Seq<u8>>)
    requires
        forall|k: int| 0 <= k < fields.len() ==> #[trigger] fields[k].len() == 8,
    ensures
        encode(fields).len() == 16 * fields.len(),
    decreases fields.len(),
{
    if fields.len() > 0 {
        lemma_le_bytes_len(fields[0].len(), 8);
        let rest = fields.drop_first();
        assert forall|k: int| 0 <= k < rest.len() implies #[trigger] rest[k].len() == 8 by {
            assert(rest[k] == fields[k + 1]);
        }
        lemma_encode_len_8(rest);
    }
}

/// The encoded receiver set is far shorter than `2^64` bytes.
proof fn lemma_receiver_set_len(committer: u16, n: u16)
    requires
        1 <= n,
    ensures
        encode(receiver_set(committer, n)).len() < pow256(8),
{
    let rs = receiver_set(committer, n);
    assert forall|k: int| 0 <= k < rs.len() implies #[trigger] rs[k].len() == 8 by {
        lemma_le_bytes_len(if k + 1 < committer { (k + 1) as nat } else { (k + 2) as nat }, 8);
    }
    lemma_encode_len_8(rs);
    lemma_pow256_8();
}

/// Binding of the curve-point commitment: if one commitment opens to two
/// different (points, nonce) pairs, SHA-256 has a collision on their encodings.
pub proof fn lemma_points_commitment_binding(
    committer: u16,
    n: u16,
    sid: u64,
    points1: Seq<Seq<u8>>,
    nonce1: Seq<u8>,
    points2: Seq<Seq<u8>>,
    nonce2: Seq<u8>,
)
    requires
        1 <= n,
        encodable(points1),
        encodable(points2),
        encode(points1).len() < pow256(8),
        encode(points2).len() < pow256(8),
        nonce1.len() < pow256(8),
        nonce2.len() < pow256(8),
        points_commitment(committer, n, sid, points1, nonce1) == points_commitment(
            committer,
            n,
            sid,
            points2,
            nonce2,
        ),
        points1 != points2 || nonce1 != nonce2,
    ensures
        is_sha256_collision(
            encode(points_opening(committer, n, sid, points1, nonce1)),
            encode(points_opening(committer, n, sid, points2, nonce2)),
        ),
{
    let o1 = points_opening(committer, n, sid, points1, nonce1);
    let o2 = points_opening(committer, n, sid, points2, nonce2);
    if encode(o1) == encode(o2) {
        lemma_pow256_8();
        lemma_le_bytes_len(committer as nat, 8);
        lemma_le_bytes_len(sid as nat, 8);
        lemma_receiver_set_len(committer, n);
        assert(encodable(o1));
        assert(encodable(o2));
        lemma_encode_injective(o1, o2);
        assert(o1[3] == o2[3] && o1[4] == o2[4]);
        lemma_encode_injective(points1, points2);
    }
}

/// Binding of the subshare commitment: if one commitment opens to two
/// different (subshare, nonce) pairs, SHA-256 has a collision on their encodings.
pub proof fn lemma_subshare_commitment_binding(
    committer: u16,
    receiver: u16,
    sid: u64,
    subshare1: Seq<u8>,
    nonce1: Seq<u8>,
    subshare2: Seq<u8>,
    nonce2: Seq<u8>,
)
    requires
        subshare1.len() < pow256(8),
        subshare2.len() < pow256(8),
        nonce1.len() < pow256(8),
        nonce2.len() < pow256(8),
        subshare_commitment(committer, receiver, sid, subshare1, nonce1) == subshare_commitment(
            committer,
            receiver,
            sid,
            subshare2,
            nonce2,
        ),
        subshare1 != subshare2 || nonce1 != nonce2,
    ensures
        is_sha256_collision(
            encode(subshare_opening(committer, receiver, sid, subshare1, nonce1)),
            encode(subshare_opening(committer, receiver, sid, subshare2, nonce2)),
        ),
{
    let o1 = subshare_opening(committer, receiver, sid, subshare1, nonce1);
    let o2 = subshare_opening(committer, receiver, sid, subshare2, nonce2);
    if encode(o1) == encode(o2) {
        lemma_pow256_8();
        lemma_le_bytes_len(committer as nat, 8);
        lemma_le_bytes_len(receiver as nat, 8);
        lemma_le_bytes_len(sid as nat, 8);
        assert(encodable(o1));
        assert(encodable(o2));
        lemma_encode_injective(o1, o2);
        assert(o1[3] == o2[3] && o1[4] == o2[4]);
    }
}

/// Binding of the echo digest: two different lists of commitments with the
/// same echo digest exhibit a SHA-256 collision.
pub proof fn lemma_echo_digest_binding(
    sid: u64,
    commitments1: Seq<Seq<u8>>,
    commitments2: Seq<Seq<u8>>,
)
    requires
        encodable(commitments1),
        encodable(commitments2),
        echo_digest(sid, commitments1) == echo_digest(sid, commitments2),
        commitments1 != commitments2,
    ensures
        is_sha256_collision(
            encode(seq![le64(sid as nat)] + commitments1),
            encode(seq![le64(sid as nat)] + commitments2),
        ),
{
    let f1 = seq![le64(sid as nat)] + commitments1;
    let f2 = seq![le64(sid as nat)] + commitments2;
    if encode(f1) == encode(f2) {
        lemma_pow256_8();
        lemma_le_bytes_len(sid as nat, 8);
        assert forall|i: int| 0 <= i < f1.len() implies #[trigger] f1[i].len() < pow256(8) by {
            if i > 0 {
                assert(f1[i] == commitments1[i - 1]);
            }
        }
        assert forall|i: int| 0 <= i < f2.len() implies #[trigger] f2[i].len() < pow256(8) by {
            if i > 0 {
                assert(f2[i] == commitments2[i - 1]);
            }
        }
        lemma_encode_injective(f1, f2);
        assert(commitments1 =~= f1.drop_first());
        assert(commitments2 =~= f2.drop_first());
    }
}

} // verus!
