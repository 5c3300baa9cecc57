//! The unambiguous encoding of a list of byte strings:
//! `le64(|x_1|) || x_1 || ... || le64(|x_n|) || x_n`.
use vstd::prelude::*;

verus! {

/// `256^n`.
pub open spec fn pow256(n: nat) -> nat
    decreases n,
{
    if n == 0 {
        1
    } else {
        256 * pow256((n - 1) as nat)
    }
}

/// The `n` low bytes of `x` in little-endian order.
pub open spec fn le_bytes(x: nat, n: nat) -> Seq<u8>
    decreases n,
{
    if n == 0 {
        Seq::empty()
    } else {
        seq![(x % 256) as u8] + le_bytes(x / 256, (n - 1) as nat)
    }
}

/// The little-endian 8-byte string of a 64-bit unsigned integer.
pub open spec fn le64(x: nat) -> Seq<u8> {
    le_bytes(x, 8)
}

/// `le64(|x_1|) || x_1 || ... || le64(|x_n|) || x_n`.
pub open spec fn encode(fields: Seq<Seq<u8>>) -> Seq<u8>
    decreases fields.len(),
{
    if fields.len() == 0 {
        Seq::empty()
    } else {
        le64(fields[0].len()) + fields[0] + encode(fields.drop_first())
    }
}

/// Each field's length fits in 64 bits.
pub open spec fn encodable(fields: Seq<Seq<u8>>) -> bool {
    forall|i: int| 0 <= i < fields.len() ==> #[trigger] fields[i].len() < pow256(8)
}

/// The byte strings that a list of byte vectors holds.
pub open spec fn fields_view(fields: Seq<Vec<u8>>) -> Seq<Seq<u8>> {
    fields.map_values(|f: Vec<u8>| f@)
}

pub proof fn lemma_le_bytes_len(x: nat, n: nat)
    ensures
        le_bytes(x, n).len() == n,
    decreases n,
{
    if n > 0 {
        lemma_le_bytes_len(x / 256, (n - 1) as nat);
    }
}

/// Two numbers below `256^n` with the same `n` little-endian bytes are equal.
pub proof fn lemma_le_bytes_injective(a: nat, b: nat, n: nat)
    requires
        a < pow256(n),
        b < pow256(n),
        le_bytes(a, n) == le_bytes(b, n),
    ensures
        a == b,
    decreases n,
{
    if n > 0 {
        let m = (n - 1) as nat;
        assert(le_bytes(a, n)[0] == (a % 256) as u8);
        assert(le_bytes(b, n)[0] == (b % 256) as u8);
        assert(((a % 256) as u8) as nat == a % 256);
        assert(((b % 256) as u8) as nat == b % 256);
        assert(a % 256 == b % 256);
        lemma_le_bytes_len(a / 256, m);
        lemma_le_bytes_len(b / 256, m);
        assert(le_bytes(a / 256, m) =~= le_bytes(a, n).drop_first());
        assert(le_bytes(b / 256, m) =~= le_bytes(b, n).drop_first());
        assert(a / 256 < pow256(m)) by (nonlinear_arith)
            requires
                a < 256 * pow256(m),
        ;
        assert(b / 256 < pow256(m)) by (nonlinear_arith)
            requires
                b < 256 * pow256(m),
        ;
        lemma_le_bytes_injective(a / 256, b / 256, m);
    }
}

/// The encoding is injective: distinct lists of byte strings (each shorter
/// than `2^64` bytes) have distinct encodings.
pub proof fn lemma_encode_injective(xs: Seq<Seq<u8>>, ys: Seq<Seq<u8>>)
    requires
        encodable(xs),
        encodable(ys),
        encode(xs) == encode(ys),
    ensures
        xs == ys,
    decreases xs.len(),
{
    if xs.len() == 0 {
        if ys.len() != 0 {
            lemma_le_bytes_len(ys[0].len(), 8);
            assert(encode(ys).len() >= 8);
        }
        assert(xs =~= ys);
    } else {
        lemma_le_bytes_len(xs[0].len(), 8);
        if ys.len() == 0 {
            assert(encode(xs).len() >= 8);
        }
        lemma_le_bytes_len(ys[0].len(), 8);
        let ex = encode(xs);
        let ey = encode(ys);
        assert(ex.subrange(0, 8) =~= le64(xs[0].len()));
        assert(ey.subrange(0, 8) =~= le64(ys[0].len()));
        assert(xs[0].len() < pow256(8));
        assert(ys[0].len() < pow256(8));
        lemma_le_bytes_injective(xs[0].len(), ys[0].len(), 8);
        let l = xs[0].len() as int;
        assert(ex.subrange(8, 8 + l) =~= xs[0]);
        assert(ey.subrange(8, 8 + l) =~= ys[0]);
        assert(ex.subrange(8 + l, ex.len() as int) =~= encode(xs.drop_first()));
        assert(ey.subrange(8 + l, ey.len() as int) =~= encode(ys.drop_first()));
        assert(encodable(xs.drop_first())) by {
            assert forall|i: int| 0 <= i < xs.drop_first().len() implies #[trigger] xs.drop_first()[i].len() < pow256(8) by {
                assert(xs.drop_first()[i] == xs[i + 1]);
            }
        }
        assert(encodable(ys.drop_first())) by {
            assert forall|i: int| 0 <= i < ys.drop_first().len() implies #[trigger] ys.drop_first()[i].len() < pow256(8) by {
                assert(ys.drop_first()[i] == ys[i + 1]);
            }
        }
        lemma_encode_injective(xs.drop_first(), ys.drop_first());
        assert(xs =~= seq![xs[0]] + xs.drop_first());
        assert(ys =~= seq![ys[0]] + ys.drop_first());
    }
}

/// Appends the bytes of a slice to a vector.
pub fn append_bytes(out: &mut Vec<u8>, src: &[u8])
    ensures
        final(out)@ == old(out)@ + src@,
{
    let mut i: usize = 0;
    while i < src.len()
        invariant
            0 <= i <= src@.len(),
            out@ == old(out)@ + src@.subrange(0, i as int),
        decreases src@.len() - i,
    {
        out.push(src[i]);
        i = i + 1;
        assert(src@.subrange(0, i as int) =~= src@.subrange(0, i - 1) + seq![src@[i - 1]]);
    }
    assert(src@.subrange(0, src@.len() as int) =~= src@);
}

/// The little-endian 8-byte string of `x`.
pub fn le64_bytes(x: u64) -> (bytes: Vec<u8>)
    ensures
        bytes@ == le64(x as nat),
{
    let mut out: Vec<u8> = Vec::new();
    let mut cur: u64 = x;
    let mut i: usize = 0;
    while i < 8
        invariant
            0 <= i <= 8,
            out@ + le_bytes(cur as nat, (8 - i) as nat) == le64(x as nat),
        decreases 8 - i,
    {
        let ghost before = out@;
        assert(le_bytes(cur as nat, (8 - i) as nat) == seq![(cur % 256) as u8] + le_bytes(
            (cur / 256) as nat,
            (8 - i - 1) as nat,
        ));
        out.push((cur % 256) as u8);
        assert(before + le_bytes(cur as nat, (8 - i) as nat) =~= out@ + le_bytes(
            (cur / 256) as nat,
            (8 - i - 1) as nat,
        ));
        cur = cur / 256;
        i = i + 1;
    }
    assert(out@ =~= out@ + le_bytes(cur as nat, 0));
    out
}

/// `le64(|x_1|) || x_1 || ... || le64(|x_n|) || x_n`.
pub fn encode_fields(fields: &Vec<Vec<u8>>) -> (bytes: Vec<u8>)
    ensures
        bytes@ == encode(fields_view(fields@)),
{
    let ghost fs = fields_view(fields@);
    let mut out: Vec<u8> = Vec::new();
    let mut i: usize = 0;
    assert(fs.skip(0) =~= fs);
    assert(out@ + encode(fs.skip(0)) =~= encode(fs));
    while i < fields.len()
        invariant
            0 <= i <= fields@.len(),
            fs == fields_view(fields@),
            out@ + encode(fs.skip(i as int)) == encode(fs),
        decreases fields@.len() - i,
    {
        let ghost before = out@;
        let field = &fields[i];
        assert(fs[i as int] == field@);
        assert(fs.skip(i as int).drop_first() =~= fs.skip(i + 1));
        assert(encode(fs.skip(i as int)) == le64(field@.len()) + field@ + encode(
            fs.skip(i + 1),
        ));
        let len_bytes = le64_bytes(field.len() as u64);
        append_bytes(&mut out, len_bytes.as_slice());
        append_bytes(&mut out, field.as_slice());
        assert(before + encode(fs.skip(i as int)) =~= out@ + encode(fs.skip(i + 1)));
        i = i + 1;
    }
    assert(encode(fs.skip(i as int)) =~= Seq::<u8>::empty()) by {
        assert(fs.skip(i as int).len() == 0);
    }
    assert(out@ =~= out@ + encode(fs.skip(i as int)));
    out
}

} // verus!
