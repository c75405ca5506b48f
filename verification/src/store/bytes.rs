//! Embeddings as bytes: each 32-bit pattern little-endian, one after the other.

use vstd::prelude::*;

verus! {

/// The four bytes of a 32-bit pattern, least significant first.
pub open spec fn le_bytes(x: u32) -> Seq<u8> {
    seq![
        (x % 256) as u8,
        (x / 256 % 256) as u8,
        (x / 65536 % 256) as u8,
        (x / 16777216) as u8,
    ]
}

/// The bytes of an embedding.
pub open spec fn embedding_bytes(v: Seq<u32>) -> Seq<u8>
    decreases v.len(),
{
    if v.len() == 0 {
        Seq::empty()
    } else {
        embedding_bytes(v.drop_last()) + le_bytes(v.last())
    }
}

/// The pattern that four bytes hold, least significant first.
pub open spec fn le_value(a: u8, b: u8, c: u8, d: u8) -> u32 {
    (a + 256 * b + 65536 * c + 16777216 * d) as u32
}

/// The embedding that a sequence of bytes holds; up to three left-over bytes are ignored.
pub open spec fn bytes_embedding(b: Seq<u8>) -> Seq<u32> {
    Seq::new(
        (b.len() / 4) as nat,
        |i: int| le_value(b[4 * i], b[4 * i + 1], b[4 * i + 2], b[4 * i + 3]),
    )
}

pub fn vec_to_bytes(v: &Vec<u32>) -> (r: Vec<u8>)
    ensures
        r@ == embedding_bytes(v@),
{
    let mut out: Vec<u8> = Vec::new();
    assert(v@.take(0) =~= Seq::<u32>::empty());
    for i in 0..v.len()
        invariant
            out@ == embedding_bytes(v@.take(i as int)),
    {
        let ghost before = out@;
        let x: u32 = v[i];
        assert(v@.take(i + 1).drop_last() =~= v@.take(i as int));
        out.push((x % 256) as u8);
        out.push((x / 256 % 256) as u8);
        out.push((x / 65536 % 256) as u8);
        out.push((x / 16777216) as u8);
        assert(out@ =~= before + le_bytes(x));
    }
    assert(v@.take(v@.len() as int) =~= v@);
    out
}

pub fn bytes_to_vec(b: &Vec<u8>) -> (r: Vec<u32>)
    ensures
        r@ == bytes_embedding(b@),
{
    let n: usize = b.len() / 4;
    let mut out: Vec<u32> = Vec::new();
    for i in 0..n
        invariant
            n == b@.len() / 4,
            out@.len() == i,
            forall|j: int|
                0 <= j < i ==> #[trigger] out@[j] == le_value(
                    b@[4 * j],
                    b@[4 * j + 1],
                    b@[4 * j + 2],
                    b@[4 * j + 3],
                ),
    {
        let total: usize = b.len();
        assert(4 * i + 3 < total);
        let p: u32 = b[4 * i] as u32;
        let q: u32 = b[4 * i + 1] as u32;
        let r: u32 = b[4 * i + 2] as u32;
        let s: u32 = b[4 * i + 3] as u32;
        out.push(p + 256 * q + 65536 * r + 16777216 * s);
    }
    assert(out@ =~= bytes_embedding(b@));
    out
}

proof fn lemma_embedding_bytes(v: Seq<u32>)
    ensures
        embedding_bytes(v).len() == 4 * v.len(),
        forall|i: int|
            0 <= i < v.len() ==> {
                &&& embedding_bytes(v)[4 * i] == le_bytes(#[trigger] v[i])[0]
                &&& embedding_bytes(v)[4 * i + 1] == le_bytes(v[i])[1]
                &&& embedding_bytes(v)[4 * i + 2] == le_bytes(v[i])[2]
                &&& embedding_bytes(v)[4 * i + 3] == le_bytes(v[i])[3]
            },
    decreases v.len(),
{
    if v.len() > 0 {
        let t = v.drop_last();
        lemma_embedding_bytes(t);
        assert forall|i: int| 0 <= i < v.len() implies {
            &&& embedding_bytes(v)[4 * i] == le_bytes(#[trigger] v[i])[0]
            &&& embedding_bytes(v)[4 * i + 1] == le_bytes(v[i])[1]
            &&& embedding_bytes(v)[4 * i + 2] == le_bytes(v[i])[2]
            &&& embedding_bytes(v)[4 * i + 3] == le_bytes(v[i])[3]
        } by {
            if i < t.len() {
                assert(t[i] == v[i]);
            }
        }
    }
}

/// The four bytes of a pattern hold that pattern.
#[verifier::spinoff_prover]
proof fn lemma_le_round_trip(x: u32)
    ensures
        le_value(le_bytes(x)[0], le_bytes(x)[1], le_bytes(x)[2], le_bytes(x)[3]) == x,
{
    let a = x % 256;
    let b = x / 256 % 256;
    let c = x / 65536 % 256;
    let d = x / 16777216;
    assert(d < 256);
    assert(x / 256 == 256 * (x / 65536) + b);
    assert(x / 65536 == 256 * d + c);
    assert(x == 256 * (x / 256) + a);
}

/// Law: an embedding that is written as bytes and read back is the same embedding.
pub proof fn law_embedding_bytes_round_trip(v: Seq<u32>)
    ensures
        bytes_embedding(embedding_bytes(v)) == v,
{
    lemma_embedding_bytes(v);
    let b = embedding_bytes(v);
    assert forall|i: int| 0 <= i < v.len() implies #[trigger] bytes_embedding(b)[i] == v[i] by {
        lemma_le_round_trip(v[i]);
    }
    assert(bytes_embedding(b) =~= v);
}

/// Law: each number of an embedding stands in four bytes, the least significant first.
pub proof fn law_little_endian(v: Seq<u32>, i: int)
    requires
        0 <= i < v.len(),
    ensures
        embedding_bytes(v).len() == 4 * v.len(),
        embedding_bytes(v)[4 * i] + 0x100 * embedding_bytes(v)[4 * i + 1] + 0x1_0000 * embedding_bytes(v)[4 * i + 2]
            + 0x100_0000 * embedding_bytes(v)[4 * i + 3] == v[i],
    decreases v.len(),
{
    let head = v.drop_last();
    let before = embedding_bytes(head);
    let all = embedding_bytes(v);
    if head.len() > 0 {
        law_little_endian(head, if i < head.len() {
            i
        } else {
            0
        });
    } else {
        assert(before =~= Seq::empty());
    }
    assert(all == before + le_bytes(v.last()));
    if i < head.len() {
        assert(head[i] == v[i]);
        assert(all[4 * i] == before[4 * i] && all[4 * i + 1] == before[4 * i + 1]);
        assert(all[4 * i + 2] == before[4 * i + 2] && all[4 * i + 3] == before[4 * i + 3]);
    } else {
        let x = v[i];
        let b = le_bytes(x);
        assert(all[4 * i] == b[0] && all[4 * i + 1] == b[1] && all[4 * i + 2] == b[2] && all[4 * i + 3] == b[3]);
        assert(x % 256 + 256 * (x / 256 % 256) + 65536 * (x / 65536 % 256) + 16777216 * (x / 16777216) == x);
    }
}

} // verus!
