//! Embedders: what turns a text into a vector of 32-bit floats, here as their bit patterns.

use crate::json::{json_quote, json_quoted, quote_each, quoted_each};
use crate::model::Error;
use crate::text::{cat2, decimal, decimal_of, join, join_texts, lowercase, texts, words_of, words_text};
use vstd::prelude::*;
use vstd::utf8::encode_utf8;

verus! {

/// Embeds text into a vector of a fixed dimension. The signature names the model, so that
/// vectors of different models are told apart.
pub trait Embedder {
    /// The embedding of a text.
    fn embed(&self, text: &str) -> Result<Vec<u32>, Error>;

    /// The embeddings of several texts, in order; an error if any of them fails.
    fn embed_batch(&self, batch: &Vec<String>) -> Result<Vec<Vec<u32>>, Error>;

    /// The name of the model and its dimension.
    fn signature(&self) -> String;

    /// The dimension of the vectors.
    fn dim(&self) -> usize;
}

/// Whether embedding a text may have this outcome.
pub open spec fn embed_gives<E: Embedder>(embedder: &E, text: &str, r: Result<Vec<u32>, Error>) -> bool {
    call_ensures(E::embed, (embedder, text), r)
}

/// Whether an embedder may name itself so.
pub open spec fn signature_gives<E: Embedder>(embedder: &E, r: String) -> bool {
    call_ensures(E::signature, (embedder,), r)
}

// ---------------------------------------------------------------------------------------------
// The hashing embedder.
// ---------------------------------------------------------------------------------------------

/// The 64-bit FNV-1a hash of a sequence of bytes.
pub open spec fn fnv_hash(b: Seq<u8>) -> u64
    decreases b.len(),
{
    if b.len() == 0 {
        0xcbf29ce484222325
    } else {
        (((fnv_hash(b.drop_last()) ^ (b.last() as u64)) * 0x100000001b3)
            % 0x1_0000_0000_0000_0000) as u64
    }
}

/// The 64-bit FNV-1a hash of a text's UTF-8 bytes.
pub fn fnv1a(s: &str) -> (r: u64)
    ensures
        r == fnv_hash(encode_utf8(s@)),
{
    let b = s.as_bytes();
    let mut h: u64 = 0xcbf29ce484222325;
    assert(b@.take(0) =~= Seq::<u8>::empty());
    for i in 0..b.len()
        invariant
            h == fnv_hash(b@.take(i as int)),
    {
        assert(b@.take(i + 1).drop_last() =~= b@.take(i as int));
        let x: u64 = h ^ (b[i] as u64);
        h = (((x as u128) * 0x100000001b3) % 0x1_0000_0000_0000_0000) as u64;
    }
    assert(b@.take(b@.len() as int) =~= b@);
    h
}

/// The bucket of a word among `dim` buckets.
pub open spec fn bucket(word: Seq<char>, dim: int) -> int {
    fnv_hash(encode_utf8(word)) as int % dim
}

/// How many of the words fall into bucket `k`.
pub open spec fn bucket_count(words: Seq<Seq<char>>, dim: int, k: int) -> nat
    decreases words.len(),
{
    if words.len() == 0 {
        0
    } else {
        bucket_count(words.drop_last(), dim, k) + if bucket(words.last(), dim) == k {
            1nat
        } else {
            0nat
        }
    }
}

/// The bit pattern of a number from 1 to 2^24 - 1, given as `m` times 2 to the `e - 150`: `m` is
/// doubled until its leading bit stands in the place that the float leaves out.
pub open spec fn normal_bits(m: int, e: int) -> int
    decreases 0x100_0000 - m,
{
    if m <= 0 {
        0
    } else if m >= 0x80_0000 {
        e * 0x80_0000 + (m - 0x80_0000)
    } else {
        normal_bits(2 * m, e - 1)
    }
}

/// The bit pattern of the 32-bit float that counting to `n` by ones gives: from 2^24 on, adding
/// one changes nothing.
pub open spec fn count_bits(n: nat) -> u32 {
    if n >= 0x100_0000 {
        (151 * 0x80_0000) as u32
    } else {
        normal_bits(n as int, 150) as u32
    }
}

spec fn reaches(p: int, k: nat) -> bool
    decreases k,
{
    if k == 0 {
        p >= 0x80_0000
    } else {
        reaches(2 * p, (k - 1) as nat)
    }
}

proof fn lemma_normal_bits(m: int, e: int, p: int, k: nat)
    requires
        1 <= p <= m < 0x100_0000,
        reaches(p, k),
    ensures
        (e - k) * 0x80_0000 <= normal_bits(m, e) < (e + 1) * 0x80_0000,
    decreases k,
{
    if m < 0x80_0000 {
        lemma_normal_bits(2 * m, e - 1, 2 * p, (k - 1) as nat);
    }
}

fn bits_of_count(n: u64) -> (r: u32)
    ensures
        r == count_bits(n as nat),
{
    if n >= 0x100_0000 {
        return 1266679808;
    }
    if n == 0 {
        return 0;
    }
    let mut m: i64 = n as i64;
    let mut e: i64 = 150;
    proof {
        reveal_with_fuel(reaches, 24);
        lemma_normal_bits(m as int, 150, 1, 23);
    }
    while m < 0x80_0000
        invariant
            1 <= m < 0x100_0000,
            e <= 150,
            e >= 150 - m,
            normal_bits(m as int, e as int) == normal_bits(n as int, 150),
        decreases 0x100_0000 - m,
    {
        m = 2 * m;
        e = e - 1;
    }
    (e * 0x80_0000 + (m - 0x80_0000)) as u32
}

/// Deterministic embedder without a network: the words of the lower-cased text, hashed into
/// buckets and counted. Texts that share words share buckets.
pub struct HashEmbedder {
    pub dim: usize,
}

/// The embedding that hashing gives.
pub open spec fn hash_embedding(text: Seq<char>, dim: int) -> Seq<u32> {
    Seq::new(
        dim as nat,
        |k: int| count_bits(bucket_count(words_text(lowercase(text)), dim, k)),
    )
}

impl HashEmbedder {
    pub fn new(dim: usize) -> (r: HashEmbedder)
        ensures
            r.dim == dim,
    {
        HashEmbedder { dim }
    }

    /// How many words of the lower-cased text fall into each bucket.
    fn counts(&self, text: &str) -> (r: Vec<u64>)
        requires
            self.dim > 0,
        ensures
            r@.len() == self.dim,
            forall|k: int|
                0 <= k < self.dim ==> #[trigger] r@[k] == bucket_count(
                    words_text(lowercase(text@)),
                    self.dim as int,
                    k,
                ),
    {
        let lower = text.to_lowercase();
        let words = words_of(lower.as_str());
        let ghost ws = texts(words@);
        let mut out: Vec<u64> = Vec::new();
        for k in 0..self.dim
            invariant
                out@.len() == k,
                forall|j: int| 0 <= j < k ==> #[trigger] out@[j] == 0,
        {
            out.push(0);
        }
        assert(ws.take(0) =~= Seq::<Seq<char>>::empty());
        for i in 0..words.len()
            invariant
                self.dim > 0,
                ws == texts(words@),
                out@.len() == self.dim,
                forall|k: int|
                    0 <= k < self.dim ==> #[trigger] out@[k] == bucket_count(
                        ws.take(i as int),
                        self.dim as int,
                        k,
                    ),
                forall|k: int| 0 <= k < self.dim ==> #[trigger] out@[k] <= i,
        {
            let b: usize = (fnv1a(words[i].as_str()) % (self.dim as u64)) as usize;
            assert(ws.take(i + 1).drop_last() =~= ws.take(i as int));
            assert(ws.take(i + 1).last() == words@[i as int]@);
            assert(b == bucket(words@[i as int]@, self.dim as int));
            let n: u64 = out[b];
            out.set(b, n + 1);
        }
        assert(ws.take(ws.len() as int) =~= ws);
        out
    }
}

impl Embedder for HashEmbedder {
    fn embed(&self, text: &str) -> (r: Result<Vec<u32>, Error>)
        ensures
            r is Ok,
            r->Ok_0@ == hash_embedding(text@, self.dim as int),
    {
        let mut out: Vec<u32> = Vec::new();
        if self.dim > 0 {
            let counts = self.counts(text);
            for k in 0..self.dim
                invariant
                    counts@.len() == self.dim,
                    forall|j: int|
                        0 <= j < self.dim ==> #[trigger] counts@[j] == bucket_count(
                            words_text(lowercase(text@)),
                            self.dim as int,
                            j,
                        ),
                    out@.len() == k,
                    forall|j: int|
                        0 <= j < k ==> #[trigger] out@[j] == hash_embedding(
                            text@,
                            self.dim as int,
                        )[j],
            {
                out.push(bits_of_count(counts[k]));
            }
        }
        assert(out@ =~= hash_embedding(text@, self.dim as int));
        Ok(out)
    }

    fn embed_batch(&self, batch: &Vec<String>) -> (r: Result<Vec<Vec<u32>>, Error>)
        ensures
            r is Ok,
            r->Ok_0@.len() == batch@.len(),
            forall|i: int|
                0 <= i < batch@.len() ==> (#[trigger] r->Ok_0@[i])@ == hash_embedding(
                    batch@[i]@,
                    self.dim as int,
                ),
    {
        let mut out: Vec<Vec<u32>> = Vec::new();
        for i in 0..batch.len()
            invariant
                out@.len() == i,
                forall|j: int|
                    0 <= j < i ==> (#[trigger] out@[j])@ == hash_embedding(
                        batch@[j]@,
                        self.dim as int,
                    ),
        {
            match self.embed(batch[i].as_str()) {
                Ok(v) => out.push(v),
                Err(e) => {
                    return Err(e);
                },
            }
        }
        Ok(out)
    }

    fn signature(&self) -> (r: String)
        ensures
            r@ == "hash:"@ + decimal(self.dim as nat),
    {
        cat2("hash:", decimal_of(self.dim as u64).as_str())
    }

    fn dim(&self) -> (r: usize)
        ensures
            r == self.dim,
    {
        self.dim
    }
}

// ---------------------------------------------------------------------------------------------
// The embedder with a fallback.
// ---------------------------------------------------------------------------------------------

/// An embedder that turns to a second one where the first fails. Both serve the same model, so
/// it has the signature and the dimension of the first: a failover orphans no chunk.
pub struct FallbackEmbedder<P: Embedder, S: Embedder> {
    pub primary: P,
    pub secondary: S,
}

impl<P: Embedder, S: Embedder> FallbackEmbedder<P, S> {
    pub fn new(primary: P, secondary: S) -> (r: Self)
        ensures
            r.primary == primary,
            r.secondary == secondary,
    {
        FallbackEmbedder { primary, secondary }
    }
}

impl<P: Embedder, S: Embedder> Embedder for FallbackEmbedder<P, S> {
    fn embed(&self, text: &str) -> (r: Result<Vec<u32>, Error>)
        ensures
            (r is Ok && call_ensures(P::embed, (&self.primary, text), r)) || (exists|e: Error|
                call_ensures(
                    P::embed,
                    (&self.primary, text),
                    Err::<Vec<u32>, Error>(e),
                )) && call_ensures(S::embed, (&self.secondary, text), r),
    {
        match self.primary.embed(text) {
            Ok(v) => Ok(v),
            Err(e) => self.secondary.embed(text),
        }
    }

    fn embed_batch(&self, batch: &Vec<String>) -> (r: Result<Vec<Vec<u32>>, Error>)
        ensures
            (r is Ok && call_ensures(P::embed_batch, (&self.primary, batch), r)) || (exists|
                e: Error,
            |
                call_ensures(
                    P::embed_batch,
                    (&self.primary, batch),
                    Err::<Vec<Vec<u32>>, Error>(e),
                )) && call_ensures(S::embed_batch, (&self.secondary, batch), r),
    {
        match self.primary.embed_batch(batch) {
            Ok(v) => Ok(v),
            Err(e) => self.secondary.embed_batch(batch),
        }
    }

    fn signature(&self) -> (r: String)
        ensures
            call_ensures(P::signature, (&self.primary,), r),
    {
        self.primary.signature()
    }

    fn dim(&self) -> (r: usize)
        ensures
            call_ensures(P::dim, (&self.primary,), r),
    {
        self.primary.dim()
    }
}

// ---------------------------------------------------------------------------------------------
// Signatures of the embedders that a network service backs.
// ---------------------------------------------------------------------------------------------

/// The signature of a model served by Ollama.
pub fn ollama_signature(model: &str, dim: usize) -> (r: String)
    ensures
        r@ == "ollama:"@ + model@ + ":"@ + decimal(dim as nat),
{
    let mut s = cat2("ollama:", model);
    s.push_str(":");
    s.push_str(decimal_of(dim as u64).as_str());
    s
}

/// The signature of a model served by the gateway.
pub fn gateway_signature(model: &str, dim: usize) -> (r: String)
    ensures
        r@ == "gateway:"@ + model@ + ":"@ + decimal(dim as nat),
{
    let mut s = cat2("gateway:", model);
    s.push_str(":");
    s.push_str(decimal_of(dim as u64).as_str());
    s
}

// ---------------------------------------------------------------------------------------------
// What such a service is asked.
// ---------------------------------------------------------------------------------------------

/// The address at which Ollama embeds.
pub fn ollama_url(base_url: &str) -> (r: String)
    ensures
        r@ == base_url@ + "/api/embeddings"@,
{
    cat2(base_url, "/api/embeddings")
}

/// The body that asks Ollama for the embedding of a text, as JSON.
pub fn ollama_request(model: &str, text: &str) -> (r: String)
    ensures
        r@ == "{\"model\":"@ + json_quoted(model@) + ",\"prompt\":"@ + json_quoted(text@) + "}"@,
{
    let mut b = cat2("{\"model\":", json_quote(model).as_str());
    b.push_str(",\"prompt\":");
    b.push_str(json_quote(text).as_str());
    b.push_str("}");
    b
}

/// The address at which the gateway embeds.
pub fn gateway_url(base_url: &str) -> (r: String)
    ensures
        r@ == base_url@ + "/v1/embeddings"@,
{
    cat2(base_url, "/v1/embeddings")
}

/// The body that asks the gateway for the embedding of a text, as JSON.
pub fn gateway_request(model: &str, text: &str) -> (r: String)
    ensures
        r@ == "{\"model\":"@ + json_quoted(model@) + ",\"input\":"@ + json_quoted(text@) + "}"@,
{
    let mut b = cat2("{\"model\":", json_quote(model).as_str());
    b.push_str(",\"input\":");
    b.push_str(json_quote(text).as_str());
    b.push_str("}");
    b
}

/// The body that asks the gateway for the embeddings of several texts, as JSON.
pub fn gateway_batch_request(model: &str, input: &Vec<String>) -> (r: String)
    ensures
        r@ == "{\"model\":"@ + json_quoted(model@) + ",\"input\":["@ + join_texts(
            quoted_each(texts(input@)),
            ","@,
        ) + "]}"@,
{
    let quoted = quote_each(input);
    let mut b = cat2("{\"model\":", json_quote(model).as_str());
    b.push_str(",\"input\":[");
    b.push_str(join(&quoted, ",").as_str());
    b.push_str("]}");
    b
}

/// How many words fall into the first `dim` buckets together.
pub open spec fn counts_together(words: Seq<Seq<char>>, dim: int, n: int) -> nat
    decreases n,
{
    if n <= 0 {
        0
    } else {
        counts_together(words, dim, n - 1) + bucket_count(words, dim, n - 1)
    }
}

proof fn lemma_counts_push(words: Seq<Seq<char>>, w: Seq<char>, dim: int, n: int)
    requires
        0 < dim,
        0 <= n <= dim,
    ensures
        counts_together(words.push(w), dim, n) == counts_together(words, dim, n) + if bucket(w, dim) < n {
            1nat
        } else {
            0nat
        },
    decreases n,
{
    assert(0 <= bucket(w, dim) < dim) by (nonlinear_arith)
        requires
            dim > 0,
            bucket(w, dim) == fnv_hash(encode_utf8(w)) as int % dim,
    ;
    if n > 0 {
        lemma_counts_push(words, w, dim, n - 1);
        assert(words.push(w).drop_last() =~= words);
    }
}

/// Law: every word of a text counts once, in one bucket: the counts of all buckets together are as many as the
/// words, and a word more adds one to its own bucket alone.
pub proof fn law_every_word_counts(words: Seq<Seq<char>>, w: Seq<char>, dim: int, k: int)
    requires
        0 < dim,
        0 <= k < dim,
    ensures
        counts_together(words, dim, dim) == words.len(),
        bucket_count(words.push(w), dim, k) == bucket_count(words, dim, k) + if k == fnv_hash(
            encode_utf8(w),
        ) as int % dim {
            1nat
        } else {
            0nat
        },
    decreases words.len(),
{
    assert(words.push(w).drop_last() =~= words);
    if words.len() == 0 {
        lemma_no_counts(words, dim, dim);
    } else {
        let head = words.drop_last();
        let last = words.last();
        law_every_word_counts(head, last, dim, k);
        lemma_counts_push(head, last, dim, dim);
        assert(head.push(last) =~= words);
        assert(0 <= bucket(last, dim) < dim) by (nonlinear_arith)
            requires
                dim > 0,
                bucket(last, dim) == fnv_hash(encode_utf8(last)) as int % dim,
        ;
    }
}

proof fn lemma_no_counts(words: Seq<Seq<char>>, dim: int, n: int)
    requires
        words.len() == 0,
    ensures
        counts_together(words, dim, n) == 0,
    decreases n,
{
    if n > 0 {
        lemma_no_counts(words, dim, n - 1);
    }
}

/// Law: the hash embedding of a text has one number for each bucket and rests on its words alone: upper and
/// lower case give the same.
pub proof fn law_hash_embedding(text: Seq<char>, other: Seq<char>, dim: int)
    requires
        0 <= dim,
    ensures
        hash_embedding(text, dim).len() == dim,
        words_text(lowercase(text)) == words_text(lowercase(other)) ==> hash_embedding(text, dim)
            == hash_embedding(other, dim),
        forall|k: int|
            0 <= k < dim && bucket_count(words_text(lowercase(text)), dim, k) == 0 ==> #[trigger] hash_embedding(
                text,
                dim,
            )[k] == 0,
{
    if words_text(lowercase(text)) == words_text(lowercase(other)) {
        assert(hash_embedding(text, dim) =~= hash_embedding(other, dim));
    }
}

proof fn lemma_higher_exponent(m: int, e: int)
    requires
        m > 0,
    ensures
        normal_bits(m, e + 1) == normal_bits(m, e) + 0x80_0000,
    decreases 0x100_0000 - m,
{
    if m < 0x80_0000 {
        lemma_higher_exponent(2 * m, e - 1);
    } else {
        assert((e + 1) * 0x80_0000 == e * 0x80_0000 + 0x80_0000);
    }
}

/// Law: a count is written as the float of that number: twice the number has the next exponent, and a number of
/// twenty-four digits in base two stands in the fraction as it is.
pub proof fn law_count_exponent(n: int)
    requires
        0 < n,
    ensures
        normal_bits(2 * n, 150) == normal_bits(n, 150) + 0x80_0000 || n >= 0x80_0000,
        0x80_0000 <= n < 0x100_0000 ==> normal_bits(n, 150) == 150 * 0x80_0000 + (n - 0x80_0000),
        n < 0x100_0000 ==> count_bits(n as nat) == normal_bits(n, 150) as u32,
        count_bits(0) == 0,
{
    if n < 0x80_0000 {
        lemma_higher_exponent(2 * n, 149);
    }
}

} // verus!
