use engram::embed::{gateway_signature, Embedder, HashEmbedder};


fn dot(a: &[u32], b: &[u32]) -> f32 {
    a.iter().zip(b).map(|(x, y)| f32::from_bits(*x) * f32::from_bits(*y)).sum()
}

#[test]
fn deterministic_and_sized() {
    let e = HashEmbedder::new(64);
    let a = e.embed("hello world").unwrap();
    let b = e.embed("hello world").unwrap();
    assert_eq!(a, b);
    assert_eq!(a.len(), 64);
    assert_eq!(e.dim(), 64);
}

#[test]
fn shared_tokens_overlap() {
    let e = HashEmbedder::new(64);
    let q = e.embed("rust memory service").unwrap();
    let related = e.embed("a memory service in rust").unwrap();
    let unrelated = e.embed("bananas grow on trees").unwrap();
    assert!(dot(&q, &related) > dot(&q, &unrelated));
}

#[test]
fn gateway_embedder_signature_and_dim() {
    assert_eq!(gateway_signature("mxbai-embed-large", 1024), "gateway:mxbai-embed-large:1024");
}


