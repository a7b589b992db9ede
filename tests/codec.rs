use dewey::embedding::{Embedding, EmbeddingBlock, EmbeddingSource, EMBED_DIM};

fn source(path: &str, tags: &[&str], subset: Option<(u64, u64)>) -> EmbeddingSource {
    EmbeddingSource {
        filepath: path.to_string(),
        meta: tags.iter().map(|t| t.to_string()).collect(),
        subset,
    }
}

fn embedding(id: u64, path: &str) -> Embedding {
    let data: Vec<u32> = (0..EMBED_DIM).map(|i| ((i as f32) * 0.25 + id as f32).to_bits()).collect();
    Embedding { id, source_file: source(path, &["rust", "code"], Some((3, 9))), data }
}

#[test]
fn source_encoding_layout() {
    let s = source("ab", &["x"], None);
    let bytes = s.to_bytes();
    let expected: Vec<u8> = vec![
        0, 0, 0, 0, 0, 0, 0, 2, b'a', b'b', // filepath
        0, 0, 0, 0, 0, 0, 0, 1, // one tag
        0, 0, 0, 0, 0, 0, 0, 1, b'x', // the tag
        0, // no subset
    ];
    assert_eq!(bytes, expected);
}

#[test]
fn source_round_trip() {
    let s = source("/home/u/notes/a b.md", &["lang=rust", "tracked"], Some((10, 20)));
    let bytes = s.to_bytes();
    let (back, used) = EmbeddingSource::from_bytes(&bytes).unwrap();
    assert_eq!(used, bytes.len());
    assert_eq!(back.filepath, s.filepath);
    assert_eq!(back.meta, s.meta);
    assert_eq!(back.subset, s.subset);
}

#[test]
fn truncated_source_is_rejected() {
    let s = source("abc", &[], Some((1, 2)));
    let bytes = s.to_bytes();
    for cut in 0..bytes.len() {
        assert!(EmbeddingSource::from_bytes(&bytes[..cut]).is_err());
    }
}

#[test]
fn invalid_subset_tag_is_rejected() {
    let mut bytes = source("a", &[], None).to_bytes();
    let last = bytes.len() - 1;
    bytes[last] = 7;
    assert!(EmbeddingSource::from_bytes(&bytes).is_err());
}

#[test]
fn embedding_round_trip_keeps_float_bits() {
    let e = embedding(42, "/f.rs");
    let bytes = e.to_bytes();
    let (back, used) = Embedding::from_bytes(&bytes).unwrap();
    assert_eq!(used, bytes.len());
    assert_eq!(back.id, 42);
    assert_eq!(back.data, e.data);
    assert_eq!(f32::from_bits(back.data[4]), 1.0 + 42.0);
}

#[test]
fn block_round_trip() {
    let block = EmbeddingBlock { block: 7, embeddings: vec![embedding(0, "/a"), embedding(1, "/b")] };
    let bytes = block.to_bytes();
    let (back, used) = EmbeddingBlock::from_bytes(&bytes).unwrap();
    assert_eq!(used, bytes.len());
    assert_eq!(back.block, 7);
    assert_eq!(back.embeddings.len(), 2);
    assert_eq!(back.embeddings[1].source_file.filepath, "/b");
    assert_eq!(back.embeddings[0].data, block.embeddings[0].data);
    assert_eq!(back.to_bytes(), bytes);
}

#[test]
fn empty_block_round_trip() {
    let block = EmbeddingBlock { block: 0, embeddings: vec![] };
    let bytes = block.to_bytes();
    assert_eq!(bytes.len(), 16);
    let (back, _) = EmbeddingBlock::from_bytes(&bytes).unwrap();
    assert_eq!(back.embeddings.len(), 0);
}
