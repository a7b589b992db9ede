use dewey::chunker::{batch_chunks, TOKEN_LIMIT};
use dewey::embedding::EmbeddingSource;

#[test]
fn bulk_call_test() {
    let src = EmbeddingSource { filepath: "/x".to_string(), meta: vec![], subset: None };
    let batches = batch_chunks(vec![(src, "text".to_string(), 4)]);
    assert_eq!(batches.len(), 1);
    assert!(batches[0][0].2 <= TOKEN_LIMIT);
}
