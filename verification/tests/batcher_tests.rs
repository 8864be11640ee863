use indexer::batcher::{
    associate_embeddings, chunk_texts, lookup_embedding, unique_texts, EmbeddedText,
    EmbeddingBatcher, DEFAULT_MAX_BATCH,
};

fn texts(ts: &[&str]) -> Vec<String> {
    ts.iter().map(|s| s.to_string()).collect()
}

#[test]
fn unique_texts_keeps_first_occurrences() {
    let out = unique_texts(&texts(&["a", "b", "a", "c", "b"]));
    assert_eq!(out, texts(&["a", "b", "c"]));
}

#[test]
fn unique_texts_empty() {
    assert!(unique_texts(&Vec::new()).is_empty());
}

#[test]
fn chunk_texts_splits_at_bound() {
    let chunks = chunk_texts(&texts(&["a", "b", "c", "d", "e"]), 2);
    assert_eq!(chunks.len(), 3);
    assert_eq!(chunks[0], texts(&["a", "b"]));
    assert_eq!(chunks[1], texts(&["c", "d"]));
    assert_eq!(chunks[2], texts(&["e"]));
}

#[test]
fn chunk_texts_single_batch_under_bound() {
    let chunks = chunk_texts(&texts(&["a", "b"]), DEFAULT_MAX_BATCH);
    assert_eq!(chunks.len(), 1);
    assert_eq!(chunks[0], texts(&["a", "b"]));
    assert!(chunk_texts(&Vec::new(), DEFAULT_MAX_BATCH).is_empty());
}

#[test]
fn associate_embeddings_pairs_by_position() {
    let keys = texts(&["a", "b"]);
    let out = associate_embeddings(&keys, vec![vec![1u8], vec![2u8]]);
    assert_eq!(out.len(), 2);
    assert_eq!(out[0].text, "a");
    assert_eq!(out[0].vector, vec![1u8]);
    assert_eq!(out[1].text, "b");
    assert_eq!(out[1].vector, vec![2u8]);
}

#[test]
fn embed_one_coalesces() {
    // Two requests for the same text before either resolves: only the
    // first issues an underlying call, and both read the same vector
    // from the resolved results.
    let mut batcher = EmbeddingBatcher::new();
    let first = batcher.request(&"x".to_string());
    let second = batcher.request(&"x".to_string());
    assert!(first);
    assert!(!second);

    let results = vec![EmbeddedText { text: "x".to_string(), vector: vec![7u8, 8u8] }];
    let got1 = lookup_embedding(&results, &"x".to_string()).cloned();
    let got2 = lookup_embedding(&results, &"x".to_string()).cloned();
    assert_eq!(got1, got2);
    assert_eq!(got1.unwrap(), vec![7u8, 8u8]);
}

#[test]
fn distinct_texts_issue_separate_calls() {
    let mut batcher = EmbeddingBatcher::new();
    assert!(batcher.request(&"x".to_string()));
    assert!(batcher.request(&"y".to_string()));
}

#[test]
fn finished_request_issues_again() {
    let mut batcher = EmbeddingBatcher::new();
    assert!(batcher.request(&"x".to_string()));
    assert!(batcher.finish(&"x".to_string()));
    assert!(batcher.request(&"x".to_string()));
    assert!(!batcher.finish(&"missing".to_string()));
}

#[test]
fn lookup_takes_first_match() {
    let results = vec![
        EmbeddedText { text: "t".to_string(), vector: vec![1u8] },
        EmbeddedText { text: "t".to_string(), vector: vec![2u8] },
        EmbeddedText { text: "u".to_string(), vector: vec![3u8] },
    ];
    assert_eq!(lookup_embedding(&results, &"t".to_string()).unwrap(), &vec![1u8]);
    assert_eq!(lookup_embedding(&results, &"u".to_string()).unwrap(), &vec![3u8]);
    assert!(lookup_embedding(&results, &"v".to_string()).is_none());
}
